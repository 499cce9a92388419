//! Live capture sources: the counterpart of an input format that obtains a
//! [`Profile`] by sampling a running system instead of parsing bytes.
//!
//! The trait and its parameters are portable; concrete backends are selected
//! at runtime by name or by [`Source::available`]. Once a [`Source`] yields a
//! [`Profile`], every output format applies unchanged.

use vstd::prelude::*;

use crate::error::Result;
use crate::model::Profile;
use crate::text::same_text;

verus! {

/// What a [`Source`] should profile.
#[derive(Debug, Clone, PartialEq, Eq)]
#[non_exhaustive]
pub enum Target {
    /// Profile the calling process itself. Useful for self-instrumentation and
    /// as a dependency-free smoke test of a backend.
    Current,
    /// Profile an already-running process by its PID. The whole process (all of
    /// its threads) is the target, not a single thread.
    Pid(u32),
    /// Launch a program and profile it from the start. The first element is the
    /// executable, the rest its arguments. The backend owns the child's
    /// lifetime: it runs to completion (or until the sampling window elapses).
    Command(Vec<String>),
}

/// What a [`Target`] says.
pub enum TargetView {
    Current,
    Pid(u32),
    Command(Seq<Seq<char>>),
}

/// The texts of a list of strings.
pub open spec fn texts(strings: Seq<String>) -> Seq<Seq<char>> {
    Seq::new(strings.len(), |i: int| strings[i]@)
}

impl View for Target {
    type V = TargetView;

    open spec fn view(&self) -> TargetView {
        match self {
            Target::Current => TargetView::Current,
            Target::Pid(pid) => TargetView::Pid(*pid),
            Target::Command(argv) => TargetView::Command(texts(argv@)),
        }
    }
}

impl Default for Target {
    fn default() -> (r: Self)
        ensures
            r == Target::Current,
    {
        Target::Current
    }
}

/// How a [`Source`] should sample: what to watch, how often, and for how long.
///
/// A uniform bundle every backend understands, applying what is meaningful and
/// clamping what it cannot honor exactly.
#[derive(Debug, Clone, PartialEq, Eq)]
pub struct CaptureSpec {
    /// The process to profile.
    pub target: Target,
    /// Requested sampling rate in hertz. A hint; backends may clamp it.
    pub frequency_hz: u32,
    /// How long to sample. `None` means "until the target exits" (or, for
    /// [`Target::Current`], a backend-defined default window).
    pub duration: Option<std::time::Duration>,
}

impl Default for CaptureSpec {
    fn default() -> (r: Self)
        ensures
            r == (CaptureSpec { target: Target::Current, frequency_hz: 99, duration: None }),
    {
        CaptureSpec { target: Target::Current, frequency_hz: 99, duration: None }
    }
}

/// A live producer of [`Profile`]s - sourced from the running system rather
/// than from bytes.
pub trait Source: Send + Sync {
    /// A short, stable identifier for the backend, e.g. `"perf"`, used to
    /// select it explicitly.
    fn name(&self) -> &'static str;

    /// Whether this backend can run right now: correct platform, sufficient
    /// permissions, required kernel support present.
    ///
    /// It must have no observable side effects beyond cheap probing.
    fn available(&self) -> bool;

    /// Sample the system according to `spec` and produce a [`Profile`], the
    /// same shape an input format would have parsed.
    ///
    /// Returns an `Unsupported` error if the backend cannot run on this host,
    /// or a `Capture` error if sampling fails (permission denied, the target
    /// exited unexpectedly, a syscall error).
    fn capture(&self, spec: &CaptureSpec) -> Result<Profile>;
}

/// Whether asking a source for its name can have given `text`.
pub open spec fn gives_name<S: Source + ?Sized>(source: &S, text: &'static str) -> bool {
    call_ensures(S::name, (source,), text)
}

/// Whether asking a source if it can run can have given `answer`.
pub open spec fn gives_answer<S: Source + ?Sized>(source: &S, answer: bool) -> bool {
    call_ensures(S::available, (source,), answer)
}

/// Whether capturing by `spec` can have given `capture`.
pub open spec fn delivers<S: Source + ?Sized>(
    source: &S,
    spec: &CaptureSpec,
    capture: Result<Profile>,
) -> bool {
    call_ensures(S::capture, (source, spec), capture)
}

/// Whether a source, asked for its name, can have given `name` (where `same`)
/// or some other (where not).
pub open spec fn told_name<S: Source + ?Sized>(source: &S, name: Seq<char>, same: bool) -> bool {
    exists|text: &'static str| #[trigger] gives_name(source, text) && (text@ == name) == same
}

/// Asks a source for its name.
pub fn ask_name<S: Source + ?Sized>(source: &S) -> (r: &'static str)
    ensures
        gives_name(source, r),
{
    source.name()
}

/// Asks a source if it can run.
pub fn ask_available<S: Source + ?Sized>(source: &S) -> (r: bool)
    ensures
        gives_answer(source, r),
{
    source.available()
}

/// Has a source capture.
pub fn ask_capture<S: Source + ?Sized>(source: &S, spec: &CaptureSpec) -> (r: Result<Profile>)
    ensures
        delivers(source, spec, r),
{
    source.capture(spec)
}

/// Where the first yes stands among `answers`.
pub open spec fn first_yes(answers: Seq<bool>) -> Option<int>
    decreases answers.len(),
{
    if answers.len() == 0 {
        None
    } else if answers[0] {
        Some(0)
    } else {
        match first_yes(answers.skip(1)) {
            Some(at) => Some(1 + at),
            None => None,
        }
    }
}

proof fn lemma_first_yes(answers: Seq<bool>)
    ensures
        match first_yes(answers) {
            Some(at) => 0 <= at < answers.len() && answers[at] && forall|j: int|
                0 <= j < at ==> !#[trigger] answers[j],
            None => forall|j: int| 0 <= j < answers.len() ==> !#[trigger] answers[j],
        },
    decreases answers.len(),
{
    if answers.len() > 0 && !answers[0] {
        lemma_first_yes(answers.skip(1));
        assert forall|j: int|
            0 <= j < answers.len() && (first_yes(answers) matches Some(at) ==> j < at) implies
            !#[trigger] answers[j] by {
            if j > 0 {
                assert(answers.skip(1)[j - 1] == answers[j]);
            }
        }
    }
}

/// A collection of capture [`Source`]s that can be listed or looked up by name.
pub struct Sources {
    sources: Vec<Box<dyn Source>>,
}

impl Default for Sources {
    fn default() -> (r: Self)
        ensures
            r.listed() == Seq::<Box<dyn Source>>::empty(),
    {
        Sources { sources: Vec::new() }
    }
}

impl Sources {
    /// The sources, in the order in which they were registered.
    pub closed spec fn listed(&self) -> Seq<Box<dyn Source>> {
        self.sources@
    }

    /// Creates an empty registry.
    #[must_use]
    pub fn new() -> (r: Self)
        ensures
            r.listed() == Seq::<Box<dyn Source>>::empty(),
    {
        Sources { sources: Vec::new() }
    }

    /// Adds a backend to the registry.
    pub fn register(&mut self, source: Box<dyn Source>)
        ensures
            final(self).listed() == old(self).listed().push(source),
    {
        self.sources.push(source);
    }

    /// The first registered backend that answered a question with yes, where
    /// `answers` holds what each in turn said.
    #[must_use]
    pub fn first_to_agree(&self, answers: &[bool]) -> (r: Option<&Box<dyn Source>>)
        requires
            answers.len() <= self.listed().len(),
        ensures
            match (r, first_yes(answers@)) {
                (Some(source), Some(at)) => *source == self.listed()[at],
                (None, None) => true,
                _ => false,
            },
    {
        let mut i: usize = 0;
        assert(answers@.skip(0) =~= answers@);
        while i < answers.len()
            invariant
                i <= answers.len(),
                answers.len() <= self.sources.len(),
                first_yes(answers@) == (match first_yes(answers@.skip(i as int)) {
                    Some(at) => Some(i + at),
                    None => None,
                }),
            decreases answers.len() - i,
        {
            assert(answers@.skip(i as int)[0] == answers@[i as int]);
            assert(answers@.skip(i as int).skip(1) =~= answers@.skip(i + 1));
            if answers[i] {
                return Some(&self.sources[i]);
            }
            i = i + 1;
        }
        None
    }

    /// Looks up a backend by its [`Source::name`].
    ///
    /// The names are what the backends say they are, asked in the order of
    /// their registration until one has the name.
    #[must_use]
    pub fn by_name(&self, name: &str) -> (r: Option<&Box<dyn Source>>)
        ensures
            match r {
                Some(source) => exists|at: int|
                    {
                        &&& 0 <= at < self.listed().len()
                        &&& *source == #[trigger] self.listed()[at]
                        &&& told_name::<dyn Source>(&*self.listed()[at], name@, true)
                        &&& forall|j: int|
                            0 <= j < at ==> told_name::<dyn Source>(
                                &*#[trigger] self.listed()[j],
                                name@,
                                false,
                            )
                    },
                None => forall|j: int|
                    0 <= j < self.listed().len() ==> told_name::<dyn Source>(
                        &*#[trigger] self.listed()[j],
                        name@,
                        false,
                    ),
            },
    {
        let mut answers: Vec<bool> = Vec::new();
        let mut found: bool = false;
        while !found && answers.len() < self.sources.len()
            invariant
                answers.len() <= self.sources.len(),
                found ==> answers.len() > 0 && answers@.last(),
                forall|j: int|
                    #![trigger self.listed()[j]]
                    0 <= j < answers.len() ==> told_name::<dyn Source>(
                        &*self.listed()[j],
                        name@,
                        answers@[j],
                    ),
            decreases self.sources.len() - answers.len(),
        {
            let text = ask_name::<dyn Source>(&*self.sources[answers.len()]);
            found = same_text(text, name);
            assert(told_name::<dyn Source>(&*self.listed()[answers@.len() as int], name@, found));
            answers.push(found);
        }
        proof {
            lemma_first_yes(answers@);
        }
        self.first_to_agree(answers.as_slice())
    }

    /// Returns the first registered backend that reports itself
    /// [`available`](Source::available) on this host, if any.
    ///
    /// Each is asked once, in the order of registration, until one says yes.
    #[must_use]
    pub fn available(&self) -> (r: Option<&Box<dyn Source>>)
        ensures
            match r {
                Some(source) => exists|at: int|
                    {
                        &&& 0 <= at < self.listed().len()
                        &&& *source == #[trigger] self.listed()[at]
                        &&& gives_answer::<dyn Source>(&*self.listed()[at], true)
                        &&& forall|j: int|
                            0 <= j < at ==> gives_answer::<dyn Source>(
                                &*#[trigger] self.listed()[j],
                                false,
                            )
                    },
                None => forall|j: int|
                    0 <= j < self.listed().len() ==> gives_answer::<dyn Source>(
                        &*#[trigger] self.listed()[j],
                        false,
                    ),
            },
    {
        let mut answers: Vec<bool> = Vec::new();
        let mut found: bool = false;
        while !found && answers.len() < self.sources.len()
            invariant
                answers.len() <= self.sources.len(),
                found ==> answers.len() > 0 && answers@.last(),
                forall|j: int|
                    #![trigger self.listed()[j]]
                    0 <= j < answers.len() ==> gives_answer::<dyn Source>(
                        &*self.listed()[j],
                        answers@[j],
                    ),
            decreases self.sources.len() - answers.len(),
        {
            found = ask_available::<dyn Source>(&*self.sources[answers.len()]);
            answers.push(found);
        }
        proof {
            lemma_first_yes(answers@);
        }
        self.first_to_agree(answers.as_slice())
    }

    /// Every registered backend in registration order.
    pub fn iter(&self) -> (r: &[Box<dyn Source>])
        ensures
            r@ == self.listed(),
    {
        self.sources.as_slice()
    }
}

} // verus!
