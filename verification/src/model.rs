//! Internal representation of a profiler's output, agnostic to any specific
//! format.

use vstd::prelude::*;

use crate::error::{outcome, ErrorView, ProfcastError, Result};
use crate::number::{decimal, push_decimal};

verus! {

/// Interned call frame data - we intern it because fundamentally call frames
/// will tend to appear multiple times.
#[derive(Debug, PartialEq, Eq, Hash)]
pub struct Frame {
    /// The raw label as it appeared.
    pub raw: String,
    /// Function name.
    pub function: Option<String>,
    /// File name.
    pub file: Option<String>,
    /// Line number.
    pub line: Option<u32>,
    /// Module type, eg. binary, .so, etc.
    pub module: Option<String>,
    /// Frame memory address.
    pub address: Option<u64>,
}

/// Stable index for a [`Frame`] in [`Profile::frame_intern`].
#[derive(Debug, Clone, Copy, PartialEq, Eq, Hash, Structural)]
pub struct FrameId(pub u32);

/// One aggregated stack - a path plus its weight.
#[derive(Debug, PartialEq, Eq)]
pub struct Sample {
    /// Root -> leaf, `stack[0]` is outermost.
    pub stack: Vec<FrameId>,
    /// Parallel to [`Profile::value_kinds`], the actual data.
    pub values: Vec<i64>,
}

/// [`Sample`] value metadata.
#[derive(Debug, PartialEq, Eq)]
pub struct ValueKind {
    /// "samples", "cpu", etc.
    pub kind: String,
    /// "count", "nanoseconds", "seconds", etc.
    pub unit: String,
}

/// Full internal representation of a profiled output.
#[derive(Debug, PartialEq, Eq)]
pub struct Profile {
    /// Interned set of [`Frame`]s.
    pub frame_intern: Vec<Frame>,
    /// Profiler [`Sample`]s.
    pub samples: Vec<Sample>,
    /// Profiler [`ValueKind`] dictionary.
    pub value_kinds: Vec<ValueKind>,
}

/// What a [`Frame`] says.
#[verifier::ext_equal]
pub struct FrameView {
    pub raw: Seq<char>,
    pub function: Option<Seq<char>>,
    pub file: Option<Seq<char>>,
    pub line: Option<u32>,
    pub module: Option<Seq<char>>,
    pub address: Option<u64>,
}

/// What a [`Sample`] says.
#[verifier::ext_equal]
pub struct SampleView {
    pub stack: Seq<FrameId>,
    pub values: Seq<i64>,
}

/// What a [`ValueKind`] says.
#[verifier::ext_equal]
pub struct ValueKindView {
    pub kind: Seq<char>,
    pub unit: Seq<char>,
}

/// What a [`Profile`] says.
#[verifier::ext_equal]
pub struct ProfileView {
    pub frames: Seq<FrameView>,
    pub samples: Seq<SampleView>,
    pub value_kinds: Seq<ValueKindView>,
}

/// The text of an optional string.
pub open spec fn opt_text(s: Option<String>) -> Option<Seq<char>> {
    match s {
        Some(text) => Some(text@),
        None => None,
    }
}

/// The views of a list of values.
pub open spec fn views<T: View>(items: Seq<T>) -> Seq<T::V> {
    Seq::new(items.len(), |i: int| items[i]@)
}

impl View for Frame {
    type V = FrameView;

    open spec fn view(&self) -> FrameView {
        FrameView {
            raw: self.raw@,
            function: opt_text(self.function),
            file: opt_text(self.file),
            line: self.line,
            module: opt_text(self.module),
            address: self.address,
        }
    }
}

impl View for Sample {
    type V = SampleView;

    open spec fn view(&self) -> SampleView {
        SampleView { stack: self.stack@, values: self.values@ }
    }
}

impl View for ValueKind {
    type V = ValueKindView;

    open spec fn view(&self) -> ValueKindView {
        ValueKindView { kind: self.kind@, unit: self.unit@ }
    }
}

impl View for Profile {
    type V = ProfileView;

    open spec fn view(&self) -> ProfileView {
        ProfileView {
            frames: views(self.frame_intern@),
            samples: views(self.samples@),
            value_kinds: views(self.value_kinds@),
        }
    }
}

impl FrameView {
    /// The frame of which nothing is known.
    pub open spec fn unknown() -> FrameView {
        FrameView {
            raw: Seq::empty(),
            function: None,
            file: None,
            line: None,
            module: None,
            address: None,
        }
    }
}

/// A copy of an optional string.
pub fn copy_text(s: &Option<String>) -> (r: Option<String>)
    ensures
        opt_text(r) == opt_text(*s),
{
    match s {
        Some(text) => Some(text.clone()),
        None => None,
    }
}

impl Clone for Frame {
    fn clone(&self) -> (r: Self)
        ensures
            r@ == self@,
    {
        Frame {
            raw: self.raw.clone(),
            function: copy_text(&self.function),
            file: copy_text(&self.file),
            line: self.line,
            module: copy_text(&self.module),
            address: self.address,
        }
    }
}

impl Default for Frame {
    fn default() -> (r: Self)
        ensures
            r@ == FrameView::unknown(),
    {
        Frame {
            raw: String::new(),
            function: None,
            file: None,
            line: None,
            module: None,
            address: None,
        }
    }
}

/// A copy of a list of integers.
pub fn copy_values(values: &Vec<i64>) -> (r: Vec<i64>)
    ensures
        r@ == values@,
{
    let r = values.clone();
    assert(r@ =~= values@);
    r
}

impl Clone for Sample {
    fn clone(&self) -> (r: Self)
        ensures
            r@ == self@,
    {
        let stack = self.stack.clone();
        assert(stack@ =~= self.stack@);
        Sample { stack, values: copy_values(&self.values) }
    }
}

impl Clone for ValueKind {
    fn clone(&self) -> (r: Self)
        ensures
            r@ == self@,
    {
        ValueKind { kind: self.kind.clone(), unit: self.unit.clone() }
    }
}

impl Clone for Profile {
    fn clone(&self) -> (r: Self)
        ensures
            r@ == self@,
    {
        let mut frame_intern: Vec<Frame> = Vec::new();
        for i in 0..self.frame_intern.len()
            invariant
                frame_intern.len() == i,
                forall|j: int| 0 <= j < i ==> (#[trigger] frame_intern@[j])@ == self.frame_intern@[j]@,
        {
            frame_intern.push(self.frame_intern[i].clone());
        }
        let mut samples: Vec<Sample> = Vec::new();
        for i in 0..self.samples.len()
            invariant
                samples.len() == i,
                forall|j: int| 0 <= j < i ==> (#[trigger] samples@[j])@ == self.samples@[j]@,
        {
            samples.push(self.samples[i].clone());
        }
        let mut value_kinds: Vec<ValueKind> = Vec::new();
        for i in 0..self.value_kinds.len()
            invariant
                value_kinds.len() == i,
                forall|j: int| 0 <= j < i ==> (#[trigger] value_kinds@[j])@ == self.value_kinds@[j]@,
        {
            value_kinds.push(self.value_kinds[i].clone());
        }
        let r = Profile { frame_intern, samples, value_kinds };
        assert(r@.frames =~= self@.frames);
        assert(r@.samples =~= self@.samples);
        assert(r@.value_kinds =~= self@.value_kinds);
        r
    }
}

impl Default for Profile {
    fn default() -> (r: Self)
        ensures
            r@ == (ProfileView {
                frames: Seq::empty(),
                samples: Seq::empty(),
                value_kinds: Seq::empty(),
            }),
    {
        let r = Profile { frame_intern: Vec::new(), samples: Vec::new(), value_kinds: Vec::new() };
        assert(views(r.frame_intern@) =~= Seq::empty());
        assert(views(r.samples@) =~= Seq::empty());
        assert(views(r.value_kinds@) =~= Seq::empty());
        r
    }
}

/// The position of the first frame id in `stack` that points at or past
/// `frames`, or the length of the stack.
pub open spec fn first_dangling(stack: Seq<FrameId>, frames: nat) -> int
    decreases stack.len(),
{
    if stack.len() == 0 || stack[0].0 >= frames {
        0
    } else {
        1 + first_dangling(stack.skip(1), frames)
    }
}

pub open spec fn arity_message(index: nat, values: nat, kinds: nat) -> Seq<char> {
    "sample "@ + decimal(index) + " has "@ + decimal(values)
        + " values but the profile declares "@ + decimal(kinds) + " value kinds"@
}

pub open spec fn dangling_message(index: nat, id: nat, frames: nat) -> Seq<char> {
    "sample "@ + decimal(index) + " references frame id "@ + decimal(id) + " but only "@ + decimal(
        frames,
    ) + " frames are interned"@
}

impl SampleView {
    /// Whether the sample has one value per value kind, and every frame id
    /// points into a table of `frames` frames.
    pub open spec fn fits(self, frames: nat, kinds: nat) -> bool {
        &&& self.values.len() == kinds
        &&& forall|i: int| 0 <= i < self.stack.len() ==> (#[trigger] self.stack[i]).0 < frames
    }
}

impl ProfileView {
    /// The structural invariants of the data model.
    pub open spec fn valid(self) -> bool {
        forall|i: int|
            0 <= i < self.samples.len() ==> (#[trigger] self.samples[i]).fits(
                self.frames.len(),
                self.value_kinds.len(),
            )
    }

    /// What is wrong with the samples from `index` on, told of the first that
    /// breaks an invariant.
    pub open spec fn fault_from(self, index: int) -> Option<Seq<char>>
        decreases self.samples.len() - index,
    {
        if index < 0 || index >= self.samples.len() {
            None
        } else {
            let sample = self.samples[index];
            let bad = first_dangling(sample.stack, self.frames.len());
            if sample.values.len() != self.value_kinds.len() {
                Some(arity_message(index as nat, sample.values.len(), self.value_kinds.len()))
            } else if bad < sample.stack.len() {
                Some(
                    dangling_message(index as nat, sample.stack[bad].0 as nat, self.frames.len()),
                )
            } else {
                self.fault_from(index + 1)
            }
        }
    }

    /// What validation comes to.
    pub open spec fn verdict(self) -> std::result::Result<(), ErrorView> {
        match self.fault_from(0) {
            None => Ok(()),
            Some(message) => Err(ErrorView::InvalidProfile(message)),
        }
    }
}

pub proof fn lemma_first_dangling(stack: Seq<FrameId>, frames: nat)
    ensures
        0 <= first_dangling(stack, frames) <= stack.len(),
        first_dangling(stack, frames) < stack.len() ==> stack[first_dangling(stack, frames)].0
            >= frames,
        forall|i: int| 0 <= i < first_dangling(stack, frames) ==> (#[trigger] stack[i]).0 < frames,
    decreases stack.len(),
{
    if stack.len() > 0 && stack[0].0 < frames {
        lemma_first_dangling(stack.skip(1), frames);
        assert forall|i: int| 0 <= i < first_dangling(stack, frames) implies (
        #[trigger] stack[i]).0 < frames by {
            if i > 0 {
                assert(stack.skip(1)[i - 1] == stack[i]);
            }
        }
    }
}

pub proof fn lemma_fault(p: ProfileView, index: int)
    requires
        0 <= index <= p.samples.len(),
    ensures
        p.fault_from(index) is None <==> (forall|i: int|
            index <= i < p.samples.len() ==> (#[trigger] p.samples[i]).fits(
                p.frames.len(),
                p.value_kinds.len(),
            )),
    decreases p.samples.len() - index,
{
    if index < p.samples.len() {
        let sample = p.samples[index];
        lemma_first_dangling(sample.stack, p.frames.len());
        lemma_fault(p, index + 1);
        assert(p.fault_from(index) is None <==> sample.fits(p.frames.len(), p.value_kinds.len())
            && p.fault_from(index + 1) is None);
        if p.fault_from(index + 1) is Some {
            let i = choose|i: int|
                index + 1 <= i < p.samples.len() && !(#[trigger] p.samples[i]).fits(
                    p.frames.len(),
                    p.value_kinds.len(),
                );
            assert(!p.samples[i].fits(p.frames.len(), p.value_kinds.len()));
        }
    }
}

/// Validation accepts exactly the profiles whose samples all carry one value
/// per value kind and whose frame ids all point into the frame table.
pub proof fn law_validation_decides_validity(p: ProfileView)
    ensures
        p.verdict() is Ok <==> p.valid(),
{
    lemma_fault(p, 0);
}

/// Finds the first frame id that points at or past `frames`.
pub fn find_dangling(stack: &Vec<FrameId>, frames: usize) -> (r: usize)
    ensures
        r == first_dangling(stack@, frames as nat),
        r <= stack.len(),
{
    let mut i: usize = 0;
    assert(stack@.skip(0) =~= stack@);
    while i < stack.len() && (stack[i].0 as usize) < frames
        invariant
            i <= stack.len(),
            first_dangling(stack@, frames as nat) == i + first_dangling(
                stack@.skip(i as int),
                frames as nat,
            ),
        decreases stack.len() - i,
    {
        assert(stack@.skip(i as int).skip(1) =~= stack@.skip(i + 1));
        i = i + 1;
    }
    i
}

/// The message for a sample that points outside the frame table.
pub fn dangling_text(index: usize, id: u32, frames: usize) -> (r: String)
    ensures
        r@ == dangling_message(index as nat, id as nat, frames as nat),
{
    let mut out: String = "sample ".to_owned();
    push_decimal(&mut out, index as u64);
    out.push_str(" references frame id ");
    push_decimal(&mut out, id as u64);
    out.push_str(" but only ");
    push_decimal(&mut out, frames as u64);
    out.push_str(" frames are interned");
    out
}

impl Profile {
    /// Checks that the profile upholds the data model's structural invariants:
    /// every sample carries exactly one value per declared [`ValueKind`], and
    /// every [`FrameId`] in every stack points into [`Profile::frame_intern`].
    ///
    /// Format readers should produce valid profiles; this is a defensive check
    /// for fuzzing, tests, and untrusted inputs crossing the FFI boundary.
    ///
    /// Returns [`ProfcastError::InvalidProfile`] describing the first violation
    /// found.
    pub fn validate(&self) -> (r: Result<()>)
        ensures
            outcome(r) == self@.verdict(),
            r is Ok <==> self@.valid(),
    {
        proof {
            law_validation_decides_validity(self@);
        }
        let frame_count: usize = self.frame_intern.len();
        let value_arity: usize = self.value_kinds.len();
        let mut index: usize = 0;
        while index < self.samples.len()
            invariant
                index <= self.samples.len(),
                frame_count == self.frame_intern.len(),
                value_arity == self.value_kinds.len(),
                self@.fault_from(0) == self@.fault_from(index as int),
                self@.verdict() is Ok <==> self@.valid(),
            decreases self.samples.len() - index,
        {
            let sample = &self.samples[index];
            assert(self@.samples[index as int] == sample@);
            if sample.values.len() != value_arity {
                let mut message: String = "sample ".to_owned();
                push_decimal(&mut message, index as u64);
                message.push_str(" has ");
                push_decimal(&mut message, sample.values.len() as u64);
                message.push_str(" values but the profile declares ");
                push_decimal(&mut message, value_arity as u64);
                message.push_str(" value kinds");
                return Err(ProfcastError::InvalidProfile(message));
            }
            let bad: usize = find_dangling(&sample.stack, frame_count);
            if bad < sample.stack.len() {
                let message = dangling_text(index, sample.stack[bad].0, frame_count);
                return Err(ProfcastError::InvalidProfile(message));
            }
            index = index + 1;
        }
        Ok(())
    }
}

} // verus!
