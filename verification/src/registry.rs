//! A registry of known input and output formats.
//!
//! The registry owns a set of input formats and a set of output formats. Input
//! formats can be picked by explicit name (e.g. a `--from folded` flag) or by
//! probing arbitrary bytes and choosing the highest-confidence match; output
//! formats are picked by name (e.g. `--to json`) or inferred from a destination
//! file extension.

use vstd::prelude::*;

use crate::chrometrace::{round_trips, ChromeTraceFormat};
use crate::error::{outcome, ErrorView, Result};
use crate::folded::FoldedFormat;
use crate::format::{Confidence, InputFormat, OutputFormat, ProbeData, ProbeView, WriteOptions};
use crate::json::json_parse;
use crate::json_format::{json_profile, JsonFormat};
use crate::model::{Profile, ProfileView};
use crate::path::{is_listed, listed, word_list};
use crate::pprof::{is_gzip, pprof_meaning, raw_rendering, PprofFormat, MAX_DECOMPRESSED};
use crate::pprof_laws::faithful;
use crate::speedscope::{file_json, SpeedscopeFormat};
use crate::text::same_text;

verus! {

/// An input format: one of those that profcast ships, or one that a caller
/// brought.
pub enum AnyInput {
    Folded(FoldedFormat),
    Pprof(PprofFormat),
    ChromeTrace(ChromeTraceFormat),
    Other(Box<dyn InputFormat>),
}

impl AnyInput {
    /// The name of the format.
    pub open spec fn in_name(&self) -> Seq<char> {
        match self {
            AnyInput::Folded(format) => format.in_name(),
            AnyInput::Pprof(format) => format.in_name(),
            AnyInput::ChromeTrace(format) => format.in_name(),
            AnyInput::Other(format) => format.in_name(),
        }
    }

    /// The file extensions of the format.
    pub open spec fn in_extensions(&self) -> Seq<Seq<char>> {
        match self {
            AnyInput::Folded(format) => format.in_extensions(),
            AnyInput::Pprof(format) => format.in_extensions(),
            AnyInput::ChromeTrace(format) => format.in_extensions(),
            AnyInput::Other(format) => format.in_extensions(),
        }
    }

    /// How strongly data resembles the format.
    pub open spec fn likeness(&self, data: ProbeView) -> Confidence {
        match self {
            AnyInput::Folded(format) => format.likeness(data),
            AnyInput::Pprof(format) => format.likeness(data),
            AnyInput::ChromeTrace(format) => format.likeness(data),
            AnyInput::Other(format) => format.likeness(data),
        }
    }

    /// What the bytes say in the format.
    pub open spec fn meaning(&self, input: Seq<u8>) -> std::result::Result<ProfileView, ErrorView> {
        match self {
            AnyInput::Folded(format) => format.meaning(input),
            AnyInput::Pprof(format) => format.meaning(input),
            AnyInput::ChromeTrace(format) => format.meaning(input),
            AnyInput::Other(format) => format.meaning(input),
        }
    }

    /// The [`InputFormat::name`] of the format.
    pub fn name(&self) -> (r: &'static str)
        ensures
            r@ == self.in_name(),
    {
        match self {
            AnyInput::Folded(format) => InputFormat::name(format),
            AnyInput::Pprof(format) => InputFormat::name(format),
            AnyInput::ChromeTrace(format) => InputFormat::name(format),
            AnyInput::Other(format) => format.name(),
        }
    }

    /// The [`InputFormat::extensions`] of the format.
    pub fn extensions(&self) -> (r: &'static [&'static str])
        ensures
            word_list(r@) == self.in_extensions(),
    {
        match self {
            AnyInput::Folded(format) => InputFormat::extensions(format),
            AnyInput::Pprof(format) => InputFormat::extensions(format),
            AnyInput::ChromeTrace(format) => InputFormat::extensions(format),
            AnyInput::Other(format) => format.extensions(),
        }
    }

    /// The [`InputFormat::probe`] of the format.
    pub fn probe(&self, data: &ProbeData<'_>) -> (r: Confidence)
        ensures
            r == self.likeness(data@),
    {
        match self {
            AnyInput::Folded(format) => format.probe(data),
            AnyInput::Pprof(format) => format.probe(data),
            AnyInput::ChromeTrace(format) => format.probe(data),
            AnyInput::Other(format) => format.probe(data),
        }
    }

    /// The [`InputFormat::read`] of the format.
    pub fn read(&self, input: &[u8]) -> (r: Result<Profile>)
        ensures
            outcome(r) == self.meaning(input@),
    {
        match self {
            AnyInput::Folded(format) => format.read(input),
            AnyInput::Pprof(format) => format.read(input),
            AnyInput::ChromeTrace(format) => format.read(input),
            AnyInput::Other(format) => format.read(input),
        }
    }
}

/// An output format: one of those that profcast ships, or one that a caller
/// brought.
pub enum AnyOutput {
    Folded(FoldedFormat),
    Pprof(PprofFormat),
    Json(JsonFormat),
    Speedscope(SpeedscopeFormat),
    ChromeTrace(ChromeTraceFormat),
    Other(Box<dyn OutputFormat>),
}

impl AnyOutput {
    /// The name of the format.
    pub open spec fn out_name(&self) -> Seq<char> {
        match self {
            AnyOutput::Folded(format) => format.out_name(),
            AnyOutput::Pprof(format) => format.out_name(),
            AnyOutput::Json(format) => format.out_name(),
            AnyOutput::Speedscope(format) => format.out_name(),
            AnyOutput::ChromeTrace(format) => format.out_name(),
            AnyOutput::Other(format) => format.out_name(),
        }
    }

    /// The file extensions of the format.
    pub open spec fn out_extensions(&self) -> Seq<Seq<char>> {
        match self {
            AnyOutput::Folded(format) => format.out_extensions(),
            AnyOutput::Pprof(format) => format.out_extensions(),
            AnyOutput::Json(format) => format.out_extensions(),
            AnyOutput::Speedscope(format) => format.out_extensions(),
            AnyOutput::ChromeTrace(format) => format.out_extensions(),
            AnyOutput::Other(format) => format.out_extensions(),
        }
    }

    /// The bytes for a profile in the format.
    pub open spec fn rendering(
        &self,
        profile: ProfileView,
        options: WriteOptions,
    ) -> std::result::Result<Seq<u8>, ErrorView> {
        match self {
            AnyOutput::Folded(format) => format.rendering(profile, options),
            AnyOutput::Pprof(format) => format.rendering(profile, options),
            AnyOutput::Json(format) => format.rendering(profile, options),
            AnyOutput::Speedscope(format) => format.rendering(profile, options),
            AnyOutput::ChromeTrace(format) => format.rendering(profile, options),
            AnyOutput::Other(format) => format.rendering(profile, options),
        }
    }

    /// Whether the format writes JSON.
    pub open spec fn is_json(&self) -> bool {
        self is Json || self is Speedscope || self is ChromeTrace
    }

    /// What a file written in the format gives back of the profile.
    pub open spec fn keeps(&self, profile: ProfileView, bytes: Seq<u8>) -> bool {
        match self {
            AnyOutput::Folded(_) => true,
            AnyOutput::Pprof(_) => {
                &&& is_gzip(bytes)
                &&& faithful(profile) && raw_rendering(profile).len() <= MAX_DECOMPRESSED
                    ==> pprof_meaning(bytes) == Ok::<ProfileView, ErrorView>(profile)
            },
            AnyOutput::Json(_) => json_profile(bytes) == Some(profile),
            AnyOutput::Speedscope(_) => json_parse(bytes) == Some(file_json(profile)),
            AnyOutput::ChromeTrace(_) => round_trips(profile, bytes),
            AnyOutput::Other(_) => true,
        }
    }

    /// The [`OutputFormat::name`] of the format.
    pub fn name(&self) -> (r: &'static str)
        ensures
            r@ == self.out_name(),
    {
        match self {
            AnyOutput::Folded(format) => OutputFormat::name(format),
            AnyOutput::Pprof(format) => OutputFormat::name(format),
            AnyOutput::Json(format) => OutputFormat::name(format),
            AnyOutput::Speedscope(format) => OutputFormat::name(format),
            AnyOutput::ChromeTrace(format) => OutputFormat::name(format),
            AnyOutput::Other(format) => format.name(),
        }
    }

    /// The [`OutputFormat::extensions`] of the format.
    pub fn extensions(&self) -> (r: &'static [&'static str])
        ensures
            word_list(r@) == self.out_extensions(),
    {
        match self {
            AnyOutput::Folded(format) => OutputFormat::extensions(format),
            AnyOutput::Pprof(format) => OutputFormat::extensions(format),
            AnyOutput::Json(format) => OutputFormat::extensions(format),
            AnyOutput::Speedscope(format) => OutputFormat::extensions(format),
            AnyOutput::ChromeTrace(format) => OutputFormat::extensions(format),
            AnyOutput::Other(format) => format.extensions(),
        }
    }

    /// The [`OutputFormat::write`] of the format.
    pub fn write(&self, profile: &Profile, options: WriteOptions) -> (r: Result<Vec<u8>>)
        ensures
            outcome(r) == self.rendering(profile@, options),
            r matches Ok(bytes) ==> self.keeps(profile@, bytes@),
            r matches Ok(bytes) ==> self.is_json() ==> (bytes@.contains(0x0a) <==> options.pretty),
    {
        match self {
            AnyOutput::Folded(format) => format.write(profile, options),
            AnyOutput::Pprof(format) => format.write(profile, options),
            AnyOutput::Json(format) => format.write(profile, options),
            AnyOutput::Speedscope(format) => format.write(profile, options),
            AnyOutput::ChromeTrace(format) => format.write(profile, options),
            AnyOutput::Other(format) => format.write(profile, options),
        }
    }
}

/// The outcome of a successful probe: which format matched and how strongly.
#[derive(Clone, Copy)]
pub struct Match<'a> {
    /// The input format that produced the highest [`Confidence`].
    pub format: &'a AnyInput,
    /// The [`Confidence`] that format reported for the probed [`ProbeData`].
    pub confidence: Confidence,
}

/// The first of `inputs` with the given name.
pub open spec fn input_named(inputs: Seq<AnyInput>, name: Seq<char>) -> Option<AnyInput>
    decreases inputs.len(),
{
    if inputs.len() == 0 {
        None
    } else if inputs[0].in_name() == name {
        Some(inputs[0])
    } else {
        input_named(inputs.skip(1), name)
    }
}

/// The first of `outputs` with the given name.
pub open spec fn output_named(outputs: Seq<AnyOutput>, name: Seq<char>) -> Option<AnyOutput>
    decreases outputs.len(),
{
    if outputs.len() == 0 {
        None
    } else if outputs[0].out_name() == name {
        Some(outputs[0])
    } else {
        output_named(outputs.skip(1), name)
    }
}

/// The first of `outputs` that lists the given file extension.
pub open spec fn output_for(outputs: Seq<AnyOutput>, extension: Seq<char>) -> Option<AnyOutput>
    decreases outputs.len(),
{
    if outputs.len() == 0 {
        None
    } else if listed(outputs[0].out_extensions(), extension) {
        Some(outputs[0])
    } else {
        output_for(outputs.skip(1), extension)
    }
}

/// Where the best match for `data` stands in `inputs`, among those that match
/// at all.
pub open spec fn best_match(inputs: Seq<AnyInput>, data: ProbeView) -> Option<int>
    decreases inputs.len(),
{
    if inputs.len() == 0 {
        None
    } else {
        let last = inputs.len() - 1;
        let level = inputs[last].likeness(data).level();
        match best_match(inputs.drop_last(), data) {
            Some(at) => if level > inputs[at].likeness(data).level() {
                Some(last)
            } else {
                Some(at)
            },
            None => if level > 0 {
                Some(last)
            } else {
                None
            },
        }
    }
}

/// The best match for `data` is the strongest of all, the earliest among those
/// that are equally strong, and there is one exactly where some format reports
/// more than [`Confidence::NoMatch`].
pub proof fn law_best_match_is_strongest_and_earliest(inputs: Seq<AnyInput>, data: ProbeView)
    ensures
        best_match(inputs, data) is None <==> forall|i: int|
            0 <= i < inputs.len() ==> (#[trigger] inputs[i]).likeness(data) == Confidence::NoMatch,
        best_match(inputs, data) matches Some(at) ==> {
            &&& 0 <= at < inputs.len()
            &&& inputs[at].likeness(data) != Confidence::NoMatch
            &&& forall|i: int|
                0 <= i < inputs.len() ==> (#[trigger] inputs[i]).likeness(data).level()
                    <= inputs[at].likeness(data).level()
            &&& forall|i: int|
                0 <= i < at ==> (#[trigger] inputs[i]).likeness(data).level()
                    < inputs[at].likeness(data).level()
        },
    decreases inputs.len(),
{
    if inputs.len() > 0 {
        let rest = inputs.drop_last();
        let last = inputs.len() - 1;
        law_best_match_is_strongest_and_earliest(rest, data);
        assert forall|i: int| 0 <= i < last implies rest[i] == inputs[i] by {}
        match best_match(rest, data) {
            Some(at) => {
                assert(rest[at] == inputs[at]);
            },
            None => {
                assert forall|i: int| 0 <= i < last implies (#[trigger] inputs[i]).likeness(data)
                    == Confidence::NoMatch by {
                    assert(rest[i] == inputs[i]);
                }
            },
        }
    }
}

/// A format that is registered later takes nothing from those before it: the
/// one that a name stood for stays, and so does the best match unless the new
/// format is more confident.
pub proof fn law_earlier_inputs_keep_winning(
    inputs: Seq<AnyInput>,
    format: AnyInput,
    name: Seq<char>,
    data: ProbeView,
)
    ensures
        input_named(inputs.push(format), name) == (match input_named(inputs, name) {
            Some(earlier) => Some(earlier),
            None => if format.in_name() == name {
                Some(format)
            } else {
                None
            },
        }),
        best_match(inputs.push(format), data) == (match best_match(inputs, data) {
            Some(at) => if format.likeness(data).level() > inputs[at].likeness(data).level() {
                Some(inputs.len() as int)
            } else {
                Some(at)
            },
            None => if format.likeness(data).level() > 0 {
                Some(inputs.len() as int)
            } else {
                None
            },
        }),
    decreases inputs.len(),
{
    let all = inputs.push(format);
    assert(all.drop_last() =~= inputs);
    law_best_match_is_strongest_and_earliest(inputs, data);
    if let Some(at) = best_match(inputs, data) {
        assert(all[at] == inputs[at]);
    }
    if inputs.len() > 0 {
        assert(all[0] == inputs[0]);
        assert(all.skip(1) =~= inputs.skip(1).push(format));
        law_earlier_inputs_keep_winning(inputs.skip(1), format, name, data);
    } else {
        assert(all.skip(1) =~= Seq::empty());
        assert(all[0] == format);
        assert(input_named(all.skip(1), name) is None);
    }
}

/// An output format that is registered later takes neither a name nor a file
/// extension from those before it.
pub proof fn law_earlier_outputs_keep_winning(
    outputs: Seq<AnyOutput>,
    format: AnyOutput,
    word: Seq<char>,
)
    ensures
        output_named(outputs.push(format), word) == (match output_named(outputs, word) {
            Some(earlier) => Some(earlier),
            None => if format.out_name() == word {
                Some(format)
            } else {
                None
            },
        }),
        output_for(outputs.push(format), word) == (match output_for(outputs, word) {
            Some(earlier) => Some(earlier),
            None => if listed(format.out_extensions(), word) {
                Some(format)
            } else {
                None
            },
        }),
    decreases outputs.len(),
{
    let all = outputs.push(format);
    if outputs.len() > 0 {
        assert(all[0] == outputs[0]);
        assert(all.skip(1) =~= outputs.skip(1).push(format));
        law_earlier_outputs_keep_winning(outputs.skip(1), format, word);
    } else {
        assert(all.skip(1) =~= Seq::empty());
        assert(all[0] == format);
        assert(output_named(all.skip(1), word) is None);
        assert(output_for(all.skip(1), word) is None);
    }
}

/// The input formats that profcast ships, in the order of their registration.
pub open spec fn shipped_inputs() -> Seq<AnyInput> {
    seq![
        AnyInput::Folded(FoldedFormat),
        AnyInput::Pprof(PprofFormat),
        AnyInput::ChromeTrace(ChromeTraceFormat),
    ]
}

/// The output formats that profcast ships, in the order of their registration.
pub open spec fn shipped_outputs() -> Seq<AnyOutput> {
    seq![
        AnyOutput::Folded(FoldedFormat),
        AnyOutput::Pprof(PprofFormat),
        AnyOutput::Json(JsonFormat),
        AnyOutput::Speedscope(SpeedscopeFormat),
        AnyOutput::ChromeTrace(ChromeTraceFormat),
    ]
}

/// A collection of input and output formats that can be looked up,
/// auto-detected, or inferred.
pub struct Registry {
    formats: Vec<AnyInput>,
    outputs: Vec<AnyOutput>,
}

impl Default for Registry {
    fn default() -> (r: Self)
        ensures
            r.input_formats() == Seq::<AnyInput>::empty(),
            r.output_formats() == Seq::<AnyOutput>::empty(),
    {
        Registry { formats: Vec::new(), outputs: Vec::new() }
    }
}

impl Registry {
    /// The input formats, in the order in which they were registered.
    pub closed spec fn input_formats(&self) -> Seq<AnyInput> {
        self.formats@
    }

    /// The output formats, in the order in which they were registered.
    pub closed spec fn output_formats(&self) -> Seq<AnyOutput> {
        self.outputs@
    }

    /// Creates an empty registry with no formats registered.
    #[must_use]
    pub fn new() -> (r: Self)
        ensures
            r.input_formats() == Seq::<AnyInput>::empty(),
            r.output_formats() == Seq::<AnyOutput>::empty(),
    {
        Registry { formats: Vec::new(), outputs: Vec::new() }
    }

    /// Creates a registry pre-populated with every format profcast ships.
    ///
    /// New built-in formats should be added here so that every front end picks
    /// them up automatically.
    #[must_use]
    pub fn with_builtins() -> (r: Self)
        ensures
            r.input_formats() == shipped_inputs(),
            r.output_formats() == shipped_outputs(),
    {
        let mut formats: Vec<AnyInput> = Vec::new();
        formats.push(AnyInput::Folded(FoldedFormat));
        formats.push(AnyInput::Pprof(PprofFormat));
        formats.push(AnyInput::ChromeTrace(ChromeTraceFormat));
        let mut outputs: Vec<AnyOutput> = Vec::new();
        outputs.push(AnyOutput::Folded(FoldedFormat));
        outputs.push(AnyOutput::Pprof(PprofFormat));
        outputs.push(AnyOutput::Json(JsonFormat));
        outputs.push(AnyOutput::Speedscope(SpeedscopeFormat));
        outputs.push(AnyOutput::ChromeTrace(ChromeTraceFormat));
        Registry { formats, outputs }
    }

    /// Adds an input format to the registry.
    ///
    /// Registration order matters: when several formats report the same
    /// confidence during a probe, the one registered first wins.
    pub fn register(&mut self, format: Box<dyn InputFormat>)
        ensures
            final(self).input_formats() == old(self).input_formats().push(AnyInput::Other(format)),
            final(self).output_formats() == old(self).output_formats(),
            forall|name: Seq<char>|
                input_named(old(self).input_formats(), name) is Some ==> #[trigger] input_named(
                    final(self).input_formats(),
                    name,
                ) == input_named(old(self).input_formats(), name),
            forall|data: ProbeView|
                best_match(old(self).input_formats(), data) matches Some(at) && AnyInput::Other(
                    format,
                ).likeness(data).level() <= old(self).input_formats()[at].likeness(data).level()
                    ==> #[trigger] best_match(final(self).input_formats(), data) == best_match(
                    old(self).input_formats(),
                    data,
                ),
    {
        proof {
            let inputs = self.formats@;
            let new = AnyInput::Other(format);
            assert forall|name: Seq<char>| input_named(inputs, name) is Some implies #[trigger]
                input_named(inputs.push(new), name) == input_named(inputs, name) by {
                law_earlier_inputs_keep_winning(
                    inputs,
                    new,
                    name,
                    ProbeView { filename: None, buf: Seq::empty() },
                );
            }
            assert forall|data: ProbeView|
                best_match(inputs, data) matches Some(at) && new.likeness(data).level()
                    <= inputs[at].likeness(data).level() implies #[trigger] best_match(
                inputs.push(new),
                data,
            ) == best_match(inputs, data) by {
                law_earlier_inputs_keep_winning(inputs, new, Seq::empty(), data);
            }
        }
        self.formats.push(AnyInput::Other(format));
    }

    /// Adds an output format to the registry.
    pub fn register_output(&mut self, output: Box<dyn OutputFormat>)
        ensures
            final(self).input_formats() == old(self).input_formats(),
            final(self).output_formats() == old(self).output_formats().push(
                AnyOutput::Other(output),
            ),
    {
        self.outputs.push(AnyOutput::Other(output));
    }

    /// Looks up a format by its [`InputFormat::name`].
    #[must_use]
    pub fn by_name(&self, name: &str) -> (r: Option<&AnyInput>)
        ensures
            match r {
                Some(format) => input_named(self.input_formats(), name@) == Some(*format),
                None => input_named(self.input_formats(), name@) is None,
            },
    {
        let mut i: usize = 0;
        assert(self.formats@.skip(0) =~= self.formats@);
        while i < self.formats.len()
            invariant
                i <= self.formats.len(),
                input_named(self.formats@, name@) == input_named(
                    self.formats@.skip(i as int),
                    name@,
                ),
            decreases self.formats.len() - i,
        {
            let ghost rest = self.formats@.skip(i as int);
            assert(rest[0] == self.formats@[i as int]);
            if same_text(self.formats[i].name(), name) {
                return Some(&self.formats[i]);
            }
            assert(rest.skip(1) =~= self.formats@.skip(i + 1));
            i = i + 1;
        }
        None
    }

    /// Every registered input format in registration order.
    pub fn formats(&self) -> (r: &[AnyInput])
        ensures
            r@ == self.input_formats(),
    {
        self.formats.as_slice()
    }

    /// Looks up an output format by its [`OutputFormat::name`].
    #[must_use]
    pub fn output_by_name(&self, name: &str) -> (r: Option<&AnyOutput>)
        ensures
            match r {
                Some(format) => output_named(self.output_formats(), name@) == Some(*format),
                None => output_named(self.output_formats(), name@) is None,
            },
    {
        let mut i: usize = 0;
        assert(self.outputs@.skip(0) =~= self.outputs@);
        while i < self.outputs.len()
            invariant
                i <= self.outputs.len(),
                output_named(self.outputs@, name@) == output_named(
                    self.outputs@.skip(i as int),
                    name@,
                ),
            decreases self.outputs.len() - i,
        {
            let ghost rest = self.outputs@.skip(i as int);
            assert(rest[0] == self.outputs@[i as int]);
            if same_text(self.outputs[i].name(), name) {
                return Some(&self.outputs[i]);
            }
            assert(rest.skip(1) =~= self.outputs@.skip(i + 1));
            i = i + 1;
        }
        None
    }

    /// Looks up an output format by a destination file extension (without the
    /// leading dot), e.g. `json` for `out.json`.
    #[must_use]
    pub fn output_by_extension(&self, extension: &str) -> (r: Option<&AnyOutput>)
        ensures
            match r {
                Some(format) => output_for(self.output_formats(), extension@) == Some(*format),
                None => output_for(self.output_formats(), extension@) is None,
            },
    {
        let mut i: usize = 0;
        assert(self.outputs@.skip(0) =~= self.outputs@);
        while i < self.outputs.len()
            invariant
                i <= self.outputs.len(),
                output_for(self.outputs@, extension@) == output_for(
                    self.outputs@.skip(i as int),
                    extension@,
                ),
            decreases self.outputs.len() - i,
        {
            let ghost rest = self.outputs@.skip(i as int);
            assert(rest[0] == self.outputs@[i as int]);
            if is_listed(self.outputs[i].extensions(), extension) {
                return Some(&self.outputs[i]);
            }
            assert(rest.skip(1) =~= self.outputs@.skip(i + 1));
            i = i + 1;
        }
        None
    }

    /// Every registered output format in registration order.
    pub fn outputs(&self) -> (r: &[AnyOutput])
        ensures
            r@ == self.output_formats(),
    {
        self.outputs.as_slice()
    }

    /// Probes `data` against every format and returns the strongest match.
    ///
    /// Returns `None` if no format reports more than [`Confidence::NoMatch`].
    /// Ties are broken in favour of the earliest-registered format.
    #[must_use]
    pub fn probe(&self, data: &ProbeData<'_>) -> (r: Option<Match<'_>>)
        ensures
            match (r, best_match(self.input_formats(), data@)) {
                (Some(found), Some(at)) => {
                    &&& *found.format == self.input_formats()[at]
                    &&& found.confidence == self.input_formats()[at].likeness(data@)
                },
                (None, None) => true,
                _ => false,
            },
    {
        let mut best: Option<usize> = None;
        let mut strength: Confidence = Confidence::NoMatch;
        let mut i: usize = 0;
        assert(self.formats@.take(0) =~= Seq::<AnyInput>::empty());
        while i < self.formats.len()
            invariant
                i <= self.formats.len(),
                match best {
                    Some(at) => {
                        &&& at < i
                        &&& best_match(self.formats@.take(i as int), data@) == Some(at as int)
                        &&& strength == self.formats@[at as int].likeness(data@)
                    },
                    None => {
                        &&& best_match(self.formats@.take(i as int), data@) is None
                        &&& strength == Confidence::NoMatch
                    },
                },
            decreases self.formats.len() - i,
        {
            let ghost seen = self.formats@.take(i + 1);
            assert(seen.drop_last() =~= self.formats@.take(i as int));
            assert(seen.last() == self.formats@[i as int]);
            let confidence = self.formats[i].probe(data);
            // Strictly greater so the first-registered format keeps ties.
            if confidence.rank() > strength.rank() {
                best = Some(i);
                strength = confidence;
            }
            i = i + 1;
        }
        assert(self.formats@.take(i as int) =~= self.formats@);
        match best {
            Some(at) => Some(Match { format: &self.formats[at], confidence: strength }),
            None => None,
        }
    }
}

} // verus!
