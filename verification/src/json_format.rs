//! JSON output of the internal profile model.
//!
//! This is the canonical serialization of [`Profile`]: it writes the internal
//! model verbatim, so a JSON dump and the in-memory profile carry exactly the
//! same information. It doubles as the default output format for the CLI and
//! the FFI.

use vstd::prelude::*;

use crate::error::{ErrorView, Result};
use crate::format::{OutputFormat, WriteOptions};
use crate::json::{
    array_value, as_number, as_opt_number, as_opt_text, entry, held, held_all, held_entries,
    held_fields, held_opt, json_parse, numbers_value, numbers_view, object_value, open_record, opt_number_value,
    opt_number_view, opt_text_value, opt_text_view, print_json, json_text, read_array,
    read_opt_text, read_opt_unsigned, read_signed, read_text, read_unsigned, record,
    simple, stack_value, stack_view, text_value, JsonView,
};
use crate::model::{
    views, Frame, FrameId, FrameView, Profile, ProfileView, Sample, SampleView, ValueKind, ValueKindView,
};
use crate::path::word_list;

verus! {

/// Writes a [`Profile`] as JSON.
///
/// The format is stateless, so this is a zero-sized marker that exists only to
/// implement [`OutputFormat`].
#[derive(Debug, Clone, Copy)]
pub struct JsonFormat;

impl Default for JsonFormat {
    fn default() -> (r: Self)
        ensures
            r == JsonFormat,
    {
        JsonFormat
    }
}

/// The line number of a frame as an integer.
pub open spec fn wide_line(line: Option<u32>) -> Option<u64> {
    match line {
        Some(line) => Some(line as u64),
        None => None,
    }
}

/// A frame as JSON.
pub open spec fn frame_json(frame: FrameView) -> JsonView {
    JsonView::Object(
        seq![
            ("raw"@, JsonView::Text(frame.raw)),
            ("function"@, opt_text_view(frame.function)),
            ("file"@, opt_text_view(frame.file)),
            ("line"@, opt_number_view(wide_line(frame.line))),
            ("module"@, opt_text_view(frame.module)),
            ("address"@, opt_number_view(frame.address)),
        ],
    )
}

/// A sample as JSON.
pub open spec fn sample_json(sample: SampleView) -> JsonView {
    JsonView::Object(
        seq![("stack"@, stack_view(sample.stack)), ("values"@, numbers_view(sample.values))],
    )
}

/// A value kind as JSON.
pub open spec fn kind_json(kind: ValueKindView) -> JsonView {
    JsonView::Object(
        seq![("kind"@, JsonView::Text(kind.kind)), ("unit"@, JsonView::Text(kind.unit))],
    )
}

/// A list of frames as JSON.
pub open spec fn frames_json(frames: Seq<FrameView>) -> JsonView {
    JsonView::Array(Seq::new(frames.len(), |i: int| frame_json(frames[i])))
}

/// A list of samples as JSON.
pub open spec fn samples_json(samples: Seq<SampleView>) -> JsonView {
    JsonView::Array(Seq::new(samples.len(), |i: int| sample_json(samples[i])))
}

/// A list of value kinds as JSON.
pub open spec fn kinds_json(kinds: Seq<ValueKindView>) -> JsonView {
    JsonView::Array(Seq::new(kinds.len(), |i: int| kind_json(kinds[i])))
}

/// A profile as JSON.
pub open spec fn profile_json(p: ProfileView) -> JsonView {
    JsonView::Object(
        seq![
            ("frame_intern"@, frames_json(p.frames)),
            ("samples"@, samples_json(p.samples)),
            ("value_kinds"@, kinds_json(p.value_kinds)),
        ],
    )
}

/// The names of the fields are distinct.
pub proof fn lemma_field_names()
    ensures
        "raw"@ != "function"@,
        "raw"@ != "file"@,
        "raw"@ != "line"@,
        "raw"@ != "module"@,
        "raw"@ != "address"@,
        "function"@ != "file"@,
        "function"@ != "line"@,
        "function"@ != "module"@,
        "function"@ != "address"@,
        "file"@ != "line"@,
        "file"@ != "module"@,
        "file"@ != "address"@,
        "line"@ != "module"@,
        "line"@ != "address"@,
        "module"@ != "address"@,
        "stack"@ != "values"@,
        "kind"@ != "unit"@,
        "frame_intern"@ != "samples"@,
        "frame_intern"@ != "value_kinds"@,
        "samples"@ != "value_kinds"@,
{
    reveal_strlit("raw");
    assert("raw"@.len() == 3);
    reveal_strlit("function");
    assert("function"@.len() == 8);
    reveal_strlit("file");
    assert("file"@.len() == 4);
    reveal_strlit("line");
    assert("line"@.len() == 4);
    reveal_strlit("module");
    assert("module"@.len() == 6);
    reveal_strlit("address");
    assert("address"@.len() == 7);
    reveal_strlit("stack");
    assert("stack"@.len() == 5);
    reveal_strlit("values");
    assert("values"@.len() == 6);
    reveal_strlit("kind");
    assert("kind"@.len() == 4);
    reveal_strlit("unit");
    assert("unit"@.len() == 4);
    reveal_strlit("frame_intern");
    assert("frame_intern"@.len() == 12);
    reveal_strlit("samples");
    assert("samples"@.len() == 7);
    reveal_strlit("value_kinds");
    assert("value_kinds"@.len() == 11);
    assert("file"@[0] != "line"@[0]);
    assert("kind"@[0] != "unit"@[0]);
}

fn frame_value(frame: &Frame) -> (r: serde_json::Value)
    ensures
        held(r) == frame_json(frame@),
{
    proof {
        lemma_field_names();
    }
    let line: Option<u64> = match frame.line {
        Some(line) => Some(line as u64),
        None => None,
    };
    let mut entries: Vec<(String, serde_json::Value)> = Vec::new();
    entries.push(("raw".to_owned(), text_value(frame.raw.as_str())));
    entries.push(("function".to_owned(), opt_text_value(&frame.function)));
    entries.push(("file".to_owned(), opt_text_value(&frame.file)));
    entries.push(("line".to_owned(), opt_number_value(line)));
    entries.push(("module".to_owned(), opt_text_value(&frame.module)));
    entries.push(("address".to_owned(), opt_number_value(frame.address)));
    assert(held_entries(entries@) =~= frame_json(frame@)->Object_0);
    object_value(entries)
}

fn sample_value(sample: &Sample) -> (r: serde_json::Value)
    ensures
        held(r) == sample_json(sample@),
{
    proof {
        lemma_field_names();
    }
    let mut entries: Vec<(String, serde_json::Value)> = Vec::new();
    entries.push(("stack".to_owned(), stack_value(&sample.stack)));
    entries.push(("values".to_owned(), numbers_value(&sample.values)));
    assert(held_entries(entries@) =~= sample_json(sample@)->Object_0);
    object_value(entries)
}

fn kind_value(kind: &ValueKind) -> (r: serde_json::Value)
    ensures
        held(r) == kind_json(kind@),
{
    proof {
        lemma_field_names();
    }
    let mut entries: Vec<(String, serde_json::Value)> = Vec::new();
    entries.push(("kind".to_owned(), text_value(kind.kind.as_str())));
    entries.push(("unit".to_owned(), text_value(kind.unit.as_str())));
    assert(held_entries(entries@) =~= kind_json(kind@)->Object_0);
    object_value(entries)
}

/// A profile as a JSON value.
pub fn profile_value(profile: &Profile) -> (r: serde_json::Value)
    ensures
        held(r) == profile_json(profile@),
{
    proof {
        lemma_field_names();
    }
    let mut frames: Vec<serde_json::Value> = Vec::new();
    let mut i: usize = 0;
    while i < profile.frame_intern.len()
        invariant
            i <= profile.frame_intern.len(),
            frames@.len() == i,
            forall|j: int|
                0 <= j < i ==> held(#[trigger] frames@[j]) == frame_json(profile@.frames[j]),
        decreases profile.frame_intern.len() - i,
    {
        frames.push(frame_value(&profile.frame_intern[i]));
        i = i + 1;
    }
    let mut samples: Vec<serde_json::Value> = Vec::new();
    let mut i: usize = 0;
    while i < profile.samples.len()
        invariant
            i <= profile.samples.len(),
            samples@.len() == i,
            forall|j: int|
                0 <= j < i ==> held(#[trigger] samples@[j]) == sample_json(profile@.samples[j]),
        decreases profile.samples.len() - i,
    {
        samples.push(sample_value(&profile.samples[i]));
        i = i + 1;
    }
    let mut kinds: Vec<serde_json::Value> = Vec::new();
    let mut i: usize = 0;
    while i < profile.value_kinds.len()
        invariant
            i <= profile.value_kinds.len(),
            kinds@.len() == i,
            forall|j: int|
                0 <= j < i ==> held(#[trigger] kinds@[j]) == kind_json(profile@.value_kinds[j]),
        decreases profile.value_kinds.len() - i,
    {
        kinds.push(kind_value(&profile.value_kinds[i]));
        i = i + 1;
    }
    assert(held_all(frames@) =~= frames_json(profile@.frames)->Array_0);
    assert(held_all(samples@) =~= samples_json(profile@.samples)->Array_0);
    assert(held_all(kinds@) =~= kinds_json(profile@.value_kinds)->Array_0);
    let mut entries: Vec<(String, serde_json::Value)> = Vec::new();
    entries.push(("frame_intern".to_owned(), array_value(frames)));
    entries.push(("samples".to_owned(), array_value(samples)));
    entries.push(("value_kinds".to_owned(), array_value(kinds)));
    assert(held_entries(entries@) =~= profile_json(profile@)->Object_0);
    object_value(entries)
}

/// A profile as JSON is texts and integers, four layers deep.
pub proof fn lemma_profile_is_simple(p: ProfileView)
    ensures
        simple(profile_json(p), 100),
{
    let frames = frames_json(p.frames);
    let samples = samples_json(p.samples);
    let kinds = kinds_json(p.value_kinds);
    assert forall|i: int| 0 <= i < p.frames.len() implies simple(
        #[trigger] frames->Array_0[i],
        98,
    ) by {
        let e = frame_json(p.frames[i])->Object_0;
        assert forall|j: int| 0 <= j < e.len() implies simple((#[trigger] e[j]).1, 97) by {}
    }
    assert(simple(frames, 99));
    assert forall|i: int| 0 <= i < p.samples.len() implies simple(
        #[trigger] samples->Array_0[i],
        98,
    ) by {
        let e = sample_json(p.samples[i])->Object_0;
        let stack = stack_view(p.samples[i].stack);
        let values = numbers_view(p.samples[i].values);
        assert forall|j: int| 0 <= j < stack->Array_0.len() implies simple(
            #[trigger] stack->Array_0[j],
            96,
        ) by {}
        assert(simple(stack, 97));
        assert forall|j: int| 0 <= j < values->Array_0.len() implies simple(
            #[trigger] values->Array_0[j],
            96,
        ) by {}
        assert(simple(values, 97));
        assert forall|j: int| 0 <= j < e.len() implies simple((#[trigger] e[j]).1, 97) by {}
    }
    assert(simple(samples, 99));
    assert forall|i: int| 0 <= i < p.value_kinds.len() implies simple(
        #[trigger] kinds->Array_0[i],
        98,
    ) by {
        let e = kind_json(p.value_kinds[i])->Object_0;
        assert forall|j: int| 0 <= j < e.len() implies simple((#[trigger] e[j]).1, 97) by {}
    }
    assert(simple(kinds, 99));
    let e = profile_json(p)->Object_0;
    assert forall|j: int| 0 <= j < e.len() implies simple((#[trigger] e[j]).1, 99) by {}
}

/// The frame that a value says.
pub open spec fn frame_of(value: JsonView) -> Option<FrameView> {
    match record(
        value,
        seq!["raw"@, "function"@, "file"@, "line"@, "module"@, "address"@],
        false,
    ) {
        None => None,
        Some(f) => match (
            f[0],
            as_opt_text(f[1]),
            as_opt_text(f[2]),
            as_opt_number(f[3], 0, u32::MAX as int),
            as_opt_text(f[4]),
            as_opt_number(f[5], 0, u64::MAX as int),
        ) {
            (
                Some(JsonView::Text(raw)),
                Some(function),
                Some(file),
                Some(line),
                Some(module),
                Some(address),
            ) => Some(
                FrameView {
                    raw,
                    function,
                    file,
                    line: match line {
                        Some(line) => Some(line as u32),
                        None => None,
                    },
                    module,
                    address: match address {
                        Some(address) => Some(address as u64),
                        None => None,
                    },
                },
            ),
            _ => None,
        },
    }
}

/// The frame ids that an array says.
pub open spec fn stack_of(items: Seq<JsonView>) -> Option<Seq<FrameId>> {
    if forall|i: int|
        0 <= i < items.len() ==> as_number(#[trigger] items[i], 0, u32::MAX as int) is Some {
        Some(
            Seq::new(
                items.len(),
                |i: int| FrameId(as_number(items[i], 0, u32::MAX as int)->0 as u32),
            ),
        )
    } else {
        None
    }
}

/// The values that an array says.
pub open spec fn values_of(items: Seq<JsonView>) -> Option<Seq<i64>> {
    if forall|i: int|
        0 <= i < items.len() ==> as_number(
            #[trigger] items[i],
            i64::MIN as int,
            i64::MAX as int,
        ) is Some {
        Some(
            Seq::new(
                items.len(),
                |i: int| as_number(items[i], i64::MIN as int, i64::MAX as int)->0 as i64,
            ),
        )
    } else {
        None
    }
}

/// The sample that a value says.
pub open spec fn sample_of(value: JsonView) -> Option<SampleView> {
    match record(value, seq!["stack"@, "values"@], false) {
        None => None,
        Some(f) => match (f[0], f[1]) {
            (Some(JsonView::Array(stack)), Some(JsonView::Array(values))) => match (
                stack_of(stack),
                values_of(values),
            ) {
                (Some(stack), Some(values)) => Some(SampleView { stack, values }),
                _ => None,
            },
            _ => None,
        },
    }
}

/// The value kind that a value says.
pub open spec fn kind_of(value: JsonView) -> Option<ValueKindView> {
    match record(value, seq!["kind"@, "unit"@], false) {
        None => None,
        Some(f) => match (f[0], f[1]) {
            (Some(JsonView::Text(kind)), Some(JsonView::Text(unit))) => Some(
                ValueKindView { kind, unit },
            ),
            _ => None,
        },
    }
}

/// The frames that an array says.
pub open spec fn frames_of(items: Seq<JsonView>) -> Option<Seq<FrameView>> {
    if forall|i: int| 0 <= i < items.len() ==> frame_of(#[trigger] items[i]) is Some {
        Some(Seq::new(items.len(), |i: int| frame_of(items[i])->0))
    } else {
        None
    }
}

/// The samples that an array says.
pub open spec fn samples_of(items: Seq<JsonView>) -> Option<Seq<SampleView>> {
    if forall|i: int| 0 <= i < items.len() ==> sample_of(#[trigger] items[i]) is Some {
        Some(Seq::new(items.len(), |i: int| sample_of(items[i])->0))
    } else {
        None
    }
}

/// The value kinds that an array says.
pub open spec fn kinds_of(items: Seq<JsonView>) -> Option<Seq<ValueKindView>> {
    if forall|i: int| 0 <= i < items.len() ==> kind_of(#[trigger] items[i]) is Some {
        Some(Seq::new(items.len(), |i: int| kind_of(items[i])->0))
    } else {
        None
    }
}

/// The profile that a value says.
pub open spec fn profile_of(value: JsonView) -> Option<ProfileView> {
    match record(value, seq!["frame_intern"@, "samples"@, "value_kinds"@], false) {
        None => None,
        Some(f) => match (f[0], f[1], f[2]) {
            (
                Some(JsonView::Array(frames)),
                Some(JsonView::Array(samples)),
                Some(JsonView::Array(kinds)),
            ) => match (frames_of(frames), samples_of(samples), kinds_of(kinds)) {
                (Some(frames), Some(samples), Some(value_kinds)) => Some(
                    ProfileView { frames, samples, value_kinds },
                ),
                _ => None,
            },
            _ => None,
        },
    }
}

/// The profile in the value that a JSON text is parsed to.
pub open spec fn json_profile(bytes: Seq<u8>) -> Option<ProfileView> {
    match json_parse(bytes) {
        Some(value) => profile_of(value),
        None => None,
    }
}

fn read_frame(value: &serde_json::Value) -> (r: Option<Frame>)
    ensures
        match r {
            Some(frame) => frame_of(held(*value)) == Some(frame@),
            None => frame_of(held(*value)) is None,
        },
{
    let keys: &'static [&'static str] = &["raw", "function", "file", "line", "module", "address"];
    assert(word_list(keys@) =~= seq![
        "raw"@,
        "function"@,
        "file"@,
        "line"@,
        "module"@,
        "address"@,
    ]);
    let fields = match open_record(value, keys, false) {
        Some(fields) => fields,
        None => return None,
    };
    let ghost given = held_fields(fields@);
    assert(given.len() == 6);
    assert(given[0] == held_opt(fields@[0]));
    assert(given[1] == held_opt(fields@[1]));
    assert(given[2] == held_opt(fields@[2]));
    assert(given[3] == held_opt(fields@[3]));
    assert(given[4] == held_opt(fields@[4]));
    assert(given[5] == held_opt(fields@[5]));
    let raw = match fields[0] {
        Some(value) => match read_text(value) {
            Some(raw) => raw,
            None => return None,
        },
        None => return None,
    };
    let function = match read_opt_text(fields[1]) {
        Some(text) => text,
        None => return None,
    };
    let file = match read_opt_text(fields[2]) {
        Some(text) => text,
        None => return None,
    };
    let line: Option<u32> = match read_opt_unsigned(fields[3], u32::MAX as u64) {
        Some(Some(n)) => Some(n as u32),
        Some(None) => None,
        None => return None,
    };
    let module = match read_opt_text(fields[4]) {
        Some(text) => text,
        None => return None,
    };
    let address: Option<u64> = match read_opt_unsigned(fields[5], u64::MAX) {
        Some(n) => n,
        None => return None,
    };
    Some(Frame { raw, function, file, line, module, address })
}

fn read_stack(items: &Vec<serde_json::Value>) -> (r: Option<Vec<FrameId>>)
    ensures
        match r {
            Some(stack) => stack_of(held_all(items@)) == Some(stack@),
            None => stack_of(held_all(items@)) is None,
        },
{
    let ghost all = held_all(items@);
    let mut out: Vec<FrameId> = Vec::new();
    let mut i: usize = 0;
    while i < items.len()
        invariant
            i <= items.len(),
            all == held_all(items@),
            out@.len() == i,
            forall|j: int|
                0 <= j < i ==> as_number(#[trigger] all[j], 0, u32::MAX as int) == Some(
                    out@[j].0 as int,
                ),
        decreases items.len() - i,
    {
        assert(all[i as int] == held(items@[i as int]));
        match read_unsigned(&items[i], u32::MAX as u64) {
            Some(n) => {
                out.push(FrameId(n as u32));
            },
            None => {
                return None;
            },
        }
        i = i + 1;
    }
    assert(out@ =~= stack_of(all)->0);
    Some(out)
}

fn read_values(items: &Vec<serde_json::Value>) -> (r: Option<Vec<i64>>)
    ensures
        match r {
            Some(values) => values_of(held_all(items@)) == Some(values@),
            None => values_of(held_all(items@)) is None,
        },
{
    let ghost all = held_all(items@);
    let mut out: Vec<i64> = Vec::new();
    let mut i: usize = 0;
    while i < items.len()
        invariant
            i <= items.len(),
            all == held_all(items@),
            out@.len() == i,
            forall|j: int|
                0 <= j < i ==> as_number(#[trigger] all[j], i64::MIN as int, i64::MAX as int)
                    == Some(out@[j] as int),
        decreases items.len() - i,
    {
        assert(all[i as int] == held(items@[i as int]));
        match read_signed(&items[i]) {
            Some(n) => {
                out.push(n);
            },
            None => {
                return None;
            },
        }
        i = i + 1;
    }
    assert(out@ =~= values_of(all)->0);
    Some(out)
}

fn read_sample(value: &serde_json::Value) -> (r: Option<Sample>)
    ensures
        match r {
            Some(sample) => sample_of(held(*value)) == Some(sample@),
            None => sample_of(held(*value)) is None,
        },
{
    let keys: &'static [&'static str] = &["stack", "values"];
    assert(word_list(keys@) =~= seq!["stack"@, "values"@]);
    let fields = match open_record(value, keys, false) {
        Some(fields) => fields,
        None => return None,
    };
    let ghost given = held_fields(fields@);
    assert(given.len() == 2);
    assert(given[0] == held_opt(fields@[0]));
    assert(given[1] == held_opt(fields@[1]));
    let stack_items = match fields[0] {
        Some(value) => match read_array(value) {
            Some(items) => items,
            None => return None,
        },
        None => return None,
    };
    let value_items = match fields[1] {
        Some(value) => match read_array(value) {
            Some(items) => items,
            None => return None,
        },
        None => return None,
    };
    let stack = match read_stack(stack_items) {
        Some(stack) => stack,
        None => return None,
    };
    let values = match read_values(value_items) {
        Some(values) => values,
        None => return None,
    };
    Some(Sample { stack, values })
}

fn read_kind(value: &serde_json::Value) -> (r: Option<ValueKind>)
    ensures
        match r {
            Some(kind) => kind_of(held(*value)) == Some(kind@),
            None => kind_of(held(*value)) is None,
        },
{
    let keys: &'static [&'static str] = &["kind", "unit"];
    assert(word_list(keys@) =~= seq!["kind"@, "unit"@]);
    let fields = match open_record(value, keys, false) {
        Some(fields) => fields,
        None => return None,
    };
    let ghost given = held_fields(fields@);
    assert(given.len() == 2);
    assert(given[0] == held_opt(fields@[0]));
    assert(given[1] == held_opt(fields@[1]));
    let kind = match fields[0] {
        Some(value) => match read_text(value) {
            Some(text) => text,
            None => return None,
        },
        None => return None,
    };
    let unit = match fields[1] {
        Some(value) => match read_text(value) {
            Some(text) => text,
            None => return None,
        },
        None => return None,
    };
    Some(ValueKind { kind, unit })
}

fn read_frames(items: &Vec<serde_json::Value>) -> (r: Option<Vec<Frame>>)
    ensures
        match r {
            Some(list) => frames_of(held_all(items@)) == Some(views(list@)),
            None => frames_of(held_all(items@)) is None,
        },
{
    let ghost all = held_all(items@);
    let mut out: Vec<Frame> = Vec::new();
    let mut i: usize = 0;
    while i < items.len()
        invariant
            i <= items.len(),
            all == held_all(items@),
            out@.len() == i,
            forall|j: int| 0 <= j < i ==> frame_of(#[trigger] all[j]) == Some(out@[j]@),
        decreases items.len() - i,
    {
        assert(all[i as int] == held(items@[i as int]));
        match read_frame(&items[i]) {
            Some(item) => {
                out.push(item);
            },
            None => {
                return None;
            },
        }
        i = i + 1;
    }
    assert(views(out@) =~= frames_of(all)->0);
    Some(out)
}

fn read_samples(items: &Vec<serde_json::Value>) -> (r: Option<Vec<Sample>>)
    ensures
        match r {
            Some(list) => samples_of(held_all(items@)) == Some(views(list@)),
            None => samples_of(held_all(items@)) is None,
        },
{
    let ghost all = held_all(items@);
    let mut out: Vec<Sample> = Vec::new();
    let mut i: usize = 0;
    while i < items.len()
        invariant
            i <= items.len(),
            all == held_all(items@),
            out@.len() == i,
            forall|j: int| 0 <= j < i ==> sample_of(#[trigger] all[j]) == Some(out@[j]@),
        decreases items.len() - i,
    {
        assert(all[i as int] == held(items@[i as int]));
        match read_sample(&items[i]) {
            Some(item) => {
                out.push(item);
            },
            None => {
                return None;
            },
        }
        i = i + 1;
    }
    assert(views(out@) =~= samples_of(all)->0);
    Some(out)
}

fn read_kinds(items: &Vec<serde_json::Value>) -> (r: Option<Vec<ValueKind>>)
    ensures
        match r {
            Some(list) => kinds_of(held_all(items@)) == Some(views(list@)),
            None => kinds_of(held_all(items@)) is None,
        },
{
    let ghost all = held_all(items@);
    let mut out: Vec<ValueKind> = Vec::new();
    let mut i: usize = 0;
    while i < items.len()
        invariant
            i <= items.len(),
            all == held_all(items@),
            out@.len() == i,
            forall|j: int| 0 <= j < i ==> kind_of(#[trigger] all[j]) == Some(out@[j]@),
        decreases items.len() - i,
    {
        assert(all[i as int] == held(items@[i as int]));
        match read_kind(&items[i]) {
            Some(item) => {
                out.push(item);
            },
            None => {
                return None;
            },
        }
        i = i + 1;
    }
    assert(views(out@) =~= kinds_of(all)->0);
    Some(out)
}

/// Reads a profile from a JSON value.
pub fn read_value(value: &serde_json::Value) -> (r: Option<Profile>)
    ensures
        match r {
            Some(profile) => profile_of(held(*value)) == Some(profile@),
            None => profile_of(held(*value)) is None,
        },
{
    let keys: &'static [&'static str] = &["frame_intern", "samples", "value_kinds"];
    assert(word_list(keys@) =~= seq!["frame_intern"@, "samples"@, "value_kinds"@]);
    let fields = match open_record(value, keys, false) {
        Some(fields) => fields,
        None => return None,
    };
    let ghost given = held_fields(fields@);
    assert(given.len() == 3);
    assert(given[0] == held_opt(fields@[0]));
    assert(given[1] == held_opt(fields@[1]));
    assert(given[2] == held_opt(fields@[2]));
    let frame_items = match fields[0] {
        Some(value) => match read_array(value) {
            Some(items) => items,
            None => return None,
        },
        None => return None,
    };
    let sample_items = match fields[1] {
        Some(value) => match read_array(value) {
            Some(items) => items,
            None => return None,
        },
        None => return None,
    };
    let kind_items = match fields[2] {
        Some(value) => match read_array(value) {
            Some(items) => items,
            None => return None,
        },
        None => return None,
    };
    let frame_intern = match read_frames(frame_items) {
        Some(list) => list,
        None => return None,
    };
    let samples = match read_samples(sample_items) {
        Some(list) => list,
        None => return None,
    };
    let value_kinds = match read_kinds(kind_items) {
        Some(list) => list,
        None => return None,
    };
    Some(Profile { frame_intern, samples, value_kinds })
}

proof fn lemma_frame_reads_back(frame: FrameView)
    ensures
        frame_of(frame_json(frame)) == Some(frame),
{
    lemma_field_names();
    let e = frame_json(frame)->Object_0;
    let keys = seq!["raw"@, "function"@, "file"@, "line"@, "module"@, "address"@];
    reveal_with_fuel(entry, 7);
    let e5 = e.drop_last();
    let e4 = e5.drop_last();
    let e3 = e4.drop_last();
    let e2 = e3.drop_last();
    let e1 = e2.drop_last();
    assert(entry(e, "raw"@) == Some(e[0].1));
    assert(entry(e, "function"@) == Some(e[1].1));
    assert(entry(e, "file"@) == Some(e[2].1));
    assert(entry(e, "line"@) == Some(e[3].1));
    assert(entry(e, "module"@) == Some(e[4].1));
    assert(entry(e, "address"@) == Some(e[5].1));
    let f = record(frame_json(frame), keys, false)->0;
    assert(f[0] == Some(e[0].1));
    assert(f[1] == Some(e[1].1));
    assert(f[2] == Some(e[2].1));
    assert(f[3] == Some(e[3].1));
    assert(f[4] == Some(e[4].1));
    assert(f[5] == Some(e[5].1));
}

proof fn lemma_sample_reads_back(sample: SampleView)
    ensures
        sample_of(sample_json(sample)) == Some(sample),
{
    lemma_field_names();
    let e = sample_json(sample)->Object_0;
    reveal_with_fuel(entry, 3);
    let e1 = e.drop_last();
    assert(entry(e, "stack"@) == Some(e[0].1));
    assert(entry(e, "values"@) == Some(e[1].1));
    let f = record(sample_json(sample), seq!["stack"@, "values"@], false)->0;
    assert(f[0] == Some(stack_view(sample.stack)));
    assert(f[1] == Some(numbers_view(sample.values)));
    let stack = stack_view(sample.stack)->Array_0;
    let values = numbers_view(sample.values)->Array_0;
    assert(stack_of(stack)->0 =~= sample.stack);
    assert(values_of(values)->0 =~= sample.values);
}

proof fn lemma_kind_reads_back(kind: ValueKindView)
    ensures
        kind_of(kind_json(kind)) == Some(kind),
{
    lemma_field_names();
    let e = kind_json(kind)->Object_0;
    reveal_with_fuel(entry, 3);
    let e1 = e.drop_last();
    assert(entry(e, "kind"@) == Some(e[0].1));
    assert(entry(e, "unit"@) == Some(e[1].1));
    let f = record(kind_json(kind), seq!["kind"@, "unit"@], false)->0;
    assert(f[0] == Some(JsonView::Text(kind.kind)));
    assert(f[1] == Some(JsonView::Text(kind.unit)));
}

/// The JSON of a profile carries exactly what the profile does: the profile is
/// read back from it, whatever it holds.
pub proof fn law_json_carries_the_profile(p: ProfileView)
    ensures
        profile_of(profile_json(p)) == Some(p),
{
    lemma_field_names();
    let value = profile_json(p);
    let e = value->Object_0;
    reveal_with_fuel(entry, 4);
    let e2 = e.drop_last();
    let e1 = e2.drop_last();
    assert(entry(e, "frame_intern"@) == Some(e[0].1));
    assert(entry(e, "samples"@) == Some(e[1].1));
    assert(entry(e, "value_kinds"@) == Some(e[2].1));
    let f = record(value, seq!["frame_intern"@, "samples"@, "value_kinds"@], false)->0;
    assert(f[0] == Some(frames_json(p.frames)));
    assert(f[1] == Some(samples_json(p.samples)));
    assert(f[2] == Some(kinds_json(p.value_kinds)));
    let frames = frames_json(p.frames)->Array_0;
    let samples = samples_json(p.samples)->Array_0;
    let kinds = kinds_json(p.value_kinds)->Array_0;
    assert forall|i: int| 0 <= i < frames.len() implies frame_of(#[trigger] frames[i]) == Some(
        p.frames[i],
    ) by {
        lemma_frame_reads_back(p.frames[i]);
    }
    assert forall|i: int| 0 <= i < samples.len() implies sample_of(#[trigger] samples[i]) == Some(
        p.samples[i],
    ) by {
        lemma_sample_reads_back(p.samples[i]);
    }
    assert forall|i: int| 0 <= i < kinds.len() implies kind_of(#[trigger] kinds[i]) == Some(
        p.value_kinds[i],
    ) by {
        lemma_kind_reads_back(p.value_kinds[i]);
    }
    assert(frames_of(frames)->0 =~= p.frames);
    assert(samples_of(samples)->0 =~= p.samples);
    assert(kinds_of(kinds)->0 =~= p.value_kinds);
}

impl OutputFormat for JsonFormat {
    open spec fn out_name(&self) -> Seq<char> {
        "json"@
    }

    open spec fn out_extensions(&self) -> Seq<Seq<char>> {
        seq!["json"@]
    }

    open spec fn rendering(&self, profile: ProfileView, options: WriteOptions) -> std::result::Result<
        Seq<u8>,
        ErrorView,
    > {
        Ok(json_text(profile_json(profile), options.pretty))
    }

    fn name(&self) -> (r: &'static str) {
        "json"
    }

    fn extensions(&self) -> (r: &'static [&'static str]) {
        let r: &'static [&'static str] = &["json"];
        assert(word_list(r@) =~= seq!["json"@]);
        r
    }

    /// What is written reads back as the profile, pretty or not. Pretty output
    /// goes over several lines, and other output does not.
    fn write(&self, profile: &Profile, options: WriteOptions) -> (r: Result<Vec<u8>>)
        ensures
            r matches Ok(bytes) ==> json_profile(bytes@) == Some(profile@),
            r matches Ok(bytes) ==> (bytes@.contains(0x0a) <==> options.pretty),
    {
        proof {
            lemma_profile_is_simple(profile@);
            law_json_carries_the_profile(profile@);
        }
        print_json(&profile_value(profile), options.pretty)
    }
}

} // verus!
