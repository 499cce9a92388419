//! The speedscope JSON format (`speedscope.app`).
//!
//! This is currently an output-only format. The internal model can hold several
//! value series per sample; rather than drop all but the first (as folded must)
//! we emit one `sampled` profile per [`ValueKind`], all sharing the same frame
//! table, so no information is lost and the viewer can switch between series.
//!
//! Speedscope has no extension that uniquely identifies it - files
//! conventionally end in `.speedscope.json`, whose final component is the
//! `json` already claimed by [`JsonFormat`](crate::json_format::JsonFormat) -
//! so it is selected by name (`--to speedscope`) rather than inferred from a
//! path.
//!
//! See <https://github.com/jlfwong/speedscope/blob/main/src/lib/file-format-spec.ts>.

use vstd::prelude::*;

use crate::error::{outcome, ErrorView, ProfcastError, Result};
use crate::format::{OutputFormat, WriteOptions};
use crate::json::{
    array_value, held, held_all, held_entries, json_parse, numbers_value, numbers_view,
    object_value, print_json, json_text, signed_value, simple, stack_value, stack_view, text_value,
    unsigned_value, JsonView,
};
use crate::model::{
    dangling_message, dangling_text, find_dangling, first_dangling, lemma_first_dangling, Frame,
    FrameView, Profile, ProfileView,
};
use crate::number::{
    add_saturating, decimal, hexadecimal, push_decimal, push_hexadecimal, saturated,
};
use crate::path::word_list;
use crate::text::same_text;

verus! {

/// The schema URL speedscope stamps onto, and recognises in, its files.
pub const SCHEMA_URL: &'static str = "https://www.speedscope.app/file-format-schema.json";

/// The speedscope format. Stateless, so this is a zero-sized marker that
/// implements [`OutputFormat`].
#[derive(Debug, Clone, Copy)]
pub struct SpeedscopeFormat;

impl Default for SpeedscopeFormat {
    fn default() -> (r: Self)
        ensures
            r == SpeedscopeFormat,
    {
        SpeedscopeFormat
    }
}

/// The speedscope unit for a unit of the model. Speedscope only understands a
/// fixed set; anything else is `none`.
pub open spec fn unit_of(unit: Seq<char>) -> Seq<char> {
    if unit == "nanoseconds"@ || unit == "microseconds"@ || unit == "milliseconds"@ || unit
        == "seconds"@ || unit == "bytes"@ {
        unit
    } else {
        "none"@
    }
}

/// Maps a model [`ValueKind`] unit onto one of speedscope's recognised units.
///
/// Speedscope only understands a fixed set; anything else (notably `count`)
/// falls back to `none`, which renders weights as bare numbers.
pub fn speedscope_unit(unit: &str) -> (r: &'static str)
    ensures
        r@ == unit_of(unit@),
{
    if same_text(unit, "nanoseconds") {
        "nanoseconds"
    } else if same_text(unit, "microseconds") {
        "microseconds"
    } else if same_text(unit, "milliseconds") {
        "milliseconds"
    } else if same_text(unit, "seconds") {
        "seconds"
    } else if same_text(unit, "bytes") {
        "bytes"
    } else {
        "none"
    }
}

/// The display name for a frame: its symbol, then its label, then its module,
/// then its address in hexadecimal, then a placeholder. An empty text names
/// nothing, and is passed over.
pub open spec fn display_name(frame: FrameView) -> Seq<char> {
    if frame.function matches Some(function) && function.len() > 0 {
        frame.function->0
    } else if frame.raw.len() > 0 {
        frame.raw
    } else if frame.module matches Some(module) && module.len() > 0 {
        frame.module->0
    } else {
        match frame.address {
            Some(address) => "0x"@ + hexadecimal(address as nat),
            None => "unknown"@,
        }
    }
}

/// Picks the speedscope display name for a [`Frame`].
///
/// Speedscope requires every frame to have a name, so this prefers the symbol
/// (function name), then the original `raw` label, then the module, then a hex
/// address, and finally a placeholder so a frame is never anonymous.
pub fn frame_name(frame: &Frame) -> (r: String)
    ensures
        r@ == display_name(frame@),
        r@.len() > 0,
{
    proof {
        reveal_strlit("0x");
        reveal_strlit("unknown");
    }
    if let Some(function) = &frame.function {
        if !function.as_str().is_empty() {
            return function.clone();
        }
    }
    if !frame.raw.as_str().is_empty() {
        return frame.raw.clone();
    }
    if let Some(module) = &frame.module {
        if !module.as_str().is_empty() {
            return module.clone();
        }
    }
    if let Some(address) = frame.address {
        let mut hex: String = "0x".to_owned();
        push_hexadecimal(&mut hex, address);
        return hex;
    }
    "unknown".to_owned()
}

/// The sum of integers, held within the range at every step.
pub open spec fn saturating_sum(values: Seq<i64>) -> i64
    decreases values.len(),
{
    if values.len() == 0 {
        0
    } else {
        saturated(saturating_sum(values.drop_last()) + values.last())
    }
}

/// What is wrong with the stacks of the samples from `index` on, told of the
/// first that points outside the frame table.
pub open spec fn stack_fault(p: ProfileView, index: int) -> Option<Seq<char>>
    decreases p.samples.len() - index,
{
    if index < 0 || index >= p.samples.len() {
        None
    } else {
        let stack = p.samples[index].stack;
        let bad = first_dangling(stack, p.frames.len());
        if bad < stack.len() {
            Some(dangling_message(index as nat, stack[bad].0 as nat, p.frames.len()))
        } else {
            stack_fault(p, index + 1)
        }
    }
}

pub open spec fn missing_value_message(index: nat, series: nat, kind: Seq<char>) -> Seq<char> {
    "sample "@ + decimal(index) + " has no value for series "@ + decimal(series) + " ('"@ + kind
        + "')"@
}

/// What is wrong with one value series of the samples from `index` on.
pub open spec fn series_fault(p: ProfileView, series: int, index: int) -> Option<Seq<char>>
    decreases p.samples.len() - index,
{
    if index < 0 || index >= p.samples.len() {
        None
    } else if series >= p.samples[index].values.len() {
        Some(missing_value_message(index as nat, series as nat, p.value_kinds[series].kind))
    } else {
        series_fault(p, series, index + 1)
    }
}

/// What is wrong with the value series from `series` on.
pub open spec fn kinds_fault(p: ProfileView, series: int) -> Option<Seq<char>>
    decreases p.value_kinds.len() - series,
{
    if series < 0 || series >= p.value_kinds.len() {
        None
    } else {
        match series_fault(p, series, 0) {
            Some(message) => Some(message),
            None => kinds_fault(p, series + 1),
        }
    }
}

/// The weights of the samples in one value series.
pub open spec fn series_weights(p: ProfileView, series: int) -> Seq<i64> {
    Seq::new(p.samples.len(), |i: int| p.samples[i].values[series])
}

/// The stacks of the samples.
pub open spec fn stacks_json(p: ProfileView) -> JsonView {
    JsonView::Array(Seq::new(p.samples.len(), |i: int| stack_view(p.samples[i].stack)))
}

/// The `sampled` profile for one value series.
pub open spec fn series_json(p: ProfileView, series: int) -> JsonView {
    let weights = series_weights(p, series);
    JsonView::Object(
        seq![
            ("type"@, JsonView::Text("sampled"@)),
            ("name"@, JsonView::Text(p.value_kinds[series].kind)),
            ("unit"@, JsonView::Text(unit_of(p.value_kinds[series].unit))),
            ("startValue"@, JsonView::Number(0)),
            ("endValue"@, JsonView::Number(saturating_sum(weights) as int)),
            ("samples"@, stacks_json(p)),
            ("weights"@, numbers_view(weights)),
        ],
    )
}

/// The entries of a frame in the frame table: what is not known is left out.
pub open spec fn frame_entries(frame: FrameView) -> Seq<(Seq<char>, JsonView)> {
    let named = seq![("name"@, JsonView::Text(display_name(frame)))];
    let filed = match frame.file {
        Some(file) => named.push(("file"@, JsonView::Text(file))),
        None => named,
    };
    match frame.line {
        Some(line) => filed.push(("line"@, JsonView::Number(line as int))),
        None => filed,
    }
}

/// The frame table.
pub open spec fn frame_table_json(frames: Seq<FrameView>) -> JsonView {
    JsonView::Array(
        Seq::new(frames.len(), |i: int| JsonView::Object(frame_entries(frames[i]))),
    )
}

/// The profiles, one per value series.
pub open spec fn profiles_json(p: ProfileView) -> JsonView {
    JsonView::Array(Seq::new(p.value_kinds.len(), |i: int| series_json(p, i)))
}

/// The whole file.
pub open spec fn file_json(p: ProfileView) -> JsonView {
    JsonView::Object(
        seq![
            ("$schema"@, JsonView::Text(SCHEMA_URL@)),
            ("exporter"@, JsonView::Text("profcast"@)),
            ("name"@, JsonView::Text("profile"@)),
            ("activeProfileIndex"@, JsonView::Number(0)),
            ("shared"@, JsonView::Object(seq![("frames"@, frame_table_json(p.frames))])),
            ("profiles"@, profiles_json(p)),
        ],
    )
}

/// What is wrong with a profile that cannot be written: first the stacks, then
/// the value series in their order.
pub open spec fn write_fault(p: ProfileView) -> Option<Seq<char>> {
    match stack_fault(p, 0) {
        Some(message) => Some(message),
        None => kinds_fault(p, 0),
    }
}

/// The bytes for a profile.
pub open spec fn speedscope_rendering(p: ProfileView, pretty: bool) -> std::result::Result<
    Seq<u8>,
    ErrorView,
> {
    match write_fault(p) {
        Some(message) => Err(ErrorView::InvalidProfile(message)),
        None => Ok(json_text(file_json(p), pretty)),
    }
}

pub proof fn lemma_names()
    ensures
        "type"@ != "name"@,
        "type"@ != "unit"@,
        "type"@ != "startValue"@,
        "type"@ != "endValue"@,
        "type"@ != "samples"@,
        "type"@ != "weights"@,
        "name"@ != "unit"@,
        "name"@ != "startValue"@,
        "name"@ != "endValue"@,
        "name"@ != "samples"@,
        "name"@ != "weights"@,
        "unit"@ != "startValue"@,
        "unit"@ != "endValue"@,
        "unit"@ != "samples"@,
        "unit"@ != "weights"@,
        "startValue"@ != "endValue"@,
        "startValue"@ != "samples"@,
        "startValue"@ != "weights"@,
        "endValue"@ != "samples"@,
        "endValue"@ != "weights"@,
        "samples"@ != "weights"@,
        "name"@ != "file"@,
        "name"@ != "line"@,
        "file"@ != "line"@,
{
    reveal_strlit("type");
    assert("type"@.len() == 4);
    reveal_strlit("name");
    assert("name"@.len() == 4);
    reveal_strlit("unit");
    assert("unit"@.len() == 4);
    reveal_strlit("startValue");
    assert("startValue"@.len() == 10);
    reveal_strlit("endValue");
    assert("endValue"@.len() == 8);
    reveal_strlit("samples");
    assert("samples"@.len() == 7);
    reveal_strlit("weights");
    assert("weights"@.len() == 7);
    reveal_strlit("file");
    reveal_strlit("line");
    assert("type"@[0] == 't');
    assert("name"@[0] == 'n');
    assert("unit"@[0] == 'u');
    assert("samples"@[0] == 's');
    assert("weights"@[0] == 'w');
    assert("file"@[0] == 'f');
    assert("line"@[0] == 'l');
}

pub proof fn lemma_file_names()
    ensures
        "$schema"@ != "exporter"@,
        "$schema"@ != "name"@,
        "$schema"@ != "activeProfileIndex"@,
        "$schema"@ != "shared"@,
        "$schema"@ != "profiles"@,
        "exporter"@ != "name"@,
        "exporter"@ != "activeProfileIndex"@,
        "exporter"@ != "shared"@,
        "exporter"@ != "profiles"@,
        "name"@ != "activeProfileIndex"@,
        "name"@ != "shared"@,
        "name"@ != "profiles"@,
        "activeProfileIndex"@ != "shared"@,
        "activeProfileIndex"@ != "profiles"@,
        "shared"@ != "profiles"@,
{
    reveal_strlit("$schema");
    assert("$schema"@.len() == 7);
    reveal_strlit("exporter");
    assert("exporter"@.len() == 8);
    reveal_strlit("name");
    assert("name"@.len() == 4);
    reveal_strlit("activeProfileIndex");
    assert("activeProfileIndex"@.len() == 18);
    reveal_strlit("shared");
    assert("shared"@.len() == 6);
    reveal_strlit("profiles");
    assert("profiles"@.len() == 8);
    assert("exporter"@[0] == 'e');
    assert("profiles"@[0] == 'p');
}

/// Checks that every stack points into the frame table, matching the guard the
/// other writers apply.
fn resolve_stacks(profile: &Profile) -> (r: Result<()>)
    ensures
        match stack_fault(profile@, 0) {
            None => r is Ok,
            Some(message) => outcome(r) == Err::<(), ErrorView>(ErrorView::InvalidProfile(message)),
        },
{
    let frame_count: usize = profile.frame_intern.len();
    let mut index: usize = 0;
    while index < profile.samples.len()
        invariant
            index <= profile.samples.len(),
            frame_count == profile.frame_intern.len(),
            stack_fault(profile@, 0) == stack_fault(profile@, index as int),
        decreases profile.samples.len() - index,
    {
        let sample = &profile.samples[index];
        assert(profile@.samples[index as int] == sample@);
        let bad: usize = find_dangling(&sample.stack, frame_count);
        if bad < sample.stack.len() {
            let message = dangling_text(index, sample.stack[bad].0, frame_count);
            return Err(ProfcastError::InvalidProfile(message));
        }
        index = index + 1;
    }
    Ok(())
}

/// The stacks as a JSON value.
fn stacks_value(profile: &Profile) -> (r: serde_json::Value)
    ensures
        held(r) == stacks_json(profile@),
{
    let mut items: Vec<serde_json::Value> = Vec::new();
    let mut i: usize = 0;
    while i < profile.samples.len()
        invariant
            i <= profile.samples.len(),
            items@.len() == i,
            forall|j: int|
                0 <= j < i ==> held(#[trigger] items@[j]) == stack_view(profile@.samples[j].stack),
        decreases profile.samples.len() - i,
    {
        items.push(stack_value(&profile.samples[i].stack));
        i = i + 1;
    }
    assert(held_all(items@) =~= stacks_json(profile@)->Array_0);
    array_value(items)
}

/// The weights of the samples in one value series.
fn collect_weights(profile: &Profile, series: usize) -> (r: Result<Vec<i64>>)
    requires
        series < profile.value_kinds@.len(),
    ensures
        match series_fault(profile@, series as int, 0) {
            None => r matches Ok(weights) && weights@ == series_weights(profile@, series as int),
            Some(message) => r matches Err(error) && error@ == ErrorView::InvalidProfile(message),
        },
{
    let mut weights: Vec<i64> = Vec::new();
    let mut index: usize = 0;
    while index < profile.samples.len()
        invariant
            index <= profile.samples.len(),
            series < profile.value_kinds@.len(),
            weights@.len() == index,
            series_fault(profile@, series as int, 0) == series_fault(
                profile@,
                series as int,
                index as int,
            ),
            forall|j: int|
                0 <= j < index ==> #[trigger] weights@[j]
                    == profile@.samples[j].values[series as int],
        decreases profile.samples.len() - index,
    {
        let sample = &profile.samples[index];
        assert(profile@.samples[index as int] == sample@);
        if series >= sample.values.len() {
            let mut message: String = "sample ".to_owned();
            push_decimal(&mut message, index as u64);
            message.push_str(" has no value for series ");
            push_decimal(&mut message, series as u64);
            message.push_str(" ('");
            message.push_str(profile.value_kinds[series].kind.as_str());
            message.push_str("')");
            return Err(ProfcastError::InvalidProfile(message));
        }
        weights.push(sample.values[series]);
        index = index + 1;
    }
    assert(weights@ =~= series_weights(profile@, series as int));
    Ok(weights)
}

/// The sum of integers, held within the range at every step.
fn sum_weights(weights: &Vec<i64>) -> (r: i64)
    ensures
        r == saturating_sum(weights@),
{
    let mut sum: i64 = 0;
    let mut i: usize = 0;
    assert(weights@.take(0) =~= Seq::empty());
    while i < weights.len()
        invariant
            i <= weights.len(),
            sum == saturating_sum(weights@.take(i as int)),
        decreases weights.len() - i,
    {
        assert(weights@.take(i + 1).drop_last() =~= weights@.take(i as int));
        sum = add_saturating(sum, weights[i]);
        i = i + 1;
    }
    assert(weights@.take(i as int) =~= weights@);
    sum
}

/// Builds the `sampled` profile for value series `series`, with the stacks that
/// all series share. The weight of each sample is its value in that series.
fn build_profile(profile: &Profile, series: usize) -> (r: Result<serde_json::Value>)
    requires
        series < profile.value_kinds@.len(),
    ensures
        match series_fault(profile@, series as int, 0) {
            None => r matches Ok(value) && held(value) == series_json(profile@, series as int),
            Some(message) => r matches Err(error) && error@ == ErrorView::InvalidProfile(message),
        },
{
    let weights = match collect_weights(profile, series) {
        Ok(weights) => weights,
        Err(error) => return Err(error),
    };
    let kind = &profile.value_kinds[series];
    assert(profile@.value_kinds[series as int] == kind@);
    let end_value: i64 = sum_weights(&weights);
    let mut entries: Vec<(String, serde_json::Value)> = Vec::new();
    entries.push(("type".to_owned(), text_value("sampled")));
    entries.push(("name".to_owned(), text_value(kind.kind.as_str())));
    entries.push(("unit".to_owned(), text_value(speedscope_unit(kind.unit.as_str()))));
    entries.push(("startValue".to_owned(), signed_value(0)));
    entries.push(("endValue".to_owned(), signed_value(end_value)));
    entries.push(("samples".to_owned(), stacks_value(profile)));
    entries.push(("weights".to_owned(), numbers_value(&weights)));
    proof {
        lemma_names();
        assert(held_entries(entries@) =~= series_json(profile@, series as int)->Object_0);
    }
    Ok(object_value(entries))
}

fn frame_value(frame: &Frame) -> (r: serde_json::Value)
    ensures
        held(r) == JsonView::Object(frame_entries(frame@)),
{
    let mut entries: Vec<(String, serde_json::Value)> = Vec::new();
    entries.push(("name".to_owned(), text_value(frame_name(frame).as_str())));
    if let Some(file) = &frame.file {
        entries.push(("file".to_owned(), text_value(file.as_str())));
    }
    if let Some(line) = frame.line {
        entries.push(("line".to_owned(), unsigned_value(line as u64)));
    }
    proof {
        lemma_names();
        assert(held_entries(entries@) =~= frame_entries(frame@));
    }
    object_value(entries)
}

fn frame_table_value(frames: &Vec<Frame>) -> (r: serde_json::Value)
    ensures
        held(r) == frame_table_json(crate::model::views(frames@)),
{
    let ghost all = crate::model::views(frames@);
    let mut items: Vec<serde_json::Value> = Vec::new();
    let mut i: usize = 0;
    while i < frames.len()
        invariant
            i <= frames.len(),
            all == crate::model::views(frames@),
            items@.len() == i,
            forall|j: int|
                0 <= j < i ==> held(#[trigger] items@[j]) == JsonView::Object(
                    frame_entries(all[j]),
                ),
        decreases frames.len() - i,
    {
        items.push(frame_value(&frames[i]));
        i = i + 1;
    }
    assert(held_all(items@) =~= frame_table_json(all)->Array_0);
    array_value(items)
}

/// The whole file as a JSON value.
pub fn file_value(profile: &Profile) -> (r: Result<serde_json::Value>)
    ensures
        match write_fault(profile@) {
            None => r matches Ok(value) && held(value) == file_json(profile@),
            Some(message) => r matches Err(error) && error@ == ErrorView::InvalidProfile(message),
        },
{
    if let Err(error) = resolve_stacks(profile) {
        return Err(error);
    }
    let mut profiles: Vec<serde_json::Value> = Vec::new();
    let mut series: usize = 0;
    while series < profile.value_kinds.len()
        invariant
            series <= profile.value_kinds.len(),
            stack_fault(profile@, 0) is None,
            kinds_fault(profile@, 0) == kinds_fault(profile@, series as int),
            profiles@.len() == series,
            forall|j: int|
                0 <= j < series ==> held(#[trigger] profiles@[j]) == series_json(profile@, j),
        decreases profile.value_kinds.len() - series,
    {
        match build_profile(profile, series) {
            Ok(value) => {
                profiles.push(value);
            },
            Err(error) => {
                return Err(error);
            },
        }
        series = series + 1;
    }
    assert(held_all(profiles@) =~= profiles_json(profile@)->Array_0);
    let mut shared: Vec<(String, serde_json::Value)> = Vec::new();
    shared.push(("frames".to_owned(), frame_table_value(&profile.frame_intern)));
    assert(held_entries(shared@) =~= seq![("frames"@, frame_table_json(profile@.frames))]);
    let mut entries: Vec<(String, serde_json::Value)> = Vec::new();
    entries.push(("$schema".to_owned(), text_value(SCHEMA_URL)));
    entries.push(("exporter".to_owned(), text_value("profcast")));
    entries.push(("name".to_owned(), text_value("profile")));
    entries.push(("activeProfileIndex".to_owned(), unsigned_value(0)));
    entries.push(("shared".to_owned(), object_value(shared)));
    entries.push(("profiles".to_owned(), array_value(profiles)));
    proof {
        lemma_file_names();
        assert(held_entries(entries@) =~= file_json(profile@)->Object_0);
    }
    Ok(object_value(entries))
}

impl OutputFormat for SpeedscopeFormat {
    open spec fn out_name(&self) -> Seq<char> {
        "speedscope"@
    }

    open spec fn out_extensions(&self) -> Seq<Seq<char>> {
        Seq::empty()
    }

    open spec fn rendering(&self, profile: ProfileView, options: WriteOptions) -> std::result::Result<
        Seq<u8>,
        ErrorView,
    > {
        speedscope_rendering(profile, options.pretty)
    }

    fn name(&self) -> (r: &'static str) {
        "speedscope"
    }

    fn extensions(&self) -> (r: &'static [&'static str]) {
        let r: &'static [&'static str] = &[];
        assert(word_list(r@) =~= Seq::empty());
        r
    }

    /// What is written parses as the speedscope file of the profile. Pretty
    /// output goes over several lines, and other output does not.
    fn write(&self, profile: &Profile, options: WriteOptions) -> (r: Result<Vec<u8>>)
        ensures
            r matches Ok(bytes) ==> json_parse(bytes@) == Some(file_json(profile@)),
            r matches Ok(bytes) ==> (bytes@.contains(0x0a) <==> options.pretty),
    {
        match file_value(profile) {
            Ok(value) => {
                proof {
                    lemma_file_is_simple(profile@);
                }
                print_json(&value, options.pretty)
            },
            Err(error) => Err(error),
        }
    }
}

proof fn lemma_file_is_simple(p: ProfileView)
    ensures
        simple(file_json(p), 100),
{
    let frames = frame_table_json(p.frames);
    assert forall|i: int| 0 <= i < p.frames.len() implies simple(
        #[trigger] frames->Array_0[i],
        97,
    ) by {
        let e = frame_entries(p.frames[i]);
        assert forall|j: int| 0 <= j < e.len() implies simple((#[trigger] e[j]).1, 96) by {}
    }
    assert(simple(frames, 98));
    let shared = seq![("frames"@, frames)];
    assert forall|j: int| 0 <= j < shared.len() implies simple((#[trigger] shared[j]).1, 98) by {}
    assert(simple(JsonView::Object(shared), 99));
    let stacks = stacks_json(p);
    assert forall|i: int| 0 <= i < p.samples.len() implies simple(
        #[trigger] stacks->Array_0[i],
        96,
    ) by {
        let s = stack_view(p.samples[i].stack)->Array_0;
        assert forall|j: int| 0 <= j < s.len() implies simple(#[trigger] s[j], 95) by {}
    }
    assert(simple(stacks, 97));
    let profiles = profiles_json(p);
    assert forall|i: int| 0 <= i < p.value_kinds.len() implies simple(
        #[trigger] profiles->Array_0[i],
        98,
    ) by {
        let e = series_json(p, i)->Object_0;
        let w = numbers_view(series_weights(p, i))->Array_0;
        assert forall|j: int| 0 <= j < w.len() implies simple(#[trigger] w[j], 96) by {}
        assert(simple(numbers_view(series_weights(p, i)), 97));
        assert forall|j: int| 0 <= j < e.len() implies simple((#[trigger] e[j]).1, 97) by {}
    }
    assert(simple(profiles, 99));
    let e = file_json(p)->Object_0;
    assert forall|j: int| 0 <= j < e.len() implies simple((#[trigger] e[j]).1, 99) by {}
}

proof fn lemma_no_stack_fault(p: ProfileView, index: int)
    requires
        p.valid(),
        0 <= index <= p.samples.len(),
    ensures
        stack_fault(p, index) is None,
    decreases p.samples.len() - index,
{
    if index < p.samples.len() {
        assert(p.samples[index].fits(p.frames.len(), p.value_kinds.len()));
        lemma_first_dangling(p.samples[index].stack, p.frames.len());
        lemma_no_stack_fault(p, index + 1);
    }
}

proof fn lemma_no_series_fault(p: ProfileView, series: int, index: int)
    requires
        p.valid(),
        0 <= series < p.value_kinds.len(),
        0 <= index <= p.samples.len(),
    ensures
        series_fault(p, series, index) is None,
    decreases p.samples.len() - index,
{
    if index < p.samples.len() {
        assert(p.samples[index].fits(p.frames.len(), p.value_kinds.len()));
        lemma_no_series_fault(p, series, index + 1);
    }
}

proof fn lemma_no_kinds_fault(p: ProfileView, series: int)
    requires
        p.valid(),
        0 <= series <= p.value_kinds.len(),
    ensures
        kinds_fault(p, series) is None,
    decreases p.value_kinds.len() - series,
{
    if series < p.value_kinds.len() {
        lemma_no_series_fault(p, series, 0);
        lemma_no_kinds_fault(p, series + 1);
    }
}

/// Every valid profile can be written: there is one profile per value series,
/// with the same stacks and as many weights as samples, over one frame table.
pub proof fn law_every_series_is_written(p: ProfileView)
    requires
        p.valid(),
    ensures
        write_fault(p) is None,
        profiles_json(p)->Array_0.len() == p.value_kinds.len(),
        frame_table_json(p.frames)->Array_0.len() == p.frames.len(),
        forall|k: int|
            0 <= k < p.value_kinds.len() ==> (#[trigger] series_weights(p, k)).len()
                == p.samples.len(),
        forall|k: int, i: int|
            #![trigger series_weights(p, k)[i]]
            0 <= k < p.value_kinds.len() && 0 <= i < p.samples.len() ==> series_weights(p, k)[i]
                == p.samples[i].values[k],
        forall|k: int|
            0 <= k < p.value_kinds.len() ==> (#[trigger] series_json(p, k))->Object_0[5]
                == ("samples"@, stacks_json(p)),
{
    lemma_no_stack_fault(p, 0);
    lemma_no_kinds_fault(p, 0);
}

} // verus!
