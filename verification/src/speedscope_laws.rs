//! What holds of the speedscope form of a profile, member by member.

use vstd::prelude::*;

use crate::error::ErrorView;
use crate::json::{json_text, JsonView};
use crate::json_laws::{lacks, member};
use crate::model::{
    dangling_message, first_dangling, lemma_first_dangling, FrameView, ProfileView,
};
use crate::number::hexadecimal;
use crate::speedscope::{
    display_name, file_json, frame_entries, kinds_fault, lemma_file_names, lemma_names,
    missing_value_message, saturating_sum, series_fault, series_json, speedscope_rendering,
    stack_fault, unit_of,
};

verus! {

/// A frame is named by the first of these that is there and not empty: its
/// function, its label, its module, its address, and else `unknown`. Nothing
/// that comes later matters, so a frame is never without a name.
pub proof fn law_frames_are_named_by_what_is_known(frame: FrameView, other: FrameView)
    ensures
        display_name(frame).len() > 0,
        frame.function is Some && frame.function->0.len() > 0 ==> display_name(frame)
            == frame.function->0 && display_name(FrameView { function: frame.function, ..other })
            == frame.function->0,
        frame.raw.len() > 0 ==> display_name(FrameView { function: None, ..frame }) == frame.raw
            && display_name(FrameView { function: Some(Seq::empty()), ..frame }) == frame.raw,
        frame.module is Some && frame.module->0.len() > 0 ==> display_name(
            FrameView { function: None, raw: Seq::empty(), ..frame },
        ) == frame.module->0,
        frame.address is Some ==> display_name(
            FrameView { function: None, raw: Seq::empty(), module: None, ..frame },
        ) == "0x"@ + hexadecimal(frame.address->0 as nat),
        display_name(
            FrameView { function: None, raw: Seq::empty(), module: None, address: None, ..frame },
        ) == "unknown"@,
{
    reveal_strlit("unknown");
    reveal_strlit("0x");
}

/// The names that the two viewers show of a frame are the same.
pub proof fn law_viewers_name_frames_alike(frame: FrameView)
    ensures
        crate::chrometrace::display_name(frame) == display_name(frame),
{
}

/// The units that speedscope knows are kept, and every other is `none`.
pub proof fn law_known_units_are_kept(unit: Seq<char>)
    ensures
        unit == "nanoseconds"@ ==> unit_of(unit) == unit,
        unit == "microseconds"@ ==> unit_of(unit) == unit,
        unit == "milliseconds"@ ==> unit_of(unit) == unit,
        unit == "seconds"@ ==> unit_of(unit) == unit,
        unit == "bytes"@ ==> unit_of(unit) == unit,
        unit_of(unit) == unit || unit_of(unit) == "none"@,
        unit != "nanoseconds"@ && unit != "microseconds"@ && unit != "milliseconds"@ && unit
            != "seconds"@ && unit != "bytes"@ ==> unit_of(unit) == "none"@,
{
}

/// The sum of integers.
pub open spec fn total(values: Seq<i64>) -> int
    decreases values.len(),
{
    if values.len() == 0 {
        0
    } else {
        values[0] + total(values.skip(1))
    }
}

proof fn lemma_total_push(values: Seq<i64>, value: i64)
    ensures
        total(values.push(value)) == total(values) + value,
    decreases values.len(),
{
    let all = values.push(value);
    if values.len() == 0 {
        assert(all.skip(1) =~= Seq::empty());
        assert(total(all.skip(1)) == 0);
    } else {
        assert(all.skip(1) =~= values.skip(1).push(value));
        lemma_total_push(values.skip(1), value);
    }
}

/// Weights that are not negative add up to their sum, or to the largest integer
/// where the sum is larger.
pub proof fn law_weights_add_up(values: Seq<i64>)
    requires
        forall|i: int| 0 <= i < values.len() ==> #[trigger] values[i] >= 0,
    ensures
        total(values) >= 0,
        total(values) <= i64::MAX ==> saturating_sum(values) == total(values),
        total(values) > i64::MAX ==> saturating_sum(values) == i64::MAX,
    decreases values.len(),
{
    if values.len() > 0 {
        let front = values.drop_last();
        assert forall|i: int| 0 <= i < front.len() implies #[trigger] front[i] >= 0 by {
            assert(front[i] == values[i]);
        }
        law_weights_add_up(front);
        lemma_total_push(front, values[values.len() - 1]);
        assert(front.push(values[values.len() - 1]) =~= values);
    }
}

/// Weights add up to their sum, whatever their signs, where no sum on the way
/// leaves the range of integers.
pub proof fn law_signed_weights_add_up(values: Seq<i64>)
    requires
        forall|n: int|
            0 <= n <= values.len() ==> i64::MIN <= total(#[trigger] values.take(n)) <= i64::MAX,
    ensures
        saturating_sum(values) == total(values),
    decreases values.len(),
{
    if values.len() > 0 {
        let front = values.drop_last();
        assert forall|n: int| 0 <= n <= front.len() implies i64::MIN <= total(
            #[trigger] front.take(n),
        ) <= i64::MAX by {
            assert(front.take(n) =~= values.take(n));
        }
        law_signed_weights_add_up(front);
        lemma_total_push(front, values[values.len() - 1]);
        assert(front.push(values[values.len() - 1]) =~= values);
        assert(values.take(values.len() as int) =~= values);
    }
}

/// Whether a value is an array of integers.
pub open spec fn lists(value: JsonView, numbers: Seq<int>) -> bool {
    &&& value matches JsonView::Array(items)
    &&& items.len() == numbers.len()
    &&& forall|i: int| 0 <= i < items.len() ==> #[trigger] items[i] == JsonView::Number(numbers[i])
}

/// Whether a value is the profile of one value series: sampled, named by the
/// kind of the series, from zero to the sum of the weights, with the stack of
/// every sample, root first, and its value in the series, in their order.
pub open spec fn shows_series(value: JsonView, p: ProfileView, series: int) -> bool {
    &&& value is Object
    &&& value->Object_0.len() == 7
    &&& member(value, "type"@, JsonView::Text("sampled"@))
    &&& member(value, "name"@, JsonView::Text(p.value_kinds[series].kind))
    &&& member(value, "unit"@, JsonView::Text(unit_of(p.value_kinds[series].unit)))
    &&& member(value, "startValue"@, JsonView::Number(0))
    &&& member(
        value,
        "endValue"@,
        JsonView::Number(
            saturating_sum(
                Seq::new(p.samples.len(), |i: int| p.samples[i].values[series]),
            ) as int,
        ),
    )
    &&& exists|stacks: Seq<JsonView>|
        #![trigger member(value, "samples"@, JsonView::Array(stacks))]
        {
            &&& member(value, "samples"@, JsonView::Array(stacks))
            &&& stacks.len() == p.samples.len()
            &&& forall|i: int|
                0 <= i < stacks.len() ==> lists(
                    #[trigger] stacks[i],
                    Seq::new(p.samples[i].stack.len(), |j: int| p.samples[i].stack[j].0 as int),
                )
        }
    &&& exists|weights: JsonView|
        #![trigger member(value, "weights"@, weights)]
        {
            &&& member(value, "weights"@, weights)
            &&& lists(
                weights,
                Seq::new(p.samples.len(), |i: int| p.samples[i].values[series] as int),
            )
        }
}

/// Every value series is shown as a profile of its own.
pub proof fn law_series_are_shown(p: ProfileView, series: int)
    ensures
        shows_series(series_json(p, series), p, series),
{
    let value = series_json(p, series);
    let e = value->Object_0;
    let weights = crate::speedscope::series_weights(p, series);
    assert(weights =~= Seq::new(p.samples.len(), |i: int| p.samples[i].values[series]));
    assert(e[0] == ("type"@, JsonView::Text("sampled"@)));
    assert(e[1] == ("name"@, JsonView::Text(p.value_kinds[series].kind)));
    assert(e[2] == ("unit"@, JsonView::Text(unit_of(p.value_kinds[series].unit))));
    assert(e[3] == ("startValue"@, JsonView::Number(0)));
    assert(e[4] == ("endValue"@, JsonView::Number(saturating_sum(weights) as int)));
    let stacks = e[5].1->Array_0;
    assert(e[5] == ("samples"@, JsonView::Array(stacks)));
    assert(member(value, "samples"@, JsonView::Array(stacks)));
    assert(e[6].0 == "weights"@);
    assert(e[6] == ("weights"@, e[6].1));
    assert(member(value, "weights"@, e[6].1));
}

/// Whether a value is a frame of the frame table: its name, and its file and
/// line where they are known and only there.
pub open spec fn shows_frame(value: JsonView, frame: FrameView) -> bool {
    &&& value is Object
    &&& member(value, "name"@, JsonView::Text(display_name(frame)))
    &&& frame.file matches Some(file) ==> member(value, "file"@, JsonView::Text(file))
    &&& frame.file is None ==> lacks(value, "file"@)
    &&& frame.line matches Some(line) ==> member(value, "line"@, JsonView::Number(line as int))
    &&& frame.line is None ==> lacks(value, "line"@)
}

proof fn lemma_frame_shown(frame: FrameView)
    ensures
        shows_frame(JsonView::Object(frame_entries(frame)), frame),
{
    lemma_names();
    let e = frame_entries(frame);
    let value = JsonView::Object(e);
    assert(value->Object_0[0] == ("name"@, JsonView::Text(display_name(frame))));
    if let Some(file) = frame.file {
        assert(value->Object_0[1] == ("file"@, JsonView::Text(file)));
    }
    if let Some(line) = frame.line {
        let k = e.len() - 1;
        assert(value->Object_0[k] == ("line"@, JsonView::Number(line as int)));
    }
}

/// Whether a value is the file of a profile.
pub open spec fn shows_file(value: JsonView, p: ProfileView) -> bool {
    &&& value is Object
    &&& value->Object_0.len() == 6
    &&& member(
        value,
        "$schema"@,
        JsonView::Text("https://www.speedscope.app/file-format-schema.json"@),
    )
    &&& member(value, "exporter"@, JsonView::Text("profcast"@))
    &&& member(value, "name"@, JsonView::Text("profile"@))
    &&& member(value, "activeProfileIndex"@, JsonView::Number(0))
    &&& exists|shared: JsonView, frames: Seq<JsonView>|
        #![trigger member(value, "shared"@, shared), member(shared, "frames"@, JsonView::Array(frames))]
        {
            &&& member(value, "shared"@, shared)
            &&& member(shared, "frames"@, JsonView::Array(frames))
            &&& frames.len() == p.frames.len()
            &&& forall|i: int|
                0 <= i < frames.len() ==> shows_frame(#[trigger] frames[i], p.frames[i])
        }
    &&& exists|profiles: Seq<JsonView>|
        #![trigger member(value, "profiles"@, JsonView::Array(profiles))]
        {
            &&& member(value, "profiles"@, JsonView::Array(profiles))
            &&& profiles.len() == p.value_kinds.len()
            &&& forall|i: int|
                0 <= i < profiles.len() ==> shows_series(#[trigger] profiles[i], p, i)
        }
}

/// What is written shows the frames of the profile in their order, and one
/// profile for each of its value series in their order.
pub proof fn law_files_show_the_profile(p: ProfileView)
    ensures
        shows_file(file_json(p), p),
{
    lemma_file_names();
    let value = file_json(p);
    let e = value->Object_0;
    assert(e[0].0 == "$schema"@);
    assert(e[0] == (
        "$schema"@,
        JsonView::Text("https://www.speedscope.app/file-format-schema.json"@),
    ));
    assert(e[1] == ("exporter"@, JsonView::Text("profcast"@)));
    assert(e[2] == ("name"@, JsonView::Text("profile"@)));
    assert(e[3] == ("activeProfileIndex"@, JsonView::Number(0)));
    let shared = e[4].1;
    assert(e[4] == ("shared"@, shared));
    let frames = shared->Object_0[0].1->Array_0;
    assert(shared->Object_0[0] == ("frames"@, JsonView::Array(frames)));
    assert(member(value, "shared"@, shared));
    assert(member(shared, "frames"@, JsonView::Array(frames)));
    assert forall|i: int| 0 <= i < frames.len() implies shows_frame(
        #[trigger] frames[i],
        p.frames[i],
    ) by {
        lemma_frame_shown(p.frames[i]);
    }
    let profiles = e[5].1->Array_0;
    assert(e[5] == ("profiles"@, JsonView::Array(profiles)));
    assert(member(value, "profiles"@, JsonView::Array(profiles)));
    assert forall|i: int| 0 <= i < profiles.len() implies shows_series(
        #[trigger] profiles[i],
        p,
        i,
    ) by {
        law_series_are_shown(p, i);
    }
}

/// Whether every frame id of a sample points at a frame.
pub open spec fn stack_is_there(p: ProfileView, i: int) -> bool {
    forall|j: int|
        0 <= j < p.samples[i].stack.len() ==> (#[trigger] p.samples[i].stack[j]).0 < p.frames.len()
}

proof fn lemma_stack_fault(p: ProfileView, index: int)
    requires
        0 <= index <= p.samples.len(),
    ensures
        stack_fault(p, index) is None <==> (forall|i: int|
            index <= i < p.samples.len() ==> #[trigger] stack_is_there(p, i)),
    decreases p.samples.len() - index,
{
    if index < p.samples.len() {
        let stack = p.samples[index].stack;
        lemma_first_dangling(stack, p.frames.len());
        lemma_stack_fault(p, index + 1);
        let bad = first_dangling(stack, p.frames.len());
        if bad < stack.len() {
            assert(p.samples[index].stack[bad].0 >= p.frames.len());
            assert(!stack_is_there(p, index));
        } else {
            assert(stack_is_there(p, index));
        }
    }
}

proof fn lemma_series_fault(p: ProfileView, series: int, index: int)
    requires
        0 <= index <= p.samples.len(),
    ensures
        series_fault(p, series, index) is None <==> (forall|i: int|
            index <= i < p.samples.len() ==> (#[trigger] p.samples[i]).values.len() > series),
    decreases p.samples.len() - index,
{
    if index < p.samples.len() {
        lemma_series_fault(p, series, index + 1);
    }
}

proof fn lemma_kinds_fault(p: ProfileView, series: int)
    requires
        0 <= series <= p.value_kinds.len(),
    ensures
        kinds_fault(p, series) is None <==> (forall|i: int|
            0 <= i < p.samples.len() ==> (#[trigger] p.samples[i]).values.len()
                >= p.value_kinds.len()) || series == p.value_kinds.len(),
    decreases p.value_kinds.len() - series,
{
    if series < p.value_kinds.len() {
        lemma_series_fault(p, series, 0);
        lemma_kinds_fault(p, series + 1);
    }
}

/// A profile is written where every stack points at frames that are there and
/// every sample has a value for every series, and refused everywhere else.
pub proof fn law_whole_profiles_are_written(p: ProfileView, pretty: bool)
    ensures
        speedscope_rendering(p, pretty) is Ok <==> {
            &&& forall|i: int| 0 <= i < p.samples.len() ==> #[trigger] stack_is_there(p, i)
            &&& p.value_kinds.len() == 0 || forall|i: int|
                0 <= i < p.samples.len() ==> (#[trigger] p.samples[i]).values.len()
                    >= p.value_kinds.len()
        },
        speedscope_rendering(p, pretty) matches Ok(bytes) ==> bytes == json_text(
            file_json(p),
            pretty,
        ),
{
    lemma_stack_fault(p, 0);
    lemma_kinds_fault(p, 0);
}

proof fn lemma_stack_fault_at(p: ProfileView, index: int, at: int)
    requires
        0 <= index <= at < p.samples.len(),
        forall|i: int| index <= i < at ==> #[trigger] stack_is_there(p, i),
    ensures
        stack_fault(p, index) == stack_fault(p, at),
    decreases at - index,
{
    if index < at {
        assert(stack_is_there(p, index));
        lemma_first_dangling(p.samples[index].stack, p.frames.len());
        lemma_stack_fault_at(p, index + 1, at);
    }
}

/// Where a stack points outside the frame table, the error names the first such
/// sample and its first such id.
pub proof fn law_the_first_bad_stack_is_told(p: ProfileView, at: int, j: int, pretty: bool)
    requires
        0 <= at < p.samples.len(),
        forall|i: int| 0 <= i < at ==> #[trigger] stack_is_there(p, i),
        0 <= j < p.samples[at].stack.len(),
        p.samples[at].stack[j].0 >= p.frames.len(),
        forall|k: int| 0 <= k < j ==> (#[trigger] p.samples[at].stack[k]).0 < p.frames.len(),
    ensures
        speedscope_rendering(p, pretty) == Err::<Seq<u8>, ErrorView>(
            ErrorView::InvalidProfile(
                dangling_message(at as nat, p.samples[at].stack[j].0 as nat, p.frames.len()),
            ),
        ),
{
    lemma_stack_fault_at(p, 0, at);
    let stack = p.samples[at].stack;
    lemma_first_dangling(stack, p.frames.len());
    let bad = first_dangling(stack, p.frames.len());
    assert(bad == j) by {
        if bad < j {
            assert(stack[bad].0 < p.frames.len());
        } else if j < bad {
            assert(stack[j].0 < p.frames.len());
        }
    }
}

proof fn lemma_series_fault_at(p: ProfileView, series: int, index: int, at: int)
    requires
        0 <= index <= at < p.samples.len(),
        forall|i: int| index <= i < at ==> (#[trigger] p.samples[i]).values.len() > series,
    ensures
        series_fault(p, series, index) == series_fault(p, series, at),
    decreases at - index,
{
    if index < at {
        lemma_series_fault_at(p, series, index + 1, at);
    }
}

proof fn lemma_kinds_fault_at(p: ProfileView, from: int, series: int)
    requires
        0 <= from <= series < p.value_kinds.len(),
        forall|i: int| 0 <= i < p.samples.len() ==> (#[trigger] p.samples[i]).values.len() >= series,
    ensures
        kinds_fault(p, from) == kinds_fault(p, series),
    decreases series - from,
{
    if from < series {
        lemma_series_fault(p, from, 0);
        lemma_kinds_fault_at(p, from + 1, series);
    }
}

/// Where the stacks are in order and a value is missing, the error names the
/// first series for which one is, and the first sample that lacks it.
pub proof fn law_the_first_missing_value_is_told(
    p: ProfileView,
    series: int,
    at: int,
    pretty: bool,
)
    requires
        forall|i: int| 0 <= i < p.samples.len() ==> #[trigger] stack_is_there(p, i),
        0 <= series < p.value_kinds.len(),
        0 <= at < p.samples.len(),
        forall|i: int| 0 <= i < p.samples.len() ==> (#[trigger] p.samples[i]).values.len() >= series,
        p.samples[at].values.len() == series,
        forall|i: int| 0 <= i < at ==> (#[trigger] p.samples[i]).values.len() > series,
    ensures
        speedscope_rendering(p, pretty) == Err::<Seq<u8>, ErrorView>(
            ErrorView::InvalidProfile(
                missing_value_message(at as nat, series as nat, p.value_kinds[series].kind),
            ),
        ),
{
    lemma_stack_fault(p, 0);
    lemma_kinds_fault_at(p, 0, series);
    lemma_series_fault_at(p, series, 0, at);
}

} // verus!
