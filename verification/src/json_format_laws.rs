//! What holds of the JSON form of a profile, member by member.

use vstd::prelude::*;

use crate::json::{entry, record, JsonView};
use crate::json_format::{
    frame_json, frame_of, frames_of, kind_json, kind_of, kinds_of, lemma_field_names, profile_json,
    profile_of, sample_json, sample_of, samples_of, stack_of, values_of,
};
use crate::json_laws::{
    lacks, law_members_are_found, lemma_number_member, lemma_text_member, member, number_member,
    proper, text_member,
};
use crate::model::{FrameView, ProfileView, SampleView, ValueKindView};

verus! {

/// Whether a value says a frame: its label, and each other thing that is known
/// of it as a member of that name. What is not known is missing or null, and
/// other members say nothing.
pub open spec fn says_frame(value: JsonView, frame: FrameView) -> bool {
    &&& proper(value)
    &&& member(value, "raw"@, JsonView::Text(frame.raw))
    &&& text_member(value, "function"@, frame.function)
    &&& text_member(value, "file"@, frame.file)
    &&& number_member(
        value,
        "line"@,
        match frame.line {
            Some(line) => Some(line as int),
            None => None,
        },
    )
    &&& text_member(value, "module"@, frame.module)
    &&& number_member(
        value,
        "address"@,
        match frame.address {
            Some(address) => Some(address as int),
            None => None,
        },
    )
}

/// Whether a value says a sample: its frame ids, root first, and its values.
pub open spec fn says_sample(value: JsonView, sample: SampleView) -> bool {
    &&& proper(value)
    &&& exists|items: Seq<JsonView>|
        #![trigger member(value, "stack"@, JsonView::Array(items))]
        {
            &&& member(value, "stack"@, JsonView::Array(items))
            &&& items.len() == sample.stack.len()
            &&& forall|i: int|
                0 <= i < items.len() ==> #[trigger] items[i] == JsonView::Number(
                    sample.stack[i].0 as int,
                )
        }
    &&& exists|items: Seq<JsonView>|
        #![trigger member(value, "values"@, JsonView::Array(items))]
        {
            &&& member(value, "values"@, JsonView::Array(items))
            &&& items.len() == sample.values.len()
            &&& forall|i: int|
                0 <= i < items.len() ==> #[trigger] items[i] == JsonView::Number(
                    sample.values[i] as int,
                )
        }
}

/// Whether a value says a value kind.
pub open spec fn says_kind(value: JsonView, kind: ValueKindView) -> bool {
    &&& proper(value)
    &&& member(value, "kind"@, JsonView::Text(kind.kind))
    &&& member(value, "unit"@, JsonView::Text(kind.unit))
}

/// Whether a value says a profile: its frames, its samples and its value kinds,
/// each in their order.
pub open spec fn says_profile(value: JsonView, p: ProfileView) -> bool {
    &&& proper(value)
    &&& exists|items: Seq<JsonView>|
        #![trigger member(value, "frame_intern"@, JsonView::Array(items))]
        {
            &&& member(value, "frame_intern"@, JsonView::Array(items))
            &&& items.len() == p.frames.len()
            &&& forall|i: int|
                0 <= i < items.len() ==> says_frame(#[trigger] items[i], p.frames[i])
        }
    &&& exists|items: Seq<JsonView>|
        #![trigger member(value, "samples"@, JsonView::Array(items))]
        {
            &&& member(value, "samples"@, JsonView::Array(items))
            &&& items.len() == p.samples.len()
            &&& forall|i: int|
                0 <= i < items.len() ==> says_sample(#[trigger] items[i], p.samples[i])
        }
    &&& exists|items: Seq<JsonView>|
        #![trigger member(value, "value_kinds"@, JsonView::Array(items))]
        {
            &&& member(value, "value_kinds"@, JsonView::Array(items))
            &&& items.len() == p.value_kinds.len()
            &&& forall|i: int|
                0 <= i < items.len() ==> says_kind(#[trigger] items[i], p.value_kinds[i])
        }
}

/// A frame is read from any object that says it: whatever the order of its
/// members, whether what is unknown is missing or null, and whatever other
/// members it has.
pub proof fn law_frames_are_read_by_member(value: JsonView, frame: FrameView)
    requires
        says_frame(value, frame),
    ensures
        frame_of(value) == Some(frame),
{
    let e = value->Object_0;
    law_members_are_found(e, "raw"@, JsonView::Text(frame.raw));
    lemma_text_member(e, "function"@, frame.function);
    lemma_text_member(e, "file"@, frame.file);
    lemma_text_member(e, "module"@, frame.module);
    let line: Option<int> = match frame.line {
        Some(line) => Some(line as int),
        None => None,
    };
    let address: Option<int> = match frame.address {
        Some(address) => Some(address as int),
        None => None,
    };
    lemma_number_member(e, "line"@, line, 0, u32::MAX as int);
    lemma_number_member(e, "address"@, address, 0, u64::MAX as int);
    let f = record(
        value,
        seq!["raw"@, "function"@, "file"@, "line"@, "module"@, "address"@],
        false,
    )->0;
    assert(f[0] == entry(e, "raw"@));
    assert(f[1] == entry(e, "function"@));
    assert(f[2] == entry(e, "file"@));
    assert(f[3] == entry(e, "line"@));
    assert(f[4] == entry(e, "module"@));
    assert(f[5] == entry(e, "address"@));
}

/// A sample is read from any object that says it.
pub proof fn law_samples_are_read_by_member(value: JsonView, sample: SampleView)
    requires
        says_sample(value, sample),
    ensures
        sample_of(value) == Some(sample),
{
    let e = value->Object_0;
    let stack = choose|items: Seq<JsonView>|
        #![trigger member(value, "stack"@, JsonView::Array(items))]
        {
            &&& member(value, "stack"@, JsonView::Array(items))
            &&& items.len() == sample.stack.len()
            &&& forall|i: int|
                0 <= i < items.len() ==> #[trigger] items[i] == JsonView::Number(
                    sample.stack[i].0 as int,
                )
        };
    let values = choose|items: Seq<JsonView>|
        #![trigger member(value, "values"@, JsonView::Array(items))]
        {
            &&& member(value, "values"@, JsonView::Array(items))
            &&& items.len() == sample.values.len()
            &&& forall|i: int|
                0 <= i < items.len() ==> #[trigger] items[i] == JsonView::Number(
                    sample.values[i] as int,
                )
        };
    law_members_are_found(e, "stack"@, JsonView::Array(stack));
    law_members_are_found(e, "values"@, JsonView::Array(values));
    let f = record(value, seq!["stack"@, "values"@], false)->0;
    assert(f[0] == entry(e, "stack"@));
    assert(f[1] == entry(e, "values"@));
    assert(stack_of(stack) is Some);
    assert(values_of(values) is Some);
    assert(stack_of(stack)->0 =~= sample.stack) by {
        assert forall|i: int| 0 <= i < stack.len() implies stack_of(stack)->0[i]
            == sample.stack[i] by {
            assert(stack[i] == JsonView::Number(sample.stack[i].0 as int));
        }
    }
    assert(values_of(values)->0 =~= sample.values) by {
        assert forall|i: int| 0 <= i < values.len() implies values_of(values)->0[i]
            == sample.values[i] by {
            assert(values[i] == JsonView::Number(sample.values[i] as int));
        }
    }
}

/// A value kind is read from any object that says it.
pub proof fn law_kinds_are_read_by_member(value: JsonView, kind: ValueKindView)
    requires
        says_kind(value, kind),
    ensures
        kind_of(value) == Some(kind),
{
    let e = value->Object_0;
    law_members_are_found(e, "kind"@, JsonView::Text(kind.kind));
    law_members_are_found(e, "unit"@, JsonView::Text(kind.unit));
    let f = record(value, seq!["kind"@, "unit"@], false)->0;
    assert(f[0] == entry(e, "kind"@));
    assert(f[1] == entry(e, "unit"@));
}

/// A profile is read from any object that says it.
pub proof fn law_profiles_are_read_by_member(value: JsonView, p: ProfileView)
    requires
        says_profile(value, p),
    ensures
        profile_of(value) == Some(p),
{
    let e = value->Object_0;
    let frames = choose|items: Seq<JsonView>|
        #![trigger member(value, "frame_intern"@, JsonView::Array(items))]
        {
            &&& member(value, "frame_intern"@, JsonView::Array(items))
            &&& items.len() == p.frames.len()
            &&& forall|i: int|
                0 <= i < items.len() ==> says_frame(#[trigger] items[i], p.frames[i])
        };
    let samples = choose|items: Seq<JsonView>|
        #![trigger member(value, "samples"@, JsonView::Array(items))]
        {
            &&& member(value, "samples"@, JsonView::Array(items))
            &&& items.len() == p.samples.len()
            &&& forall|i: int|
                0 <= i < items.len() ==> says_sample(#[trigger] items[i], p.samples[i])
        };
    let kinds = choose|items: Seq<JsonView>|
        #![trigger member(value, "value_kinds"@, JsonView::Array(items))]
        {
            &&& member(value, "value_kinds"@, JsonView::Array(items))
            &&& items.len() == p.value_kinds.len()
            &&& forall|i: int|
                0 <= i < items.len() ==> says_kind(#[trigger] items[i], p.value_kinds[i])
        };
    law_members_are_found(e, "frame_intern"@, JsonView::Array(frames));
    law_members_are_found(e, "samples"@, JsonView::Array(samples));
    law_members_are_found(e, "value_kinds"@, JsonView::Array(kinds));
    let f = record(value, seq!["frame_intern"@, "samples"@, "value_kinds"@], false)->0;
    assert(f[0] == entry(e, "frame_intern"@));
    assert(f[1] == entry(e, "samples"@));
    assert(f[2] == entry(e, "value_kinds"@));
    assert forall|i: int| 0 <= i < frames.len() implies frame_of(#[trigger] frames[i]) == Some(
        p.frames[i],
    ) by {
        law_frames_are_read_by_member(frames[i], p.frames[i]);
    }
    assert forall|i: int| 0 <= i < samples.len() implies sample_of(#[trigger] samples[i]) == Some(
        p.samples[i],
    ) by {
        law_samples_are_read_by_member(samples[i], p.samples[i]);
    }
    assert forall|i: int| 0 <= i < kinds.len() implies kind_of(#[trigger] kinds[i]) == Some(
        p.value_kinds[i],
    ) by {
        law_kinds_are_read_by_member(kinds[i], p.value_kinds[i]);
    }
    assert(frames_of(frames)->0 =~= p.frames);
    assert(samples_of(samples)->0 =~= p.samples);
    assert(kinds_of(kinds)->0 =~= p.value_kinds);
}

proof fn lemma_frame_says(frame: FrameView)
    ensures
        says_frame(frame_json(frame), frame),
{
    lemma_field_names();
    let value = frame_json(frame);
    let e = value->Object_0;
    assert(e[0] == ("raw"@, JsonView::Text(frame.raw)));
    assert(e[1].0 == "function"@);
    assert(e[2].0 == "file"@);
    assert(e[3].0 == "line"@);
    assert(e[4].0 == "module"@);
    assert(e[5].0 == "address"@);
    if let Some(function) = frame.function {
        assert(e[1] == ("function"@, JsonView::Text(function)));
    } else {
        assert(e[1] == ("function"@, JsonView::Null));
    }
    if let Some(file) = frame.file {
        assert(e[2] == ("file"@, JsonView::Text(file)));
    } else {
        assert(e[2] == ("file"@, JsonView::Null));
    }
    if let Some(line) = frame.line {
        assert(e[3] == ("line"@, JsonView::Number(line as int)));
    } else {
        assert(e[3] == ("line"@, JsonView::Null));
    }
    if let Some(module) = frame.module {
        assert(e[4] == ("module"@, JsonView::Text(module)));
    } else {
        assert(e[4] == ("module"@, JsonView::Null));
    }
    if let Some(address) = frame.address {
        assert(e[5] == ("address"@, JsonView::Number(address as int)));
    } else {
        assert(e[5] == ("address"@, JsonView::Null));
    }
}

proof fn lemma_sample_says(sample: SampleView)
    ensures
        says_sample(sample_json(sample), sample),
{
    lemma_field_names();
    let value = sample_json(sample);
    let e = value->Object_0;
    let stack = e[0].1->Array_0;
    let values = e[1].1->Array_0;
    assert(e[0] == ("stack"@, JsonView::Array(stack)));
    assert(e[1] == ("values"@, JsonView::Array(values)));
    assert(member(value, "stack"@, JsonView::Array(stack)));
    assert(member(value, "values"@, JsonView::Array(values)));
}

proof fn lemma_kind_says(kind: ValueKindView)
    ensures
        says_kind(kind_json(kind), kind),
{
    lemma_field_names();
    let e = kind_json(kind)->Object_0;
    assert(e[0] == ("kind"@, JsonView::Text(kind.kind)));
    assert(e[1] == ("unit"@, JsonView::Text(kind.unit)));
}

/// What is written says the profile, and nothing besides: the object has the
/// three members of a profile and no other, each frame has six, and each sample
/// and each value kind two.
pub proof fn law_what_is_written_says_the_profile(p: ProfileView)
    ensures
        says_profile(profile_json(p), p),
        profile_json(p)->Object_0.len() == 3,
        forall|frame: FrameView| (#[trigger] frame_json(frame))->Object_0.len() == 6,
        forall|sample: SampleView| (#[trigger] sample_json(sample))->Object_0.len() == 2,
        forall|kind: ValueKindView| (#[trigger] kind_json(kind))->Object_0.len() == 2,
{
    lemma_field_names();
    let value = profile_json(p);
    let e = value->Object_0;
    let frames = e[0].1->Array_0;
    let samples = e[1].1->Array_0;
    let kinds = e[2].1->Array_0;
    assert(e[0] == ("frame_intern"@, JsonView::Array(frames)));
    assert(e[1] == ("samples"@, JsonView::Array(samples)));
    assert(e[2] == ("value_kinds"@, JsonView::Array(kinds)));
    assert(member(value, "frame_intern"@, JsonView::Array(frames)));
    assert(member(value, "samples"@, JsonView::Array(samples)));
    assert(member(value, "value_kinds"@, JsonView::Array(kinds)));
    assert forall|i: int| 0 <= i < frames.len() implies says_frame(
        #[trigger] frames[i],
        p.frames[i],
    ) by {
        lemma_frame_says(p.frames[i]);
    }
    assert forall|i: int| 0 <= i < samples.len() implies says_sample(
        #[trigger] samples[i],
        p.samples[i],
    ) by {
        lemma_sample_says(p.samples[i]);
    }
    assert forall|i: int| 0 <= i < kinds.len() implies says_kind(
        #[trigger] kinds[i],
        p.value_kinds[i],
    ) by {
        lemma_kind_says(p.value_kinds[i]);
    }
}

/// A frame without a label is refused, and so is one whose label is no text, or
/// whose line or address is out of range.
pub proof fn law_unlabelled_frames_are_refused(value: JsonView, n: int)
    requires
        proper(value),
    ensures
        lacks(value, "raw"@) ==> frame_of(value) is None,
        member(value, "raw"@, JsonView::Null) ==> frame_of(value) is None,
        member(value, "raw"@, JsonView::Number(n)) ==> frame_of(value) is None,
        member(value, "line"@, JsonView::Number(n)) && (n < 0 || n > u32::MAX) ==> frame_of(
            value,
        ) is None,
        member(value, "address"@, JsonView::Number(n)) && (n < 0 || n > u64::MAX) ==> frame_of(
            value,
        ) is None,
        member(value, "function"@, JsonView::Number(n)) ==> frame_of(value) is None,
{
    let e = value->Object_0;
    law_members_are_found(e, "raw"@, JsonView::Null);
    law_members_are_found(e, "raw"@, JsonView::Number(n));
    law_members_are_found(e, "line"@, JsonView::Number(n));
    law_members_are_found(e, "address"@, JsonView::Number(n));
    law_members_are_found(e, "function"@, JsonView::Number(n));
    let f = record(
        value,
        seq!["raw"@, "function"@, "file"@, "line"@, "module"@, "address"@],
        false,
    )->0;
    assert(f[0] == entry(e, "raw"@));
    assert(f[1] == entry(e, "function"@));
    assert(f[3] == entry(e, "line"@));
    assert(f[5] == entry(e, "address"@));
}

/// A frame may be an array of its six fields in order, none of which is missing.
pub proof fn law_frames_may_be_whole_arrays(frame: FrameView, items: Seq<JsonView>)
    ensures
        items.len() != 6 ==> frame_of(JsonView::Array(items)) is None,
        items.len() == 6 && frame_json(frame)->Object_0.len() == 6 && (forall|i: int|
            0 <= i < 6 ==> #[trigger] items[i] == frame_json(frame)->Object_0[i].1) ==> frame_of(
            JsonView::Array(items),
        ) == frame_of(frame_json(frame)),
{
    let e = frame_json(frame)->Object_0;
    if items.len() == 6 && (forall|i: int| 0 <= i < 6 ==> #[trigger] items[i] == e[i].1) {
        lemma_frame_says(frame);
        law_frames_are_read_by_member(frame_json(frame), frame);
        let f = record(
            JsonView::Array(items),
            seq!["raw"@, "function"@, "file"@, "line"@, "module"@, "address"@],
            false,
        )->0;
        assert(f[0] == Some(items[0]));
        assert(f[1] == Some(items[1]));
        assert(f[2] == Some(items[2]));
        assert(f[3] == Some(items[3]));
        assert(f[4] == Some(items[4]));
        assert(f[5] == Some(items[5]));
        assert(items[0] == e[0].1);
        assert(items[1] == e[1].1);
        assert(items[2] == e[2].1);
        assert(items[3] == e[3].1);
        assert(items[4] == e[4].1);
        assert(items[5] == e[5].1);
    }
}

} // verus!
