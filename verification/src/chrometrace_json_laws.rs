//! What holds of the JSON form of a Chrome trace, member by member.

use vstd::prelude::*;

use crate::chrometrace::{
    content_likeness, display_name, event_of, events_of, lemma_names, node_entries, node_of, nodes_of, opt_ref_of,
    path, sample_entries, sample_of, samples_of, stack_message, text_likeness, trace_json, trace_of, trace_samples,
    NodeView, RecordView, TraceView, TrieNode,
};
use crate::chrometrace_faults::{
    entries_fault, named_fault, opt_text_fault, ref_fault, text_fault, weight_fault, Part,
};
use crate::error::ErrorView;
use crate::format::Confidence;
use crate::json::{distinct_keys, entry, record, JsonView};
use crate::json_laws::{
    lacks, law_members_are_found, lemma_number_member, lemma_text_member, member, number_member,
    proper, text_member,
};
use crate::model::{FrameView, ProfileView, SampleView};
use crate::number::decimal_int;
use crate::text::{lossy_text, occurs, stands_at};

verus! {

/// Whether a member refers to an id: by its text, or by an integer that it is in
/// decimal. It is missing or null where there is none.
pub open spec fn ref_member(value: JsonView, key: Seq<char>, id: Option<Seq<char>>) -> bool {
    match id {
        Some(id) => {
            ||| member(value, key, JsonView::Text(id))
            ||| exists|n: i64|
                #![trigger member(value, key, JsonView::Number(n as int))]
                member(value, key, JsonView::Number(n as int)) && id == decimal_int(n as int)
        },
        None => lacks(value, key) || member(value, key, JsonView::Null),
    }
}

proof fn lemma_ref_member(
    entries: Seq<(Seq<char>, JsonView)>,
    key: Seq<char>,
    id: Option<Seq<char>>,
)
    requires
        distinct_keys(entries),
        ref_member(JsonView::Object(entries), key, id),
    ensures
        opt_ref_of(entry(entries, key)) == Some(id),
{
    let value = JsonView::Object(entries);
    match id {
        Some(id) => {
            if member(value, key, JsonView::Text(id)) {
                law_members_are_found(entries, key, JsonView::Text(id));
            } else {
                let n = choose|n: i64|
                    #![trigger member(value, key, JsonView::Number(n as int))]
                    member(value, key, JsonView::Number(n as int)) && id == decimal_int(n as int);
                law_members_are_found(entries, key, JsonView::Number(n as int));
            }
        },
        None => law_members_are_found(entries, key, JsonView::Null),
    }
}

/// Whether a value says a node.
pub open spec fn says_node(value: JsonView, node: NodeView) -> bool {
    &&& proper(value)
    &&& member(value, "name"@, JsonView::Text(node.name))
    &&& text_member(value, "category"@, node.category)
    &&& ref_member(value, "parent"@, node.parent)
}

/// Whether a value says an entry of the sample array.
pub open spec fn says_sample(value: JsonView, sample: RecordView) -> bool {
    &&& proper(value)
    &&& sample.ph is None
    &&& ref_member(value, "sf"@, sample.sf)
    &&& number_member(value, "weight"@, sample.weight)
    &&& sample.weight matches Some(weight) ==> i64::MIN <= weight <= i64::MAX
}

/// Whether a value says an event.
pub open spec fn says_event(value: JsonView, event: RecordView) -> bool {
    &&& proper(value)
    &&& text_member(value, "ph"@, event.ph)
    &&& ref_member(value, "sf"@, event.sf)
    &&& number_member(value, "weight"@, event.weight)
    &&& event.weight matches Some(weight) ==> i64::MIN <= weight <= i64::MAX
}

/// A node is read from any object that says it, whatever the order of its
/// members and whatever other members it has.
pub proof fn law_nodes_are_read_by_member(value: JsonView, node: NodeView)
    requires
        says_node(value, node),
    ensures
        node_of(value) == Some(node),
{
    let e = value->Object_0;
    law_members_are_found(e, "name"@, JsonView::Text(node.name));
    lemma_text_member(e, "category"@, node.category);
    lemma_ref_member(e, "parent"@, node.parent);
    let f = record(value, seq!["name"@, "category"@, "parent"@], true)->0;
    assert(f[0] == entry(e, "name"@));
    assert(f[1] == entry(e, "category"@));
    assert(f[2] == entry(e, "parent"@));
}

/// A node without a name is refused.
pub proof fn law_nameless_nodes_are_refused(value: JsonView)
    requires
        proper(value),
        lacks(value, "name"@) || member(value, "name"@, JsonView::Null),
    ensures
        node_of(value) is None,
{
    let e = value->Object_0;
    law_members_are_found(e, "name"@, JsonView::Null);
    let f = record(value, seq!["name"@, "category"@, "parent"@], true)->0;
    assert(f[0] == entry(e, "name"@));
}

/// An entry of the sample array is read from any object that says it.
pub proof fn law_samples_are_read_by_member(value: JsonView, sample: RecordView)
    requires
        says_sample(value, sample),
    ensures
        sample_of(value) == Some(sample),
{
    let e = value->Object_0;
    lemma_ref_member(e, "sf"@, sample.sf);
    lemma_number_member(e, "weight"@, sample.weight, i64::MIN as int, i64::MAX as int);
    let f = record(value, seq!["sf"@, "weight"@], true)->0;
    assert(f[0] == entry(e, "sf"@));
    assert(f[1] == entry(e, "weight"@));
}

/// An event is read from any object that says it.
pub proof fn law_events_are_read_by_member(value: JsonView, event: RecordView)
    requires
        says_event(value, event),
    ensures
        event_of(value) == Some(event),
{
    let e = value->Object_0;
    lemma_text_member(e, "ph"@, event.ph);
    lemma_ref_member(e, "sf"@, event.sf);
    lemma_number_member(e, "weight"@, event.weight, i64::MIN as int, i64::MAX as int);
    let f = record(value, seq!["ph"@, "sf"@, "weight"@], true)->0;
    assert(f[0] == entry(e, "ph"@));
    assert(f[1] == entry(e, "sf"@));
    assert(f[2] == entry(e, "weight"@));
}

/// Whether a value says the nodes of a tree, each under its id.
pub open spec fn says_nodes(value: JsonView, ids: Seq<Seq<char>>, nodes: Seq<NodeView>) -> bool {
    &&& value matches JsonView::Object(entries)
    &&& ids.len() == entries.len()
    &&& nodes.len() == entries.len()
    &&& forall|i: int|
        0 <= i < entries.len() ==> (#[trigger] entries[i]).0 == ids[i] && says_node(
            entries[i].1,
            nodes[i],
        )
}

/// Whether a value says the sample array.
pub open spec fn says_samples(value: JsonView, samples: Seq<RecordView>) -> bool {
    &&& value matches JsonView::Array(items)
    &&& samples.len() == items.len()
    &&& forall|i: int| 0 <= i < items.len() ==> says_sample(#[trigger] items[i], samples[i])
}

/// Whether a value says the events.
pub open spec fn says_events(value: JsonView, events: Seq<RecordView>) -> bool {
    &&& value matches JsonView::Array(items)
    &&& events.len() == items.len()
    &&& forall|i: int| 0 <= i < items.len() ==> says_event(#[trigger] items[i], events[i])
}

/// Whether an object says a trace. What it says nothing of is empty.
pub open spec fn says_trace(value: JsonView, trace: TraceView) -> bool {
    &&& proper(value)
    &&& {
        ||| lacks(value, "stackFrames"@) && trace.ids.len() == 0 && trace.nodes.len() == 0
        ||| exists|held: JsonView| #[trigger]
            member(value, "stackFrames"@, held) && says_nodes(held, trace.ids, trace.nodes)
    }
    &&& {
        ||| lacks(value, "samples"@) && trace.samples.len() == 0
        ||| exists|held: JsonView| #[trigger]
            member(value, "samples"@, held) && says_samples(held, trace.samples)
    }
    &&& {
        ||| lacks(value, "traceEvents"@) && trace.events.len() == 0
        ||| exists|held: JsonView| #[trigger]
            member(value, "traceEvents"@, held) && says_events(held, trace.events)
    }
}

proof fn lemma_nodes(held: JsonView, ids: Seq<Seq<char>>, nodes: Seq<NodeView>)
    requires
        says_nodes(held, ids, nodes),
    ensures
        nodes_of(Some(held)) == Some((ids, nodes)),
{
    let entries = held->Object_0;
    assert forall|i: int| 0 <= i < entries.len() implies node_of((#[trigger] entries[i]).1)
        == Some(nodes[i]) by {
        law_nodes_are_read_by_member(entries[i].1, nodes[i]);
    }
    let read = nodes_of(Some(held))->0;
    assert(read.0 =~= ids) by {
        assert forall|i: int| 0 <= i < entries.len() implies read.0[i] == ids[i] by {
            assert(entries[i].0 == ids[i]);
        }
    }
    assert(read.1 =~= nodes);
}

proof fn lemma_samples(held: JsonView, samples: Seq<RecordView>)
    requires
        says_samples(held, samples),
    ensures
        samples_of(Some(held)) == Some(samples),
{
    let items = held->Array_0;
    assert forall|i: int| 0 <= i < items.len() implies sample_of(#[trigger] items[i]) == Some(
        samples[i],
    ) by {
        law_samples_are_read_by_member(items[i], samples[i]);
    }
    assert(samples_of(Some(held))->0 =~= samples);
}

proof fn lemma_events(held: JsonView, events: Seq<RecordView>)
    requires
        says_events(held, events),
    ensures
        events_of(Some(held)) == Some(events),
{
    let items = held->Array_0;
    assert forall|i: int| 0 <= i < items.len() implies event_of(#[trigger] items[i]) == Some(
        events[i],
    ) by {
        law_events_are_read_by_member(items[i], events[i]);
    }
    assert(events_of(Some(held))->0 =~= events);
}

/// A trace is read from any object that says it, whatever the order of its
/// members and whatever other members it has.
pub proof fn law_traces_are_read_by_member(value: JsonView, trace: TraceView)
    requires
        says_trace(value, trace),
    ensures
        trace_of(value) == Ok::<TraceView, ErrorView>(trace),
{
    let e = value->Object_0;
    law_members_are_found(e, "stackFrames"@, JsonView::Null);
    law_members_are_found(e, "samples"@, JsonView::Null);
    law_members_are_found(e, "traceEvents"@, JsonView::Null);
    if lacks(value, "stackFrames"@) && trace.ids.len() == 0 && trace.nodes.len() == 0 {
        assert(trace.ids =~= Seq::empty());
        assert(trace.nodes =~= Seq::empty());
    } else {
        let held = choose|held: JsonView| #[trigger]
            member(value, "stackFrames"@, held) && says_nodes(held, trace.ids, trace.nodes);
        law_members_are_found(e, "stackFrames"@, held);
        lemma_nodes(held, trace.ids, trace.nodes);
    }
    if lacks(value, "samples"@) && trace.samples.len() == 0 {
        assert(trace.samples =~= Seq::empty());
    } else {
        let held = choose|held: JsonView| #[trigger]
            member(value, "samples"@, held) && says_samples(held, trace.samples);
        law_members_are_found(e, "samples"@, held);
        lemma_samples(held, trace.samples);
    }
    if lacks(value, "traceEvents"@) && trace.events.len() == 0 {
        assert(trace.events =~= Seq::empty());
    } else {
        let held = choose|held: JsonView| #[trigger]
            member(value, "traceEvents"@, held) && says_events(held, trace.events);
        law_members_are_found(e, "traceEvents"@, held);
        lemma_events(held, trace.events);
    }
}

/// A bare array is read as the events of a trace that has nothing else, and a
/// value that is neither an object nor an array is refused with a reason.
pub proof fn law_bare_arrays_are_events(value: JsonView, events: Seq<RecordView>)
    ensures
        says_events(value, events) ==> trace_of(value) == Ok::<TraceView, ErrorView>(
            TraceView {
                ids: Seq::empty(),
                nodes: Seq::empty(),
                samples: Seq::empty(),
                events,
            },
        ),
        !(value is Object) && !(value is Array) ==> trace_of(value) == Err::<
            TraceView,
            ErrorView,
        >(ErrorView::Decode("expected a JSON object or array at the top level"@)),
{
    if says_events(value, events) {
        lemma_events(value, events);
    }
}

/// Whether a value is the record of a sample: of thread zero, at a timestamp,
/// named as the leaf, with the first value as its weight, or without a weight
/// where there is none.
pub open spec fn shows_sample(
    value: JsonView,
    frames: Seq<FrameView>,
    sample: SampleView,
    ts: int,
) -> bool {
    &&& proper(value)
    &&& member(value, "tid"@, JsonView::Number(0))
    &&& member(value, "ts"@, JsonView::Number(ts))
    &&& member(
        value,
        "name"@,
        JsonView::Text(display_name(frames[sample.stack.last().0 as int])),
    )
    &&& sample.values.len() > 0 ==> member(
        value,
        "weight"@,
        JsonView::Number(sample.values[0] as int),
    )
    &&& sample.values.len() == 0 ==> lacks(value, "weight"@)
}

proof fn lemma_sample_shown(
    frames: Seq<FrameView>,
    sample: SampleView,
    ts: i64,
    leaf: u32,
)
    ensures
        shows_sample(
            JsonView::Object(
                sample_entries(
                    ts,
                    display_name(frames[sample.stack.last().0 as int]),
                    leaf,
                    sample.values,
                ),
            ),
            frames,
            sample,
            ts as int,
        ),
{
    lemma_names();
    let name = display_name(frames[sample.stack.last().0 as int]);
    let value = JsonView::Object(sample_entries(ts, name, leaf, sample.values));
    let e = value->Object_0;
    assert(e[0] == ("tid"@, JsonView::Number(0)));
    assert(e[1] == ("ts"@, JsonView::Number(ts as int)));
    assert(e[2] == ("name"@, JsonView::Text(name)));
    assert(e[3].0 == "sf"@);
    if sample.values.len() > 0 {
        assert(e[4] == ("weight"@, JsonView::Number(sample.values[0] as int)));
    }
}

/// Whether a sample has a stack.
pub open spec fn has_frames() -> spec_fn(SampleView) -> bool {
    |sample: SampleView| sample.stack.len() > 0
}

proof fn lemma_path_leaf(trie: Seq<TrieNode>, stack: Seq<crate::model::FrameId>, frames: nat)
    ensures
        path(trie, stack, frames) matches Ok((_, leaf)) ==> (leaf is None <==> stack.len() == 0),
        path(trie, stack, frames) is Ok <==> (forall|i: int|
            0 <= i < stack.len() ==> (#[trigger] stack[i]).0 < frames),
    decreases stack.len(),
{
    if stack.len() > 0 {
        let front = stack.drop_last();
        lemma_path_leaf(trie, front, frames);
        if path(trie, stack, frames) is Ok {
            assert forall|i: int| 0 <= i < stack.len() implies (#[trigger] stack[i]).0 < frames by {
                if i < front.len() {
                    assert(front[i] == stack[i]);
                }
            }
        } else if path(trie, front, frames) is Ok {
            assert(stack[stack.len() - 1].0 >= frames);
        } else {
            let i = choose|i: int| 0 <= i < front.len() && (#[trigger] front[i]).0 >= frames;
            assert(stack[i] == front[i]);
        }
    }
}

proof fn lemma_samples_shown(p: ProfileView, n: nat)
    requires
        n <= p.samples.len(),
    ensures
        trace_samples(p, n) is Ok <==> (forall|i: int, j: int|
            0 <= i < n && 0 <= j < p.samples[i].stack.len() ==> (
            #[trigger] p.samples[i].stack[j]).0 < p.frames.len()),
        trace_samples(p, n) matches Ok(tracing) ==> {
            let kept = p.samples.take(n as int).filter(has_frames());
            &&& tracing.samples.len() == kept.len()
            &&& n <= i64::MAX ==> tracing.ts == kept.len() && kept.len() <= n && forall|i: int|
                0 <= i < kept.len() ==> shows_sample(
                    #[trigger] tracing.samples[i],
                    p.frames,
                    kept[i],
                    i,
                )
        },
    decreases n,
{
    reveal(Seq::filter);
    let taken = p.samples.take(n as int);
    if n > 0 {
        lemma_samples_shown(p, (n - 1) as nat);
        let front = p.samples.take(n - 1);
        assert(taken.drop_last() =~= front);
        let sample = p.samples[n - 1];
        assert(taken.last() == sample);
        let earlier = trace_samples(p, (n - 1) as nat);
        let all = trace_samples(p, n);
        if earlier is Ok {
            let before = earlier->Ok_0;
            lemma_path_leaf(before.trie, sample.stack, p.frames.len());
            if all is Ok {
                let after = all->Ok_0;
                if sample.stack.len() > 0 {
                    let leaf = path(before.trie, sample.stack, p.frames.len())->Ok_0.1->0;
                    lemma_sample_shown(p.frames, sample, before.ts, leaf);
                    let kept = taken.filter(has_frames());
                    let held = front.filter(has_frames());
                    assert(kept == held.push(sample));
                    if n <= i64::MAX {
                        assert forall|i: int| 0 <= i < kept.len() implies shows_sample(
                            #[trigger] after.samples[i],
                            p.frames,
                            kept[i],
                            i,
                        ) by {
                            if i < held.len() {
                                assert(after.samples[i] == before.samples[i]);
                                assert(kept[i] == held[i]);
                            }
                        }
                    }
                }
                assert forall|i: int, j: int|
                    0 <= i < n && 0 <= j < p.samples[i].stack.len() implies (
                #[trigger] p.samples[i].stack[j]).0 < p.frames.len() by {
                    if i == n - 1 {
                        assert(sample.stack[j].0 < p.frames.len());
                    }
                }
            } else {
                let j = choose|j: int|
                    0 <= j < sample.stack.len() && (#[trigger] sample.stack[j]).0 >= p.frames.len();
                assert(p.samples[n - 1].stack[j].0 >= p.frames.len());
            }
        } else {
            let (i, j) = choose|i: int, j: int|
                0 <= i < n - 1 && 0 <= j < p.samples[i].stack.len() && (
                #[trigger] p.samples[i].stack[j]).0 >= p.frames.len();
            assert(p.samples[i].stack[j].0 >= p.frames.len());
        }
    } else {
        assert(taken =~= Seq::empty());
    }
}

/// Whether a value is the file of a trace: no events, the tree, the samples, and
/// nanoseconds as the unit that is displayed.
pub open spec fn shows_trace(value: JsonView, samples: Seq<JsonView>) -> bool {
    &&& proper(value)
    &&& value->Object_0.len() == 4
    &&& member(value, "traceEvents"@, JsonView::Array(Seq::empty()))
    &&& member(value, "samples"@, JsonView::Array(samples))
    &&& member(value, "displayTimeUnit"@, JsonView::Text("ns"@))
}

/// A profile is written where all its stacks point at frames that are there.
/// Every sample that has a stack gets a record, in their order, with timestamps
/// that count up from zero; the others get none.
pub proof fn law_samples_are_written_in_order(p: ProfileView)
    requires
        p.samples.len() <= i64::MAX,
    ensures
        trace_samples(p, p.samples.len()) is Ok <==> (forall|i: int, j: int|
            0 <= i < p.samples.len() && 0 <= j < p.samples[i].stack.len() ==> (
            #[trigger] p.samples[i].stack[j]).0 < p.frames.len()),
        trace_samples(p, p.samples.len()) matches Ok(tracing) ==> {
            let kept = p.samples.filter(has_frames());
            &&& shows_trace(trace_json(p.frames, tracing), tracing.samples)
            &&& tracing.samples.len() == kept.len()
            &&& forall|i: int|
                0 <= i < kept.len() ==> shows_sample(
                    #[trigger] tracing.samples[i],
                    p.frames,
                    kept[i],
                    i,
                )
        },
{
    lemma_samples_shown(p, p.samples.len());
    assert(p.samples.take(p.samples.len() as int) =~= p.samples);
    if let Ok(tracing) = trace_samples(p, p.samples.len()) {
        lemma_names();
        let value = trace_json(p.frames, tracing);
        let e = value->Object_0;
        assert(e[0] == ("traceEvents"@, JsonView::Array(Seq::empty())));
        assert(e[1].0 == "stackFrames"@);
        assert(e[2] == ("samples"@, JsonView::Array(tracing.samples)));
        assert(e[3] == ("displayTimeUnit"@, JsonView::Text("ns"@)));
    }
}

/// A node of the tree is written with the name of its frame, with its module as
/// the category where it is known, and with its parent where it has one.
pub proof fn law_nodes_are_written_by_member(frames: Seq<FrameView>, node: TrieNode)
    ensures
        ({
            let value = JsonView::Object(node_entries(frames, node));
            let frame = frames[node.frame as int];
            &&& proper(value)
            &&& member(value, "name"@, JsonView::Text(display_name(frame)))
            &&& frame.module matches Some(module) ==> member(
                value,
                "category"@,
                JsonView::Text(module),
            )
            &&& frame.module is None ==> lacks(value, "category"@)
            &&& node.parent matches Some(parent) ==> member(
                value,
                "parent"@,
                JsonView::Text(crate::number::decimal(parent as nat)),
            )
            &&& node.parent is None ==> lacks(value, "parent"@)
        }),
{
    lemma_names();
    let value = JsonView::Object(node_entries(frames, node));
    let frame = frames[node.frame as int];
    let e = value->Object_0;
    assert(e[0] == ("name"@, JsonView::Text(display_name(frame))));
    if let Some(module) = frame.module {
        assert(e[1] == ("category"@, JsonView::Text(module)));
    }
    if let Some(parent) = node.parent {
        assert(e[e.len() - 1] == (
            "parent"@,
            JsonView::Text(crate::number::decimal(parent as nat)),
        ));
    }
}

/// Whether a text has a word in it.
pub open spec fn has_word(text: Seq<char>, word: Seq<char>) -> bool {
    exists|before: Seq<char>, after: Seq<char>| text == #[trigger] (before + word + after)
}

proof fn lemma_has_word(text: Seq<char>, word: Seq<char>)
    ensures
        has_word(text, word) <==> occurs(text, word),
{
    if has_word(text, word) {
        let (before, after) = choose|before: Seq<char>, after: Seq<char>|
            text == #[trigger] (before + word + after);
        let at = before.len() as int;
        assert(text.subrange(at, at + word.len()) =~= word);
        assert(stands_at(text, word, at));
    }
    if occurs(text, word) {
        let at = choose|at: int| #[trigger] stands_at(text, word, at);
        let before = text.take(at);
        let after = text.skip(at + word.len());
        assert(text =~= before + word + after);
    }
}

/// Text is likely a trace where it has the key of the tree in it, weakly one
/// where it has only that of the events, and else none. An empty input is none.
pub proof fn law_traces_are_known_by_their_keys(text: Seq<char>, buf: Seq<u8>)
    ensures
        has_word(text, "\"stackFrames\""@) ==> text_likeness(text) == Confidence::Likely,
        !has_word(text, "\"stackFrames\""@) && has_word(text, "\"traceEvents\""@)
            ==> text_likeness(text) == Confidence::Weak,
        !has_word(text, "\"stackFrames\""@) && !has_word(text, "\"traceEvents\""@)
            ==> text_likeness(text) == Confidence::NoMatch,
        buf.len() == 0 ==> content_likeness(buf) == Confidence::NoMatch,
        buf.len() > 0 ==> content_likeness(buf) == text_likeness(lossy_text(buf)),
{
    lemma_has_word(text, "\"stackFrames\""@);
    lemma_has_word(text, "\"traceEvents\""@);
}

/// What the fields of a record may be: a text where a text is due, null or a text
/// where it may be missing, null, a text or an integer where a frame is referred
/// to, and null or an integer where a weight is due. Nothing else is accepted.
pub proof fn law_fields_are_faulted_for_their_kind(value: JsonView, n: int)
    ensures
        text_fault(value) is None <==> value is Text,
        opt_text_fault(value) is None <==> value is Text || value is Null,
        ref_fault(value) is None <==> {
            ||| value is Null
            ||| value is Text
            ||| value matches JsonView::Number(k) && i64::MIN <= k <= i64::MAX
        },
        weight_fault(value) is None <==> {
            ||| value is Null
            ||| value matches JsonView::Number(k) && i64::MIN <= k <= i64::MAX
        },
        ref_fault(JsonView::Bool(true)) == Some(
            "data did not match any variant of untagged enum FrameRef"@,
        ),
{
}

/// The first member at fault is the one that is told.
pub proof fn law_the_first_faulty_member_is_told(
    part: Part,
    entries: Seq<(Seq<char>, JsonView)>,
    from: int,
    at: int,
)
    requires
        0 <= from <= at < entries.len(),
        forall|i: int|
            from <= i < at ==> named_fault(part, (#[trigger] entries[i]).0, entries[i].1) is None,
        named_fault(part, entries[at].0, entries[at].1) is Some,
    ensures
        entries_fault(part, entries, from) == named_fault(part, entries[at].0, entries[at].1),
    decreases at - from,
{
    if from < at {
        assert(named_fault(part, entries[from].0, entries[from].1) is None);
        law_the_first_faulty_member_is_told(part, entries, from + 1, at);
    }
}

/// Records of a trace may be arrays of their fields in order, of which the last
/// may be missing: a node is its name, its category and its parent, an entry of
/// the sample array its leaf and its weight, and an event its phase, its leaf and
/// its weight.
pub proof fn law_records_may_be_short_arrays(
    name: Seq<char>,
    category: Seq<char>,
    id: Seq<char>,
    weight: i64,
)
    ensures
        node_of(JsonView::Array(seq![JsonView::Text(name)])) == Some(
            NodeView { name, category: None, parent: None },
        ),
        node_of(JsonView::Array(seq![JsonView::Text(name), JsonView::Text(category)])) == Some(
            NodeView { name, category: Some(category), parent: None },
        ),
        node_of(
            JsonView::Array(
                seq![JsonView::Text(name), JsonView::Text(category), JsonView::Text(id)],
            ),
        ) == Some(NodeView { name, category: Some(category), parent: Some(id) }),
        node_of(JsonView::Array(Seq::empty())) is None,
        sample_of(JsonView::Array(Seq::empty())) == Some(
            RecordView { ph: None, sf: None, weight: None },
        ),
        sample_of(JsonView::Array(seq![JsonView::Text(id)])) == Some(
            RecordView { ph: None, sf: Some(id), weight: None },
        ),
        sample_of(JsonView::Array(seq![JsonView::Text(id), JsonView::Number(weight as int)]))
            == Some(RecordView { ph: None, sf: Some(id), weight: Some(weight as int) }),
        event_of(JsonView::Array(seq![JsonView::Text(name), JsonView::Text(id)])) == Some(
            RecordView { ph: Some(name), sf: Some(id), weight: None },
        ),
        event_of(
            JsonView::Array(
                seq![JsonView::Text(name), JsonView::Text(id), JsonView::Number(weight as int)],
            ),
        ) == Some(RecordView { ph: Some(name), sf: Some(id), weight: Some(weight as int) }),
{
}

proof fn lemma_path_stops(
    trie: Seq<TrieNode>,
    stack: Seq<crate::model::FrameId>,
    frames: nat,
    j: int,
)
    requires
        0 <= j < stack.len(),
        stack[j].0 >= frames,
        forall|k: int| 0 <= k < j ==> (#[trigger] stack[k]).0 < frames,
    ensures
        path(trie, stack, frames) is Err,
        path(trie, stack, frames)->Err_0 == ErrorView::InvalidProfile(
            stack_message(stack[j].0 as nat, frames),
        ),
    decreases stack.len(),
{
    let front = stack.drop_last();
    if j < stack.len() - 1 {
        assert(front[j] == stack[j]);
        assert forall|k: int| 0 <= k < j implies (#[trigger] front[k]).0 < frames by {
            assert(front[k] == stack[k]);
        }
        lemma_path_stops(trie, front, frames, j);
    } else {
        lemma_path_leaf(trie, front, frames);
        assert forall|k: int| 0 <= k < front.len() implies (#[trigger] front[k]).0 < frames by {
            assert(front[k] == stack[k]);
        }
    }
}

proof fn lemma_trace_stops(p: ProfileView, at: nat, n: nat)
    requires
        at < n,
        trace_samples(p, at + 1) is Err,
    ensures
        trace_samples(p, n) == trace_samples(p, at + 1),
    decreases n,
{
    if at + 1 < n {
        lemma_trace_stops(p, at, (n - 1) as nat);
    }
}

/// A profile is refused for the first stack that points at a frame that is not
/// there, and for the first such id in it.
pub proof fn law_the_first_bad_stack_is_told(p: ProfileView, at: int, j: int)
    requires
        0 <= at < p.samples.len(),
        forall|i: int, k: int|
            0 <= i < at && 0 <= k < p.samples[i].stack.len() ==> (
            #[trigger] p.samples[i].stack[k]).0 < p.frames.len(),
        0 <= j < p.samples[at].stack.len(),
        p.samples[at].stack[j].0 >= p.frames.len(),
        forall|k: int| 0 <= k < j ==> (#[trigger] p.samples[at].stack[k]).0 < p.frames.len(),
    ensures
        trace_samples(p, p.samples.len()) is Err,
        trace_samples(p, p.samples.len())->Err_0 == ErrorView::InvalidProfile(
            stack_message(p.samples[at].stack[j].0 as nat, p.frames.len()),
        ),
{
    lemma_samples_shown(p, at as nat);
    let before = trace_samples(p, at as nat)->Ok_0;
    lemma_path_stops(before.trie, p.samples[at].stack, p.frames.len(), j);
    assert(trace_samples(p, at as nat + 1) is Err);
    lemma_trace_stops(p, at as nat, p.samples.len());
}

/// A trace whose tree is no object, or whose samples or events are no array, is
/// refused, and so is one in which one of their items is refused.
pub proof fn law_other_members_are_refused(value: JsonView, held: JsonView, i: int)
    requires
        proper(value),
    ensures
        member(value, "stackFrames"@, held) && !(held is Object) ==> trace_of(value) == Err::<
            TraceView,
            ErrorView,
        >(ErrorView::Json),
        member(value, "stackFrames"@, held) && held is Object && 0 <= i < held->Object_0.len()
            && node_of(held->Object_0[i].1) is None ==> trace_of(value) == Err::<
            TraceView,
            ErrorView,
        >(ErrorView::Json),
        member(value, "samples"@, held) && !(held is Array) ==> trace_of(value) == Err::<
            TraceView,
            ErrorView,
        >(ErrorView::Json),
        member(value, "samples"@, held) && held is Array && 0 <= i < held->Array_0.len()
            && sample_of(held->Array_0[i]) is None ==> trace_of(value) == Err::<
            TraceView,
            ErrorView,
        >(ErrorView::Json),
        member(value, "traceEvents"@, held) && !(held is Array) ==> trace_of(value) == Err::<
            TraceView,
            ErrorView,
        >(ErrorView::Json),
        member(value, "traceEvents"@, held) && held is Array && 0 <= i < held->Array_0.len()
            && event_of(held->Array_0[i]) is None ==> trace_of(value) == Err::<
            TraceView,
            ErrorView,
        >(ErrorView::Json),
{
    let e = value->Object_0;
    law_members_are_found(e, "stackFrames"@, held);
    law_members_are_found(e, "samples"@, held);
    law_members_are_found(e, "traceEvents"@, held);
}

/// A weight that is no integer, or a reference that is neither a text nor an
/// integer, is refused.
pub proof fn law_odd_fields_are_refused(value: JsonView, held: JsonView, n: int)
    requires
        proper(value),
    ensures
        member(value, "weight"@, JsonView::Number(n)) && (n < i64::MIN || n > i64::MAX)
            ==> sample_of(value) is None && event_of(value) is None,
        member(value, "weight"@, held) && !(held is Number) && !(held is Null) ==> sample_of(
            value,
        ) is None && event_of(value) is None,
        member(value, "sf"@, held) && !(held is Number) && !(held is Text) && !(held is Null)
            ==> sample_of(value) is None && event_of(value) is None,
        member(value, "ph"@, held) && !(held is Text) && !(held is Null) ==> event_of(
            value,
        ) is None,
        member(value, "parent"@, held) && !(held is Number) && !(held is Text) && !(held is Null)
            ==> node_of(value) is None,
        member(value, "category"@, held) && !(held is Text) && !(held is Null) ==> node_of(
            value,
        ) is None,
{
    let e = value->Object_0;
    law_members_are_found(e, "weight"@, JsonView::Number(n));
    law_members_are_found(e, "weight"@, held);
    law_members_are_found(e, "sf"@, held);
    law_members_are_found(e, "ph"@, held);
    law_members_are_found(e, "parent"@, held);
    law_members_are_found(e, "category"@, held);
    let f = record(value, seq!["sf"@, "weight"@], true)->0;
    assert(f[0] == entry(e, "sf"@));
    assert(f[1] == entry(e, "weight"@));
    let g = record(value, seq!["ph"@, "sf"@, "weight"@], true)->0;
    assert(g[0] == entry(e, "ph"@));
    assert(g[1] == entry(e, "sf"@));
    assert(g[2] == entry(e, "weight"@));
    let h = record(value, seq!["name"@, "category"@, "parent"@], true)->0;
    assert(h[1] == entry(e, "category"@));
    assert(h[2] == entry(e, "parent"@));
}

} // verus!
