//! The Chrome Trace Event Format (`chrome://tracing`, Perfetto, catapult).
//!
//! This is a bidirectional JSON format. profcast reads and writes the *sampling*
//! subset of the format: the top-level `stackFrames` map plus `samples` array
//! (and `"ph": "P"` sample events inside `traceEvents`). The duration-event side
//! of the format (`B`/`E`/`X` events) describes a fundamentally different,
//! interval based model and is ignored on read and never produced on write.
//!
//! A `stackFrames` entry is a node in the call tree: it carries a `name`, an
//! optional `category`, and an optional `parent` id pointing one frame closer to
//! the root. A sample references its leaf frame by `sf`; the full stack is
//! recovered by walking `parent` links up to the root. On write we rebuild that
//! tree as a trie over every sample's stack, so shared prefixes are interned
//! exactly as a real tracer would emit them.
//!
//! Like folded, the format carries a single weight per sample, so writing keeps
//! only the first value series (see [`Profile::value_kinds`]). Chrome traces
//! conventionally use the `.json` extension, which is already claimed by
//! [`JsonFormat`](crate::json_format::JsonFormat); this format is therefore
//! selected by name (`--from chrometrace` / `--to chrometrace`) or auto-detected
//! from its content, never inferred from a path.
//!
//! See <https://docs.google.com/document/d/1CvAClvFfyA5R-PhYUmn5OOQtYMH4h6I0nSsKchNAySU>.

use vstd::prelude::*;

use crate::chrometrace_laws::{law_chrome_round_trips, read_told, told};
use crate::chrometrace_faults::{
    find_trace_fault, lemma_refused_for_a_fault, tells, trace_fault,
};
use crate::error::{outcome, ErrorView, ProfcastError, Result};
use crate::format::{Confidence, InputFormat, OutputFormat, ProbeData, ProbeView, WriteOptions};
use crate::intern::{
    frame_id, grown, grown_all, id_at, ids, law_grown_keeps_places, mix, mixed, place, same_opt,
    Interner, Key,
};
use crate::json::{
    array_value, as_opt_number, as_opt_text, distinct_keys, entry, find_entry, held, held_all,
    held_entries, held_fields, held_opt, json_parse, object_value, open_record, open_value, opened,
    parse_json, print_json, json_text, read_opt_signed, read_opt_text, read_text, record,
    signed_value, simple, text_value, unsigned_value, JsonView, Layer,
};
use crate::model::{
    copy_text, opt_text, views, Frame, FrameId, FrameView, Profile, ProfileView, Sample,
    SampleView, ValueKind, ValueKindView,
};
use crate::number::{
    add_saturating, decimal, decimal_int, hexadecimal, law_decimal_reads_back, push_decimal,
    push_hexadecimal, push_i64, saturated,
};
use crate::order::{in_text_order, law_text_order, numbers, text_order};
use crate::path::word_list;
use crate::text::{chars_of, has_text, lossy, lossy_text, occurs, same_text};

verus! {

/// The Chrome trace format. Stateless, so this is a zero-sized marker that
/// implements both [`InputFormat`] and [`OutputFormat`].
#[derive(Debug, Clone, Copy)]
pub struct ChromeTraceFormat;

impl Default for ChromeTraceFormat {
    fn default() -> (r: Self)
        ensures
            r == ChromeTraceFormat,
    {
        ChromeTraceFormat
    }
}

/// The id that a value references: a text, or an integer in its decimal form.
pub open spec fn ref_of(value: JsonView) -> Option<Seq<char>> {
    match value {
        JsonView::Text(text) => Some(text),
        JsonView::Number(n) => if i64::MIN <= n <= i64::MAX {
            Some(decimal_int(n))
        } else {
            None
        },
        _ => None,
    }
}

/// A reference that may be missing: not given, or null. The outer `None` is a
/// value of another kind.
pub open spec fn opt_ref_of(field: Option<JsonView>) -> Option<Option<Seq<char>>> {
    match field {
        None => Some(None),
        Some(JsonView::Null) => Some(None),
        Some(value) => match ref_of(value) {
            Some(key) => Some(Some(key)),
            None => None,
        },
    }
}

/// A node of the `stackFrames` tree.
#[verifier::ext_equal]
pub struct NodeView {
    pub name: Seq<char>,
    pub category: Option<Seq<char>>,
    pub parent: Option<Seq<char>>,
}

/// A sampling record.
#[verifier::ext_equal]
pub struct RecordView {
    pub ph: Option<Seq<char>>,
    pub sf: Option<Seq<char>>,
    pub weight: Option<int>,
}

/// The node that a value says.
pub open spec fn node_of(value: JsonView) -> Option<NodeView> {
    match record(value, seq!["name"@, "category"@, "parent"@], true) {
        None => None,
        Some(f) => match (f[0], as_opt_text(f[1]), opt_ref_of(f[2])) {
            (Some(JsonView::Text(name)), Some(category), Some(parent)) => Some(
                NodeView { name, category, parent },
            ),
            _ => None,
        },
    }
}

/// The entry of the `samples` array that a value says.
pub open spec fn sample_of(value: JsonView) -> Option<RecordView> {
    match record(value, seq!["sf"@, "weight"@], true) {
        None => None,
        Some(f) => match (
            opt_ref_of(f[0]),
            as_opt_number(f[1], i64::MIN as int, i64::MAX as int),
        ) {
            (Some(sf), Some(weight)) => Some(RecordView { ph: None, sf, weight }),
            _ => None,
        },
    }
}

/// The entry of the `traceEvents` array that a value says.
pub open spec fn event_of(value: JsonView) -> Option<RecordView> {
    match record(value, seq!["ph"@, "sf"@, "weight"@], true) {
        None => None,
        Some(f) => match (
            as_opt_text(f[0]),
            opt_ref_of(f[1]),
            as_opt_number(f[2], i64::MIN as int, i64::MAX as int),
        ) {
            (Some(ph), Some(sf), Some(weight)) => Some(RecordView { ph, sf, weight }),
            _ => None,
        },
    }
}

/// What profcast understands of a trace: the ids and nodes of the stack-frame
/// tree, the sample array, and the events.
#[verifier::ext_equal]
pub struct TraceView {
    pub ids: Seq<Seq<char>>,
    pub nodes: Seq<NodeView>,
    pub samples: Seq<RecordView>,
    pub events: Seq<RecordView>,
}

/// The nodes that the `stackFrames` field says.
pub open spec fn nodes_of(field: Option<JsonView>) -> Option<(Seq<Seq<char>>, Seq<NodeView>)> {
    match field {
        None => Some((Seq::empty(), Seq::empty())),
        Some(JsonView::Object(entries)) => if forall|i: int|
            0 <= i < entries.len() ==> node_of((#[trigger] entries[i]).1) is Some {
            Some(
                (
                    Seq::new(entries.len(), |i: int| entries[i].0),
                    Seq::new(entries.len(), |i: int| node_of(entries[i].1)->0),
                ),
            )
        } else {
            None
        },
        _ => None,
    }
}

/// The records that the `samples` field says.
pub open spec fn samples_of(field: Option<JsonView>) -> Option<Seq<RecordView>> {
    match field {
        None => Some(Seq::empty()),
        Some(JsonView::Array(items)) => if forall|i: int|
            0 <= i < items.len() ==> sample_of(#[trigger] items[i]) is Some {
            Some(Seq::new(items.len(), |i: int| sample_of(items[i])->0))
        } else {
            None
        },
        _ => None,
    }
}

/// The records that the `traceEvents` field says.
pub open spec fn events_of(field: Option<JsonView>) -> Option<Seq<RecordView>> {
    match field {
        None => Some(Seq::empty()),
        Some(JsonView::Array(items)) => if forall|i: int|
            0 <= i < items.len() ==> event_of(#[trigger] items[i]) is Some {
            Some(Seq::new(items.len(), |i: int| event_of(items[i])->0))
        } else {
            None
        },
        _ => None,
    }
}

/// The trace that a value says: the object form, or the bare array of events.
/// Unknown keys are ignored.
pub open spec fn trace_of(value: JsonView) -> std::result::Result<TraceView, ErrorView> {
    match value {
        JsonView::Object(entries) => match (
            nodes_of(entry(entries, "stackFrames"@)),
            samples_of(entry(entries, "samples"@)),
            events_of(entry(entries, "traceEvents"@)),
        ) {
            (Some((ids, nodes)), Some(samples), Some(events)) => Ok(
                TraceView { ids, nodes, samples, events },
            ),
            _ => Err(ErrorView::Json),
        },
        JsonView::Array(_) => match events_of(Some(value)) {
            Some(events) => Ok(
                TraceView {
                    ids: Seq::empty(),
                    nodes: Seq::empty(),
                    samples: Seq::empty(),
                    events,
                },
            ),
            None => Err(ErrorView::Json),
        },
        _ => Err(ErrorView::Decode("expected a JSON object or array at the top level"@)),
    }
}

/// One node in the `stackFrames` tree.
pub struct RawStackFrame {
    /// Human-readable frame label.
    pub name: String,
    /// Optional grouping (module / library); mapped to [`Frame::module`].
    pub category: Option<String>,
    /// The id of the parent frame, one step closer to the root.
    pub parent: Option<String>,
}

impl View for RawStackFrame {
    type V = NodeView;

    open spec fn view(&self) -> NodeView {
        NodeView {
            name: self.name@,
            category: opt_text(self.category),
            parent: opt_text(self.parent),
        }
    }
}

/// A sampling record: an entry of the `samples` array, which has no phase, or
/// of the `traceEvents` array.
pub struct RawRecord {
    /// Event phase. `"P"` marks a sample event.
    pub ph: Option<String>,
    /// Leaf stack-frame id; a record without one carries no stack.
    pub sf: Option<String>,
    /// Sample weight; absent means a weight of one.
    pub weight: Option<i64>,
}

impl View for RawRecord {
    type V = RecordView;

    open spec fn view(&self) -> RecordView {
        RecordView {
            ph: opt_text(self.ph),
            sf: opt_text(self.sf),
            weight: match self.weight {
                Some(weight) => Some(weight as int),
                None => None,
            },
        }
    }
}

/// The slice of a trace file profcast understands: the stack-frame tree, the
/// sample array, and any inline sample events. Unknown top-level keys
/// (`displayTimeUnit`, `metadata`, ...) are ignored.
pub struct TraceObject {
    /// The ids of the call-tree nodes.
    ids: Interner<String>,
    /// The call-tree nodes, in the order of their ids.
    nodes: Vec<RawStackFrame>,
    /// Top-level sampling records (object-format traces).
    samples: Vec<RawRecord>,
    /// Inline events; only `"ph": "P"` sample events are read.
    events: Vec<RawRecord>,
}

impl View for TraceObject {
    type V = TraceView;

    closed spec fn view(&self) -> TraceView {
        TraceView {
            ids: self.ids@,
            nodes: views(self.nodes@),
            samples: views(self.samples@),
            events: views(self.events@),
        }
    }
}

impl TraceObject {
    /// Every node has one id of its own.
    pub closed spec fn wf(&self) -> bool {
        self.ids.wf() && self.ids@.no_duplicates() && self.ids@.len() == self.nodes@.len()
    }
}

/// Reads a reference that may be missing.
fn read_opt_ref(field: Option<&serde_json::Value>) -> (r: Option<Option<String>>)
    ensures
        match r {
            Some(key) => opt_ref_of(held_opt(field)) == Some(opt_text(key)),
            None => opt_ref_of(held_opt(field)) is None,
        },
{
    match field {
        None => Some(None),
        Some(value) => match open_value(value) {
            Layer::Null => Some(None),
            Layer::Text(text) => Some(Some(text.to_owned())),
            Layer::Unsigned(n) => if n <= i64::MAX as u64 {
                let mut key: String = String::new();
                push_decimal(&mut key, n);
                assert(key@ =~= decimal_int(n as int));
                Some(Some(key))
            } else {
                None
            },
            Layer::Negative(n) => {
                let mut key: String = String::new();
                push_i64(&mut key, n);
                assert(key@ =~= decimal_int(n as int));
                Some(Some(key))
            },
            _ => None,
        },
    }
}

fn read_node(value: &serde_json::Value) -> (r: Option<RawStackFrame>)
    ensures
        match r {
            Some(node) => node_of(held(*value)) == Some(node@),
            None => node_of(held(*value)) is None,
        },
{
    let keys: &'static [&'static str] = &["name", "category", "parent"];
    assert(word_list(keys@) =~= seq!["name"@, "category"@, "parent"@]);
    let fields = match open_record(value, keys, true) {
        Some(fields) => fields,
        None => return None,
    };
    let ghost given = held_fields(fields@);
    assert(given.len() == 3);
    assert(given[0] == held_opt(fields@[0]));
    assert(given[1] == held_opt(fields@[1]));
    assert(given[2] == held_opt(fields@[2]));
    let name = match fields[0] {
        Some(value) => match read_text(value) {
            Some(name) => name,
            None => return None,
        },
        None => return None,
    };
    let category = match read_opt_text(fields[1]) {
        Some(category) => category,
        None => return None,
    };
    let parent = match read_opt_ref(fields[2]) {
        Some(parent) => parent,
        None => return None,
    };
    Some(RawStackFrame { name, category, parent })
}

fn read_sample(value: &serde_json::Value) -> (r: Option<RawRecord>)
    ensures
        match r {
            Some(sample) => sample_of(held(*value)) == Some(sample@),
            None => sample_of(held(*value)) is None,
        },
{
    let keys: &'static [&'static str] = &["sf", "weight"];
    assert(word_list(keys@) =~= seq!["sf"@, "weight"@]);
    let fields = match open_record(value, keys, true) {
        Some(fields) => fields,
        None => return None,
    };
    let ghost given = held_fields(fields@);
    assert(given.len() == 2);
    assert(given[0] == held_opt(fields@[0]));
    assert(given[1] == held_opt(fields@[1]));
    let sf = match read_opt_ref(fields[0]) {
        Some(sf) => sf,
        None => return None,
    };
    let weight: Option<i64> = match read_opt_signed(fields[1]) {
        Some(weight) => weight,
        None => return None,
    };
    Some(RawRecord { ph: None, sf, weight })
}

fn read_event(value: &serde_json::Value) -> (r: Option<RawRecord>)
    ensures
        match r {
            Some(event) => event_of(held(*value)) == Some(event@),
            None => event_of(held(*value)) is None,
        },
{
    let keys: &'static [&'static str] = &["ph", "sf", "weight"];
    assert(word_list(keys@) =~= seq!["ph"@, "sf"@, "weight"@]);
    let fields = match open_record(value, keys, true) {
        Some(fields) => fields,
        None => return None,
    };
    let ghost given = held_fields(fields@);
    assert(given.len() == 3);
    assert(given[0] == held_opt(fields@[0]));
    assert(given[1] == held_opt(fields@[1]));
    assert(given[2] == held_opt(fields@[2]));
    let ph = match read_opt_text(fields[0]) {
        Some(ph) => ph,
        None => return None,
    };
    let sf = match read_opt_ref(fields[1]) {
        Some(sf) => sf,
        None => return None,
    };
    let weight: Option<i64> = match read_opt_signed(fields[2]) {
        Some(weight) => weight,
        None => return None,
    };
    Some(RawRecord { ph, sf, weight })
}

fn read_nodes(field: Option<&serde_json::Value>) -> (r: Option<
    (Interner<String>, Vec<RawStackFrame>),
>)
    ensures
        match r {
            Some((ids, nodes)) => {
                &&& nodes_of(held_opt(field)) == Some((ids@, views(nodes@)))
                &&& ids.wf()
                &&& ids@.no_duplicates()
                &&& ids@.len() == nodes@.len()
            },
            None => nodes_of(held_opt(field)) is None,
        },
{
    let mut ids: Interner<String> = Interner::new();
    let mut nodes: Vec<RawStackFrame> = Vec::new();
    let value = match field {
        Some(value) => value,
        None => {
            assert(views(nodes@) =~= Seq::empty());
            return Some((ids, nodes));
        },
    };
    match open_value(value) {
        Layer::Object(entries) => {
            let ghost all = opened(entries@);
            assert(held(*value) == JsonView::Object(all));
            let mut i: usize = 0;
            while i < entries.len()
                invariant
                    i <= entries.len(),
                    all == opened(entries@),
                    distinct_keys(all),
                    held(*value) == JsonView::Object(all),
                    held_opt(field) == Some(held(*value)),
                    ids.wf(),
                    ids@.no_duplicates(),
                    ids@.len() == i,
                    nodes@.len() == i,
                    forall|j: int| 0 <= j < i ==> #[trigger] ids@[j] == all[j].0,
                    forall|j: int| 0 <= j < i ==> node_of((#[trigger] all[j]).1) == Some(nodes@[j]@),
                decreases entries.len() - i,
            {
                let (key, value) = entries[i];
                assert(all[i as int] == (key@, held(*value)));
                match read_node(value) {
                    Some(node) => {
                        proof {
                            if ids@.contains(key@) {
                                let j = ids@.index_of(key@);
                                assert(ids@[j] == all[j].0);
                                assert(all[j].0 != all[i as int].0);
                            }
                            law_grown_keeps_places(ids@, key@);
                        }
                        ids.intern(key.to_owned());
                        nodes.push(node);
                    },
                    None => {
                        assert(node_of(all[i as int].1) is None);
                        return None;
                    },
                }
                i = i + 1;
            }
            assert(ids@ =~= Seq::new(all.len(), |i: int| all[i].0));
            assert(views(nodes@) =~= Seq::new(all.len(), |i: int| node_of(all[i].1)->0));
            Some((ids, nodes))
        },
        _ => None,
    }
}

fn read_sample_list(field: Option<&serde_json::Value>) -> (r: Option<Vec<RawRecord>>)
    ensures
        match r {
            Some(list) => samples_of(held_opt(field)) == Some(views(list@)),
            None => samples_of(held_opt(field)) is None,
        },
{
    let mut out: Vec<RawRecord> = Vec::new();
    let value = match field {
        Some(value) => value,
        None => {
            assert(views(out@) =~= Seq::empty());
            return Some(out);
        },
    };
    match open_value(value) {
        Layer::Array(items) => {
            let ghost all = held_all(items@);
            let mut i: usize = 0;
            while i < items.len()
                invariant
                    i <= items.len(),
                    all == held_all(items@),
                    held_opt(field) == Some(JsonView::Array(all)),
                    out@.len() == i,
                    forall|j: int| 0 <= j < i ==> sample_of(#[trigger] all[j]) == Some(out@[j]@),
                decreases items.len() - i,
            {
                assert(all[i as int] == held(items@[i as int]));
                match read_sample(&items[i]) {
                    Some(item) => {
                        out.push(item);
                    },
                    None => {
                        return None;
                    },
                }
                i = i + 1;
            }
            assert(views(out@) =~= samples_of(held_opt(field))->0);
            Some(out)
        },
        _ => None,
    }
}

fn read_event_list(field: Option<&serde_json::Value>) -> (r: Option<Vec<RawRecord>>)
    ensures
        match r {
            Some(list) => events_of(held_opt(field)) == Some(views(list@)),
            None => events_of(held_opt(field)) is None,
        },
{
    let mut out: Vec<RawRecord> = Vec::new();
    let value = match field {
        Some(value) => value,
        None => {
            assert(views(out@) =~= Seq::empty());
            return Some(out);
        },
    };
    match open_value(value) {
        Layer::Array(items) => {
            let ghost all = held_all(items@);
            let mut i: usize = 0;
            while i < items.len()
                invariant
                    i <= items.len(),
                    all == held_all(items@),
                    held_opt(field) == Some(JsonView::Array(all)),
                    out@.len() == i,
                    forall|j: int| 0 <= j < i ==> event_of(#[trigger] all[j]) == Some(out@[j]@),
                decreases items.len() - i,
            {
                assert(all[i as int] == held(items@[i as int]));
                match read_event(&items[i]) {
                    Some(item) => {
                        out.push(item);
                    },
                    None => {
                        return None;
                    },
                }
                i = i + 1;
            }
            assert(views(out@) =~= events_of(held_opt(field))->0);
            Some(out)
        },
        _ => None,
    }
}

/// Refuses a value that is no trace, with the error for its first fault.
fn refuse(value: &serde_json::Value) -> (r: Result<TraceObject>)
    requires
        trace_of(held(*value)) == Err::<TraceView, ErrorView>(ErrorView::Json),
    ensures
        r matches Err(ProfcastError::Json(error)) && tells(
            Some(error),
            trace_fault(held(*value)),
        ),
{
    proof {
        lemma_refused_for_a_fault(held(*value));
    }
    match find_trace_fault(value) {
        Some(error) => Err(ProfcastError::Json(error)),
        None => vstd::pervasive::unreached(),
    }
}

/// Decodes a JSON value into a [`TraceObject`], accepting both the object form
/// (`{ "traceEvents": [...] }`) and the bare-array form (`[ ... ]`).
///
/// A value that is neither in part is refused with the error that names its
/// first entry at fault.
pub fn decode_trace(value: &serde_json::Value) -> (r: Result<TraceObject>)
    ensures
        outcome(r) == trace_of(held(*value)),
        r matches Err(ProfcastError::Json(error)) ==> tells(
            Some(error),
            trace_fault(held(*value)),
        ),
        r matches Ok(trace) ==> trace.wf(),
{
    match open_value(value) {
        Layer::Object(entries) => {
            let nodes = read_nodes(find_entry(&entries, "stackFrames"));
            let samples = read_sample_list(find_entry(&entries, "samples"));
            let events = read_event_list(find_entry(&entries, "traceEvents"));
            assert(held(*value) == JsonView::Object(opened(entries@)));
            match (nodes, samples, events) {
                (Some((ids, nodes)), Some(samples), Some(events)) => Ok(
                    TraceObject { ids, nodes, samples, events },
                ),
                _ => refuse(value),
            }
        },
        Layer::Array(_) => match read_event_list(Some(value)) {
            Some(events) => {
                let r = TraceObject {
                    ids: Interner::new(),
                    nodes: Vec::new(),
                    samples: Vec::new(),
                    events,
                };
                assert(views(r.nodes@) =~= Seq::empty());
                assert(views(r.samples@) =~= Seq::empty());
                Ok(r)
            },
            None => refuse(value),
        },
        _ => Err(
            ProfcastError::Decode("expected a JSON object or array at the top level".to_owned()),
        ),
    }
}


/// What a frame is interned by: the name and the category of its node.
pub type NodeKeyView = (Seq<char>, Option<Seq<char>>);

/// The frame for a node.
pub open spec fn node_frame(key: NodeKeyView) -> FrameView {
    FrameView {
        raw: key.0,
        function: if key.0.len() == 0 {
            None
        } else {
            Some(key.0)
        },
        module: key.1,
        ..FrameView::unknown()
    }
}

/// The frame of each node.
pub open spec fn node_frames(keys: Seq<NodeKeyView>) -> Seq<FrameView> {
    Seq::new(keys.len(), |i: int| node_frame(keys[i]))
}

impl TraceView {
    /// The node with an id.
    pub open spec fn node(self, id: Seq<char>) -> Option<NodeView> {
        if self.ids.contains(id) {
            Some(self.nodes[place(self.ids, id)])
        } else {
            None
        }
    }

    /// The sampling records: a leaf id and a weight for each, from the sample
    /// array and then from the `"P"` events.
    pub open spec fn records(self) -> Seq<(Seq<char>, i64)> {
        sample_records(self.samples) + event_records(self.events)
    }
}

/// The leaf id and the weight of a record; absent means a weight of one.
pub open spec fn leaf_and_weight(record: RecordView) -> (Seq<char>, i64) {
    (
        record.sf->0,
        match record.weight {
            Some(weight) => weight as i64,
            None => 1,
        },
    )
}

/// The records of the sample array that have a stack.
pub open spec fn sample_records(samples: Seq<RecordView>) -> Seq<(Seq<char>, i64)>
    decreases samples.len(),
{
    if samples.len() == 0 {
        Seq::empty()
    } else {
        let before = sample_records(samples.drop_last());
        if samples.last().sf is Some {
            before.push(leaf_and_weight(samples.last()))
        } else {
            before
        }
    }
}

/// The records of the `"P"` events that have a stack.
pub open spec fn event_records(events: Seq<RecordView>) -> Seq<(Seq<char>, i64)>
    decreases events.len(),
{
    if events.len() == 0 {
        Seq::empty()
    } else {
        let before = event_records(events.drop_last());
        if events.last().ph == Some("P"@) && events.last().sf is Some {
            before.push(leaf_and_weight(events.last()))
        } else {
            before
        }
    }
}

pub open spec fn cycle_message(leaf: Seq<char>, limit: nat) -> Seq<char> {
    "stack frame chain from '"@ + leaf + "' exceeds "@ + decimal(limit)
        + " frames (parent cycle?)"@
}

pub open spec fn unknown_message(id: Seq<char>) -> Seq<char> {
    "sample references unknown stack frame id '"@ + id + "'"@
}

/// How many nodes a chain may have in a tree of `count` nodes.
pub open spec fn chain_limit(count: nat) -> nat {
    if count < usize::MAX {
        count + 1
    } else {
        usize::MAX as nat
    }
}

/// The nodes from `id` up to the root, having walked `steps` nodes from `leaf`.
/// A chain longer than the tree can only be a cycle.
pub open spec fn walk(trace: TraceView, leaf: Seq<char>, id: Seq<char>, steps: nat) -> std::result::Result<
    Seq<NodeKeyView>,
    ErrorView,
>
    decreases chain_limit(trace.nodes.len()) + 1 - steps,
{
    let limit = chain_limit(trace.nodes.len());
    if steps > limit {
        Err(ErrorView::Decode(cycle_message(leaf, limit)))
    } else {
        match trace.node(id) {
            None => Err(ErrorView::Decode(unknown_message(id))),
            Some(node) => match node.parent {
                None => Ok(seq![(node.name, node.category)]),
                Some(parent) => match walk(trace, leaf, parent, steps + 1) {
                    Err(error) => Err(error),
                    Ok(rest) => Ok(seq![(node.name, node.category)] + rest),
                },
            },
        }
    }
}

/// What has been read of the records: the distinct nodes in the order in which
/// they were first seen, and the samples.
#[verifier::ext_equal]
pub struct Resolved {
    pub table: Seq<NodeKeyView>,
    pub samples: Seq<SampleView>,
}

/// What records come to. A stack is collected from the leaf to the root, then
/// reversed to the model's root-first order.
pub open spec fn resolve_records(trace: TraceView, records: Seq<(Seq<char>, i64)>) -> std::result::Result<
    Resolved,
    ErrorView,
>
    decreases records.len(),
{
    if records.len() == 0 {
        Ok(Resolved { table: Seq::empty(), samples: Seq::empty() })
    } else {
        match resolve_records(trace, records.drop_last()) {
            Err(error) => Err(error),
            Ok(before) => match walk(trace, records.last().0, records.last().0, 0) {
                Err(error) => Err(error),
                Ok(chain) => {
                    let table = grown_all(before.table, chain);
                    Ok(
                        Resolved {
                            table,
                            samples: before.samples.push(
                                SampleView {
                                    stack: ids(table, chain).reverse(),
                                    values: seq![records.last().1],
                                },
                            ),
                        },
                    )
                },
            },
        }
    }
}

/// The profile that a trace says.
pub open spec fn trace_profile(trace: TraceView) -> std::result::Result<ProfileView, ErrorView> {
    match resolve_records(trace, trace.records()) {
        Err(error) => Err(error),
        Ok(resolved) => Ok(
            ProfileView {
                frames: node_frames(resolved.table),
                samples: resolved.samples,
                value_kinds: seq![ValueKindView { kind: "samples"@, unit: "count"@ }],
            },
        ),
    }
}

/// The profile that a JSON value says.
pub open spec fn value_meaning(value: JsonView) -> std::result::Result<ProfileView, ErrorView> {
    match trace_of(value) {
        Ok(trace) => trace_profile(trace),
        Err(error) => Err(error),
    }
}

/// What bytes say as a Chrome trace.
pub open spec fn chrome_meaning(input: Seq<u8>) -> std::result::Result<ProfileView, ErrorView> {
    match json_parse(input) {
        Some(value) => value_meaning(value),
        None => Err(ErrorView::Json),
    }
}

/// What a frame is interned by.
pub struct NodeKey {
    pub name: String,
    pub category: Option<String>,
}

impl View for NodeKey {
    type V = NodeKeyView;

    open spec fn view(&self) -> NodeKeyView {
        (self.name@, opt_text(self.category))
    }
}

impl Key for NodeKey {
    open spec fn digest(value: NodeKeyView) -> u64 {
        <String as Key>::digest(value.0)
    }

    fn hashed(&self) -> (h: u64) {
        self.name.hashed()
    }

    fn same(&self, other: &Self) -> (r: bool) {
        self.name == other.name && same_opt(&self.category, &other.category)
    }
}

/// Builds the interned [`Frame`] table while resolving stacks.
///
/// Chrome stack frames are tree nodes, so the same function appears under many
/// ids; interning by `(name, category)` collapses those back into one model
/// frame, matching how the other readers dedupe.
pub struct FrameInterner {
    keys: Interner<NodeKey>,
}

impl View for FrameInterner {
    type V = Seq<NodeKeyView>;

    closed spec fn view(&self) -> Seq<NodeKeyView> {
        self.keys@
    }
}

impl FrameInterner {
    /// The keys are distinct.
    pub closed spec fn wf(&self) -> bool {
        self.keys.wf()
    }

    /// A table without frames.
    pub fn new() -> (r: Self)
        ensures
            r.wf(),
            r@ == Seq::<NodeKeyView>::empty(),
    {
        FrameInterner { keys: Interner::new() }
    }

    /// Returns the stable model id for a trace node, interning on first sight.
    ///
    /// Frame ids are u32; saturate rather than thread a fallible path through
    /// every node, matching the folded reader.
    pub fn intern(&mut self, node: &RawStackFrame) -> (r: FrameId)
        requires
            old(self).wf(),
        ensures
            final(self).wf(),
            final(self)@ == grown(old(self)@, (node@.name, node@.category)),
            r == id_at(place(final(self)@, (node@.name, node@.category))),
    {
        let key = NodeKey { name: node.name.clone(), category: copy_text(&node.category) };
        frame_id(self.keys.intern(key))
    }

    /// Hands out the frame of each node.
    pub fn into_frames(self) -> (r: Vec<Frame>)
        ensures
            views(r@) == node_frames(self@),
    {
        let keys = self.keys.into_items();
        let mut frames: Vec<Frame> = Vec::new();
        let mut i: usize = 0;
        while i < keys.len()
            invariant
                i <= keys.len(),
                views(keys@) == self@,
                frames@.len() == i,
                forall|j: int| 0 <= j < i ==> (#[trigger] frames@[j])@ == node_frame(self@[j]),
            decreases keys.len() - i,
        {
            assert(views(keys@)[i as int] == keys@[i as int]@);
            let mut frame = Frame::default();
            frame.raw = keys[i].name.clone();
            if !keys[i].name.as_str().is_empty() {
                frame.function = Some(keys[i].name.clone());
            }
            frame.module = copy_text(&keys[i].category);
            frames.push(frame);
            i = i + 1;
        }
        assert(views(frames@) =~= node_frames(self@));
        frames
    }
}

fn push_record(record: &RawRecord, leaf: &String, out: &mut Vec<(String, i64)>)
    requires
        opt_text(record.sf) == Some(leaf@),
    ensures
        record_list(final(out)@) == record_list(old(out)@).push(leaf_and_weight(record@)),
{
    let weight: i64 = match record.weight {
        Some(weight) => weight,
        None => 1,
    };
    let ghost before = record_list(out@);
    let item = (leaf.clone(), weight);
    let ghost said = (item.0@, item.1);
    out.push(item);
    assert(record_list(out@) =~= before.push(said));
}

/// What a list of records holds.
pub open spec fn record_list(records: Seq<(String, i64)>) -> Seq<(Seq<char>, i64)> {
    Seq::new(records.len(), |i: int| (records[i].0@, records[i].1))
}

/// Pairs every sampling record (from `samples` and inline `"P"` events) with the
/// leaf frame id it references and its weight.
pub fn collect_records(trace: &TraceObject) -> (r: Vec<(String, i64)>)
    ensures
        record_list(r@) == trace@.records(),
{
    let mut out: Vec<(String, i64)> = Vec::new();
    let ghost samples = trace@.samples;
    let ghost events = trace@.events;
    let mut i: usize = 0;
    assert(samples.take(0) =~= Seq::empty());
    assert(record_list(out@) =~= Seq::empty());
    while i < trace.samples.len()
        invariant
            i <= trace.samples.len(),
            samples == views(trace.samples@),
            record_list(out@) == sample_records(samples.take(i as int)),
        decreases trace.samples.len() - i,
    {
        let sample = &trace.samples[i];
        let ghost now = samples.take(i + 1);
        assert(now.drop_last() =~= samples.take(i as int));
        assert(now.last() == sample@);
        if let Some(sf) = &sample.sf {
            push_record(sample, sf, &mut out);
        }
        i = i + 1;
    }
    assert(samples.take(i as int) =~= samples);
    let ghost first = sample_records(samples);
    let mut i: usize = 0;
    assert(events.take(0) =~= Seq::empty());
    assert(record_list(out@) =~= first + event_records(events.take(0)));
    while i < trace.events.len()
        invariant
            i <= trace.events.len(),
            events == views(trace.events@),
            record_list(out@) == first + event_records(events.take(i as int)),
        decreases trace.events.len() - i,
    {
        let event = &trace.events[i];
        let ghost now = events.take(i + 1);
        let ghost before = record_list(out@);
        assert(now.drop_last() =~= events.take(i as int));
        assert(now.last() == event@);
        let sampled: bool = match &event.ph {
            Some(ph) => same_text(ph.as_str(), "P"),
            None => false,
        };
        if sampled {
            if let Some(sf) = &event.sf {
                push_record(event, sf, &mut out);
                assert(before.push(leaf_and_weight(event@)) =~= first + event_records(now));
            }
        }
        i = i + 1;
    }
    assert(events.take(i as int) =~= events);
    out
}

proof fn lemma_ids_push(
    table: Seq<NodeKeyView>,
    chain: Seq<NodeKeyView>,
    key: NodeKeyView,
    id: FrameId,
)
    requires
        table.no_duplicates(),
        forall|i: int| 0 <= i < chain.len() ==> table.contains(#[trigger] chain[i]),
        id == id_at(place(grown(table, key), key)),
    ensures
        ids(grown(table, key), chain.push(key)) == ids(table, chain).push(id),
{
    law_grown_keeps_places(table, key);
    let after = grown(table, key);
    assert forall|j: int| 0 <= j <= chain.len() implies ids(after, chain.push(key))[j] == ids(
        table,
        chain,
    ).push(id)[j] by {
        if j < chain.len() {
            assert(table.contains(chain[j]));
            assert(chain.push(key)[j] == chain[j]);
        }
    }
    assert(ids(after, chain.push(key)) =~= ids(table, chain).push(id));
}

/// Walks the `parent` chain from a leaf frame to the root, returning the stack
/// outermost-first (the order the model expects).
///
/// Errors if a referenced id is missing, or if the chain is longer than the
/// frame table (which can only happen on a malformed parent cycle).
pub fn resolve_stack(leaf: &String, trace: &TraceObject, interner: &mut FrameInterner) -> (r: Result<
    Vec<FrameId>,
>)
    requires
        trace.wf(),
        old(interner).wf(),
        old(interner)@.no_duplicates(),
    ensures
        match walk(trace@, leaf@, leaf@, 0) {
            Ok(chain) => {
                &&& r matches Ok(stack)
                &&& final(interner).wf()
                &&& final(interner)@ == grown_all(old(interner)@, chain)
                &&& final(interner)@.no_duplicates()
                &&& stack@ == ids(final(interner)@, chain).reverse()
            },
            Err(error) => r matches Err(e) && e@ == error,
        },
{
    let ghost whole = walk(trace@, leaf@, leaf@, 0);
    let ghost table = interner@;
    let ghost mut chain: Seq<NodeKeyView> = Seq::empty();
    let limit: usize = trace.nodes.len().saturating_add(1);
    let mut stack: Vec<FrameId> = Vec::new();
    let mut id: String = leaf.clone();
    let mut open: bool = true;
    let mut steps: u128 = 0;
    proof {
        assert(stack@ =~= ids(table, chain));
        if let Ok(all) = whole {
            assert(chain + all =~= all);
        }
    }
    while open
        invariant
            trace.wf(),
            limit == chain_limit(trace@.nodes.len()),
            steps <= limit + 1,
            whole == walk(trace@, leaf@, leaf@, 0),
            table.no_duplicates(),
            interner.wf(),
            interner@.no_duplicates(),
            interner@ == grown_all(table, chain),
            forall|i: int| 0 <= i < chain.len() ==> interner@.contains(#[trigger] chain[i]),
            stack@ == ids(interner@, chain),
            open ==> match walk(trace@, leaf@, id@, steps as nat) {
                Ok(rest) => whole == Ok::<Seq<NodeKeyView>, ErrorView>(chain + rest),
                Err(error) => whole == Err::<Seq<NodeKeyView>, ErrorView>(error),
            },
            !open ==> whole == Ok::<Seq<NodeKeyView>, ErrorView>(chain),
        decreases limit + 2 - steps,
    {
        if steps > limit as u128 {
            let mut message: String = "stack frame chain from '".to_owned();
            message.push_str(leaf.as_str());
            message.push_str("' exceeds ");
            push_decimal(&mut message, limit as u64);
            message.push_str(" frames (parent cycle?)");
            return Err(ProfcastError::Decode(message));
        }
        let ghost before = interner@;
        match trace.ids.find(&id) {
            None => {
                let mut message: String = "sample references unknown stack frame id '".to_owned();
                message.push_str(id.as_str());
                message.push_str("'");
                return Err(ProfcastError::Decode(message));
            },
            Some(at) => {
                let node = &trace.nodes[at];
                assert(trace@.nodes[at as int] == node@);
                let ghost key = (node@.name, node@.category);
                let frame = interner.intern(node);
                stack.push(frame);
                proof {
                    lemma_ids_push(before, chain, key, frame);
                    law_grown_keeps_places(before, key);
                    assert(chain.push(key).drop_last() =~= chain);
                    assert forall|i: int| 0 <= i < chain.push(key).len() implies interner@.contains(
                        #[trigger] chain.push(key)[i],
                    ) by {
                        if i < chain.len() {
                            assert(before.contains(chain[i]));
                        }
                    }
                    if let Some(parent) = node@.parent {
                        if let Ok(rest) = walk(trace@, leaf@, parent, (steps + 1) as nat) {
                            assert(chain + (seq![key] + rest) =~= chain.push(key) + rest);
                        }
                    } else {
                        assert(chain + seq![key] =~= chain.push(key));
                    }
                    chain = chain.push(key);
                }
                match &node.parent {
                    Some(parent) => {
                        id = parent.clone();
                    },
                    None => {
                        open = false;
                    },
                }
                steps = steps + 1;
            },
        }
    }
    Ok(reversed(&stack))
}

/// The list in the other direction.
fn reversed(list: &Vec<FrameId>) -> (r: Vec<FrameId>)
    ensures
        r@ == list@.reverse(),
{
    let mut out: Vec<FrameId> = Vec::new();
    let mut i: usize = list.len();
    while i > 0
        invariant
            i <= list.len(),
            out@.len() == list.len() - i,
            forall|j: int| 0 <= j < out@.len() ==> out@[j] == list@[list.len() - 1 - j],
        decreases i,
    {
        i = i - 1;
        out.push(list[i]);
    }
    assert(out@ =~= list@.reverse());
    out
}

proof fn lemma_resolve_error_stays(trace: TraceView, records: Seq<(Seq<char>, i64)>, n: int)
    requires
        0 <= n <= records.len(),
        resolve_records(trace, records.take(n)) is Err,
    ensures
        resolve_records(trace, records) == resolve_records(trace, records.take(n)),
    decreases records.len() - n,
{
    if n < records.len() {
        assert(records.take(n + 1).drop_last() =~= records.take(n));
        lemma_resolve_error_stays(trace, records, n + 1);
    } else {
        assert(records.take(n) =~= records);
    }
}

/// Reads the profile out of a trace.
pub fn read_trace(trace: &TraceObject) -> (r: Result<Profile>)
    requires
        trace.wf(),
    ensures
        outcome(r) == trace_profile(trace@),
{
    let records = collect_records(trace);
    let ghost all = trace@.records();
    let mut interner = FrameInterner::new();
    let mut samples: Vec<Sample> = Vec::new();
    let mut i: usize = 0;
    assert(all.take(0) =~= Seq::empty());
    assert(views(samples@) =~= Seq::empty());
    while i < records.len()
        invariant
            i <= records.len(),
            trace.wf(),
            all == trace@.records(),
            record_list(records@) == all,
            interner.wf(),
            interner@.no_duplicates(),
            resolve_records(trace@, all.take(i as int)) == Ok::<Resolved, ErrorView>(
                Resolved { table: interner@, samples: views(samples@) },
            ),
        decreases records.len() - i,
    {
        let ghost now = all.take(i + 1);
        let ghost before = views(samples@);
        assert(now.drop_last() =~= all.take(i as int));
        assert(all[i as int] == (records@[i as int].0@, records@[i as int].1));
        assert(now.last() == all[i as int]);
        match resolve_stack(&records[i].0, trace, &mut interner) {
            Err(error) => {
                proof {
                    lemma_resolve_error_stays(trace@, all, i + 1);
                }
                return Err(error);
            },
            Ok(stack) => {
                let mut values: Vec<i64> = Vec::new();
                values.push(records[i].1);
                assert(values@ =~= seq![records@[i as int].1]);
                let sample = Sample { stack, values };
                let ghost said = sample@;
                samples.push(sample);
                assert(views(samples@) =~= before.push(said));
            },
        }
        i = i + 1;
    }
    assert(all.take(i as int) =~= all);
    let mut value_kinds: Vec<ValueKind> = Vec::new();
    value_kinds.push(ValueKind { kind: "samples".to_owned(), unit: "count".to_owned() });
    assert(views(value_kinds@) =~= seq![ValueKindView { kind: "samples"@, unit: "count"@ }]);
    Ok(Profile { frame_intern: interner.into_frames(), samples, value_kinds })
}

proof fn lemma_walk_error(trace: TraceView, leaf: Seq<char>, id: Seq<char>, steps: nat)
    ensures
        walk(trace, leaf, id, steps) matches Err(error) ==> error is Decode,
    decreases chain_limit(trace.nodes.len()) + 1 - steps,
{
    if steps <= chain_limit(trace.nodes.len()) {
        if let Some(node) = trace.node(id) {
            if let Some(parent) = node.parent {
                lemma_walk_error(trace, leaf, parent, steps + 1);
            }
        }
    }
}

proof fn lemma_resolve_error(trace: TraceView, records: Seq<(Seq<char>, i64)>)
    ensures
        resolve_records(trace, records) matches Err(error) ==> error is Decode,
    decreases records.len(),
{
    if records.len() > 0 {
        lemma_resolve_error(trace, records.drop_last());
        lemma_walk_error(trace, records.last().0, records.last().0, 0);
    }
}

/// Reads a profile out of a JSON value.
pub fn read_value(value: &serde_json::Value) -> (r: Result<Profile>)
    ensures
        outcome(r) == value_meaning(held(*value)),
        r matches Err(ProfcastError::Json(error)) ==> tells(
            Some(error),
            trace_fault(held(*value)),
        ),
{
    match decode_trace(value) {
        Ok(trace) => {
            proof {
                lemma_resolve_error(trace@, trace@.records());
            }
            read_trace(&trace)
        },
        Err(error) => Err(error),
    }
}

/// The display name for a frame: its symbol, then its label, then its module,
/// then its address in hexadecimal, then a placeholder. An empty text names
/// nothing, and is passed over.
pub open spec fn display_name(frame: FrameView) -> Seq<char> {
    if frame.function matches Some(function) && function.len() > 0 {
        frame.function->0
    } else if frame.raw.len() > 0 {
        frame.raw
    } else if frame.module matches Some(module) && module.len() > 0 {
        frame.module->0
    } else {
        match frame.address {
            Some(address) => "0x"@ + hexadecimal(address as nat),
            None => "unknown"@,
        }
    }
}

/// Picks the display name for a [`Frame`], preferring the symbol over the raw
/// label, then the module, then a hex address, so a frame is never anonymous.
pub fn frame_name(frame: &Frame) -> (r: String)
    ensures
        r@ == display_name(frame@),
        r@.len() > 0,
{
    proof {
        reveal_strlit("0x");
        reveal_strlit("unknown");
    }
    if let Some(function) = &frame.function {
        if !function.as_str().is_empty() {
            return function.clone();
        }
    }
    if !frame.raw.as_str().is_empty() {
        return frame.raw.clone();
    }
    if let Some(module) = &frame.module {
        if !module.as_str().is_empty() {
            return module.clone();
        }
    }
    if let Some(address) = frame.address {
        let mut hex: String = "0x".to_owned();
        push_hexadecimal(&mut hex, address);
        return hex;
    }
    "unknown".to_owned()
}

/// A node in the rebuilt stack-frame trie: a model frame plus the trie id of its
/// parent (the frame one step closer to the root).
#[derive(Debug, Clone, Copy, PartialEq, Eq, Structural)]
pub struct TrieNode {
    /// Index into [`Profile::frame_intern`].
    pub frame: u32,
    /// Trie id of the parent node, or `None` at the root.
    pub parent: Option<u32>,
}

impl View for TrieNode {
    type V = TrieNode;

    open spec fn view(&self) -> TrieNode {
        *self
    }
}

impl Key for TrieNode {
    open spec fn digest(value: TrieNode) -> u64 {
        let parent: u64 = match value.parent {
            Some(parent) => parent as u64,
            None => 0xffff_ffff,
        };
        mix(mix(0xcbf2_9ce4_8422_2325, value.frame as u64), parent)
    }

    fn hashed(&self) -> (h: u64) {
        let parent: u64 = match self.parent {
            Some(parent) => parent as u64,
            None => 0xffff_ffff,
        };
        mixed(mixed(0xcbf2_9ce4_8422_2325, self.frame as u64), parent)
    }

    fn same(&self, other: &Self) -> (r: bool) {
        let parent: bool = match (self.parent, other.parent) {
            (Some(a), Some(b)) => a == b,
            (None, None) => true,
            _ => false,
        };
        self.frame == other.frame && parent
    }
}

pub open spec fn stack_message(id: nat, frames: nat) -> Seq<char> {
    "sample references frame id "@ + decimal(id) + " but only "@ + decimal(frames)
        + " frames are interned"@
}

/// The trie with a stack in it, root first, and the id of its leaf node.
pub open spec fn path(trie: Seq<TrieNode>, stack: Seq<FrameId>, frames: nat) -> std::result::Result<
    (Seq<TrieNode>, Option<u32>),
    ErrorView,
>
    decreases stack.len(),
{
    if stack.len() == 0 {
        Ok((trie, None))
    } else {
        match path(trie, stack.drop_last(), frames) {
            Err(error) => Err(error),
            Ok((before, parent)) => if stack.last().0 >= frames {
                Err(ErrorView::InvalidProfile(stack_message(stack.last().0 as nat, frames)))
            } else {
                let node = TrieNode { frame: stack.last().0, parent };
                let after = grown(before, node);
                Ok((after, Some(id_at(place(after, node)).0)))
            },
        }
    }
}

/// Whether a stack points outside the frame table at `n`, and `after` is the
/// trie with all before it.
pub open spec fn stopped_at(
    trie: Seq<TrieNode>,
    stack: Seq<FrameId>,
    frames: nat,
    n: int,
    after: Seq<TrieNode>,
) -> bool {
    &&& 0 <= n < stack.len()
    &&& stack[n].0 >= frames
    &&& path(trie, stack.take(n), frames) matches Ok((held, _)) && held == after
}

/// A prefix tree over sample stacks. Each distinct (parent, frame) pair is one
/// node, so a leaf id uniquely identifies a whole root-to-leaf path - exactly
/// the `stackFrames`/`sf` encoding chrome expects.
pub struct StackTrie {
    nodes: Interner<TrieNode>,
}

impl View for StackTrie {
    type V = Seq<TrieNode>;

    closed spec fn view(&self) -> Seq<TrieNode> {
        self.nodes@
    }
}

/// Whether every node is of a frame of the table.
pub open spec fn nodes_in(trie: Seq<TrieNode>, frames: nat) -> bool {
    forall|i: int| 0 <= i < trie.len() ==> (#[trigger] trie[i]).frame < frames
}

proof fn lemma_path_error_stays(trie: Seq<TrieNode>, stack: Seq<FrameId>, frames: nat, n: int)
    requires
        0 <= n <= stack.len(),
        path(trie, stack.take(n), frames) is Err,
    ensures
        path(trie, stack, frames) == path(trie, stack.take(n), frames),
    decreases stack.len() - n,
{
    if n < stack.len() {
        assert(stack.take(n + 1).drop_last() =~= stack.take(n));
        lemma_path_error_stays(trie, stack, frames, n + 1);
    } else {
        assert(stack.take(n) =~= stack);
    }
}

impl StackTrie {
    /// The nodes are distinct.
    pub closed spec fn wf(&self) -> bool {
        self.nodes.wf()
    }

    /// A tree without nodes.
    pub fn new() -> (r: Self)
        ensures
            r.wf(),
            r@ == Seq::<TrieNode>::empty(),
    {
        StackTrie { nodes: Interner::new() }
    }

    /// Interns a full stack (root-first) and returns the id of its leaf node, or
    /// `None` for an empty stack.
    ///
    /// Errors if a [`FrameId`] points outside the frame table, mirroring the
    /// guard the other writers apply. What comes before it stays interned.
    pub fn intern_path(&mut self, stack: &Vec<FrameId>, frame_count: usize) -> (r: Result<
        Option<u32>,
    >)
        requires
            old(self).wf(),
            nodes_in(old(self)@, frame_count as nat),
        ensures
            match path(old(self)@, stack@, frame_count as nat) {
                Ok((trie, leaf)) => {
                    &&& r matches Ok(id)
                    &&& id == leaf
                    &&& final(self).wf()
                    &&& final(self)@ == trie
                    &&& nodes_in(trie, frame_count as nat)
                },
                Err(error) => {
                    &&& r matches Err(e)
                    &&& e@ == error
                    &&& final(self).wf()
                    &&& exists|n: int| #[trigger]
                        stopped_at(old(self)@, stack@, frame_count as nat, n, final(self)@)
                },
            },
    {
        let ghost trie = self@;
        let mut parent: Option<u32> = None;
        let mut i: usize = 0;
        assert(stack@.take(0) =~= Seq::empty());
        while i < stack.len()
            invariant
                i <= stack.len(),
                trie == old(self)@,
                self.wf(),
                nodes_in(self@, frame_count as nat),
                path(trie, stack@.take(i as int), frame_count as nat) == Ok::<
                    (Seq<TrieNode>, Option<u32>),
                    ErrorView,
                >((self@, parent)),
            decreases stack.len() - i,
        {
            let ghost now = stack@.take(i + 1);
            assert(now.drop_last() =~= stack@.take(i as int));
            assert(now.last() == stack@[i as int]);
            let frame: u32 = stack[i].0;
            if frame as usize >= frame_count {
                proof {
                    lemma_path_error_stays(trie, stack@, frame_count as nat, i + 1);
                    assert(stopped_at(trie, stack@, frame_count as nat, i as int, self@));
                }
                let mut message: String = "sample references frame id ".to_owned();
                push_decimal(&mut message, frame as u64);
                message.push_str(" but only ");
                push_decimal(&mut message, frame_count as u64);
                message.push_str(" frames are interned");
                return Err(ProfcastError::InvalidProfile(message));
            }
            let ghost before = self@;
            let node = TrieNode { frame, parent };
            let at: usize = self.nodes.intern(node);
            parent = Some(frame_id(at).0);
            proof {
                assert forall|j: int| 0 <= j < self@.len() implies (#[trigger] self@[j]).frame
                    < frame_count by {
                    if j < before.len() {
                        assert(self@[j] == before[j]);
                    }
                }
            }
            i = i + 1;
        }
        assert(stack@.take(i as int) =~= stack@);
        Ok(parent)
    }
}

/// The entries of a `samples` record. The weight is left out where the profile
/// carries no value series.
pub open spec fn sample_entries(
    ts: i64,
    name: Seq<char>,
    leaf: u32,
    values: Seq<i64>,
) -> Seq<(Seq<char>, JsonView)> {
    let entries = seq![
        ("tid"@, JsonView::Number(0)),
        ("ts"@, JsonView::Number(ts as int)),
        ("name"@, JsonView::Text(name)),
        ("sf"@, JsonView::Text(decimal(leaf as nat))),
    ];
    if values.len() > 0 {
        entries.push(("weight"@, JsonView::Number(values[0] as int)))
    } else {
        entries
    }
}

/// What has been laid out of a trace: the tree, the sample records, and the
/// next timestamp.
pub struct Tracing {
    pub trie: Seq<TrieNode>,
    pub samples: Seq<JsonView>,
    pub ts: i64,
}

/// The layout of samples. A frameless sample has no stack to point at, and is
/// dropped.
pub open spec fn trace_samples(p: ProfileView, n: nat) -> std::result::Result<Tracing, ErrorView>
    decreases n,
{
    if n == 0 {
        Ok(Tracing { trie: Seq::empty(), samples: Seq::empty(), ts: 0 })
    } else {
        match trace_samples(p, (n - 1) as nat) {
            Err(error) => Err(error),
            Ok(before) => {
                let sample = p.samples[n - 1];
                match path(before.trie, sample.stack, p.frames.len()) {
                    Err(error) => Err(error),
                    Ok((trie, None)) => Ok(Tracing { trie, ..before }),
                    Ok((trie, Some(leaf))) => Ok(
                        Tracing {
                            trie,
                            samples: before.samples.push(
                                JsonView::Object(
                                    sample_entries(
                                        before.ts,
                                        display_name(p.frames[sample.stack.last().0 as int]),
                                        leaf,
                                        sample.values,
                                    ),
                                ),
                            ),
                            ts: saturated(before.ts + 1),
                        },
                    ),
                }
            },
        }
    }
}

proof fn lemma_trace_error_stays(p: ProfileView, n: nat, m: nat)
    requires
        n <= m,
        trace_samples(p, n) is Err,
    ensures
        trace_samples(p, m) == trace_samples(p, n),
    decreases m - n,
{
    if n < m {
        lemma_trace_error_stays(p, n, (m - 1) as nat);
    }
}

/// The entries of a `stackFrames` node. What is not known is left out.
pub open spec fn node_entries(frames: Seq<FrameView>, node: TrieNode) -> Seq<
    (Seq<char>, JsonView),
> {
    let frame = frames[node.frame as int];
    let named = seq![("name"@, JsonView::Text(display_name(frame)))];
    let grouped = match frame.module {
        Some(module) => named.push(("category"@, JsonView::Text(module))),
        None => named,
    };
    match node.parent {
        Some(parent) => grouped.push(("parent"@, JsonView::Text(decimal(parent as nat)))),
        None => grouped,
    }
}

/// The `stackFrames` entries, keyed by decimal id and in the order of the keys.
pub open spec fn tree_entries(frames: Seq<FrameView>, trie: Seq<TrieNode>) -> Seq<
    (Seq<char>, JsonView),
> {
    let order = text_order(trie.len());
    Seq::new(
        order.len(),
        |i: int|
            (decimal(order[i]), JsonView::Object(node_entries(frames, trie[order[i] as int]))),
    )
}

/// The whole trace.
pub open spec fn trace_json(frames: Seq<FrameView>, tracing: Tracing) -> JsonView {
    JsonView::Object(
        seq![
            ("traceEvents"@, JsonView::Array(Seq::empty())),
            ("stackFrames"@, JsonView::Object(tree_entries(frames, tracing.trie))),
            ("samples"@, JsonView::Array(tracing.samples)),
            ("displayTimeUnit"@, JsonView::Text("ns"@)),
        ],
    )
}

/// The bytes for a profile.
pub open spec fn chrome_rendering(p: ProfileView, pretty: bool) -> std::result::Result<
    Seq<u8>,
    ErrorView,
> {
    match trace_samples(p, p.samples.len()) {
        Err(error) => Err(error),
        Ok(tracing) => Ok(json_text(trace_json(p.frames, tracing), pretty)),
    }
}

pub proof fn lemma_names()
    ensures
        "tid"@ != "ts"@,
        "tid"@ != "name"@,
        "tid"@ != "sf"@,
        "tid"@ != "weight"@,
        "ts"@ != "name"@,
        "ts"@ != "sf"@,
        "ts"@ != "weight"@,
        "name"@ != "sf"@,
        "name"@ != "weight"@,
        "sf"@ != "weight"@,
        "name"@ != "category"@,
        "name"@ != "parent"@,
        "category"@ != "parent"@,
        "traceEvents"@ != "stackFrames"@,
        "traceEvents"@ != "samples"@,
        "traceEvents"@ != "displayTimeUnit"@,
        "stackFrames"@ != "samples"@,
        "stackFrames"@ != "displayTimeUnit"@,
        "samples"@ != "displayTimeUnit"@,
{
    reveal_strlit("tid");
    assert("tid"@.len() == 3);
    reveal_strlit("ts");
    assert("ts"@.len() == 2);
    reveal_strlit("name");
    assert("name"@.len() == 4);
    reveal_strlit("sf");
    assert("sf"@.len() == 2);
    reveal_strlit("weight");
    assert("weight"@.len() == 6);
    reveal_strlit("category");
    assert("category"@.len() == 8);
    reveal_strlit("parent");
    assert("parent"@.len() == 6);
    reveal_strlit("traceEvents");
    assert("traceEvents"@.len() == 11);
    reveal_strlit("stackFrames");
    assert("stackFrames"@.len() == 11);
    reveal_strlit("samples");
    assert("samples"@.len() == 7);
    reveal_strlit("displayTimeUnit");
    assert("displayTimeUnit"@.len() == 15);
    assert("ts"@[0] == 't');
    assert("sf"@[0] == 's');
    assert("traceEvents"@[0] == 't');
    assert("stackFrames"@[0] == 's');
}

fn sample_value(ts: i64, name: &str, leaf: u32, values: &Vec<i64>) -> (r: serde_json::Value)
    ensures
        held(r) == JsonView::Object(sample_entries(ts, name@, leaf, values@)),
{
    let mut sf: String = String::new();
    push_decimal(&mut sf, leaf as u64);
    assert(sf@ =~= decimal(leaf as nat));
    let mut entries: Vec<(String, serde_json::Value)> = Vec::new();
    entries.push(("tid".to_owned(), unsigned_value(0)));
    entries.push(("ts".to_owned(), signed_value(ts)));
    entries.push(("name".to_owned(), text_value(name)));
    entries.push(("sf".to_owned(), text_value(sf.as_str())));
    // Chrome carries one weight; emit the first series (lossy, as folded is).
    if values.len() > 0 {
        entries.push(("weight".to_owned(), signed_value(values[0])));
    }
    proof {
        lemma_names();
        assert(held_entries(entries@) =~= sample_entries(ts, name@, leaf, values@));
    }
    object_value(entries)
}

fn node_value(frames: &Vec<Frame>, node: &TrieNode) -> (r: serde_json::Value)
    requires
        node.frame < frames@.len(),
    ensures
        held(r) == JsonView::Object(node_entries(views(frames@), *node)),
{
    let frame = &frames[node.frame as usize];
    assert(views(frames@)[node.frame as int] == frame@);
    let mut entries: Vec<(String, serde_json::Value)> = Vec::new();
    entries.push(("name".to_owned(), text_value(frame_name(frame).as_str())));
    if let Some(module) = &frame.module {
        entries.push(("category".to_owned(), text_value(module.as_str())));
    }
    if let Some(parent) = node.parent {
        let mut key: String = String::new();
        push_decimal(&mut key, parent as u64);
        assert(key@ =~= decimal(parent as nat));
        entries.push(("parent".to_owned(), text_value(key.as_str())));
    }
    proof {
        lemma_names();
        assert(held_entries(entries@) =~= node_entries(views(frames@), *node));
    }
    object_value(entries)
}

/// Texts of distinct numbers are distinct.
pub proof fn lemma_decimal_tells_apart(a: nat, b: nat)
    requires
        decimal(a) == decimal(b),
    ensures
        a == b,
{
    law_decimal_reads_back(a);
    law_decimal_reads_back(b);
}

pub proof fn lemma_tree_keys(frames: Seq<FrameView>, trie: Seq<TrieNode>)
    ensures
        distinct_keys(tree_entries(frames, trie)),
{
    law_text_order(trie.len());
    let order = text_order(trie.len());
    let entries = tree_entries(frames, trie);
    assert forall|i: int, j: int| 0 <= i < j < entries.len() implies (#[trigger] entries[i]).0 != (
    #[trigger] entries[j]).0 by {
        if entries[i].0 == entries[j].0 {
            lemma_decimal_tells_apart(order[i], order[j]);
        }
    }
}

fn tree_value(frames: &Vec<Frame>, trie: &StackTrie) -> (r: serde_json::Value)
    requires
        nodes_in(trie@, frames@.len()),
    ensures
        held(r) == JsonView::Object(tree_entries(views(frames@), trie@)),
{
    let nodes = trie.nodes.items();
    let count: usize = nodes.len();
    let order = in_text_order(count as u64);
    let ghost wanted = text_order(trie@.len());
    proof {
        law_text_order(trie@.len());
        assert(views(nodes@) == trie@);
        assert(nodes@.len() == trie@.len());
        assert(numbers(order@) == wanted);
    }
    let mut entries: Vec<(String, serde_json::Value)> = Vec::new();
    let mut i: usize = 0;
    while i < order.len()
        invariant
            i <= order.len(),
            nodes_in(trie@, frames@.len()),
            views(nodes@) == trie@,
            nodes@.len() == trie@.len(),
            count == nodes@.len(),
            wanted == text_order(trie@.len()),
            numbers(order@) == wanted,
            forall|k: nat| #[trigger] wanted.contains(k) ==> k < trie@.len(),
            entries@.len() == i,
            forall|j: int|
                0 <= j < i ==> (#[trigger] held_entries(entries@)[j]) == tree_entries(
                    views(frames@),
                    trie@,
                )[j],
        decreases order.len() - i,
    {
        let id: u64 = order[i];
        assert(numbers(order@)[i as int] == id);
        assert(wanted.contains(id as nat));
        let node = &nodes[id as usize];
        assert(views(nodes@)[id as int] == *node);
        let mut key: String = String::new();
        push_decimal(&mut key, id);
        assert(key@ =~= decimal(id as nat));
        let ghost before = held_entries(entries@);
        assert(trie@[id as int].frame < frames@.len());
        let item = (key, node_value(frames, node));
        let ghost said = (item.0@, held(item.1));
        entries.push(item);
        proof {
            assert(held_entries(entries@) =~= before.push(said));
            assert forall|j: int| 0 <= j < i + 1 implies (#[trigger] held_entries(entries@)[j])
                == tree_entries(views(frames@), trie@)[j] by {
                if j < i {
                    assert(held_entries(entries@)[j] == before[j]);
                }
            }
        }
        i = i + 1;
    }
    proof {
        assert(held_entries(entries@) =~= tree_entries(views(frames@), trie@));
        lemma_tree_keys(views(frames@), trie@);
    }
    object_value(entries)
}

/// The whole trace of a profile as a JSON value.
pub fn trace_value(profile: &Profile) -> (r: Result<serde_json::Value>)
    ensures
        match trace_samples(profile@, profile@.samples.len()) {
            Ok(tracing) => r matches Ok(value) && held(value) == trace_json(
                profile@.frames,
                tracing,
            ),
            Err(error) => r matches Err(e) && e@ == error,
        },
{
    let frame_count: usize = profile.frame_intern.len();
    let mut trie = StackTrie::new();
    let mut samples: Vec<serde_json::Value> = Vec::new();
    let mut ts: i64 = 0;
    let mut i: usize = 0;
    assert(held_all(samples@) =~= Seq::empty());
    while i < profile.samples.len()
        invariant
            i <= profile.samples.len(),
            frame_count == profile.frame_intern@.len(),
            trie.wf(),
            nodes_in(trie@, frame_count as nat),
            trace_samples(profile@, i as nat) == Ok::<Tracing, ErrorView>(
                Tracing { trie: trie@, samples: held_all(samples@), ts },
            ),
        decreases profile.samples.len() - i,
    {
        let sample = &profile.samples[i];
        let ghost before = held_all(samples@);
        let ghost tree = trie@;
        assert(profile@.samples[i as int] == sample@);
        match trie.intern_path(&sample.stack, frame_count) {
            Err(error) => {
                proof {
                    lemma_trace_error_stays(profile@, (i + 1) as nat, profile@.samples.len());
                }
                return Err(error);
            },
            Ok(None) => {
                // A frameless sample has no stack to point `sf` at; drop it.
            },
            Ok(Some(leaf)) => {
                proof {
                    lemma_leaf_is_framed(tree, sample.stack@, frame_count as nat);
                }
                // The leaf frame names the sample; it was range-checked above.
                let last: usize = sample.stack.len() - 1;
                let frame = &profile.frame_intern[sample.stack[last].0 as usize];
                assert(profile@.frames[sample.stack@.last().0 as int] == frame@);
                let value = sample_value(ts, frame_name(frame).as_str(), leaf, &sample.values);
                let ghost said = held(value);
                samples.push(value);
                assert(held_all(samples@) =~= before.push(said));
                ts = add_saturating(ts, 1);
            },
        }
        i = i + 1;
    }
    let events: Vec<serde_json::Value> = Vec::new();
    assert(held_all(events@) =~= Seq::empty());
    let mut entries: Vec<(String, serde_json::Value)> = Vec::new();
    entries.push(("traceEvents".to_owned(), array_value(events)));
    entries.push(("stackFrames".to_owned(), tree_value(&profile.frame_intern, &trie)));
    entries.push(("samples".to_owned(), array_value(samples)));
    entries.push(("displayTimeUnit".to_owned(), text_value("ns")));
    proof {
        lemma_names();
        let tracing = Tracing { trie: trie@, samples: held_all(samples@), ts };
        assert(held_entries(entries@) =~= trace_json(profile@.frames, tracing)->Object_0);
    }
    Ok(object_value(entries))
}

proof fn lemma_leaf_is_framed(trie: Seq<TrieNode>, stack: Seq<FrameId>, frames: nat)
    requires
        path(trie, stack, frames) is Ok,
        path(trie, stack, frames)->Ok_0.1 is Some,
    ensures
        stack.len() > 0,
        stack.last().0 < frames,
{
}

proof fn lemma_samples_are_simple(p: ProfileView, n: nat)
    requires
        trace_samples(p, n) is Ok,
    ensures
        forall|i: int|
            0 <= i < trace_samples(p, n)->Ok_0.samples.len() ==> simple(
                #[trigger] trace_samples(p, n)->Ok_0.samples[i],
                98,
            ),
    decreases n,
{
    if n > 0 {
        lemma_samples_are_simple(p, (n - 1) as nat);
        let before = trace_samples(p, (n - 1) as nat)->Ok_0;
        let after = trace_samples(p, n)->Ok_0;
        assert forall|i: int| 0 <= i < after.samples.len() implies simple(
            #[trigger] after.samples[i],
            98,
        ) by {
            if i < before.samples.len() {
                assert(after.samples[i] == before.samples[i]);
            } else {
                let e = after.samples[i]->Object_0;
                assert forall|j: int| 0 <= j < e.len() implies simple((#[trigger] e[j]).1, 97) by {}
            }
        }
    }
}

proof fn lemma_trace_is_simple(p: ProfileView)
    requires
        trace_samples(p, p.samples.len()) is Ok,
    ensures
        simple(trace_json(p.frames, trace_samples(p, p.samples.len())->Ok_0), 100),
{
    let tracing = trace_samples(p, p.samples.len())->Ok_0;
    lemma_samples_are_simple(p, p.samples.len());
    assert(simple(JsonView::Array(tracing.samples), 99));
    let tree = tree_entries(p.frames, tracing.trie);
    assert forall|i: int| 0 <= i < tree.len() implies simple((#[trigger] tree[i]).1, 98) by {
        let e = tree[i].1->Object_0;
        assert forall|j: int| 0 <= j < e.len() implies simple((#[trigger] e[j]).1, 97) by {}
    }
    assert(simple(JsonView::Object(tree), 99));
    assert(simple(JsonView::Array(Seq::empty()), 99));
    let e = trace_json(p.frames, tracing)->Object_0;
    assert forall|j: int| 0 <= j < e.len() implies simple((#[trigger] e[j]).1, 99) by {}
}

/// Whether bytes read back with the stacks, the weights and the categories of
/// a profile, where its tree has at most `u32::MAX` nodes.
pub open spec fn round_trips(p: ProfileView, bytes: Seq<u8>) -> bool {
    trace_samples(p, p.samples.len()) matches Ok(tracing) ==> tracing.trie.len() <= u32::MAX ==> {
        &&& chrome_meaning(bytes) matches Ok(q)
        &&& read_told(q) == told(p, p.samples.len())
    }
}

/// How strongly a text resembles a trace. A `stackFrames` map means we can
/// actually extract a sampled profile; a bare `traceEvents` array is probably a
/// duration trace we'd read as empty.
pub open spec fn text_likeness(text: Seq<char>) -> Confidence {
    if occurs(text, "\"stackFrames\""@) {
        Confidence::Likely
    } else if occurs(text, "\"traceEvents\""@) {
        Confidence::Weak
    } else {
        Confidence::NoMatch
    }
}

/// How strongly bytes resemble a trace.
pub open spec fn content_likeness(buf: Seq<u8>) -> Confidence {
    if buf.len() == 0 {
        Confidence::NoMatch
    } else {
        text_likeness(lossy_text(buf))
    }
}

/// Looks for the structural keys that mark a trace.
pub fn probe_text(text: &str) -> (r: Confidence)
    ensures
        r == text_likeness(text@),
{
    let chars = chars_of(text);
    if has_text(chars.as_slice(), "\"stackFrames\"") {
        Confidence::Likely
    } else if has_text(chars.as_slice(), "\"traceEvents\"") {
        Confidence::Weak
    } else {
        Confidence::NoMatch
    }
}

/// Inspects leading bytes and reports how strongly they resemble a chrome trace.
///
/// The signal is cheap and tolerates a slice of a file: the structural keys that
/// mark a trace.
pub fn probe_content(buf: &[u8]) -> (r: Confidence)
    ensures
        r == content_likeness(buf@),
{
    if buf.len() == 0 {
        return Confidence::NoMatch;
    }
    probe_text(lossy(buf).as_str())
}

impl InputFormat for ChromeTraceFormat {
    open spec fn in_name(&self) -> Seq<char> {
        "chrometrace"@
    }

    open spec fn in_extensions(&self) -> Seq<Seq<char>> {
        Seq::empty()
    }

    open spec fn likeness(&self, data: ProbeView) -> Confidence {
        content_likeness(data.buf)
    }

    open spec fn meaning(&self, input: Seq<u8>) -> std::result::Result<ProfileView, ErrorView> {
        chrome_meaning(input)
    }

    fn name(&self) -> (r: &'static str) {
        "chrometrace"
    }

    fn extensions(&self) -> (r: &'static [&'static str]) {
        let r: &'static [&'static str] = &[];
        assert(word_list(r@) =~= Seq::empty());
        r
    }

    fn probe(&self, data: &ProbeData<'_>) -> (r: Confidence) {
        probe_content(data.buf)
    }

    /// JSON that is no trace is refused with the error that names its first
    /// entry at fault.
    fn read(&self, input: &[u8]) -> (r: Result<Profile>)
        ensures
            r matches Err(ProfcastError::Json(error)) ==> json_parse(input@) matches Some(value)
                ==> tells(Some(error), trace_fault(value)),
    {
        match parse_json(input) {
            Ok(value) => read_value(&value),
            Err(error) => Err(error),
        }
    }
}

impl OutputFormat for ChromeTraceFormat {
    open spec fn out_name(&self) -> Seq<char> {
        "chrometrace"@
    }

    open spec fn out_extensions(&self) -> Seq<Seq<char>> {
        Seq::empty()
    }

    open spec fn rendering(&self, profile: ProfileView, options: WriteOptions) -> std::result::Result<
        Seq<u8>,
        ErrorView,
    > {
        chrome_rendering(profile, options.pretty)
    }

    fn name(&self) -> (r: &'static str) {
        "chrometrace"
    }

    fn extensions(&self) -> (r: &'static [&'static str]) {
        let r: &'static [&'static str] = &[];
        assert(word_list(r@) =~= Seq::empty());
        r
    }

    /// What is written reads back with the stacks, the weights and the
    /// categories of the profile, where the tree has at most `u32::MAX` nodes.
    /// Pretty output goes over several lines, and other output does not.
    fn write(&self, profile: &Profile, options: WriteOptions) -> (r: Result<Vec<u8>>)
        ensures
            r matches Ok(bytes) ==> round_trips(profile@, bytes@),
            r matches Ok(bytes) ==> (bytes@.contains(0x0a) <==> options.pretty),
    {
        match trace_value(profile) {
            Ok(value) => {
                proof {
                    let tracing = trace_samples(profile@, profile@.samples.len())->Ok_0;
                    lemma_trace_is_simple(profile@);
                    if tracing.trie.len() <= u32::MAX {
                        law_chrome_round_trips(profile@);
                    }
                }
                print_json(&value, options.pretty)
            },
            Err(error) => Err(error),
        }
    }
}

} // verus!
