//! What is wrong with a JSON value that is no Chrome trace: the first entry at
//! fault, and the error that names it.

use vstd::prelude::*;

use crate::chrometrace::{
    event_of, events_of, node_of, nodes_of, ref_of, sample_of, samples_of, trace_of, TraceView,
};
use crate::error::ErrorView;
use crate::json::{
    custom_error, ends_in_number, entry, held, held_all, length_text,
    missing_field, missing_text, open_value, opened, out_of_range, range_text, record, says, wrong_length,
    wrong_type, wrong_type_text, JsonView, Layer,
};
use crate::text::same_text;

verus! {

/// The records of a trace.
#[derive(Debug, Clone, Copy, PartialEq, Eq, Structural)]
pub enum Part {
    Node,
    Sample,
    Event,
}

/// What is wrong with a value that should be a text.
pub open spec fn text_fault(value: JsonView) -> Option<Seq<char>> {
    match value {
        JsonView::Text(_) => None,
        _ => Some(wrong_type_text(value, "a string"@)),
    }
}

/// What is wrong with a value that should be a text or null.
pub open spec fn opt_text_fault(value: JsonView) -> Option<Seq<char>> {
    match value {
        JsonView::Null => None,
        _ => text_fault(value),
    }
}

/// What is wrong with a value that should be a frame id or null.
pub open spec fn ref_fault(value: JsonView) -> Option<Seq<char>> {
    if value is Null || ref_of(value) is Some {
        None
    } else {
        Some("data did not match any variant of untagged enum FrameRef"@)
    }
}

/// What is wrong with a value that should be a weight or null.
pub open spec fn weight_fault(value: JsonView) -> Option<Seq<char>> {
    match value {
        JsonView::Null => None,
        JsonView::Number(n) => if i64::MIN <= n <= i64::MAX {
            None
        } else {
            Some(range_text(n as nat, "i64"@))
        },
        _ => Some(wrong_type_text(value, "i64"@)),
    }
}

/// What is wrong with the field of a record that has a key.
pub open spec fn named_fault(part: Part, key: Seq<char>, value: JsonView) -> Option<Seq<char>> {
    match part {
        Part::Node => if key == "name"@ {
            text_fault(value)
        } else if key == "category"@ {
            opt_text_fault(value)
        } else if key == "parent"@ {
            ref_fault(value)
        } else {
            None
        },
        Part::Sample => if key == "sf"@ {
            ref_fault(value)
        } else if key == "weight"@ {
            weight_fault(value)
        } else {
            None
        },
        Part::Event => if key == "ph"@ {
            opt_text_fault(value)
        } else if key == "sf"@ {
            ref_fault(value)
        } else if key == "weight"@ {
            weight_fault(value)
        } else {
            None
        },
    }
}

/// The key of a field of a record by its place.
pub open spec fn key_at(part: Part, place: int) -> Seq<char> {
    match part {
        Part::Node => if place == 0 {
            "name"@
        } else if place == 1 {
            "category"@
        } else {
            "parent"@
        },
        Part::Sample => if place == 0 {
            "sf"@
        } else {
            "weight"@
        },
        Part::Event => if place == 0 {
            "ph"@
        } else if place == 1 {
            "sf"@
        } else {
            "weight"@
        },
    }
}

/// How many fields a record has.
pub open spec fn field_count(part: Part) -> nat {
    match part {
        Part::Sample => 2,
        _ => 3,
    }
}

/// What a record is called.
pub open spec fn part_name(part: Part) -> Seq<char> {
    match part {
        Part::Node => "struct RawStackFrame"@,
        Part::Sample => "struct RawSample"@,
        Part::Event => "struct RawEvent"@,
    }
}

/// The first fault among the entries of a record, from `i` on.
pub open spec fn entries_fault(
    part: Part,
    entries: Seq<(Seq<char>, JsonView)>,
    i: int,
) -> Option<Seq<char>>
    decreases entries.len() - i,
{
    if i < 0 || i >= entries.len() {
        None
    } else {
        match named_fault(part, entries[i].0, entries[i].1) {
            Some(text) => Some(text),
            None => entries_fault(part, entries, i + 1),
        }
    }
}

/// The first fault among the items of a record that is an array, from `i` on.
pub open spec fn items_fault(part: Part, items: Seq<JsonView>, i: int) -> Option<Seq<char>>
    decreases items.len() - i,
{
    if i < 0 || i >= items.len() || i >= field_count(part) {
        None
    } else {
        match named_fault(part, key_at(part, i), items[i]) {
            Some(text) => Some(text),
            None => items_fault(part, items, i + 1),
        }
    }
}

/// What is wrong with a value that should be a record: an object, of which only
/// a node has to have a name, or an array of the fields in their order.
pub open spec fn part_fault(part: Part, value: JsonView) -> Option<Seq<char>> {
    match value {
        JsonView::Object(entries) => match entries_fault(part, entries, 0) {
            Some(text) => Some(text),
            None => if part == Part::Node && entry(entries, "name"@) is None {
                Some(missing_text("name"@))
            } else {
                None
            },
        },
        JsonView::Array(items) => match items_fault(part, items, 0) {
            Some(text) => Some(text),
            None => if part == Part::Node && items.len() == 0 {
                Some(length_text(0, "struct RawStackFrame with 3 elements"@))
            } else if items.len() > field_count(part) {
                Some(length_text(items.len(), "fewer elements in array"@))
            } else {
                None
            },
        },
        _ => Some(wrong_type_text(value, part_name(part))),
    }
}

/// The first fault among records, from `i` on.
pub open spec fn parts_fault(part: Part, items: Seq<JsonView>, i: int) -> Option<Seq<char>>
    decreases items.len() - i,
{
    if i < 0 || i >= items.len() {
        None
    } else {
        match part_fault(part, items[i]) {
            Some(text) => Some(text),
            None => parts_fault(part, items, i + 1),
        }
    }
}

/// What is wrong with a value that should be a list of records.
pub open spec fn list_fault(part: Part, value: JsonView) -> Option<Seq<char>> {
    match value {
        JsonView::Array(items) => parts_fault(part, items, 0),
        _ => Some(wrong_type_text(value, "a sequence"@)),
    }
}

/// The values of entries.
pub open spec fn entry_values(entries: Seq<(Seq<char>, JsonView)>) -> Seq<JsonView> {
    Seq::new(entries.len(), |i: int| entries[i].1)
}

/// What is wrong with a value that should be the tree of stack frames.
pub open spec fn tree_fault(value: JsonView) -> Option<Seq<char>> {
    match value {
        JsonView::Object(entries) => parts_fault(Part::Node, entry_values(entries), 0),
        _ => Some(wrong_type_text(value, "a map"@)),
    }
}

/// What is wrong with a top-level entry of a trace. Unknown keys are ignored.
pub open spec fn top_fault(key: Seq<char>, value: JsonView) -> Option<Seq<char>> {
    if key == "stackFrames"@ {
        tree_fault(value)
    } else if key == "samples"@ {
        list_fault(Part::Sample, value)
    } else if key == "traceEvents"@ {
        list_fault(Part::Event, value)
    } else {
        None
    }
}

/// The first fault among the top-level entries of a trace, from `i` on.
pub open spec fn tops_fault(entries: Seq<(Seq<char>, JsonView)>, i: int) -> Option<Seq<char>>
    decreases entries.len() - i,
{
    if i < 0 || i >= entries.len() {
        None
    } else {
        match top_fault(entries[i].0, entries[i].1) {
            Some(text) => Some(text),
            None => tops_fault(entries, i + 1),
        }
    }
}

/// What is wrong with a value that should be a trace: an object, or an array of
/// events.
pub open spec fn trace_fault(value: JsonView) -> Option<Seq<char>> {
    match value {
        JsonView::Object(entries) => tops_fault(entries, 0),
        JsonView::Array(_) => list_fault(Part::Event, value),
        _ => None,
    }
}

/// Whether an error is the one for a fault, where there is one.
pub open spec fn tells(r: Option<serde_json::Error>, fault: Option<Seq<char>>) -> bool {
    match (r, fault) {
        (Some(error), Some(text)) => says(error, text),
        (None, None) => true,
        _ => false,
    }
}

proof fn lemma_not_a_place(text: Seq<char>)
    requires
        text.len() > 2,
        text[text.len() - 3] == 'i',
        text[text.len() - 2] == '6',
    ensures
        !ends_in_number(text),
{
    if ends_in_number(text) {
        let k = choose|k: int|
            0 <= k < text.len() - 1 && #[trigger] text[k] == ' ' && forall|j: int|
                k < j < text.len() ==> '0' <= #[trigger] text[j] <= '9';
        assert('0' <= text[text.len() - 1] <= '9');
        if k < text.len() - 3 {
            assert('0' <= text[text.len() - 3] <= '9');
        }
    }
}

fn find_text_fault(value: &serde_json::Value) -> (r: Option<serde_json::Error>)
    ensures
        tells(r, text_fault(held(*value))),
{
    match open_value(value) {
        Layer::Text(_) => None,
        _ => Some(wrong_type(value, "a string")),
    }
}

fn find_opt_text_fault(value: &serde_json::Value) -> (r: Option<serde_json::Error>)
    ensures
        tells(r, opt_text_fault(held(*value))),
{
    match open_value(value) {
        Layer::Null => None,
        _ => find_text_fault(value),
    }
}

fn find_ref_fault(value: &serde_json::Value) -> (r: Option<serde_json::Error>)
    ensures
        tells(r, ref_fault(held(*value))),
{
    let found: bool = match open_value(value) {
        Layer::Null => true,
        Layer::Text(_) => true,
        Layer::Unsigned(n) => n <= i64::MAX as u64,
        Layer::Negative(_) => true,
        _ => false,
    };
    if found {
        None
    } else {
        proof {
            let text = "data did not match any variant of untagged enum FrameRef"@;
            reveal_strlit("data did not match any variant of untagged enum FrameRef");
            assert(text[text.len() - 1] == 'f');
        }
        Some(custom_error("data did not match any variant of untagged enum FrameRef"))
    }
}

fn find_weight_fault(value: &serde_json::Value) -> (r: Option<serde_json::Error>)
    ensures
        tells(r, weight_fault(held(*value))),
{
    match open_value(value) {
        Layer::Null => None,
        Layer::Negative(_) => None,
        Layer::Unsigned(n) => if n <= i64::MAX as u64 {
            None
        } else {
            proof {
                reveal_strlit("i64");
                let text = range_text(n as nat, "i64"@);
                assert(text[text.len() - 3] == 'i' && text[text.len() - 2] == '6');
                lemma_not_a_place(text);
            }
            Some(out_of_range(n, "i64"))
        },
        _ => Some(wrong_type(value, "i64")),
    }
}

fn find_named_fault(part: Part, key: &str, value: &serde_json::Value) -> (r: Option<
    serde_json::Error,
>)
    ensures
        tells(r, named_fault(part, key@, held(*value))),
{
    match part {
        Part::Node => if same_text(key, "name") {
            find_text_fault(value)
        } else if same_text(key, "category") {
            find_opt_text_fault(value)
        } else if same_text(key, "parent") {
            find_ref_fault(value)
        } else {
            None
        },
        Part::Sample => if same_text(key, "sf") {
            find_ref_fault(value)
        } else if same_text(key, "weight") {
            find_weight_fault(value)
        } else {
            None
        },
        Part::Event => if same_text(key, "ph") {
            find_opt_text_fault(value)
        } else if same_text(key, "sf") {
            find_ref_fault(value)
        } else if same_text(key, "weight") {
            find_weight_fault(value)
        } else {
            None
        },
    }
}

fn key_of(part: Part, place: usize) -> (r: &'static str)
    ensures
        r@ == key_at(part, place as int),
{
    match part {
        Part::Node => if place == 0 {
            "name"
        } else if place == 1 {
            "category"
        } else {
            "parent"
        },
        Part::Sample => if place == 0 {
            "sf"
        } else {
            "weight"
        },
        Part::Event => if place == 0 {
            "ph"
        } else if place == 1 {
            "sf"
        } else {
            "weight"
        },
    }
}

fn find_entries_fault(part: Part, entries: &Vec<(&str, &serde_json::Value)>) -> (r: Option<
    serde_json::Error,
>)
    ensures
        tells(r, part_fault(part, JsonView::Object(opened(entries@)))),
{
    let ghost all = opened(entries@);
    let mut named: bool = false;
    let mut i: usize = 0;
    assert(all.take(0) =~= Seq::empty());
    while i < entries.len()
        invariant
            i <= entries.len(),
            all == opened(entries@),
            entries_fault(part, all, 0) == entries_fault(part, all, i as int),
            named == (entry(all.take(i as int), "name"@) is Some),
        decreases entries.len() - i,
    {
        assert(all.take(i + 1).drop_last() =~= all.take(i as int));
        assert(all.take(i + 1).last() == all[i as int]);
        if let Some(error) = find_named_fault(part, entries[i].0, entries[i].1) {
            return Some(error);
        }
        named = named || same_text(entries[i].0, "name");
        i = i + 1;
    }
    assert(all.take(i as int) =~= all);
    if part == Part::Node && !named {
        Some(missing_field("name"))
    } else {
        None
    }
}

fn find_items_fault(part: Part, items: &Vec<serde_json::Value>) -> (r: Option<serde_json::Error>)
    ensures
        tells(r, part_fault(part, JsonView::Array(held_all(items@)))),
{
    let ghost all = held_all(items@);
    let count: usize = match part {
        Part::Sample => 2,
        _ => 3,
    };
    let mut i: usize = 0;
    while i < items.len() && i < count
        invariant
            i <= items.len(),
            i <= count,
            count == field_count(part),
            all == held_all(items@),
            items_fault(part, all, 0) == items_fault(part, all, i as int),
        decreases items.len() - i,
    {
        if let Some(error) = find_named_fault(part, key_of(part, i), &items[i]) {
            return Some(error);
        }
        i = i + 1;
    }
    if part == Part::Node && items.len() == 0 {
        proof {
            reveal_strlit("struct RawStackFrame with 3 elements");
            let text = length_text(0, "struct RawStackFrame with 3 elements"@);
            assert(text[text.len() - 1] == 's');
        }
        Some(wrong_length(0, "struct RawStackFrame with 3 elements"))
    } else if items.len() > count {
        proof {
            reveal_strlit("fewer elements in array");
            let text = length_text(items@.len(), "fewer elements in array"@);
            assert(text[text.len() - 1] == 'y');
        }
        Some(wrong_length(items.len(), "fewer elements in array"))
    } else {
        None
    }
}

fn find_part_fault(part: Part, value: &serde_json::Value) -> (r: Option<serde_json::Error>)
    ensures
        tells(r, part_fault(part, held(*value))),
{
    match open_value(value) {
        Layer::Object(entries) => find_entries_fault(part, &entries),
        Layer::Array(items) => find_items_fault(part, items),
        _ => {
            let name = match part {
                Part::Node => "struct RawStackFrame",
                Part::Sample => "struct RawSample",
                Part::Event => "struct RawEvent",
            };
            Some(wrong_type(value, name))
        },
    }
}

fn find_list_fault(part: Part, value: &serde_json::Value) -> (r: Option<serde_json::Error>)
    ensures
        tells(r, list_fault(part, held(*value))),
{
    match open_value(value) {
        Layer::Array(items) => {
            let ghost all = held_all(items@);
            let mut i: usize = 0;
            while i < items.len()
                invariant
                    i <= items.len(),
                    all == held_all(items@),
                    held(*value) == JsonView::Array(all),
                    parts_fault(part, all, 0) == parts_fault(part, all, i as int),
                decreases items.len() - i,
            {
                if let Some(error) = find_part_fault(part, &items[i]) {
                    return Some(error);
                }
                i = i + 1;
            }
            None
        },
        _ => Some(wrong_type(value, "a sequence")),
    }
}

fn find_tree_fault(value: &serde_json::Value) -> (r: Option<serde_json::Error>)
    ensures
        tells(r, tree_fault(held(*value))),
{
    match open_value(value) {
        Layer::Object(entries) => {
            let ghost all = entry_values(opened(entries@));
            let mut i: usize = 0;
            while i < entries.len()
                invariant
                    i <= entries.len(),
                    all == entry_values(opened(entries@)),
                    held(*value) == JsonView::Object(opened(entries@)),
                    parts_fault(Part::Node, all, 0) == parts_fault(Part::Node, all, i as int),
                decreases entries.len() - i,
            {
                if let Some(error) = find_part_fault(Part::Node, entries[i].1) {
                    return Some(error);
                }
                i = i + 1;
            }
            None
        },
        _ => Some(wrong_type(value, "a map")),
    }
}

fn find_top_fault(key: &str, value: &serde_json::Value) -> (r: Option<serde_json::Error>)
    ensures
        tells(r, top_fault(key@, held(*value))),
{
    if same_text(key, "stackFrames") {
        find_tree_fault(value)
    } else if same_text(key, "samples") {
        find_list_fault(Part::Sample, value)
    } else if same_text(key, "traceEvents") {
        find_list_fault(Part::Event, value)
    } else {
        None
    }
}

/// Finds what is wrong with a value that should be a trace.
pub fn find_trace_fault(value: &serde_json::Value) -> (r: Option<serde_json::Error>)
    ensures
        tells(r, trace_fault(held(*value))),
{
    match open_value(value) {
        Layer::Object(entries) => {
            let ghost all = opened(entries@);
            let mut i: usize = 0;
            while i < entries.len()
                invariant
                    i <= entries.len(),
                    all == opened(entries@),
                    held(*value) == JsonView::Object(all),
                    tops_fault(all, 0) == tops_fault(all, i as int),
                decreases entries.len() - i,
            {
                if let Some(error) = find_top_fault(entries[i].0, entries[i].1) {
                    return Some(error);
                }
                i = i + 1;
            }
            None
        },
        Layer::Array(_) => find_list_fault(Part::Event, value),
        _ => None,
    }
}

proof fn lemma_entry_fault(part: Part, entries: Seq<(Seq<char>, JsonView)>, key: Seq<char>)
    requires
        entry(entries, key) matches Some(value) && named_fault(part, key, value) is Some,
    ensures
        entries_fault(part, entries, 0) is Some,
{
    let at = lemma_entry_at(entries, key);
    lemma_entries_fault_at(part, entries, 0, at);
}

proof fn lemma_entry_at(entries: Seq<(Seq<char>, JsonView)>, key: Seq<char>) -> (at: int)
    requires
        entry(entries, key) is Some,
    ensures
        0 <= at < entries.len(),
        entries[at].0 == key,
        entry(entries, key) == Some(entries[at].1),
    decreases entries.len(),
{
    if entries.last().0 == key {
        entries.len() - 1
    } else {
        lemma_entry_at(entries.drop_last(), key)
    }
}

proof fn lemma_entries_fault_at(
    part: Part,
    entries: Seq<(Seq<char>, JsonView)>,
    i: int,
    at: int,
)
    requires
        0 <= i <= at < entries.len(),
        named_fault(part, entries[at].0, entries[at].1) is Some,
    ensures
        entries_fault(part, entries, i) is Some,
    decreases at - i,
{
    if i < at {
        lemma_entries_fault_at(part, entries, i + 1, at);
    }
}

proof fn lemma_items_fault_at(part: Part, items: Seq<JsonView>, i: int, at: int)
    requires
        0 <= i <= at < items.len(),
        at < field_count(part),
        named_fault(part, key_at(part, at), items[at]) is Some,
    ensures
        items_fault(part, items, i) is Some,
    decreases at - i,
{
    if i < at {
        lemma_items_fault_at(part, items, i + 1, at);
    }
}

/// A field that is given and at fault makes the record faulty.
proof fn lemma_field_fault(part: Part, value: JsonView, place: int, field: JsonView)
    requires
        0 <= place < field_count(part),
        match value {
            JsonView::Object(entries) => entry(entries, key_at(part, place)) == Some(field),
            JsonView::Array(items) => place < items.len() && items[place] == field,
            _ => false,
        },
        named_fault(part, key_at(part, place), field) is Some,
    ensures
        part_fault(part, value) is Some,
{
    match value {
        JsonView::Object(entries) => {
            lemma_entry_fault(part, entries, key_at(part, place));
        },
        JsonView::Array(items) => {
            lemma_items_fault_at(part, items, 0, place);
        },
        _ => {},
    }
}

proof fn lemma_part_fault(part: Part, value: JsonView)
    requires
        match part {
            Part::Node => node_of(value) is None,
            Part::Sample => sample_of(value) is None,
            Part::Event => event_of(value) is None,
        },
    ensures
        part_fault(part, value) is Some,
{
    lemma_keys_differ();
    let keys = match part {
        Part::Node => seq!["name"@, "category"@, "parent"@],
        Part::Sample => seq!["sf"@, "weight"@],
        Part::Event => seq!["ph"@, "sf"@, "weight"@],
    };
    if let Some(f) = record(value, keys, true) {
        let n = field_count(part) as int;
        let k = choose|k: int|
            0 <= k < n && (#[trigger] f[k]) is Some && named_fault(part, key_at(part, k), f[k]->0)
                is Some;
        let bad = 0 <= k < n && f[k] is Some && named_fault(part, key_at(part, k), f[k]->0) is Some;
        if bad {
            assert(keys[k] == key_at(part, k));
            lemma_field_fault(part, value, k, f[k]->0);
        } else {
            assert(f[0] is Some ==> !(named_fault(part, key_at(part, 0), f[0]->0) is Some));
            assert(f[1] is Some ==> !(named_fault(part, key_at(part, 1), f[1]->0) is Some));
            if n == 3 {
                assert(f[2] is Some ==> !(named_fault(part, key_at(part, 2), f[2]->0) is Some));
            }
            assert(part == Part::Node && f[0] is None);
            assert(keys[0] == "name"@);
        }
    }
}

proof fn lemma_keys_differ()
    ensures
        "name"@ != "category"@,
        "name"@ != "parent"@,
        "category"@ != "parent"@,
        "sf"@ != "weight"@,
        "ph"@ != "sf"@,
        "ph"@ != "weight"@,
        "stackFrames"@ != "samples"@,
        "stackFrames"@ != "traceEvents"@,
        "samples"@ != "traceEvents"@,
{
    reveal_strlit("name");
    reveal_strlit("category");
    reveal_strlit("parent");
    reveal_strlit("sf");
    reveal_strlit("weight");
    reveal_strlit("ph");
    reveal_strlit("stackFrames");
    reveal_strlit("samples");
    reveal_strlit("traceEvents");
    assert("name"@.len() == 4 && "category"@.len() == 8 && "parent"@.len() == 6);
    assert("sf"@[0] == 's' && "ph"@[0] == 'p');
    assert("sf"@.len() == 2 && "weight"@.len() == 6 && "ph"@.len() == 2);
    assert("stackFrames"@[1] == 't' && "samples"@[1] == 'a' && "traceEvents"@[1] == 'r');
}

proof fn lemma_parts_fault_at(part: Part, items: Seq<JsonView>, i: int, at: int)
    requires
        0 <= i <= at < items.len(),
        part_fault(part, items[at]) is Some,
    ensures
        parts_fault(part, items, i) is Some,
    decreases at - i,
{
    if i < at {
        lemma_parts_fault_at(part, items, i + 1, at);
    }
}

proof fn lemma_list_fault(part: Part, value: JsonView)
    requires
        match part {
            Part::Node => false,
            Part::Sample => samples_of(Some(value)) is None,
            Part::Event => events_of(Some(value)) is None,
        },
    ensures
        list_fault(part, value) is Some,
{
    if let JsonView::Array(items) = value {
        let at = if part == Part::Sample {
            choose|i: int| 0 <= i < items.len() && !(sample_of(#[trigger] items[i]) is Some)
        } else {
            choose|i: int| 0 <= i < items.len() && !(event_of(#[trigger] items[i]) is Some)
        };
        lemma_part_fault(part, items[at]);
        lemma_parts_fault_at(part, items, 0, at);
    }
}

proof fn lemma_tree_fault(value: JsonView)
    requires
        nodes_of(Some(value)) is None,
    ensures
        tree_fault(value) is Some,
{
    if let JsonView::Object(entries) = value {
        let at = choose|i: int|
            0 <= i < entries.len() && !(node_of((#[trigger] entries[i]).1) is Some);
        lemma_part_fault(Part::Node, entries[at].1);
        lemma_parts_fault_at(Part::Node, entry_values(entries), 0, at);
    }
}

proof fn lemma_tops_fault_at(entries: Seq<(Seq<char>, JsonView)>, i: int, at: int)
    requires
        0 <= i <= at < entries.len(),
        top_fault(entries[at].0, entries[at].1) is Some,
    ensures
        tops_fault(entries, i) is Some,
    decreases at - i,
{
    if i < at {
        lemma_tops_fault_at(entries, i + 1, at);
    }
}

/// A value is refused as no trace only where it has a fault.
pub proof fn lemma_refused_for_a_fault(value: JsonView)
    requires
        trace_of(value) == Err::<TraceView, ErrorView>(ErrorView::Json),
    ensures
        trace_fault(value) is Some,
{
    lemma_keys_differ();
    match value {
        JsonView::Object(entries) => {
            if nodes_of(entry(entries, "stackFrames"@)) is None {
                let at = lemma_entry_at(entries, "stackFrames"@);
                lemma_tree_fault(entries[at].1);
                lemma_tops_fault_at(entries, 0, at);
            } else if samples_of(entry(entries, "samples"@)) is None {
                let at = lemma_entry_at(entries, "samples"@);
                lemma_list_fault(Part::Sample, entries[at].1);
                lemma_tops_fault_at(entries, 0, at);
            } else {
                let at = lemma_entry_at(entries, "traceEvents"@);
                lemma_list_fault(Part::Event, entries[at].1);
                lemma_tops_fault_at(entries, 0, at);
            }
        },
        JsonView::Array(_) => {
            lemma_list_fault(Part::Event, value);
        },
        _ => {},
    }
}

} // verus!
