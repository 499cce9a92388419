//! What the members of a JSON object are, and how records are read from them.

use vstd::prelude::*;

use crate::json::{as_opt_number, as_opt_text, distinct_keys, entry, record, JsonView};

verus! {

/// Whether an object has a member with a key and a value.
pub open spec fn member(value: JsonView, key: Seq<char>, held: JsonView) -> bool {
    &&& value matches JsonView::Object(entries)
    &&& exists|i: int|
        0 <= i < entries.len() && #[trigger] entries[i] == (key, held)
}

/// Whether an object has no member with a key.
pub open spec fn lacks(value: JsonView, key: Seq<char>) -> bool {
    &&& value matches JsonView::Object(entries)
    &&& forall|i: int| 0 <= i < entries.len() ==> (#[trigger] entries[i]).0 != key
}

/// Whether a value is an object, no two members of which have one key.
pub open spec fn proper(value: JsonView) -> bool {
    value matches JsonView::Object(entries) && distinct_keys(entries)
}

/// Whether a member is a text, or is missing or null where there is none.
pub open spec fn text_member(value: JsonView, key: Seq<char>, text: Option<Seq<char>>) -> bool {
    match text {
        Some(text) => member(value, key, JsonView::Text(text)),
        None => lacks(value, key) || member(value, key, JsonView::Null),
    }
}

/// Whether a member is an integer, or is missing or null where there is none.
pub open spec fn number_member(value: JsonView, key: Seq<char>, n: Option<int>) -> bool {
    match n {
        Some(n) => member(value, key, JsonView::Number(n)),
        None => lacks(value, key) || member(value, key, JsonView::Null),
    }
}

/// Whether an entry stands at an index.
spec fn stands_at(
    entries: Seq<(Seq<char>, JsonView)>,
    i: int,
    key: Seq<char>,
    held: JsonView,
) -> bool {
    0 <= i < entries.len() && entries[i] == (key, held)
}

proof fn lemma_entry(entries: Seq<(Seq<char>, JsonView)>, key: Seq<char>)
    ensures
        match entry(entries, key) {
            Some(held) => exists|i: int| #[trigger] stands_at(entries, i, key, held),
            None => forall|i: int| 0 <= i < entries.len() ==> (#[trigger] entries[i]).0 != key,
        },
    decreases entries.len(),
{
    if entries.len() > 0 {
        let front = entries.drop_last();
        if entries.last().0 == key {
            assert(stands_at(entries, entries.len() - 1, key, entries.last().1));
        } else {
            lemma_entry(front, key);
            if let Some(held) = entry(front, key) {
                let i = choose|i: int| #[trigger] stands_at(front, i, key, held);
                assert(stands_at(entries, i, key, held));
            } else {
                assert forall|i: int| 0 <= i < entries.len() implies (#[trigger] entries[i]).0
                    != key by {
                    if i < front.len() {
                        assert(entries[i] == front[i]);
                    }
                }
            }
        }
    }
}

/// A member is found under its key, wherever in the object it stands, and
/// nothing is found under a key that no member has.
pub proof fn law_members_are_found(
    entries: Seq<(Seq<char>, JsonView)>,
    key: Seq<char>,
    held: JsonView,
)
    requires
        distinct_keys(entries),
    ensures
        entry(entries, key) == Some(held) <==> member(JsonView::Object(entries), key, held),
        entry(entries, key) is None <==> lacks(JsonView::Object(entries), key),
{
    lemma_entry(entries, key);
    let value = JsonView::Object(entries);
    if let Some(found) = entry(entries, key) {
        let i = choose|i: int| #[trigger] stands_at(entries, i, key, found);
        assert(entries[i] == (key, found));
        assert(entries[i].0 == key);
        assert(value->Object_0[i].0 == key);
        assert(!lacks(value, key));
        if found == held {
            assert(member(value, key, held));
        }
        if member(value, key, held) {
            let j = choose|j: int| 0 <= j < entries.len() && #[trigger] entries[j] == (key, held);
            assert(entries[j].0 == key);
            assert(i == j) by {
                if i < j {
                    assert(entries[i].0 != entries[j].0);
                } else if j < i {
                    assert(entries[j].0 != entries[i].0);
                }
            }
        }
    } else {
        assert(lacks(value, key));
        if member(value, key, held) {
            let j = choose|j: int| 0 <= j < entries.len() && #[trigger] entries[j] == (key, held);
            assert(entries[j].0 != key);
        }
    }
}

/// A text that may be missing is read from its member: null stands for a missing
/// one.
pub proof fn lemma_text_member(
    entries: Seq<(Seq<char>, JsonView)>,
    key: Seq<char>,
    text: Option<Seq<char>>,
)
    requires
        distinct_keys(entries),
        text_member(JsonView::Object(entries), key, text),
    ensures
        as_opt_text(entry(entries, key)) == Some(text),
{
    match text {
        Some(text) => law_members_are_found(entries, key, JsonView::Text(text)),
        None => law_members_are_found(entries, key, JsonView::Null),
    }
}

/// An integer that may be missing is read from its member.
pub proof fn lemma_number_member(
    entries: Seq<(Seq<char>, JsonView)>,
    key: Seq<char>,
    n: Option<int>,
    min: int,
    max: int,
)
    requires
        distinct_keys(entries),
        number_member(JsonView::Object(entries), key, n),
        n matches Some(n) ==> min <= n <= max,
    ensures
        as_opt_number(entry(entries, key), min, max) == Some(n),
{
    match n {
        Some(n) => law_members_are_found(entries, key, JsonView::Number(n)),
        None => law_members_are_found(entries, key, JsonView::Null),
    }
}

/// A record may also be given as an array, the fields in their order: what is
/// read of it is what the object with those members says.
pub proof fn law_records_may_be_arrays(
    keys: Seq<Seq<char>>,
    items: Seq<JsonView>,
    entries: Seq<(Seq<char>, JsonView)>,
    lenient: bool,
)
    requires
        distinct_keys(entries),
        items.len() == keys.len(),
        forall|i: int|
            0 <= i < keys.len() ==> member(JsonView::Object(entries), #[trigger] keys[i], items[i]),
    ensures
        record(JsonView::Array(items), keys, lenient) == record(
            JsonView::Object(entries),
            keys,
            lenient,
        ),
{
    let a = record(JsonView::Array(items), keys, lenient)->0;
    let b = record(JsonView::Object(entries), keys, lenient)->0;
    assert forall|i: int| 0 <= i < keys.len() implies a[i] == b[i] by {
        law_members_are_found(entries, keys[i], items[i]);
    }
    assert(a =~= b);
}

/// An array of another length is no record: longer never, and shorter only
/// where fields may be missing, which the last ones then are.
pub proof fn law_short_arrays_lack_the_last_fields(
    keys: Seq<Seq<char>>,
    items: Seq<JsonView>,
    lenient: bool,
)
    ensures
        items.len() > keys.len() ==> record(JsonView::Array(items), keys, lenient) is None,
        items.len() < keys.len() && !lenient ==> record(
            JsonView::Array(items),
            keys,
            lenient,
        ) is None,
        items.len() < keys.len() && lenient ==> (record(
            JsonView::Array(items),
            keys,
            lenient,
        ) matches Some(fields) && fields.len() == keys.len() && forall|i: int|
            0 <= i < keys.len() ==> #[trigger] fields[i] == (if i < items.len() {
                Some(items[i])
            } else {
                None
            })),
{
}

} // verus!
