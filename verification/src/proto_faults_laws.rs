//! That a message is refused only where it has a fault to tell.

use vstd::prelude::*;

use crate::proto::{
    bytes_of, read_message, text_of, varint_of, varints_of, Function, Label, Line, LocationView,
    Mapping, ProfileView, SampleView, ValueType,
};
use crate::proto_faults::{
    field_step, group_step, key_step, message_step, packed_step, skip_step, slot_at, Part, Slot,
};
use crate::wire::{
    decoded, lemma_read_varint, merge_all, read_fields, read_group, read_key, read_value,
    read_varint, read_varints, FieldView, Message, ValueView,
};

verus! {

proof fn lemma_varint_local(rest: Seq<u8>, before: nat, n: int)
    requires
        read_varint(rest, before) is Some,
        (read_varint(rest, before)->0).1 <= n <= rest.len(),
    ensures
        read_varint(rest.take(n), before) == read_varint(rest, before),
    decreases rest.len(),
{
    lemma_read_varint(rest, before);
    if rest[0] >= 0x80 {
        lemma_read_varint(rest.skip(1), before + 1);
        lemma_varint_local(rest.skip(1), before + 1, n - 1);
        assert(rest.take(n).skip(1) =~= rest.skip(1).take(n - 1));
    }
}

/// A skipped field is read as well from the bytes that it takes.
proof fn lemma_skip_local(kind: nat, tag: nat, rest: Seq<u8>, depth: nat, n: int)
    requires
        kind <= 5,
        skip_step(kind, tag, rest, depth) is Ok,
    ensures
        skip_step(kind, tag, rest, depth) matches Ok(after) && after.len() <= rest.len() && after
            == rest.skip(rest.len() - after.len()) && (rest.len() - after.len() <= n <= rest.len()
            ==> (read_value(rest.take(n), tag, kind, depth) matches Some((_, used)) && used
            == rest.len() - after.len())),
    decreases depth, rest.len(), 1int,
{
    let after = skip_step(kind, tag, rest, depth)->Ok_0;
    let sub = rest.take(n);
    if kind == 3 {
        lemma_group_local(tag, rest, depth, n);
    } else if kind == 0 || kind == 2 {
        lemma_read_varint(rest, 0);
        let (value, used) = read_varint(rest, 0)->0;
        if kind == 2 {
            assert(rest.skip(used as int).skip(value as int) =~= rest.skip((used + value) as int));
        }
        if rest.len() - after.len() <= n <= rest.len() {
            lemma_varint_local(rest, 0, n);
        }
    }
}

proof fn lemma_group_local(tag: nat, rest: Seq<u8>, depth: nat, n: int)
    requires
        depth > 0,
        group_step(tag, rest, depth) is Ok,
    ensures
        group_step(tag, rest, depth) matches Ok(after) && after.len() <= rest.len() && after
            == rest.skip(rest.len() - after.len()) && (rest.len() - after.len() <= n <= rest.len()
            ==> (read_group(rest.take(n), tag, depth) matches Some(used) && used == rest.len()
            - after.len())),
    decreases depth, rest.len(), 0int,
{
    let after = group_step(tag, rest, depth)->Ok_0;
    let sub = rest.take(n);
    lemma_read_varint(rest, 0);
    let used = (read_varint(rest, 0)->0).1 as int;
    let (inner, kind, next) = key_step(rest)->Ok_0;
    assert(next == rest.skip(used));
    if kind == 4 {
        if rest.len() - after.len() <= n <= rest.len() {
            lemma_varint_local(rest, 0, n);
        }
    } else {
        let less = (depth - 1) as nat;
        lemma_skip_local(kind, inner, next, less, n - used);
        let first = skip_step(kind, inner, next, less)->Ok_0;
        let taken = next.len() - first.len();
        assert(first.len() < rest.len());
        lemma_group_local(tag, first, depth, n - used - taken);
        assert(first =~= rest.skip(used + taken));
        let more = first.len() - after.len();
        assert(after =~= rest.skip(used + taken + more));
        if rest.len() - after.len() <= n <= rest.len() {
            lemma_varint_local(rest, 0, n);
            assert(sub.skip(used) =~= next.take(n - used));
            assert(sub.skip(used + taken) =~= first.take(n - used - taken));
        }
    }
}

proof fn lemma_packed_local(rest: Seq<u8>, limit: nat)
    requires
        packed_step(rest, limit) is Ok,
    ensures
        rest.len() >= limit,
        packed_step(rest, limit)->Ok_0 == rest.skip(rest.len() - limit),
        read_varints(rest.take(rest.len() - limit)) is Some,
    decreases rest.len(),
{
    let n = rest.len() - limit;
    if rest.len() > limit {
        lemma_read_varint(rest, 0);
        let used = (read_varint(rest, 0)->0).1 as int;
        let next = rest.skip(used);
        lemma_packed_local(next, limit);
        lemma_varint_local(rest, 0, n);
        assert(rest.take(n).skip(used) =~= next.take(n - used));
        assert(next.skip(n - used) =~= rest.skip(n));
    } else {
        assert(rest.skip(0) =~= rest);
    }
}

/// Whether a field can be taken by every message of a type.
spec fn accepts<M: Message>(field: FieldView) -> bool {
    forall|m: M| #[trigger] m.merged(field) is Some
}

/// Whether a field can be taken by a message.
#[verifier::opaque]
spec fn part_accepts(part: Part, field: FieldView) -> bool {
    match part {
        Part::Profile => accepts::<ProfileView>(field),
        Part::ValueType => accepts::<ValueType>(field),
        Part::Sample => accepts::<SampleView>(field),
        Part::Label => accepts::<Label>(field),
        Part::Mapping => accepts::<Mapping>(field),
        Part::Location => accepts::<LocationView>(field),
        Part::Line => accepts::<Line>(field),
        Part::Function => accepts::<Function>(field),
    }
}

/// How many messages may nest in one.
spec fn part_depth(part: Part) -> nat {
    match part {
        Part::Profile => 100,
        Part::Label => 98,
        Part::Line => 98,
        _ => 99,
    }
}

/// Whether bytes hold fields that a message can take.
spec fn readable(part: Part, bytes: Seq<u8>) -> bool {
    read_fields(bytes, part_depth(part)) matches Some(fields) && forall|i: int|
        0 <= i < fields.len() ==> part_accepts(part, #[trigger] fields[i])
}

proof fn lemma_merges<M: Message>(start: M, fields: Seq<FieldView>)
    requires
        forall|i: int| 0 <= i < fields.len() ==> accepts::<M>(#[trigger] fields[i]),
    ensures
        merge_all(start, fields) is Some,
    decreases fields.len(),
{
    if fields.len() > 0 {
        let front = fields.drop_last();
        assert forall|i: int| 0 <= i < front.len() implies accepts::<M>(#[trigger] front[i]) by {
            assert(front[i] == fields[i]);
        }
        lemma_merges(start, front);
        assert(accepts::<M>(fields[fields.len() - 1]));
    }
}

proof fn lemma_decodes<M: Message>(bytes: Seq<u8>, depth: nat)
    requires
        read_fields(bytes, depth) matches Some(fields) && forall|i: int|
            0 <= i < fields.len() ==> accepts::<M>(#[trigger] fields[i]),
    ensures
        forall|m: M| #[trigger] decoded(m, bytes, depth) is Some,
{
    assert forall|m: M| #[trigger] decoded(m, bytes, depth) is Some by {
        lemma_merges(m, read_fields(bytes, depth)->0);
    }
}

/// Whether a value can be what a field holds.
spec fn holds(slot: Slot, value: ValueView) -> bool {
    match slot {
        Slot::Varint => varint_of(value) is Some,
        Slot::Packed => varints_of(value) is Some,
        Slot::Text => text_of(value) is Some,
        Slot::Nested(part) => bytes_of(value) matches Some(bytes) && readable(part, bytes),
    }
}

proof fn lemma_accepted(part: Part, tag: nat, value: ValueView)
    requires
        slot_at(part, tag) matches Some((_, slot)) ==> holds(slot, value),
    ensures
        part_accepts(part, (tag, value)),
{
    reveal(part_accepts);
    if let Some((_, Slot::Nested(inner))) = slot_at(part, tag) {
        let bytes = bytes_of(value)->0;
        match inner {
            Part::ValueType => {
                lemma_decodes::<ValueType>(bytes, 99);
            },
            Part::Sample => {
                lemma_decodes::<SampleView>(bytes, 99);
            },
            Part::Label => {
                lemma_decodes::<Label>(bytes, 98);
            },
            Part::Mapping => {
                lemma_decodes::<Mapping>(bytes, 99);
            },
            Part::Location => {
                lemma_decodes::<LocationView>(bytes, 99);
            },
            Part::Line => {
                lemma_decodes::<Line>(bytes, 98);
            },
            Part::Function => {
                lemma_decodes::<Function>(bytes, 99);
            },
            Part::Profile => {},
        }
    }
}

/// A field that is passed is read from the bytes that it takes.
proof fn lemma_field_local(part: Part, tag: nat, kind: nat, rest: Seq<u8>, n: int)
    requires
        kind <= 5,
        field_step(part, tag, kind, rest, part_depth(part)) is Ok,
    ensures
        field_step(part, tag, kind, rest, part_depth(part)) matches Ok(after) && after.len()
            <= rest.len() && after == rest.skip(rest.len() - after.len()) && (rest.len()
            - after.len() <= n <= rest.len() ==> (read_value(
            rest.take(n),
            tag,
            kind,
            part_depth(part),
        ) matches Some((value, used)) && used == rest.len() - after.len() && part_accepts(
            part,
            (tag, value),
        ))),
    decreases part_depth(part), 2int, 0nat,
{
    let depth = part_depth(part);
    let after = field_step(part, tag, kind, rest, depth)->Ok_0;
    let sub = rest.take(n);
    match slot_at(part, tag) {
        None => {
            lemma_skip_local(kind, tag, rest, depth, n);
            if rest.len() - after.len() <= n <= rest.len() {
                lemma_accepted(part, tag, (read_value(sub, tag, kind, depth)->0).0);
            }
        },
        Some((_, slot)) => {
            lemma_read_varint(rest, 0);
            let (value, used) = read_varint(rest, 0)->0;
            let next = rest.skip(used as int);
            if kind == 2 {
                if slot == Slot::Packed {
                    lemma_packed_local(next, (next.len() - value) as nat);
                } else if let Slot::Nested(inner) = slot {
                    lemma_message_local(inner, next, (next.len() - value) as nat);
                }
                assert(next.skip(value as int) =~= rest.skip((used + value) as int));
            }
            if rest.len() - after.len() <= n <= rest.len() {
                lemma_varint_local(rest, 0, n);
                if kind == 2 {
                    assert(sub.subrange(used as int, (used + value) as int) =~= next.take(
                        value as int,
                    ));
                }
                lemma_accepted(part, tag, (read_value(sub, tag, kind, depth)->0).0);
            }
        },
    }
}

/// A field and the fields behind it are the fields of the bytes of both.
proof fn lemma_one_more_field(part: Part, bytes: Seq<u8>)
    requires
        read_key(bytes) matches Some((tag, kind, key)) && 0 < key <= bytes.len() && (read_value(
            bytes.skip(key as int),
            tag,
            kind,
            part_depth(part),
        ) matches Some((value, used)) && key + used <= bytes.len() && part_accepts(
            part,
            (tag, value),
        ) && readable(part, bytes.skip((key + used) as int))),
    ensures
        readable(part, bytes),
{
    let depth = part_depth(part);
    let (tag, kind, key) = read_key(bytes)->0;
    let (value, used) = read_value(bytes.skip(key as int), tag, kind, depth)->0;
    let fields = read_fields(bytes, depth)->0;
    let later = read_fields(bytes.skip((key + used) as int), depth)->0;
    assert(fields == seq![(tag, value)] + later);
    assert forall|i: int| 0 <= i < fields.len() implies part_accepts(part, #[trigger] fields[i]) by {
        if i > 0 {
            assert(fields[i] == later[i - 1]);
        }
    }
}

/// The first field of a message that is passed.
proof fn lemma_message_head(part: Part, rest: Seq<u8>, limit: nat) -> (r: (nat, nat, int))
    requires
        rest.len() > limit,
        message_step(part, rest, limit, part_depth(part)) is Ok,
    ensures
        ({
            let (tag, kind, used) = r;
            &&& read_key(rest) == Some((tag, kind, used as nat))
            &&& read_varint(rest, 0) matches Some((_, taken)) && taken == used
            &&& kind <= 5
            &&& 0 < used <= rest.len()
            &&& field_step(part, tag, kind, rest.skip(used), part_depth(part)) matches Ok(after)
                && (after.len() < rest.len() ==> message_step(
                part,
                after,
                limit,
                part_depth(part),
            ) == message_step(part, rest, limit, part_depth(part)))
        }),
{
    lemma_read_varint(rest, 0);
    let used = (read_varint(rest, 0)->0).1 as int;
    let (tag, kind, next) = key_step(rest)->Ok_0;
    assert(next == rest.skip(used));
    (tag, kind, used)
}

/// Two pieces at the start of bytes, and the same pieces of fewer bytes.
proof fn lemma_cut(rest: Seq<u8>, used: int, taken: int, n: int)
    requires
        0 <= used,
        0 <= taken,
        used + taken <= n <= rest.len(),
    ensures
        rest.skip(used).skip(taken) == rest.skip(used + taken),
        rest.take(n).skip(used) == rest.skip(used).take(n - used),
        rest.take(n).skip(used + taken) == rest.skip(used + taken).take(n - used - taken),
        rest.skip(used + taken).skip(n - used - taken) == rest.skip(n),
{
    assert(rest.skip(used).skip(taken) =~= rest.skip(used + taken));
    assert(rest.take(n).skip(used) =~= rest.skip(used).take(n - used));
    assert(rest.take(n).skip(used + taken) =~= rest.skip(used + taken).take(n - used - taken));
    assert(rest.skip(used + taken).skip(n - used - taken) =~= rest.skip(n));
}

/// A message that is passed is read from the bytes that it takes.
proof fn lemma_message_local(part: Part, rest: Seq<u8>, limit: nat)
    requires
        message_step(part, rest, limit, part_depth(part)) is Ok,
    ensures
        rest.len() >= limit,
        message_step(part, rest, limit, part_depth(part))->Ok_0 == rest.skip(rest.len() - limit),
        readable(part, rest.take(rest.len() - limit)),
    decreases part_depth(part), 3int, rest.len(),
{
    let depth = part_depth(part);
    let n = rest.len() - limit;
    if rest.len() > limit {
        let (tag, kind, used) = lemma_message_head(part, rest, limit);
        let next = rest.skip(used);
        lemma_field_local(part, tag, kind, next, n - used);
        let after = field_step(part, tag, kind, next, depth)->Ok_0;
        let taken = next.len() - after.len();
        assert(after.len() < rest.len());
        lemma_message_local(part, after, limit);
        lemma_cut(rest, used, taken, n);
        let sub = rest.take(n);
        assert(read_key(sub) == Some((tag, kind, used as nat))) by {
            lemma_varint_local(rest, 0, n);
        }
        lemma_one_more_field(part, sub);
    } else {
        assert(rest.skip(0) =~= rest);
        assert(rest.take(0) =~= Seq::empty());
    }
}

/// Bytes are refused as a profile message only where there is a fault to tell.
pub proof fn law_refused_messages_have_a_fault(bytes: Seq<u8>)
    requires
        read_message(bytes) is None,
    ensures
        message_step(Part::Profile, bytes, 0, 100) is Err,
{
    if message_step(Part::Profile, bytes, 0, 100) is Ok {
        reveal(part_accepts);
        lemma_message_local(Part::Profile, bytes, 0);
        assert(bytes.take(bytes.len() as int) =~= bytes);
        lemma_decodes::<ProfileView>(bytes, 100);
    }
}

} // verus!
