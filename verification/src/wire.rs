//! The protobuf wire format: variable length integers, and messages as lists
//! of numbered fields.

use vstd::prelude::*;
use vstd::slice::slice_subrange;

verus! {

/// The integer at the start of `bytes`, and how many bytes it takes: seven
/// bits a byte, the lowest first, and the high bit set on all but the last
/// byte. `before` bytes of it have been read already; there are at most ten,
/// and the tenth holds one bit.
pub open spec fn read_varint(bytes: Seq<u8>, before: nat) -> Option<(nat, nat)>
    decreases bytes.len(),
{
    if before >= 10 || bytes.len() == 0 {
        None
    } else if bytes[0] < 0x80 {
        if before == 9 && bytes[0] >= 2 {
            None
        } else {
            Some((bytes[0] as nat, 1))
        }
    } else {
        match read_varint(bytes.skip(1), before + 1) {
            None => None,
            Some((high, used)) => Some(((bytes[0] - 0x80 + 0x80 * high) as nat, used + 1)),
        }
    }
}

/// The bytes of an integer.
pub open spec fn write_varint(value: nat) -> Seq<u8>
    decreases value,
{
    if value < 0x80 {
        seq![value as u8]
    } else {
        seq![(value % 0x80 + 0x80) as u8] + write_varint(value / 0x80)
    }
}

/// Reads an integer by `prost::encoding::decode_varint`, and returns it with
/// the bytes behind it. It succeeds exactly where [`read_varint`] does.
#[verifier::external_body]
pub(crate) fn take_varint<'a>(bytes: &'a [u8]) -> (r: Option<(u64, &'a [u8])>)
    ensures
        match r {
            Some((value, rest)) => {
                &&& read_varint(bytes@, 0) matches Some((n, used))
                &&& value == n
                &&& rest@ == bytes@.skip(used as int)
            },
            None => read_varint(bytes@, 0) is None,
        },
{
    let mut rest = bytes;
    match prost::encoding::decode_varint(&mut rest) {
        Ok(value) => Some((value, rest)),
        Err(_) => None,
    }
}

/// Appends an integer by `prost::encoding::encode_varint`.
#[verifier::external_body]
fn put_varint(value: u64, out: &mut Vec<u8>)
    ensures
        final(out)@ == old(out)@ + write_varint(value as nat),
{
    prost::encoding::encode_varint(value, out);
}

pub proof fn lemma_read_varint(bytes: Seq<u8>, before: nat)
    ensures
        read_varint(bytes, before) matches Some((value, used)) ==> 1 <= used <= bytes.len(),
    decreases bytes.len(),
{
    if before < 10 && bytes.len() > 0 && bytes[0] >= 0x80 {
        lemma_read_varint(bytes.skip(1), before + 1);
    }
}

/// One more than the largest integer of which `before` bytes have been read.
spec fn varint_cap(before: nat) -> nat
    decreases 10 - before,
{
    if before >= 9 {
        2
    } else {
        0x80 * varint_cap(before + 1)
    }
}

proof fn lemma_varint_round_trip(value: nat, rest: Seq<u8>, before: nat)
    requires
        before < 10,
        value < varint_cap(before),
    ensures
        read_varint(write_varint(value) + rest, before) == Some((value, write_varint(value).len())),
    decreases value,
{
    let bytes = write_varint(value) + rest;
    if value >= 0x80 {
        let high = value / 0x80;
        lemma_varint_round_trip(high, rest, before + 1);
        assert(bytes.skip(1) =~= write_varint(high) + rest);
        assert(bytes[0] == (value % 0x80 + 0x80) as u8);
    }
}

/// An integer that was written is read back, whatever follows it.
pub proof fn law_varint_reads_back(value: u64, rest: Seq<u8>)
    ensures
        read_varint(write_varint(value as nat) + rest, 0) == Some(
            (value as nat, write_varint(value as nat).len()),
        ),
        write_varint(value as nat).len() > 0,
{
    assert(varint_cap(0) == 0x1_0000_0000_0000_0000) by {
        reveal_with_fuel(varint_cap, 10);
    }
    lemma_varint_round_trip(value as nat, rest, 0);
}

/// What a field holds.
#[verifier::ext_equal]
pub enum ValueView {
    Varint(u64),
    Fixed64,
    Bytes(Seq<u8>),
    Group,
    Fixed32,
}

/// A field: its number and what it holds.
pub type FieldView = (nat, ValueView);

/// The key at the start of `bytes`: the number of a field, the kind of its
/// value, and how many bytes the key takes.
pub open spec fn read_key(bytes: Seq<u8>) -> Option<(nat, nat, nat)> {
    match read_varint(bytes, 0) {
        Some((key, used)) => if key <= u32::MAX && key % 8 <= 5 && key / 8 >= 1 {
            Some((key / 8, key % 8, used))
        } else {
            None
        },
        None => None,
    }
}

/// The value of kind `kind` at the start of `bytes`, and how many bytes it
/// takes. Groups nest at most `depth` deep.
pub open spec fn read_value(bytes: Seq<u8>, tag: nat, kind: nat, depth: nat) -> Option<
    (ValueView, nat),
>
    decreases bytes.len(), 1nat,
{
    if kind == 0 {
        match read_varint(bytes, 0) {
            Some((value, used)) => Some((ValueView::Varint(value as u64), used)),
            None => None,
        }
    } else if kind == 1 {
        if bytes.len() >= 8 {
            Some((ValueView::Fixed64, 8))
        } else {
            None
        }
    } else if kind == 2 {
        match read_varint(bytes, 0) {
            Some((len, used)) => if used + len <= bytes.len() {
                Some(
                    (
                        ValueView::Bytes(bytes.subrange(used as int, (used + len) as int)),
                        used + len,
                    ),
                )
            } else {
                None
            },
            None => None,
        }
    } else if kind == 3 {
        match read_group(bytes, tag, depth) {
            Some(used) => Some((ValueView::Group, used)),
            None => None,
        }
    } else if kind == 5 {
        if bytes.len() >= 4 {
            Some((ValueView::Fixed32, 4))
        } else {
            None
        }
    } else {
        None
    }
}

/// How many bytes the rest of the group `tag` takes, up to and with its end.
pub open spec fn read_group(bytes: Seq<u8>, tag: nat, depth: nat) -> Option<nat>
    decreases bytes.len(), 0nat,
{
    match read_key(bytes) {
        None => None,
        Some((inner, kind, key)) => {
            if kind == 4 {
                if inner == tag {
                    Some(key)
                } else {
                    None
                }
            } else if depth <= 1 || key == 0 || key > bytes.len() {
                None
            } else {
                match read_value(bytes.skip(key as int), inner, kind, (depth - 1) as nat) {
                    None => None,
                    Some((_, used)) => if key + used > bytes.len() {
                        None
                    } else {
                        match read_group(bytes.skip((key + used) as int), tag, depth) {
                            None => None,
                            Some(more) => Some(key + used + more),
                        }
                    },
                }
            }
        },
    }
}

/// The fields of a message.
pub open spec fn read_fields(bytes: Seq<u8>, depth: nat) -> Option<Seq<FieldView>>
    decreases bytes.len(),
{
    if bytes.len() == 0 {
        Some(Seq::empty())
    } else {
        match read_key(bytes) {
            None => None,
            Some((tag, kind, key)) => match read_value(bytes.skip(key as int), tag, kind, depth) {
                None => None,
                Some((value, used)) => if key == 0 || key + used > bytes.len() {
                    None
                } else {
                    match read_fields(bytes.skip((key + used) as int), depth) {
                        None => None,
                        Some(rest) => Some(seq![(tag, value)] + rest),
                    }
                },
            },
        }
    }
}

pub proof fn lemma_read_value(bytes: Seq<u8>, tag: nat, kind: nat, depth: nat)
    ensures
        read_value(bytes, tag, kind, depth) matches Some((value, used)) ==> used <= bytes.len(),
        read_group(bytes, tag, depth) matches Some(used) ==> used <= bytes.len(),
    decreases bytes.len(),
{
    lemma_read_varint(bytes, 0);
    if let Some((inner, k, key)) = read_key(bytes) {
        if k != 4 && depth > 1 && key <= bytes.len() {
            lemma_read_value(bytes.skip(key as int), inner, k, (depth - 1) as nat);
            if let Some((_, used)) = read_value(
                bytes.skip(key as int),
                inner,
                k,
                (depth - 1) as nat,
            ) {
                if key + used <= bytes.len() {
                    lemma_read_value(bytes.skip((key + used) as int), tag, kind, depth);
                }
            }
        }
    }
}

/// What a field holds, borrowed from the message.
#[derive(Clone, Copy)]
pub enum FieldValue<'a> {
    Varint(u64),
    Fixed64,
    Bytes(&'a [u8]),
    Group,
    Fixed32,
}

impl<'a> View for FieldValue<'a> {
    type V = ValueView;

    open spec fn view(&self) -> ValueView {
        match self {
            FieldValue::Varint(value) => ValueView::Varint(*value),
            FieldValue::Fixed64 => ValueView::Fixed64,
            FieldValue::Bytes(bytes) => ValueView::Bytes(bytes@),
            FieldValue::Group => ValueView::Group,
            FieldValue::Fixed32 => ValueView::Fixed32,
        }
    }
}

/// A field, borrowed from the message.
#[derive(Clone, Copy)]
pub struct Field<'a> {
    pub tag: u32,
    pub value: FieldValue<'a>,
}

impl<'a> View for Field<'a> {
    type V = FieldView;

    open spec fn view(&self) -> FieldView {
        (self.tag as nat, self.value@)
    }
}

/// What a list of fields holds.
pub open spec fn field_list(fields: Seq<Field>) -> Seq<FieldView> {
    Seq::new(fields.len(), |i: int| fields[i]@)
}

/// Reads a key.
fn take_key<'a>(bytes: &'a [u8]) -> (r: Option<(u32, u8, &'a [u8])>)
    ensures
        match r {
            Some((tag, kind, rest)) => {
                &&& read_key(bytes@) matches Some((t, k, used))
                &&& tag == t
                &&& kind == k
                &&& 1 <= used <= bytes.len()
                &&& rest@ == bytes@.skip(used as int)
            },
            None => read_key(bytes@) is None,
        },
{
    proof {
        lemma_read_varint(bytes@, 0);
    }
    match take_varint(bytes) {
        None => None,
        Some((key, rest)) => {
            if key <= u32::MAX as u64 && key % 8 <= 5 && key / 8 >= 1 {
                Some(((key / 8) as u32, (key % 8) as u8, rest))
            } else {
                None
            }
        },
    }
}

/// Reads a value.
fn take_value<'a>(bytes: &'a [u8], tag: u32, kind: u8, depth: u32) -> (r: Option<
    (FieldValue<'a>, &'a [u8]),
>)
    ensures
        match r {
            Some((value, rest)) => {
                &&& read_value(bytes@, tag as nat, kind as nat, depth as nat) matches Some((v, used))
                &&& value@ == v
                &&& used <= bytes.len()
                &&& rest@ == bytes@.skip(used as int)
            },
            None => read_value(bytes@, tag as nat, kind as nat, depth as nat) is None,
        },
    decreases bytes.len(), 1nat,
{
    proof {
        lemma_read_varint(bytes@, 0);
    }
    match kind {
        0 => match take_varint(bytes) {
            Some((value, rest)) => Some((FieldValue::Varint(value), rest)),
            None => None,
        },
        1 => {
            if bytes.len() >= 8 {
                assert(bytes@.subrange(8, bytes.len() as int) =~= bytes@.skip(8));
                Some((FieldValue::Fixed64, slice_subrange(bytes, 8, bytes.len())))
            } else {
                None
            }
        },
        2 => match take_varint(bytes) {
            Some((len, rest)) => {
                if len <= rest.len() as u64 {
                    let n: usize = len as usize;
                    let ghost used = (read_varint(bytes@, 0)->0).1 as int;
                    assert(rest@.subrange(0, n as int) =~= bytes@.subrange(used, used + n));
                    assert(rest@.subrange(n as int, rest.len() as int) =~= bytes@.skip(used + n));
                    Some(
                        (
                            FieldValue::Bytes(slice_subrange(rest, 0, n)),
                            slice_subrange(rest, n, rest.len()),
                        ),
                    )
                } else {
                    None
                }
            },
            None => None,
        },
        3 => match skip_group(bytes, tag, depth) {
            Some(rest) => Some((FieldValue::Group, rest)),
            None => None,
        },
        5 => {
            if bytes.len() >= 4 {
                assert(bytes@.subrange(4, bytes.len() as int) =~= bytes@.skip(4));
                Some((FieldValue::Fixed32, slice_subrange(bytes, 4, bytes.len())))
            } else {
                None
            }
        },
        _ => None,
    }
}

/// Skips the rest of a group.
fn skip_group<'a>(bytes: &'a [u8], tag: u32, depth: u32) -> (r: Option<&'a [u8]>)
    ensures
        match r {
            Some(rest) => {
                &&& read_group(bytes@, tag as nat, depth as nat) matches Some(used)
                &&& used <= bytes.len()
                &&& rest@ == bytes@.skip(used as int)
            },
            None => read_group(bytes@, tag as nat, depth as nat) is None,
        },
    decreases bytes.len(), 0nat,
{
    match take_key(bytes) {
        None => None,
        Some((inner, kind, rest)) => {
            let ghost key = (read_key(bytes@)->0).2 as int;
            if kind == 4 {
                if inner == tag {
                    Some(rest)
                } else {
                    None
                }
            } else if depth <= 1 {
                None
            } else {
                match take_value(rest, inner, kind, depth - 1) {
                    None => None,
                    Some((_, after)) => {
                        let ghost used = (read_value(
                            bytes@.skip(key),
                            inner as nat,
                            kind as nat,
                            (depth - 1) as nat,
                        )->0).1 as int;
                        assert(bytes@.skip(key).skip(used) =~= bytes@.skip(key + used));
                        match skip_group(after, tag, depth) {
                            None => None,
                            Some(end) => {
                                let ghost more = read_group(
                                    after@,
                                    tag as nat,
                                    depth as nat,
                                )->0 as int;
                                assert(after@.skip(more) =~= bytes@.skip(key + used + more));
                                Some(end)
                            },
                        }
                    },
                }
            }
        },
    }
}

/// Reads the fields of a message.
pub fn parse_fields<'a>(bytes: &'a [u8], depth: u32) -> (r: Option<Vec<Field<'a>>>)
    ensures
        match r {
            Some(fields) => read_fields(bytes@, depth as nat) == Some(field_list(fields@)),
            None => read_fields(bytes@, depth as nat) is None,
        },
{
    let mut out: Vec<Field<'a>> = Vec::new();
    let mut rest: &'a [u8] = bytes;
    assert(field_list(out@) =~= Seq::empty());
    proof {
        if let Some(all) = read_fields(bytes@, depth as nat) {
            assert(field_list(out@) + all =~= all);
        }
    }
    while rest.len() > 0
        invariant
            match read_fields(rest@, depth as nat) {
                Some(more) => read_fields(bytes@, depth as nat) == Some(field_list(out@) + more),
                None => read_fields(bytes@, depth as nat) is None,
            },
        decreases rest.len(),
    {
        let ghost start = rest@;
        match take_key(rest) {
            None => {
                return None;
            },
            Some((tag, kind, after)) => {
                let ghost key = (read_key(start)->0).2 as int;
                match take_value(after, tag, kind, depth) {
                    None => {
                        return None;
                    },
                    Some((value, next)) => {
                        let ghost used = (read_value(
                            after@,
                            tag as nat,
                            kind as nat,
                            depth as nat,
                        )->0).1 as int;
                        let field = Field { tag, value };
                        let ghost before = field_list(out@);
                        proof {
                            assert(next@ =~= start.skip(key + used));
                            if let Some(more) = read_fields(next@, depth as nat) {
                                assert(before + (seq![field@] + more) =~= before.push(field@)
                                    + more);
                            }
                        }
                        out.push(field);
                        assert(field_list(out@) =~= before.push(field@));
                        rest = next;
                    },
                }
            },
        }
    }
    assert(field_list(out@) + Seq::<FieldView>::empty() =~= field_list(out@));
    Some(out)
}

/// The bytes of a field that is an integer or a run of bytes.
pub open spec fn field_bytes(field: FieldView) -> Seq<u8> {
    match field.1 {
        ValueView::Varint(value) => write_varint(field.0 * 8) + write_varint(value as nat),
        ValueView::Bytes(bytes) => write_varint(field.0 * 8 + 2) + write_varint(bytes.len())
            + bytes,
        _ => Seq::empty(),
    }
}

/// The bytes of a list of fields.
pub open spec fn fields_bytes(fields: Seq<FieldView>) -> Seq<u8>
    decreases fields.len(),
{
    if fields.len() == 0 {
        Seq::empty()
    } else {
        fields_bytes(fields.drop_last()) + field_bytes(fields.last())
    }
}

/// Whether a field can be written: its number is in range, and it is an
/// integer or a run of bytes whose length an integer can hold.
pub open spec fn writable(field: FieldView) -> bool {
    &&& 1 <= field.0 < 0x2000_0000
    &&& match field.1 {
        ValueView::Varint(_) => true,
        ValueView::Bytes(bytes) => bytes.len() <= u64::MAX,
        _ => false,
    }
}

/// Whether all fields can be written.
pub open spec fn all_writable(fields: Seq<FieldView>) -> bool {
    forall|i: int| 0 <= i < fields.len() ==> writable(#[trigger] fields[i])
}

pub proof fn lemma_fields_bytes_concat(a: Seq<FieldView>, b: Seq<FieldView>)
    ensures
        fields_bytes(a + b) == fields_bytes(a) + fields_bytes(b),
    decreases b.len(),
{
    if b.len() == 0 {
        assert(a + b =~= a);
        assert(fields_bytes(a) + fields_bytes(b) =~= fields_bytes(a));
    } else {
        assert((a + b).drop_last() =~= a + b.drop_last());
        lemma_fields_bytes_concat(a, b.drop_last());
        assert(fields_bytes(a + b) =~= fields_bytes(a) + fields_bytes(b));
    }
}

proof fn lemma_key_reads_back(tag: nat, kind: nat, tail: Seq<u8>)
    requires
        1 <= tag < 0x2000_0000,
        kind <= 5,
    ensures
        read_key(write_varint(tag * 8 + kind) + tail) == Some(
            (tag, kind, write_varint(tag * 8 + kind).len()),
        ),
        write_varint(tag * 8 + kind).len() > 0,
{
    law_varint_reads_back((tag * 8 + kind) as u64, tail);
}

proof fn lemma_bytes_read_back(body: Seq<u8>, rest: Seq<u8>, tag: nat, depth: nat)
    requires
        body.len() <= u64::MAX,
    ensures
        read_value(write_varint(body.len()) + body + rest, tag, 2, depth) == Some(
            (ValueView::Bytes(body), write_varint(body.len()).len() + body.len()),
        ),
{
    let all = write_varint(body.len()) + body + rest;
    assert(all =~= write_varint(body.len()) + (body + rest));
    law_varint_reads_back(body.len() as u64, body + rest);
    let u = write_varint(body.len()).len() as int;
    assert(all.subrange(u, u + body.len()) =~= body);
}

proof fn lemma_field_step(bytes: Seq<u8>, field: FieldView, kind: nat, key: nat, used: nat, depth: nat)
    requires
        bytes.len() > 0,
        0 < key,
        key + used <= bytes.len(),
        read_key(bytes) == Some((field.0, kind, key)),
        read_value(bytes.skip(key as int), field.0, kind, depth) == Some((field.1, used)),
    ensures
        read_fields(bytes, depth) == match read_fields(bytes.skip((key + used) as int), depth) {
            Some(more) => Some(seq![field] + more),
            None => None,
        },
{
}

proof fn lemma_field_reads_back(field: FieldView, rest: Seq<u8>, depth: nat)
    requires
        writable(field),
    ensures
        read_fields(field_bytes(field) + rest, depth) == match read_fields(rest, depth) {
            Some(more) => Some(seq![field] + more),
            None => None,
        },
{
    let bytes = field_bytes(field) + rest;
    let tag = field.0;
    match field.1 {
        ValueView::Varint(value) => {
            let tail = write_varint(value as nat) + rest;
            let k = write_varint(tag * 8).len();
            let u = write_varint(value as nat).len();
            assert(bytes =~= write_varint(tag * 8 + 0) + tail);
            lemma_key_reads_back(tag, 0, tail);
            law_varint_reads_back(value, rest);
            assert(bytes.skip(k as int) =~= tail);
            assert(read_value(tail, tag, 0, depth) == Some((field.1, u)));
            lemma_field_step(bytes, field, 0, k, u, depth);
            assert(bytes.skip((k + u) as int) =~= rest);
        },
        ValueView::Bytes(body) => {
            let tail = write_varint(body.len()) + body + rest;
            let k = write_varint(tag * 8 + 2).len();
            let u = write_varint(body.len()).len() + body.len();
            assert(bytes =~= write_varint(tag * 8 + 2) + tail);
            lemma_key_reads_back(tag, 2, tail);
            lemma_bytes_read_back(body, rest, tag, depth);
            assert(bytes.skip(k as int) =~= tail);
            lemma_field_step(bytes, field, 2, k, u, depth);
            assert(bytes.skip((k + u) as int) =~= rest);
        },
        _ => {},
    }
}

/// [`read_fields`], taken as a whole.
#[verifier::opaque]
spec fn parsed(bytes: Seq<u8>, depth: nat) -> Option<Seq<FieldView>> {
    read_fields(bytes, depth)
}

proof fn lemma_field_parsed(field: FieldView, rest: Seq<u8>, depth: nat)
    requires
        writable(field),
        parsed(rest, depth) is Some,
    ensures
        parsed(field_bytes(field) + rest, depth) == Some(seq![field] + parsed(rest, depth)->0),
{
    reveal(parsed);
    lemma_field_reads_back(field, rest, depth);
}

proof fn lemma_fields_read_back(fields: Seq<FieldView>, rest: Seq<u8>, depth: nat)
    requires
        all_writable(fields),
        parsed(rest, depth) is Some,
    ensures
        parsed(fields_bytes(fields) + rest, depth) == Some(fields + parsed(rest, depth)->0),
    decreases fields.len(),
{
    let more = parsed(rest, depth)->0;
    if fields.len() == 0 {
        assert(fields_bytes(fields) + rest =~= rest);
        assert(fields + more =~= more);
    } else {
        let front = fields.drop_last();
        let last = fields[fields.len() - 1];
        assert forall|i: int| 0 <= i < front.len() implies writable(#[trigger] front[i]) by {
            assert(front[i] == fields[i]);
        }
        lemma_field_parsed(last, rest, depth);
        lemma_fields_read_back(front, field_bytes(last) + rest, depth);
        assert(fields_bytes(fields) + rest =~= fields_bytes(front) + (field_bytes(last) + rest));
        assert(front + (seq![last] + more) =~= fields + more);
    }
}

/// Fields that were written are read back in their order.
pub proof fn law_fields_read_back(fields: Seq<FieldView>, depth: nat)
    requires
        all_writable(fields),
    ensures
        read_fields(fields_bytes(fields), depth) == Some(fields),
{
    reveal(parsed);
    lemma_fields_read_back(fields, Seq::empty(), depth);
    assert(fields_bytes(fields) + Seq::<u8>::empty() =~= fields_bytes(fields));
    assert(fields + Seq::<FieldView>::empty() =~= fields);
}

/// A message: how a field changes it. A number it does not know leaves it as
/// it is; a known number with the wrong kind of value is an error.
pub trait Message: Sized {
    /// The message without fields.
    spec fn blank() -> Self;

    /// The message after one more field.
    spec fn merged(self, field: FieldView) -> Option<Self>;
}

/// The message after more fields.
pub open spec fn merge_all<M: Message>(start: M, fields: Seq<FieldView>) -> Option<M>
    decreases fields.len(),
{
    if fields.len() == 0 {
        Some(start)
    } else {
        match merge_all(start, fields.drop_last()) {
            Some(message) => message.merged(fields.last()),
            None => None,
        }
    }
}

/// The message that bytes hold, on top of `start`.
pub open spec fn decoded<M: Message>(start: M, bytes: Seq<u8>, depth: nat) -> Option<M> {
    match read_fields(bytes, depth) {
        Some(fields) => merge_all(start, fields),
        None => None,
    }
}

pub proof fn lemma_merge_concat<M: Message>(start: M, a: Seq<FieldView>, b: Seq<FieldView>)
    ensures
        merge_all(start, a + b) == match merge_all(start, a) {
            Some(mid) => merge_all(mid, b),
            None => None,
        },
    decreases b.len(),
{
    if b.len() == 0 {
        assert(a + b =~= a);
    } else {
        assert((a + b).drop_last() =~= a + b.drop_last());
        lemma_merge_concat(start, a, b.drop_last());
    }
}

pub proof fn lemma_merge_error_stays<M: Message>(start: M, fields: Seq<FieldView>, n: int)
    requires
        0 <= n <= fields.len(),
        merge_all(start, fields.take(n)) is None,
    ensures
        merge_all(start, fields) is None,
{
    assert(fields.take(n) + fields.skip(n) =~= fields);
    lemma_merge_concat(start, fields.take(n), fields.skip(n));
}

/// A field that is left out where it is zero.
pub open spec fn varint_field(tag: nat, value: u64) -> Seq<FieldView> {
    if value == 0 {
        Seq::empty()
    } else {
        seq![(tag, ValueView::Varint(value))]
    }
}

/// A field that is a run of bytes.
pub open spec fn bytes_field(tag: nat, bytes: Seq<u8>) -> Seq<FieldView> {
    seq![(tag, ValueView::Bytes(bytes))]
}

/// Appends a field, unless it is zero.
pub fn put_varint_field(tag: u32, value: u64, out: &mut Vec<u8>)
    requires
        1 <= tag < 0x2000_0000,
    ensures
        final(out)@ == old(out)@ + fields_bytes(varint_field(tag as nat, value)),
{
    proof {
        reveal_with_fuel(fields_bytes, 2);
        let one = seq![(tag as nat, ValueView::Varint(value))];
        assert(one.drop_last() =~= Seq::empty());
    }
    if value != 0 {
        put_varint(tag as u64 * 8, out);
        put_varint(value, out);
    }
    assert(out@ =~= old(out)@ + fields_bytes(varint_field(tag as nat, value)));
}

/// Appends a run of bytes.
pub fn put_bytes_field(tag: u32, bytes: &[u8], out: &mut Vec<u8>)
    requires
        1 <= tag < 0x2000_0000,
    ensures
        final(out)@ == old(out)@ + fields_bytes(bytes_field(tag as nat, bytes@)),
{
    proof {
        reveal_with_fuel(fields_bytes, 2);
        let one = seq![(tag as nat, ValueView::Bytes(bytes@))];
        assert(one.drop_last() =~= Seq::empty());
    }
    put_varint(tag as u64 * 8 + 2, out);
    put_varint(bytes.len() as u64, out);
    out.extend_from_slice(bytes);
    assert(out@ =~= old(out)@ + fields_bytes(bytes_field(tag as nat, bytes@)));
}

/// The integers of a packed field.
pub open spec fn read_varints(bytes: Seq<u8>) -> Option<Seq<u64>>
    decreases bytes.len(),
{
    if bytes.len() == 0 {
        Some(Seq::empty())
    } else {
        match read_varint(bytes, 0) {
            None => None,
            Some((value, used)) => if used == 0 || used > bytes.len() {
                None
            } else {
                match read_varints(bytes.skip(used as int)) {
                    None => None,
                    Some(rest) => Some(seq![value as u64] + rest),
                }
            },
        }
    }
}

/// The bytes of a packed field.
pub open spec fn write_varints(values: Seq<u64>) -> Seq<u8>
    decreases values.len(),
{
    if values.len() == 0 {
        Seq::empty()
    } else {
        write_varint(values[0] as nat) + write_varints(values.skip(1))
    }
}

/// A packed field, left out where it is empty.
pub open spec fn packed_field(tag: nat, values: Seq<u64>) -> Seq<FieldView> {
    if values.len() == 0 {
        Seq::empty()
    } else {
        bytes_field(tag, write_varints(values))
    }
}

/// Packed integers that were written are read back.
pub proof fn law_varints_read_back(values: Seq<u64>)
    ensures
        read_varints(write_varints(values)) == Some(values),
    decreases values.len(),
{
    if values.len() > 0 {
        let rest = write_varints(values.skip(1));
        law_varints_read_back(values.skip(1));
        law_varint_reads_back(values[0], rest);
        let used = write_varint(values[0] as nat).len() as int;
        assert(write_varints(values).skip(used) =~= rest);
        assert(seq![values[0]] + values.skip(1) =~= values);
    } else {
        assert(values =~= Seq::empty());
    }
}

/// Reads packed integers.
pub fn parse_varints(bytes: &[u8]) -> (r: Option<Vec<u64>>)
    ensures
        match r {
            Some(values) => read_varints(bytes@) == Some(values@),
            None => read_varints(bytes@) is None,
        },
{
    let mut out: Vec<u64> = Vec::new();
    let mut rest: &[u8] = bytes;
    proof {
        if let Some(all) = read_varints(bytes@) {
            assert(out@ + all =~= all);
        }
    }
    while rest.len() > 0
        invariant
            match read_varints(rest@) {
                Some(more) => read_varints(bytes@) == Some(out@ + more),
                None => read_varints(bytes@) is None,
            },
        decreases rest.len(),
    {
        proof {
            lemma_read_varint(rest@, 0);
        }
        match take_varint(rest) {
            None => {
                return None;
            },
            Some((value, next)) => {
                let ghost before = out@;
                proof {
                    if let Some(more) = read_varints(next@) {
                        assert(before + (seq![value] + more) =~= before.push(value) + more);
                    }
                }
                out.push(value);
                rest = next;
            },
        }
    }
    assert(out@ + Seq::<u64>::empty() =~= out@);
    Some(out)
}

/// Appends a packed field, unless it is empty.
pub fn put_packed_field(tag: u32, values: &Vec<u64>, out: &mut Vec<u8>)
    requires
        1 <= tag < 0x2000_0000,
    ensures
        final(out)@ == old(out)@ + fields_bytes(packed_field(tag as nat, values@)),
{
    if values.len() == 0 {
        assert(out@ =~= old(out)@ + fields_bytes(packed_field(tag as nat, values@)));
        return;
    }
    let mut body: Vec<u8> = Vec::new();
    let mut i: usize = 0;
    assert(values@.skip(0) =~= values@);
    assert(body@ + write_varints(values@) =~= write_varints(values@));
    while i < values.len()
        invariant
            i <= values.len(),
            body@ + write_varints(values@.skip(i as int)) == write_varints(values@),
        decreases values.len() - i,
    {
        let ghost before = body@;
        let ghost rest = values@.skip(i as int);
        assert(rest.skip(1) =~= values@.skip(i + 1));
        put_varint(values[i], &mut body);
        assert(before + (write_varint(values@[i as int] as nat) + write_varints(rest.skip(1)))
            =~= body@ + write_varints(values@.skip(i + 1)));
        i = i + 1;
    }
    assert(body@ =~= write_varints(values@));
    put_bytes_field(tag, body.as_slice(), out);
}

} // verus!
