//! The messages of the pprof format (`perftools.profiles`), as they stand on
//! the wire.

use vstd::prelude::*;
use vstd::utf8::{
    decode_utf8, encode_utf8, encode_utf8_decode_utf8, encode_utf8_valid_utf8, valid_utf8,
};

use crate::model::views;
use crate::text::utf8_text;
use crate::wire::{
    all_writable, bytes_field, decoded, field_list, fields_bytes, law_fields_read_back,
    law_varints_read_back, lemma_fields_bytes_concat, lemma_merge_concat, lemma_merge_error_stays,
    merge_all, packed_field, parse_fields, parse_varints, put_bytes_field, put_packed_field,
    put_varint_field, read_varints, varint_field, writable, Field, FieldValue, FieldView, Message,
    ValueView,
};

verus! {

/// How deep groups of unknown fields may nest in a whole message.
pub const DEPTH: u32 = 100;

/// The integer that a field holds.
pub open spec fn varint_of(value: ValueView) -> Option<u64> {
    match value {
        ValueView::Varint(value) => Some(value),
        _ => None,
    }
}

/// The bytes that a field holds.
pub open spec fn bytes_of(value: ValueView) -> Option<Seq<u8>> {
    match value {
        ValueView::Bytes(bytes) => Some(bytes),
        _ => None,
    }
}

/// The integers that a field of integers holds: one, or packed ones.
pub open spec fn varints_of(value: ValueView) -> Option<Seq<u64>> {
    match value {
        ValueView::Varint(value) => Some(seq![value]),
        ValueView::Bytes(bytes) => read_varints(bytes),
        _ => None,
    }
}

fn varint_in(value: FieldValue<'_>) -> (r: Option<u64>)
    ensures
        r == varint_of(value@),
{
    match value {
        FieldValue::Varint(value) => Some(value),
        _ => None,
    }
}

fn varints_in(value: FieldValue<'_>) -> (r: Option<Vec<u64>>)
    ensures
        match r {
            Some(values) => varints_of(value@) == Some(values@),
            None => varints_of(value@) is None,
        },
{
    match value {
        FieldValue::Varint(value) => {
            let mut values: Vec<u64> = Vec::new();
            values.push(value);
            assert(values@ =~= seq![value]);
            Some(values)
        },
        FieldValue::Bytes(bytes) => parse_varints(bytes),
        _ => None,
    }
}

/// A message that can be read: its fields change it as its view says.
pub trait Decode: View + Sized where Self::V: Message {
    /// The message without fields.
    fn empty() -> (r: Self)
        ensures
            r@ == <Self::V as Message>::blank(),
    ;

    /// Takes one more field.
    fn merge(self, field: Field<'_>) -> (r: Option<Self>)
        ensures
            match r {
                Some(message) => self@.merged(field@) == Some(message@),
                None => self@.merged(field@) is None,
            },
    ;
}

/// Reads the fields of a message on top of `start`.
pub fn decode_onto<T: Decode>(start: T, bytes: &[u8], depth: u32) -> (r: Option<T>) where
    T::V: Message,

    ensures
        match r {
            Some(message) => decoded(start@, bytes@, depth as nat) == Some(message@),
            None => decoded(start@, bytes@, depth as nat) is None,
        },
{
    let ghost first = start@;
    match parse_fields(bytes, depth) {
        None => None,
        Some(fields) => {
            let ghost all = field_list(fields@);
            let mut message: T = start;
            let mut i: usize = 0;
            assert(all.take(0) =~= Seq::empty());
            while i < fields.len()
                invariant
                    i <= fields.len(),
                    all == field_list(fields@),
                    first == start@,
                    decoded(first, bytes@, depth as nat) == merge_all(first, all),
                    merge_all(first, all.take(i as int)) == Some(message@),
                decreases fields.len() - i,
            {
                let ghost now = all.take(i + 1);
                assert(now.drop_last() =~= all.take(i as int));
                assert(now.last() == fields@[i as int]@);
                match message.merge(fields[i]) {
                    None => {
                        proof {
                            lemma_merge_error_stays(first, all, i + 1);
                        }
                        return None;
                    },
                    Some(next) => {
                        message = next;
                    },
                }
                i = i + 1;
            }
            assert(all.take(i as int) =~= all);
            Some(message)
        },
    }
}

proof fn lemma_merge_one<M: Message>(start: M, field: FieldView)
    ensures
        merge_all(start, seq![field]) == start.merged(field),
{
    let one = seq![field];
    assert(one.drop_last() =~= Seq::empty());
    reveal_with_fuel(merge_all, 2);
}

proof fn lemma_merge_varint<M: Message>(start: M, tag: nat, value: u64)
    ensures
        merge_all(start, varint_field(tag, value)) == if value == 0 {
            Some(start)
        } else {
            start.merged((tag, ValueView::Varint(value)))
        },
{
    if value != 0 {
        lemma_merge_one(start, (tag, ValueView::Varint(value)));
    }
}

proof fn lemma_append(start: Seq<u8>, done: Seq<FieldView>, next: Seq<FieldView>)
    ensures
        start + fields_bytes(done) + fields_bytes(next) == start + fields_bytes(done + next),
{
    lemma_fields_bytes_concat(done, next);
    assert(start + fields_bytes(done) + fields_bytes(next) =~= start + fields_bytes(done + next));
}

proof fn lemma_merge_step<M: Message>(
    first: M,
    done: Seq<FieldView>,
    mid: M,
    next: Seq<FieldView>,
    last: M,
)
    requires
        merge_all(first, done) == Some(mid),
        merge_all(mid, next) == Some(last),
        all_writable(done),
        all_writable(next),
    ensures
        merge_all(first, done + next) == Some(last),
        all_writable(done + next),
{
    lemma_merge_concat(first, done, next);
    assert forall|i: int| 0 <= i < (done + next).len() implies writable(
        #[trigger] (done + next)[i],
    ) by {
        if i < done.len() {
            assert(writable(done[i]));
        } else {
            assert(writable(next[i - done.len()]));
        }
    }
}

/// A signed integer goes through the wire's unsigned form unchanged.
pub proof fn lemma_signed(value: i64)
    ensures
        (value as u64) as i64 == value,
        value as u64 == 0 <==> value == 0,
{
    assert((value as u64) as i64 == value) by (bit_vector);
    assert(value as u64 == 0 <==> value == 0) by (bit_vector);
}

/// A truth value as an integer.
pub open spec fn flag(value: bool) -> u64 {
    if value {
        1
    } else {
        0
    }
}

/// What a value means, and its unit, as string indices.
#[derive(Debug, Clone, Copy, PartialEq, Eq, Structural)]
pub struct ValueType {
    pub kind: i64,
    pub unit: i64,
}

impl View for ValueType {
    type V = ValueType;

    open spec fn view(&self) -> ValueType {
        *self
    }
}

impl Default for ValueType {
    fn default() -> (r: Self)
        ensures
            r == ValueType::blank(),
    {
        ValueType { kind: 0, unit: 0 }
    }
}

impl Message for ValueType {
    open spec fn blank() -> Self {
        ValueType { kind: 0, unit: 0 }
    }

    open spec fn merged(self, field: FieldView) -> Option<Self> {
        if field.0 == 1 || field.0 == 2 {
            match varint_of(field.1) {
                None => None,
                Some(value) => Some(
                    if field.0 == 1 {
                        ValueType { kind: value as i64, ..self }
                    } else {
                        ValueType { unit: value as i64, ..self }
                    },
                ),
            }
        } else {
            Some(self)
        }
    }
}

impl Decode for ValueType {
    fn empty() -> (r: Self) {
        ValueType::default()
    }

    fn merge(self, field: Field<'_>) -> (r: Option<Self>) {
        let mut r = self;
        if field.tag == 1 || field.tag == 2 {
            match varint_in(field.value) {
                None => {
                    return None;
                },
                Some(value) => {
                    if field.tag == 1 {
                        r.kind = value as i64;
                    } else {
                        r.unit = value as i64;
                    }
                },
            }
        }
        Some(r)
    }
}

impl ValueType {
    /// The fields of the message; those that are zero are left out.
    pub open spec fn fields(self) -> Seq<FieldView> {
        varint_field(1, self.kind as u64)
            + varint_field(2, self.unit as u64)
    }

    /// Appends the message.
    pub fn encode(&self, out: &mut Vec<u8>)
        ensures
            final(out)@ == old(out)@ + fields_bytes(self.fields()),
    {
        let ghost start = out@;
        let ghost mut done: Seq<FieldView> = Seq::empty();
        assert(out@ =~= start + fields_bytes(done));
        put_varint_field(1, self.kind as u64, out);
        proof {
            let next = varint_field(1, self.kind as u64);
            lemma_append(start, done, next);
            done = done + next;
        }
        put_varint_field(2, self.unit as u64, out);
        proof {
            let next = varint_field(2, self.unit as u64);
            lemma_append(start, done, next);
            done = done + next;
        }
        assert(Seq::<FieldView>::empty() + varint_field(1, self.kind as u64) =~= varint_field(1, self.kind as u64));
        assert(done == self.fields());
    }
}

/// The fields of a [`ValueType`] say what it says, and can be written.
pub proof fn law_value_type_fields(m: ValueType)
    ensures
        merge_all(ValueType::blank(), m.fields()) == Some(m),
        all_writable(m.fields()),
{
    let s0 = ValueType::blank();
    let f0 = Seq::<FieldView>::empty();
    assert(merge_all(s0, f0) == Some(s0));
    lemma_signed(m.kind);
    let s1 = ValueType { kind: m.kind, ..s0 };
    let f1 = f0 + varint_field(1, m.kind as u64);
    lemma_merge_varint(s0, 1, m.kind as u64);
    lemma_merge_step(s0, f0, s0, varint_field(1, m.kind as u64), s1);
    lemma_signed(m.unit);
    let s2 = ValueType { unit: m.unit, ..s1 };
    let f2 = f1 + varint_field(2, m.unit as u64);
    lemma_merge_varint(s1, 2, m.unit as u64);
    lemma_merge_step(s0, f1, s1, varint_field(2, m.unit as u64), s2);
    assert(f0 + varint_field(1, m.kind as u64) =~= varint_field(1, m.kind as u64));
    assert(f2 == m.fields());
    assert(s2 == m);
}

/// Something known of a sample, as string indices and a number.
#[derive(Debug, Clone, Copy, PartialEq, Eq, Structural)]
pub struct Label {
    pub key: i64,
    pub text: i64,
    pub num: i64,
    pub num_unit: i64,
}

impl View for Label {
    type V = Label;

    open spec fn view(&self) -> Label {
        *self
    }
}

impl Default for Label {
    fn default() -> (r: Self)
        ensures
            r == Label::blank(),
    {
        Label { key: 0, text: 0, num: 0, num_unit: 0 }
    }
}

impl Message for Label {
    open spec fn blank() -> Self {
        Label { key: 0, text: 0, num: 0, num_unit: 0 }
    }

    open spec fn merged(self, field: FieldView) -> Option<Self> {
        if field.0 == 1 || field.0 == 2 || field.0 == 3 || field.0 == 4 {
            match varint_of(field.1) {
                None => None,
                Some(value) => Some(
                    if field.0 == 1 {
                        Label { key: value as i64, ..self }
                    } else if field.0 == 2 {
                        Label { text: value as i64, ..self }
                    } else if field.0 == 3 {
                        Label { num: value as i64, ..self }
                    } else {
                        Label { num_unit: value as i64, ..self }
                    },
                ),
            }
        } else {
            Some(self)
        }
    }
}

impl Decode for Label {
    fn empty() -> (r: Self) {
        Label::default()
    }

    fn merge(self, field: Field<'_>) -> (r: Option<Self>) {
        let mut r = self;
        if field.tag == 1 || field.tag == 2 || field.tag == 3 || field.tag == 4 {
            match varint_in(field.value) {
                None => {
                    return None;
                },
                Some(value) => {
                    if field.tag == 1 {
                        r.key = value as i64;
                    } else if field.tag == 2 {
                        r.text = value as i64;
                    } else if field.tag == 3 {
                        r.num = value as i64;
                    } else {
                        r.num_unit = value as i64;
                    }
                },
            }
        }
        Some(r)
    }
}

impl Label {
    /// The fields of the message; those that are zero are left out.
    pub open spec fn fields(self) -> Seq<FieldView> {
        varint_field(1, self.key as u64)
            + varint_field(2, self.text as u64)
            + varint_field(3, self.num as u64)
            + varint_field(4, self.num_unit as u64)
    }

    /// Appends the message.
    pub fn encode(&self, out: &mut Vec<u8>)
        ensures
            final(out)@ == old(out)@ + fields_bytes(self.fields()),
    {
        let ghost start = out@;
        let ghost mut done: Seq<FieldView> = Seq::empty();
        assert(out@ =~= start + fields_bytes(done));
        put_varint_field(1, self.key as u64, out);
        proof {
            let next = varint_field(1, self.key as u64);
            lemma_append(start, done, next);
            done = done + next;
        }
        put_varint_field(2, self.text as u64, out);
        proof {
            let next = varint_field(2, self.text as u64);
            lemma_append(start, done, next);
            done = done + next;
        }
        put_varint_field(3, self.num as u64, out);
        proof {
            let next = varint_field(3, self.num as u64);
            lemma_append(start, done, next);
            done = done + next;
        }
        put_varint_field(4, self.num_unit as u64, out);
        proof {
            let next = varint_field(4, self.num_unit as u64);
            lemma_append(start, done, next);
            done = done + next;
        }
        assert(Seq::<FieldView>::empty() + varint_field(1, self.key as u64) =~= varint_field(1, self.key as u64));
        assert(done == self.fields());
    }
}

/// The fields of a [`Label`] say what it says, and can be written.
pub proof fn law_label_fields(m: Label)
    ensures
        merge_all(Label::blank(), m.fields()) == Some(m),
        all_writable(m.fields()),
{
    let s0 = Label::blank();
    let f0 = Seq::<FieldView>::empty();
    assert(merge_all(s0, f0) == Some(s0));
    lemma_signed(m.key);
    let s1 = Label { key: m.key, ..s0 };
    let f1 = f0 + varint_field(1, m.key as u64);
    lemma_merge_varint(s0, 1, m.key as u64);
    lemma_merge_step(s0, f0, s0, varint_field(1, m.key as u64), s1);
    lemma_signed(m.text);
    let s2 = Label { text: m.text, ..s1 };
    let f2 = f1 + varint_field(2, m.text as u64);
    lemma_merge_varint(s1, 2, m.text as u64);
    lemma_merge_step(s0, f1, s1, varint_field(2, m.text as u64), s2);
    lemma_signed(m.num);
    let s3 = Label { num: m.num, ..s2 };
    let f3 = f2 + varint_field(3, m.num as u64);
    lemma_merge_varint(s2, 3, m.num as u64);
    lemma_merge_step(s0, f2, s2, varint_field(3, m.num as u64), s3);
    lemma_signed(m.num_unit);
    let s4 = Label { num_unit: m.num_unit, ..s3 };
    let f4 = f3 + varint_field(4, m.num_unit as u64);
    lemma_merge_varint(s3, 4, m.num_unit as u64);
    lemma_merge_step(s0, f3, s3, varint_field(4, m.num_unit as u64), s4);
    assert(f0 + varint_field(1, m.key as u64) =~= varint_field(1, m.key as u64));
    assert(f4 == m.fields());
    assert(s4 == m);
}

/// A source line of a location.
#[derive(Debug, Clone, Copy, PartialEq, Eq, Structural)]
pub struct Line {
    pub function_id: u64,
    pub line: i64,
    pub column: i64,
}

impl View for Line {
    type V = Line;

    open spec fn view(&self) -> Line {
        *self
    }
}

impl Default for Line {
    fn default() -> (r: Self)
        ensures
            r == Line::blank(),
    {
        Line { function_id: 0, line: 0, column: 0 }
    }
}

impl Message for Line {
    open spec fn blank() -> Self {
        Line { function_id: 0, line: 0, column: 0 }
    }

    open spec fn merged(self, field: FieldView) -> Option<Self> {
        if field.0 == 1 || field.0 == 2 || field.0 == 3 {
            match varint_of(field.1) {
                None => None,
                Some(value) => Some(
                    if field.0 == 1 {
                        Line { function_id: value, ..self }
                    } else if field.0 == 2 {
                        Line { line: value as i64, ..self }
                    } else {
                        Line { column: value as i64, ..self }
                    },
                ),
            }
        } else {
            Some(self)
        }
    }
}

impl Decode for Line {
    fn empty() -> (r: Self) {
        Line::default()
    }

    fn merge(self, field: Field<'_>) -> (r: Option<Self>) {
        let mut r = self;
        if field.tag == 1 || field.tag == 2 || field.tag == 3 {
            match varint_in(field.value) {
                None => {
                    return None;
                },
                Some(value) => {
                    if field.tag == 1 {
                        r.function_id = value;
                    } else if field.tag == 2 {
                        r.line = value as i64;
                    } else {
                        r.column = value as i64;
                    }
                },
            }
        }
        Some(r)
    }
}

impl Line {
    /// The fields of the message; those that are zero are left out.
    pub open spec fn fields(self) -> Seq<FieldView> {
        varint_field(1, self.function_id)
            + varint_field(2, self.line as u64)
            + varint_field(3, self.column as u64)
    }

    /// Appends the message.
    pub fn encode(&self, out: &mut Vec<u8>)
        ensures
            final(out)@ == old(out)@ + fields_bytes(self.fields()),
    {
        let ghost start = out@;
        let ghost mut done: Seq<FieldView> = Seq::empty();
        assert(out@ =~= start + fields_bytes(done));
        put_varint_field(1, self.function_id, out);
        proof {
            let next = varint_field(1, self.function_id);
            lemma_append(start, done, next);
            done = done + next;
        }
        put_varint_field(2, self.line as u64, out);
        proof {
            let next = varint_field(2, self.line as u64);
            lemma_append(start, done, next);
            done = done + next;
        }
        put_varint_field(3, self.column as u64, out);
        proof {
            let next = varint_field(3, self.column as u64);
            lemma_append(start, done, next);
            done = done + next;
        }
        assert(Seq::<FieldView>::empty() + varint_field(1, self.function_id) =~= varint_field(1, self.function_id));
        assert(done == self.fields());
    }
}

/// The fields of a [`Line`] say what it says, and can be written.
pub proof fn law_line_fields(m: Line)
    ensures
        merge_all(Line::blank(), m.fields()) == Some(m),
        all_writable(m.fields()),
{
    let s0 = Line::blank();
    let f0 = Seq::<FieldView>::empty();
    assert(merge_all(s0, f0) == Some(s0));
    let s1 = Line { function_id: m.function_id, ..s0 };
    let f1 = f0 + varint_field(1, m.function_id);
    lemma_merge_varint(s0, 1, m.function_id);
    lemma_merge_step(s0, f0, s0, varint_field(1, m.function_id), s1);
    lemma_signed(m.line);
    let s2 = Line { line: m.line, ..s1 };
    let f2 = f1 + varint_field(2, m.line as u64);
    lemma_merge_varint(s1, 2, m.line as u64);
    lemma_merge_step(s0, f1, s1, varint_field(2, m.line as u64), s2);
    lemma_signed(m.column);
    let s3 = Line { column: m.column, ..s2 };
    let f3 = f2 + varint_field(3, m.column as u64);
    lemma_merge_varint(s2, 3, m.column as u64);
    lemma_merge_step(s0, f2, s2, varint_field(3, m.column as u64), s3);
    assert(f0 + varint_field(1, m.function_id) =~= varint_field(1, m.function_id));
    assert(f3 == m.fields());
    assert(s3 == m);
}

/// A function.
#[derive(Debug, Clone, Copy, PartialEq, Eq, Structural)]
pub struct Function {
    pub id: u64,
    pub name: i64,
    pub system_name: i64,
    pub filename: i64,
    pub start_line: i64,
}

impl View for Function {
    type V = Function;

    open spec fn view(&self) -> Function {
        *self
    }
}

impl Default for Function {
    fn default() -> (r: Self)
        ensures
            r == Function::blank(),
    {
        Function { id: 0, name: 0, system_name: 0, filename: 0, start_line: 0 }
    }
}

impl Message for Function {
    open spec fn blank() -> Self {
        Function { id: 0, name: 0, system_name: 0, filename: 0, start_line: 0 }
    }

    open spec fn merged(self, field: FieldView) -> Option<Self> {
        if field.0 == 1 || field.0 == 2 || field.0 == 3 || field.0 == 4 || field.0 == 5 {
            match varint_of(field.1) {
                None => None,
                Some(value) => Some(
                    if field.0 == 1 {
                        Function { id: value, ..self }
                    } else if field.0 == 2 {
                        Function { name: value as i64, ..self }
                    } else if field.0 == 3 {
                        Function { system_name: value as i64, ..self }
                    } else if field.0 == 4 {
                        Function { filename: value as i64, ..self }
                    } else {
                        Function { start_line: value as i64, ..self }
                    },
                ),
            }
        } else {
            Some(self)
        }
    }
}

impl Decode for Function {
    fn empty() -> (r: Self) {
        Function::default()
    }

    fn merge(self, field: Field<'_>) -> (r: Option<Self>) {
        let mut r = self;
        if field.tag == 1 || field.tag == 2 || field.tag == 3 || field.tag == 4 || field.tag == 5 {
            match varint_in(field.value) {
                None => {
                    return None;
                },
                Some(value) => {
                    if field.tag == 1 {
                        r.id = value;
                    } else if field.tag == 2 {
                        r.name = value as i64;
                    } else if field.tag == 3 {
                        r.system_name = value as i64;
                    } else if field.tag == 4 {
                        r.filename = value as i64;
                    } else {
                        r.start_line = value as i64;
                    }
                },
            }
        }
        Some(r)
    }
}

impl Function {
    /// The fields of the message; those that are zero are left out.
    pub open spec fn fields(self) -> Seq<FieldView> {
        varint_field(1, self.id)
            + varint_field(2, self.name as u64)
            + varint_field(3, self.system_name as u64)
            + varint_field(4, self.filename as u64)
            + varint_field(5, self.start_line as u64)
    }

    /// Appends the message.
    pub fn encode(&self, out: &mut Vec<u8>)
        ensures
            final(out)@ == old(out)@ + fields_bytes(self.fields()),
    {
        let ghost start = out@;
        let ghost mut done: Seq<FieldView> = Seq::empty();
        assert(out@ =~= start + fields_bytes(done));
        put_varint_field(1, self.id, out);
        proof {
            let next = varint_field(1, self.id);
            lemma_append(start, done, next);
            done = done + next;
        }
        put_varint_field(2, self.name as u64, out);
        proof {
            let next = varint_field(2, self.name as u64);
            lemma_append(start, done, next);
            done = done + next;
        }
        put_varint_field(3, self.system_name as u64, out);
        proof {
            let next = varint_field(3, self.system_name as u64);
            lemma_append(start, done, next);
            done = done + next;
        }
        put_varint_field(4, self.filename as u64, out);
        proof {
            let next = varint_field(4, self.filename as u64);
            lemma_append(start, done, next);
            done = done + next;
        }
        put_varint_field(5, self.start_line as u64, out);
        proof {
            let next = varint_field(5, self.start_line as u64);
            lemma_append(start, done, next);
            done = done + next;
        }
        assert(Seq::<FieldView>::empty() + varint_field(1, self.id) =~= varint_field(1, self.id));
        assert(done == self.fields());
    }
}

/// The fields of a [`Function`] say what it says, and can be written.
pub proof fn law_function_fields(m: Function)
    ensures
        merge_all(Function::blank(), m.fields()) == Some(m),
        all_writable(m.fields()),
{
    let s0 = Function::blank();
    let f0 = Seq::<FieldView>::empty();
    assert(merge_all(s0, f0) == Some(s0));
    let s1 = Function { id: m.id, ..s0 };
    let f1 = f0 + varint_field(1, m.id);
    lemma_merge_varint(s0, 1, m.id);
    lemma_merge_step(s0, f0, s0, varint_field(1, m.id), s1);
    lemma_signed(m.name);
    let s2 = Function { name: m.name, ..s1 };
    let f2 = f1 + varint_field(2, m.name as u64);
    lemma_merge_varint(s1, 2, m.name as u64);
    lemma_merge_step(s0, f1, s1, varint_field(2, m.name as u64), s2);
    lemma_signed(m.system_name);
    let s3 = Function { system_name: m.system_name, ..s2 };
    let f3 = f2 + varint_field(3, m.system_name as u64);
    lemma_merge_varint(s2, 3, m.system_name as u64);
    lemma_merge_step(s0, f2, s2, varint_field(3, m.system_name as u64), s3);
    lemma_signed(m.filename);
    let s4 = Function { filename: m.filename, ..s3 };
    let f4 = f3 + varint_field(4, m.filename as u64);
    lemma_merge_varint(s3, 4, m.filename as u64);
    lemma_merge_step(s0, f3, s3, varint_field(4, m.filename as u64), s4);
    lemma_signed(m.start_line);
    let s5 = Function { start_line: m.start_line, ..s4 };
    let f5 = f4 + varint_field(5, m.start_line as u64);
    lemma_merge_varint(s4, 5, m.start_line as u64);
    lemma_merge_step(s0, f4, s4, varint_field(5, m.start_line as u64), s5);
    assert(f0 + varint_field(1, m.id) =~= varint_field(1, m.id));
    assert(f5 == m.fields());
    assert(s5 == m);
}

/// A binary that is mapped into memory.
#[derive(Debug, Clone, Copy, PartialEq, Eq, Structural)]
pub struct Mapping {
    pub id: u64,
    pub memory_start: u64,
    pub memory_limit: u64,
    pub file_offset: u64,
    pub filename: i64,
    pub build_id: i64,
    pub has_functions: bool,
    pub has_filenames: bool,
    pub has_line_numbers: bool,
    pub has_inline_frames: bool,
}

impl View for Mapping {
    type V = Mapping;

    open spec fn view(&self) -> Mapping {
        *self
    }
}

impl Default for Mapping {
    fn default() -> (r: Self)
        ensures
            r == Mapping::blank(),
    {
        Mapping { id: 0, memory_start: 0, memory_limit: 0, file_offset: 0, filename: 0, build_id: 0, has_functions: false, has_filenames: false, has_line_numbers: false, has_inline_frames: false }
    }
}

impl Message for Mapping {
    open spec fn blank() -> Self {
        Mapping { id: 0, memory_start: 0, memory_limit: 0, file_offset: 0, filename: 0, build_id: 0, has_functions: false, has_filenames: false, has_line_numbers: false, has_inline_frames: false }
    }

    open spec fn merged(self, field: FieldView) -> Option<Self> {
        if field.0 == 1 || field.0 == 2 || field.0 == 3 || field.0 == 4 || field.0 == 5 || field.0 == 6 || field.0 == 7 || field.0 == 8 || field.0 == 9 || field.0 == 10 {
            match varint_of(field.1) {
                None => None,
                Some(value) => Some(
                    if field.0 == 1 {
                        Mapping { id: value, ..self }
                    } else if field.0 == 2 {
                        Mapping { memory_start: value, ..self }
                    } else if field.0 == 3 {
                        Mapping { memory_limit: value, ..self }
                    } else if field.0 == 4 {
                        Mapping { file_offset: value, ..self }
                    } else if field.0 == 5 {
                        Mapping { filename: value as i64, ..self }
                    } else if field.0 == 6 {
                        Mapping { build_id: value as i64, ..self }
                    } else if field.0 == 7 {
                        Mapping { has_functions: value != 0, ..self }
                    } else if field.0 == 8 {
                        Mapping { has_filenames: value != 0, ..self }
                    } else if field.0 == 9 {
                        Mapping { has_line_numbers: value != 0, ..self }
                    } else {
                        Mapping { has_inline_frames: value != 0, ..self }
                    },
                ),
            }
        } else {
            Some(self)
        }
    }
}

impl Decode for Mapping {
    fn empty() -> (r: Self) {
        Mapping::default()
    }

    fn merge(self, field: Field<'_>) -> (r: Option<Self>) {
        let mut r = self;
        if field.tag == 1 || field.tag == 2 || field.tag == 3 || field.tag == 4 || field.tag == 5 || field.tag == 6 || field.tag == 7 || field.tag == 8 || field.tag == 9 || field.tag == 10 {
            match varint_in(field.value) {
                None => {
                    return None;
                },
                Some(value) => {
                    if field.tag == 1 {
                        r.id = value;
                    } else if field.tag == 2 {
                        r.memory_start = value;
                    } else if field.tag == 3 {
                        r.memory_limit = value;
                    } else if field.tag == 4 {
                        r.file_offset = value;
                    } else if field.tag == 5 {
                        r.filename = value as i64;
                    } else if field.tag == 6 {
                        r.build_id = value as i64;
                    } else if field.tag == 7 {
                        r.has_functions = value != 0;
                    } else if field.tag == 8 {
                        r.has_filenames = value != 0;
                    } else if field.tag == 9 {
                        r.has_line_numbers = value != 0;
                    } else {
                        r.has_inline_frames = value != 0;
                    }
                },
            }
        }
        Some(r)
    }
}

impl Mapping {
    /// The fields of the message; those that are zero are left out.
    pub open spec fn fields(self) -> Seq<FieldView> {
        varint_field(1, self.id)
            + varint_field(2, self.memory_start)
            + varint_field(3, self.memory_limit)
            + varint_field(4, self.file_offset)
            + varint_field(5, self.filename as u64)
            + varint_field(6, self.build_id as u64)
            + varint_field(7, flag(self.has_functions))
            + varint_field(8, flag(self.has_filenames))
            + varint_field(9, flag(self.has_line_numbers))
            + varint_field(10, flag(self.has_inline_frames))
    }

    /// Appends the message.
    pub fn encode(&self, out: &mut Vec<u8>)
        ensures
            final(out)@ == old(out)@ + fields_bytes(self.fields()),
    {
        let ghost start = out@;
        let ghost mut done: Seq<FieldView> = Seq::empty();
        assert(out@ =~= start + fields_bytes(done));
        put_varint_field(1, self.id, out);
        proof {
            let next = varint_field(1, self.id);
            lemma_append(start, done, next);
            done = done + next;
        }
        put_varint_field(2, self.memory_start, out);
        proof {
            let next = varint_field(2, self.memory_start);
            lemma_append(start, done, next);
            done = done + next;
        }
        put_varint_field(3, self.memory_limit, out);
        proof {
            let next = varint_field(3, self.memory_limit);
            lemma_append(start, done, next);
            done = done + next;
        }
        put_varint_field(4, self.file_offset, out);
        proof {
            let next = varint_field(4, self.file_offset);
            lemma_append(start, done, next);
            done = done + next;
        }
        put_varint_field(5, self.filename as u64, out);
        proof {
            let next = varint_field(5, self.filename as u64);
            lemma_append(start, done, next);
            done = done + next;
        }
        put_varint_field(6, self.build_id as u64, out);
        proof {
            let next = varint_field(6, self.build_id as u64);
            lemma_append(start, done, next);
            done = done + next;
        }
        put_varint_field(7, (if self.has_functions { 1 } else { 0 }), out);
        proof {
            let next = varint_field(7, flag(self.has_functions));
            lemma_append(start, done, next);
            done = done + next;
        }
        put_varint_field(8, (if self.has_filenames { 1 } else { 0 }), out);
        proof {
            let next = varint_field(8, flag(self.has_filenames));
            lemma_append(start, done, next);
            done = done + next;
        }
        put_varint_field(9, (if self.has_line_numbers { 1 } else { 0 }), out);
        proof {
            let next = varint_field(9, flag(self.has_line_numbers));
            lemma_append(start, done, next);
            done = done + next;
        }
        put_varint_field(10, (if self.has_inline_frames { 1 } else { 0 }), out);
        proof {
            let next = varint_field(10, flag(self.has_inline_frames));
            lemma_append(start, done, next);
            done = done + next;
        }
        assert(Seq::<FieldView>::empty() + varint_field(1, self.id) =~= varint_field(1, self.id));
        assert(done == self.fields());
    }
}

/// The fields of a [`Mapping`] say what it says, and can be written.
pub proof fn law_mapping_fields(m: Mapping)
    ensures
        merge_all(Mapping::blank(), m.fields()) == Some(m),
        all_writable(m.fields()),
{
    let s0 = Mapping::blank();
    let f0 = Seq::<FieldView>::empty();
    assert(merge_all(s0, f0) == Some(s0));
    let s1 = Mapping { id: m.id, ..s0 };
    let f1 = f0 + varint_field(1, m.id);
    lemma_merge_varint(s0, 1, m.id);
    lemma_merge_step(s0, f0, s0, varint_field(1, m.id), s1);
    let s2 = Mapping { memory_start: m.memory_start, ..s1 };
    let f2 = f1 + varint_field(2, m.memory_start);
    lemma_merge_varint(s1, 2, m.memory_start);
    lemma_merge_step(s0, f1, s1, varint_field(2, m.memory_start), s2);
    let s3 = Mapping { memory_limit: m.memory_limit, ..s2 };
    let f3 = f2 + varint_field(3, m.memory_limit);
    lemma_merge_varint(s2, 3, m.memory_limit);
    lemma_merge_step(s0, f2, s2, varint_field(3, m.memory_limit), s3);
    let s4 = Mapping { file_offset: m.file_offset, ..s3 };
    let f4 = f3 + varint_field(4, m.file_offset);
    lemma_merge_varint(s3, 4, m.file_offset);
    lemma_merge_step(s0, f3, s3, varint_field(4, m.file_offset), s4);
    lemma_signed(m.filename);
    let s5 = Mapping { filename: m.filename, ..s4 };
    let f5 = f4 + varint_field(5, m.filename as u64);
    lemma_merge_varint(s4, 5, m.filename as u64);
    lemma_merge_step(s0, f4, s4, varint_field(5, m.filename as u64), s5);
    lemma_signed(m.build_id);
    let s6 = Mapping { build_id: m.build_id, ..s5 };
    let f6 = f5 + varint_field(6, m.build_id as u64);
    lemma_merge_varint(s5, 6, m.build_id as u64);
    lemma_merge_step(s0, f5, s5, varint_field(6, m.build_id as u64), s6);
    let s7 = Mapping { has_functions: m.has_functions, ..s6 };
    let f7 = f6 + varint_field(7, flag(m.has_functions));
    lemma_merge_varint(s6, 7, flag(m.has_functions));
    lemma_merge_step(s0, f6, s6, varint_field(7, flag(m.has_functions)), s7);
    let s8 = Mapping { has_filenames: m.has_filenames, ..s7 };
    let f8 = f7 + varint_field(8, flag(m.has_filenames));
    lemma_merge_varint(s7, 8, flag(m.has_filenames));
    lemma_merge_step(s0, f7, s7, varint_field(8, flag(m.has_filenames)), s8);
    let s9 = Mapping { has_line_numbers: m.has_line_numbers, ..s8 };
    let f9 = f8 + varint_field(9, flag(m.has_line_numbers));
    lemma_merge_varint(s8, 9, flag(m.has_line_numbers));
    lemma_merge_step(s0, f8, s8, varint_field(9, flag(m.has_line_numbers)), s9);
    let s10 = Mapping { has_inline_frames: m.has_inline_frames, ..s9 };
    let f10 = f9 + varint_field(10, flag(m.has_inline_frames));
    lemma_merge_varint(s9, 10, flag(m.has_inline_frames));
    lemma_merge_step(s0, f9, s9, varint_field(10, flag(m.has_inline_frames)), s10);
    assert(f0 + varint_field(1, m.id) =~= varint_field(1, m.id));
    assert(f10 == m.fields());
    assert(s10 == m);
}

/// The two's complement reading of a list of integers.
pub open spec fn signed(values: Seq<u64>) -> Seq<i64> {
    Seq::new(values.len(), |i: int| values[i] as i64)
}

/// The two's complement writing of a list of integers.
pub open spec fn unsigned(values: Seq<i64>) -> Seq<u64> {
    Seq::new(values.len(), |i: int| values[i] as u64)
}

fn signed_list(values: &Vec<u64>) -> (r: Vec<i64>)
    ensures
        r@ == signed(values@),
{
    let mut out: Vec<i64> = Vec::new();
    let mut i: usize = 0;
    while i < values.len()
        invariant
            i <= values.len(),
            out@ =~= signed(values@.take(i as int)),
        decreases values.len() - i,
    {
        out.push(values[i] as i64);
        i = i + 1;
    }
    assert(values@.take(i as int) =~= values@);
    out
}

fn unsigned_list(values: &Vec<i64>) -> (r: Vec<u64>)
    ensures
        r@ == unsigned(values@),
{
    let mut out: Vec<u64> = Vec::new();
    let mut i: usize = 0;
    while i < values.len()
        invariant
            i <= values.len(),
            out@ =~= unsigned(values@.take(i as int)),
        decreases values.len() - i,
    {
        out.push(values[i] as u64);
        i = i + 1;
    }
    assert(values@.take(i as int) =~= values@);
    out
}

proof fn lemma_signed_list(values: Seq<i64>)
    ensures
        signed(unsigned(values)) == values,
{
    assert forall|i: int| 0 <= i < values.len() implies signed(unsigned(values))[i]
        == #[trigger] values[i] by {
        lemma_signed(values[i]);
    }
    assert(signed(unsigned(values)) =~= values);
}

/// The message that a field holds, on top of `start`.
pub open spec fn nested<M: Message>(start: M, value: ValueView, depth: nat) -> Option<M> {
    match bytes_of(value) {
        Some(bytes) => decoded(start, bytes, depth),
        None => None,
    }
}

fn nested_in<T: Decode>(start: T, value: FieldValue<'_>, depth: u32) -> (r: Option<T>) where
    T::V: Message,

    ensures
        match r {
            Some(message) => nested(start@, value@, depth as nat) == Some(message@),
            None => nested(start@, value@, depth as nat) is None,
        },
{
    match value {
        FieldValue::Bytes(bytes) => decode_onto(start, bytes, depth),
        _ => None,
    }
}

/// A field that comes once for each of `bodies`.
pub open spec fn repeated(tag: nat, bodies: Seq<Seq<u8>>) -> Seq<FieldView> {
    Seq::new(bodies.len(), |i: int| (tag, ValueView::Bytes(bodies[i])))
}

/// A message that was written is read back from its bytes.
proof fn lemma_nested_reads_back<M: Message>(fields: Seq<FieldView>, message: M, depth: nat)
    requires
        all_writable(fields),
        merge_all(M::blank(), fields) == Some(message),
    ensures
        decoded(M::blank(), fields_bytes(fields), depth) == Some(message),
{
    law_fields_read_back(fields, depth);
}

/// Fields that take a message from state to state.
proof fn lemma_merge_states<M: Message>(fields: Seq<FieldView>, states: spec_fn(int) -> M, n: int)
    requires
        0 <= n <= fields.len(),
        forall|i: int|
            0 <= i < fields.len() ==> #[trigger] states(i).merged(fields[i]) == Some(states(i + 1)),
    ensures
        merge_all(states(0), fields.take(n)) == Some(states(n)),
    decreases n,
{
    if n > 0 {
        lemma_merge_states(fields, states, n - 1);
        assert(fields.take(n).drop_last() =~= fields.take(n - 1));
        assert(states(n - 1).merged(fields[n - 1]) == Some(states(n - 1 + 1)));
    } else {
        assert(fields.take(0) =~= Seq::empty());
    }
}

proof fn lemma_append_one(start: Seq<u8>, done: Seq<FieldView>, all: Seq<FieldView>, i: int)
    requires
        0 <= i < all.len(),
        all[i].1 is Bytes,
    ensures
        start + fields_bytes(done + all.take(i)) + fields_bytes(
            bytes_field(all[i].0, all[i].1->Bytes_0),
        ) == start + fields_bytes(done + all.take(i + 1)),
{
    let one = bytes_field(all[i].0, all[i].1->Bytes_0);
    lemma_append(start, done + all.take(i), one);
    assert(done + all.take(i) + one =~= done + all.take(i + 1));
}

/// A sample: locations from the leaf to the root, and values.
#[derive(Debug, PartialEq, Eq)]
pub struct Sample {
    pub location_id: Vec<u64>,
    pub value: Vec<i64>,
    pub label: Vec<Label>,
}

/// What a [`Sample`] says.
#[verifier::ext_equal]
pub struct SampleView {
    pub location_id: Seq<u64>,
    pub value: Seq<i64>,
    pub label: Seq<Label>,
}

impl View for Sample {
    type V = SampleView;

    open spec fn view(&self) -> SampleView {
        SampleView {
            location_id: self.location_id@,
            value: self.value@,
            label: self.label@,
        }
    }
}

impl Message for SampleView {
    open spec fn blank() -> Self {
        SampleView { location_id: Seq::empty(), value: Seq::empty(), label: Seq::empty() }
    }

    open spec fn merged(self, field: FieldView) -> Option<Self> {
        if field.0 == 1 {
            match varints_of(field.1) {
                Some(values) => Some(
                    SampleView { location_id: self.location_id + values, ..self },
                ),
                None => None,
            }
        } else if field.0 == 2 {
            match varints_of(field.1) {
                Some(values) => Some(SampleView { value: self.value + signed(values), ..self }),
                None => None,
            }
        } else if field.0 == 3 {
            match nested(Label::blank(), field.1, 98) {
                Some(label) => Some(SampleView { label: self.label.push(label), ..self }),
                None => None,
            }
        } else {
            Some(self)
        }
    }
}

impl Default for Sample {
    fn default() -> (r: Self)
        ensures
            r@ == SampleView::blank(),
    {
        let r = Sample { location_id: Vec::new(), value: Vec::new(), label: Vec::new() };
        assert(r@ =~= SampleView::blank());
        r
    }
}

impl Decode for Sample {
    fn empty() -> (r: Self) {
        Sample::default()
    }

    fn merge(self, field: Field<'_>) -> (r: Option<Self>) {
        let mut r = self;
        if field.tag == 1 {
            match varints_in(field.value) {
                None => {
                    return None;
                },
                Some(mut values) => {
                    r.location_id.append(&mut values);
                },
            }
        } else if field.tag == 2 {
            match varints_in(field.value) {
                None => {
                    return None;
                },
                Some(values) => {
                    let mut more = signed_list(&values);
                    r.value.append(&mut more);
                },
            }
        } else if field.tag == 3 {
            match nested_in(Label::default(), field.value, 98) {
                None => {
                    return None;
                },
                Some(label) => {
                    r.label.push(label);
                },
            }
        }
        Some(r)
    }
}

/// The bytes of each label.
pub open spec fn label_bodies(labels: Seq<Label>) -> Seq<Seq<u8>> {
    Seq::new(labels.len(), |i: int| fields_bytes(labels[i].fields()))
}

impl SampleView {
    /// The fields of the message.
    pub open spec fn fields(self) -> Seq<FieldView> {
        packed_field(1, self.location_id) + packed_field(2, unsigned(self.value)) + repeated(
            3,
            label_bodies(self.label),
        )
    }
}

impl Sample {
    /// Appends the message.
    pub fn encode(&self, out: &mut Vec<u8>)
        ensures
            final(out)@ == old(out)@ + fields_bytes(self@.fields()),
    {
        let ghost start = out@;
        let ghost f1 = packed_field(1, self@.location_id);
        let ghost f2 = packed_field(2, unsigned(self@.value));
        let ghost f3 = repeated(3, label_bodies(self@.label));
        put_packed_field(1, &self.location_id, out);
        let values = unsigned_list(&self.value);
        put_packed_field(2, &values, out);
        proof {
            lemma_append(start, f1, f2);
            assert(f1 + f2 + f3.take(0) =~= f1 + f2);
        }
        let mut i: usize = 0;
        while i < self.label.len()
            invariant
                i <= self.label.len(),
                f3 == repeated(3, label_bodies(self@.label)),
                out@ == start + fields_bytes(f1 + f2 + f3.take(i as int)),
            decreases self.label.len() - i,
        {
            let mut body: Vec<u8> = Vec::new();
            self.label[i].encode(&mut body);
            assert(body@ =~= fields_bytes(self@.label[i as int].fields()));
            put_bytes_field(3, body.as_slice(), out);
            proof {
                lemma_append_one(start, f1 + f2, f3, i as int);
            }
            i = i + 1;
        }
        assert(f3.take(i as int) =~= f3);
    }
}

/// The fields of a sample say what it says.
pub proof fn law_sample_fields(m: SampleView)
    requires
        all_writable(m.fields()),
    ensures
        merge_all(SampleView::blank(), m.fields()) == Some(m),
{
    let s0 = SampleView::blank();
    let f1 = packed_field(1, m.location_id);
    let f2 = packed_field(2, unsigned(m.value));
    let f3 = repeated(3, label_bodies(m.label));
    let s1 = SampleView { location_id: m.location_id, ..s0 };
    let s2 = SampleView { value: m.value, ..s1 };
    law_varints_read_back(m.location_id);
    law_varints_read_back(unsigned(m.value));
    lemma_signed_list(m.value);
    if m.location_id.len() > 0 {
        lemma_merge_one(s0, f1[0]);
        assert(s0.location_id + m.location_id =~= m.location_id);
    } else {
        assert(s0.location_id =~= m.location_id);
    }
    assert(merge_all(s0, f1) == Some(s1));
    if m.value.len() > 0 {
        lemma_merge_one(s1, f2[0]);
        assert(s1.value + m.value =~= m.value);
    } else {
        assert(s1.value =~= m.value);
    }
    assert(merge_all(s1, f2) == Some(s2));
    lemma_merge_concat(s0, f1, f2);
    let states = |i: int| SampleView { label: m.label.take(i), ..s2 };
    assert forall|i: int| 0 <= i < f3.len() implies #[trigger] states(i).merged(f3[i]) == Some(
        states(i + 1),
    ) by {
        law_label_fields(m.label[i]);
        lemma_nested_reads_back(m.label[i].fields(), m.label[i], 98);
        assert(m.label.take(i).push(m.label[i]) =~= m.label.take(i + 1));
    }
    lemma_merge_states(f3, states, f3.len() as int);
    assert(f3.take(f3.len() as int) =~= f3);
    assert(m.label.take(0) =~= s2.label);
    assert(m.label.take(m.label.len() as int) =~= m.label);
    lemma_merge_concat(s0, f1 + f2, f3);
}

/// A location: an address in a mapping, and its source lines, the innermost
/// inlined one first.
#[derive(Debug, PartialEq, Eq)]
pub struct Location {
    pub id: u64,
    pub mapping_id: u64,
    pub address: u64,
    pub line: Vec<Line>,
    pub is_folded: bool,
}

/// What a [`Location`] says.
#[verifier::ext_equal]
pub struct LocationView {
    pub id: u64,
    pub mapping_id: u64,
    pub address: u64,
    pub line: Seq<Line>,
    pub is_folded: bool,
}

impl View for Location {
    type V = LocationView;

    open spec fn view(&self) -> LocationView {
        LocationView {
            id: self.id,
            mapping_id: self.mapping_id,
            address: self.address,
            line: self.line@,
            is_folded: self.is_folded,
        }
    }
}

impl Message for LocationView {
    open spec fn blank() -> Self {
        LocationView { id: 0, mapping_id: 0, address: 0, line: Seq::empty(), is_folded: false }
    }

    open spec fn merged(self, field: FieldView) -> Option<Self> {
        if field.0 == 1 || field.0 == 2 || field.0 == 3 || field.0 == 5 {
            match varint_of(field.1) {
                None => None,
                Some(value) => Some(
                    if field.0 == 1 {
                        LocationView { id: value, ..self }
                    } else if field.0 == 2 {
                        LocationView { mapping_id: value, ..self }
                    } else if field.0 == 3 {
                        LocationView { address: value, ..self }
                    } else {
                        LocationView { is_folded: value != 0, ..self }
                    },
                ),
            }
        } else if field.0 == 4 {
            match nested(Line::blank(), field.1, 98) {
                Some(line) => Some(LocationView { line: self.line.push(line), ..self }),
                None => None,
            }
        } else {
            Some(self)
        }
    }
}

impl Default for Location {
    fn default() -> (r: Self)
        ensures
            r@ == LocationView::blank(),
    {
        let r = Location { id: 0, mapping_id: 0, address: 0, line: Vec::new(), is_folded: false };
        assert(r@ =~= LocationView::blank());
        r
    }
}

impl Decode for Location {
    fn empty() -> (r: Self) {
        Location::default()
    }

    fn merge(self, field: Field<'_>) -> (r: Option<Self>) {
        let mut r = self;
        if field.tag == 1 || field.tag == 2 || field.tag == 3 || field.tag == 5 {
            match varint_in(field.value) {
                None => {
                    return None;
                },
                Some(value) => {
                    if field.tag == 1 {
                        r.id = value;
                    } else if field.tag == 2 {
                        r.mapping_id = value;
                    } else if field.tag == 3 {
                        r.address = value;
                    } else {
                        r.is_folded = value != 0;
                    }
                },
            }
        } else if field.tag == 4 {
            match nested_in(Line::default(), field.value, 98) {
                None => {
                    return None;
                },
                Some(line) => {
                    r.line.push(line);
                },
            }
        }
        Some(r)
    }
}

/// The bytes of each line.
pub open spec fn line_bodies(lines: Seq<Line>) -> Seq<Seq<u8>> {
    Seq::new(lines.len(), |i: int| fields_bytes(lines[i].fields()))
}

impl LocationView {
    /// The fields of the message.
    pub open spec fn fields(self) -> Seq<FieldView> {
        varint_field(1, self.id) + varint_field(2, self.mapping_id) + varint_field(3, self.address)
            + repeated(4, line_bodies(self.line)) + varint_field(5, flag(self.is_folded))
    }
}

impl Location {
    /// Appends the message.
    pub fn encode(&self, out: &mut Vec<u8>)
        ensures
            final(out)@ == old(out)@ + fields_bytes(self@.fields()),
    {
        let ghost start = out@;
        let ghost f1 = varint_field(1, self.id);
        let ghost f2 = varint_field(2, self.mapping_id);
        let ghost f3 = varint_field(3, self.address);
        let ghost f4 = repeated(4, line_bodies(self@.line));
        let ghost f5 = varint_field(5, flag(self.is_folded));
        put_varint_field(1, self.id, out);
        put_varint_field(2, self.mapping_id, out);
        put_varint_field(3, self.address, out);
        proof {
            lemma_append(start, f1, f2);
            lemma_append(start, f1 + f2, f3);
            assert(f1 + f2 + f3 + f4.take(0) =~= f1 + f2 + f3);
        }
        let mut i: usize = 0;
        while i < self.line.len()
            invariant
                i <= self.line.len(),
                f4 == repeated(4, line_bodies(self@.line)),
                out@ == start + fields_bytes(f1 + f2 + f3 + f4.take(i as int)),
            decreases self.line.len() - i,
        {
            let mut body: Vec<u8> = Vec::new();
            self.line[i].encode(&mut body);
            assert(body@ =~= fields_bytes(self@.line[i as int].fields()));
            put_bytes_field(4, body.as_slice(), out);
            proof {
                lemma_append_one(start, f1 + f2 + f3, f4, i as int);
            }
            i = i + 1;
        }
        assert(f4.take(i as int) =~= f4);
        put_varint_field(5, (if self.is_folded { 1 } else { 0 }), out);
        proof {
            lemma_append(start, f1 + f2 + f3 + f4, f5);
        }
    }
}

/// The fields of a location say what it says.
pub proof fn law_location_fields(m: LocationView)
    requires
        all_writable(m.fields()),
    ensures
        merge_all(LocationView::blank(), m.fields()) == Some(m),
{
    let s0 = LocationView::blank();
    let f1 = varint_field(1, m.id);
    let f2 = varint_field(2, m.mapping_id);
    let f3 = varint_field(3, m.address);
    let f4 = repeated(4, line_bodies(m.line));
    let f5 = varint_field(5, flag(m.is_folded));
    let s1 = LocationView { id: m.id, ..s0 };
    let s2 = LocationView { mapping_id: m.mapping_id, ..s1 };
    let s3 = LocationView { address: m.address, ..s2 };
    let s4 = LocationView { line: m.line, ..s3 };
    lemma_merge_varint(s0, 1, m.id);
    lemma_merge_varint(s1, 2, m.mapping_id);
    lemma_merge_varint(s2, 3, m.address);
    lemma_merge_varint(s4, 5, flag(m.is_folded));
    lemma_merge_concat(s0, f1, f2);
    lemma_merge_concat(s0, f1 + f2, f3);
    assert(merge_all(s0, f1 + f2 + f3) == Some(s3));
    let states = |i: int| LocationView { line: m.line.take(i), ..s3 };
    assert forall|i: int| 0 <= i < f4.len() implies #[trigger] states(i).merged(f4[i]) == Some(
        states(i + 1),
    ) by {
        law_line_fields(m.line[i]);
        lemma_nested_reads_back(m.line[i].fields(), m.line[i], 98);
        assert(m.line.take(i).push(m.line[i]) =~= m.line.take(i + 1));
    }
    lemma_merge_states(f4, states, f4.len() as int);
    assert(f4.take(f4.len() as int) =~= f4);
    assert(m.line.take(0) =~= s3.line);
    assert(m.line.take(m.line.len() as int) =~= m.line);
    lemma_merge_concat(s0, f1 + f2 + f3, f4);
    lemma_merge_concat(s0, f1 + f2 + f3 + f4, f5);
}

/// A profile as it stands on the wire.
#[derive(Debug, PartialEq, Eq)]
pub struct Profile {
    pub sample_type: Vec<ValueType>,
    pub sample: Vec<Sample>,
    pub mapping: Vec<Mapping>,
    pub location: Vec<Location>,
    pub function: Vec<Function>,
    pub string_table: Vec<String>,
    pub drop_frames: i64,
    pub keep_frames: i64,
    pub time_nanos: i64,
    pub duration_nanos: i64,
    pub period_type: Option<ValueType>,
    pub period: i64,
    pub comment: Vec<i64>,
    pub default_sample_type: i64,
    pub doc_url: i64,
}

/// What a [`Profile`] says.
#[verifier::ext_equal]
pub struct ProfileView {
    pub sample_type: Seq<ValueType>,
    pub sample: Seq<SampleView>,
    pub mapping: Seq<Mapping>,
    pub location: Seq<LocationView>,
    pub function: Seq<Function>,
    pub string_table: Seq<Seq<char>>,
    pub drop_frames: i64,
    pub keep_frames: i64,
    pub time_nanos: i64,
    pub duration_nanos: i64,
    pub period_type: Option<ValueType>,
    pub period: i64,
    pub comment: Seq<i64>,
    pub default_sample_type: i64,
    pub doc_url: i64,
}

impl View for Profile {
    type V = ProfileView;

    open spec fn view(&self) -> ProfileView {
        ProfileView {
            sample_type: self.sample_type@,
            sample: views(self.sample@),
            mapping: self.mapping@,
            location: views(self.location@),
            function: self.function@,
            string_table: views(self.string_table@),
            drop_frames: self.drop_frames,
            keep_frames: self.keep_frames,
            time_nanos: self.time_nanos,
            duration_nanos: self.duration_nanos,
            period_type: self.period_type,
            period: self.period,
            comment: self.comment@,
            default_sample_type: self.default_sample_type,
            doc_url: self.doc_url,
        }
    }
}

/// The text that a field holds.
pub open spec fn text_of(value: ValueView) -> Option<Seq<char>> {
    match bytes_of(value) {
        Some(bytes) => if valid_utf8(bytes) {
            Some(decode_utf8(bytes))
        } else {
            None
        },
        None => None,
    }
}

fn text_in(value: FieldValue<'_>) -> (r: Option<String>)
    ensures
        match r {
            Some(text) => text_of(value@) == Some(text@),
            None => text_of(value@) is None,
        },
{
    match value {
        FieldValue::Bytes(bytes) => match utf8_text(bytes) {
            Ok(text) => Some(text.to_owned()),
            Err(_) => None,
        },
        _ => None,
    }
}

impl ProfileView {
    /// The message after a field that holds one integer.
    pub open spec fn with_integer(self, tag: nat, value: i64) -> Self {
        if tag == 7 {
            ProfileView { drop_frames: value, ..self }
        } else if tag == 8 {
            ProfileView { keep_frames: value, ..self }
        } else if tag == 9 {
            ProfileView { time_nanos: value, ..self }
        } else if tag == 10 {
            ProfileView { duration_nanos: value, ..self }
        } else if tag == 12 {
            ProfileView { period: value, ..self }
        } else if tag == 14 {
            ProfileView { default_sample_type: value, ..self }
        } else {
            ProfileView { doc_url: value, ..self }
        }
    }
}

impl Message for ProfileView {
    open spec fn blank() -> Self {
        ProfileView {
            sample_type: Seq::empty(),
            sample: Seq::empty(),
            mapping: Seq::empty(),
            location: Seq::empty(),
            function: Seq::empty(),
            string_table: Seq::empty(),
            drop_frames: 0,
            keep_frames: 0,
            time_nanos: 0,
            duration_nanos: 0,
            period_type: None,
            period: 0,
            comment: Seq::empty(),
            default_sample_type: 0,
            doc_url: 0,
        }
    }

    open spec fn merged(self, field: FieldView) -> Option<Self> {
        if field.0 == 1 {
            match nested(ValueType::blank(), field.1, 99) {
                Some(m) => Some(ProfileView { sample_type: self.sample_type.push(m), ..self }),
                None => None,
            }
        } else if field.0 == 2 {
            match nested(SampleView::blank(), field.1, 99) {
                Some(m) => Some(ProfileView { sample: self.sample.push(m), ..self }),
                None => None,
            }
        } else if field.0 == 3 {
            match nested(Mapping::blank(), field.1, 99) {
                Some(m) => Some(ProfileView { mapping: self.mapping.push(m), ..self }),
                None => None,
            }
        } else if field.0 == 4 {
            match nested(LocationView::blank(), field.1, 99) {
                Some(m) => Some(ProfileView { location: self.location.push(m), ..self }),
                None => None,
            }
        } else if field.0 == 5 {
            match nested(Function::blank(), field.1, 99) {
                Some(m) => Some(ProfileView { function: self.function.push(m), ..self }),
                None => None,
            }
        } else if field.0 == 6 {
            match text_of(field.1) {
                Some(text) => Some(
                    ProfileView { string_table: self.string_table.push(text), ..self },
                ),
                None => None,
            }
        } else if 7 <= field.0 <= 10 || field.0 == 12 || field.0 == 14 || field.0 == 15 {
            match varint_of(field.1) {
                Some(value) => Some(self.with_integer(field.0, value as i64)),
                None => None,
            }
        } else if field.0 == 11 {
            let start = match self.period_type {
                Some(m) => m,
                None => ValueType::blank(),
            };
            match nested(start, field.1, 99) {
                Some(m) => Some(ProfileView { period_type: Some(m), ..self }),
                None => None,
            }
        } else if field.0 == 13 {
            match varints_of(field.1) {
                Some(values) => Some(ProfileView { comment: self.comment + signed(values), ..self }),
                None => None,
            }
        } else {
            Some(self)
        }
    }
}

impl Default for Profile {
    fn default() -> (r: Self)
        ensures
            r@ == ProfileView::blank(),
    {
        let r = Profile {
            sample_type: Vec::new(),
            sample: Vec::new(),
            mapping: Vec::new(),
            location: Vec::new(),
            function: Vec::new(),
            string_table: Vec::new(),
            drop_frames: 0,
            keep_frames: 0,
            time_nanos: 0,
            duration_nanos: 0,
            period_type: None,
            period: 0,
            comment: Vec::new(),
            default_sample_type: 0,
            doc_url: 0,
        };
        assert(r@ =~= ProfileView::blank());
        r
    }
}

impl Profile {
    /// Takes one more field that holds a message or a text.
    fn merge_item(self, field: Field<'_>) -> (r: Option<Self>)
        requires
            1 <= field.tag <= 6,
        ensures
            match r {
                Some(message) => self@.merged(field@) == Some(message@),
                None => self@.merged(field@) is None,
            },
    {
        let mut r = self;
        let ghost before = r@;
        if field.tag == 1 {
            match nested_in(ValueType::default(), field.value, 99) {
                None => {
                    return None;
                },
                Some(m) => {
                    r.sample_type.push(m);
                },
            }
        } else if field.tag == 2 {
            match nested_in(Sample::default(), field.value, 99) {
                None => {
                    return None;
                },
                Some(m) => {
                    let ghost said = m@;
                    r.sample.push(m);
                    assert(r@.sample =~= before.sample.push(said));
                },
            }
        } else if field.tag == 3 {
            match nested_in(Mapping::default(), field.value, 99) {
                None => {
                    return None;
                },
                Some(m) => {
                    r.mapping.push(m);
                },
            }
        } else if field.tag == 4 {
            match nested_in(Location::default(), field.value, 99) {
                None => {
                    return None;
                },
                Some(m) => {
                    let ghost said = m@;
                    r.location.push(m);
                    assert(r@.location =~= before.location.push(said));
                },
            }
        } else if field.tag == 5 {
            match nested_in(Function::default(), field.value, 99) {
                None => {
                    return None;
                },
                Some(m) => {
                    r.function.push(m);
                },
            }
        } else {
            match text_in(field.value) {
                None => {
                    return None;
                },
                Some(text) => {
                    let ghost said = text@;
                    r.string_table.push(text);
                    assert(r@.string_table =~= before.string_table.push(said));
                },
            }
        }
        Some(r)
    }
}

impl Decode for Profile {
    fn empty() -> (r: Self) {
        Profile::default()
    }

    fn merge(self, field: Field<'_>) -> (r: Option<Self>) {
        let tag: u32 = field.tag;
        if 1 <= tag && tag <= 6 {
            return self.merge_item(field);
        }
        let mut r = self;
        if (7 <= tag && tag <= 10) || tag == 12 || tag == 14 || tag == 15 {
            match varint_in(field.value) {
                None => {
                    return None;
                },
                Some(value) => {
                    let value: i64 = value as i64;
                    if tag == 7 {
                        r.drop_frames = value;
                    } else if tag == 8 {
                        r.keep_frames = value;
                    } else if tag == 9 {
                        r.time_nanos = value;
                    } else if tag == 10 {
                        r.duration_nanos = value;
                    } else if tag == 12 {
                        r.period = value;
                    } else if tag == 14 {
                        r.default_sample_type = value;
                    } else {
                        r.doc_url = value;
                    }
                },
            }
        } else if tag == 11 {
            let start = match r.period_type {
                Some(m) => m,
                None => ValueType::default(),
            };
            match nested_in(start, field.value, 99) {
                None => {
                    return None;
                },
                Some(m) => {
                    r.period_type = Some(m);
                },
            }
        } else if tag == 13 {
            match varints_in(field.value) {
                None => {
                    return None;
                },
                Some(values) => {
                    let mut more = signed_list(&values);
                    r.comment.append(&mut more);
                },
            }
        }
        Some(r)
    }
}

/// The profile that bytes hold on the wire.
pub open spec fn read_message(bytes: Seq<u8>) -> Option<ProfileView> {
    decoded(ProfileView::blank(), bytes, DEPTH as nat)
}

impl Profile {
    /// Reads a message.
    pub fn decode(bytes: &[u8]) -> (r: Option<Self>)
        ensures
            match r {
                Some(message) => read_message(bytes@) == Some(message@),
                None => read_message(bytes@) is None,
            },
    {
        decode_onto(Profile::default(), bytes, DEPTH)
    }
}

/// The bytes of each value type.
pub open spec fn value_type_bodies(items: Seq<ValueType>) -> Seq<Seq<u8>> {
    Seq::new(items.len(), |i: int| fields_bytes(items[i].fields()))
}

/// The bytes of each sample.
pub open spec fn sample_bodies(items: Seq<SampleView>) -> Seq<Seq<u8>> {
    Seq::new(items.len(), |i: int| fields_bytes(items[i].fields()))
}

/// The bytes of each mapping.
pub open spec fn mapping_bodies(items: Seq<Mapping>) -> Seq<Seq<u8>> {
    Seq::new(items.len(), |i: int| fields_bytes(items[i].fields()))
}

/// The bytes of each location.
pub open spec fn location_bodies(items: Seq<LocationView>) -> Seq<Seq<u8>> {
    Seq::new(items.len(), |i: int| fields_bytes(items[i].fields()))
}

/// The bytes of each function.
pub open spec fn function_bodies(items: Seq<Function>) -> Seq<Seq<u8>> {
    Seq::new(items.len(), |i: int| fields_bytes(items[i].fields()))
}

/// The bytes of each string.
pub open spec fn string_bodies(items: Seq<Seq<char>>) -> Seq<Seq<u8>> {
    Seq::new(items.len(), |i: int| encode_utf8(items[i]))
}

/// A field for a message that may be missing.
pub open spec fn optional_field(tag: nat, item: Option<ValueType>) -> Seq<FieldView> {
    match item {
        Some(m) => bytes_field(tag, fields_bytes(m.fields())),
        None => Seq::empty(),
    }
}

impl ProfileView {
    /// The fields with what a profile lists.
    pub open spec fn list_fields(self) -> Seq<FieldView> {
        repeated(1, value_type_bodies(self.sample_type)) + repeated(2, sample_bodies(self.sample))
            + repeated(3, mapping_bodies(self.mapping)) + repeated(
            4,
            location_bodies(self.location),
        ) + repeated(5, function_bodies(self.function)) + repeated(
            6,
            string_bodies(self.string_table),
        )
    }

    /// The fields with what a profile says of itself.
    pub open spec fn own_fields(self) -> Seq<FieldView> {
        varint_field(7, self.drop_frames as u64) + varint_field(8, self.keep_frames as u64)
            + varint_field(9, self.time_nanos as u64) + varint_field(
            10,
            self.duration_nanos as u64,
        ) + optional_field(11, self.period_type) + varint_field(12, self.period as u64)
            + packed_field(13, unsigned(self.comment)) + varint_field(
            14,
            self.default_sample_type as u64,
        ) + varint_field(15, self.doc_url as u64)
    }

    /// The fields of the message.
    pub open spec fn fields(self) -> Seq<FieldView> {
        self.list_fields() + self.own_fields()
    }

    /// The bytes of the message.
    pub open spec fn bytes(self) -> Seq<u8> {
        fields_bytes(self.fields())
    }
}

/// What can be the body of a field.
pub trait Encode {
    /// The bytes.
    spec fn body(&self) -> Seq<u8>;

    /// Computes the bytes.
    fn to_body(&self) -> (r: Vec<u8>)
        ensures
            r@ == self.body(),
    ;
}

impl Encode for ValueType {
    open spec fn body(&self) -> Seq<u8> {
        fields_bytes(self.fields())
    }

    fn to_body(&self) -> (r: Vec<u8>) {
        let mut out: Vec<u8> = Vec::new();
        self.encode(&mut out);
        assert(out@ =~= self.body());
        out
    }
}

impl Encode for Sample {
    open spec fn body(&self) -> Seq<u8> {
        fields_bytes(self@.fields())
    }

    fn to_body(&self) -> (r: Vec<u8>) {
        let mut out: Vec<u8> = Vec::new();
        self.encode(&mut out);
        assert(out@ =~= self.body());
        out
    }
}

impl Encode for Mapping {
    open spec fn body(&self) -> Seq<u8> {
        fields_bytes(self.fields())
    }

    fn to_body(&self) -> (r: Vec<u8>) {
        let mut out: Vec<u8> = Vec::new();
        self.encode(&mut out);
        assert(out@ =~= self.body());
        out
    }
}

impl Encode for Location {
    open spec fn body(&self) -> Seq<u8> {
        fields_bytes(self@.fields())
    }

    fn to_body(&self) -> (r: Vec<u8>) {
        let mut out: Vec<u8> = Vec::new();
        self.encode(&mut out);
        assert(out@ =~= self.body());
        out
    }
}

impl Encode for Function {
    open spec fn body(&self) -> Seq<u8> {
        fields_bytes(self.fields())
    }

    fn to_body(&self) -> (r: Vec<u8>) {
        let mut out: Vec<u8> = Vec::new();
        self.encode(&mut out);
        assert(out@ =~= self.body());
        out
    }
}

impl Encode for String {
    open spec fn body(&self) -> Seq<u8> {
        encode_utf8(self@)
    }

    fn to_body(&self) -> (r: Vec<u8>) {
        self.clone().into_bytes()
    }
}

/// The bytes of each item.
pub open spec fn bodies<T: Encode>(items: Seq<T>) -> Seq<Seq<u8>> {
    Seq::new(items.len(), |i: int| items[i].body())
}

/// Appends a field for each item.
fn put_repeated<T: Encode>(tag: u32, items: &Vec<T>, out: &mut Vec<u8>)
    requires
        1 <= tag < 0x2000_0000,
    ensures
        final(out)@ == old(out)@ + fields_bytes(repeated(tag as nat, bodies(items@))),
{
    let ghost start = out@;
    let ghost all = repeated(tag as nat, bodies(items@));
    let ghost none = Seq::<FieldView>::empty();
    let mut i: usize = 0;
    assert(none + all.take(0) =~= none);
    assert(out@ =~= start + fields_bytes(none));
    while i < items.len()
        invariant
            i <= items.len(),
            1 <= tag < 0x2000_0000,
            none == Seq::<FieldView>::empty(),
            all == repeated(tag as nat, bodies(items@)),
            out@ == start + fields_bytes(none + all.take(i as int)),
        decreases items.len() - i,
    {
        let body = items[i].to_body();
        put_bytes_field(tag, body.as_slice(), out);
        proof {
            assert(all[i as int] == (tag as nat, ValueView::Bytes(body@)));
            lemma_append_one(start, none, all, i as int);
        }
        i = i + 1;
    }
    assert(none + all.take(i as int) =~= all);
}

impl Profile {
    /// Appends what the profile lists.
    fn encode_lists(&self, out: &mut Vec<u8>)
        ensures
            final(out)@ == old(out)@ + fields_bytes(self@.list_fields()),
    {
        let ghost start = out@;
        let ghost f1 = repeated(1, value_type_bodies(self@.sample_type));
        let ghost f2 = repeated(2, sample_bodies(self@.sample));
        let ghost f3 = repeated(3, mapping_bodies(self@.mapping));
        let ghost f4 = repeated(4, location_bodies(self@.location));
        let ghost f5 = repeated(5, function_bodies(self@.function));
        let ghost f6 = repeated(6, string_bodies(self@.string_table));
        assert(bodies(self.sample_type@) =~= value_type_bodies(self@.sample_type));
        assert(bodies(self.sample@) =~= sample_bodies(self@.sample));
        assert(bodies(self.mapping@) =~= mapping_bodies(self@.mapping));
        assert(bodies(self.location@) =~= location_bodies(self@.location));
        assert(bodies(self.function@) =~= function_bodies(self@.function));
        assert(bodies(self.string_table@) =~= string_bodies(self@.string_table));
        put_repeated(1, &self.sample_type, out);
        put_repeated(2, &self.sample, out);
        put_repeated(3, &self.mapping, out);
        put_repeated(4, &self.location, out);
        put_repeated(5, &self.function, out);
        put_repeated(6, &self.string_table, out);
        proof {
            lemma_append(start, f1, f2);
            lemma_append(start, f1 + f2, f3);
            lemma_append(start, f1 + f2 + f3, f4);
            lemma_append(start, f1 + f2 + f3 + f4, f5);
            lemma_append(start, f1 + f2 + f3 + f4 + f5, f6);
        }
    }

    /// Appends what the profile says of itself.
    fn encode_own(&self, out: &mut Vec<u8>)
        ensures
            final(out)@ == old(out)@ + fields_bytes(self@.own_fields()),
    {
        let ghost start = out@;
        let ghost f1 = varint_field(7, self.drop_frames as u64);
        let ghost f2 = varint_field(8, self.keep_frames as u64);
        let ghost f3 = varint_field(9, self.time_nanos as u64);
        let ghost f4 = varint_field(10, self.duration_nanos as u64);
        let ghost f5 = optional_field(11, self.period_type);
        let ghost f6 = varint_field(12, self.period as u64);
        let ghost f7 = packed_field(13, unsigned(self.comment@));
        let ghost f8 = varint_field(14, self.default_sample_type as u64);
        let ghost f9 = varint_field(15, self.doc_url as u64);
        put_varint_field(7, self.drop_frames as u64, out);
        put_varint_field(8, self.keep_frames as u64, out);
        put_varint_field(9, self.time_nanos as u64, out);
        put_varint_field(10, self.duration_nanos as u64, out);
        proof {
            lemma_append(start, f1, f2);
            lemma_append(start, f1 + f2, f3);
            lemma_append(start, f1 + f2 + f3, f4);
        }
        let ghost middle = out@;
        if let Some(m) = &self.period_type {
            let body = m.to_body();
            put_bytes_field(11, body.as_slice(), out);
        } else {
            assert(out@ =~= middle + fields_bytes(f5));
        }
        put_varint_field(12, self.period as u64, out);
        let comment = unsigned_list(&self.comment);
        put_packed_field(13, &comment, out);
        put_varint_field(14, self.default_sample_type as u64, out);
        put_varint_field(15, self.doc_url as u64, out);
        proof {
            lemma_append(start, f1 + f2 + f3 + f4, f5);
            lemma_append(start, f1 + f2 + f3 + f4 + f5, f6);
            lemma_append(start, f1 + f2 + f3 + f4 + f5 + f6, f7);
            lemma_append(start, f1 + f2 + f3 + f4 + f5 + f6 + f7, f8);
            lemma_append(start, f1 + f2 + f3 + f4 + f5 + f6 + f7 + f8, f9);
        }
    }

    /// Writes the message.
    pub fn encode_to_vec(&self) -> (r: Vec<u8>)
        ensures
            r@ == self@.bytes(),
    {
        let mut out: Vec<u8> = Vec::new();
        self.encode_lists(&mut out);
        self.encode_own(&mut out);
        proof {
            lemma_append(Seq::empty(), self@.list_fields(), self@.own_fields());
            assert(out@ =~= self@.bytes());
        }
        out
    }
}

impl ProfileView {
    /// Whether every run of bytes in the message has a length that can be
    /// written.
    pub open spec fn sized(self) -> bool {
        &&& all_writable(self.fields())
        &&& forall|i: int|
            0 <= i < self.sample.len() ==> all_writable((#[trigger] self.sample[i]).fields())
        &&& forall|i: int|
            0 <= i < self.location.len() ==> all_writable((#[trigger] self.location[i]).fields())
    }
}

proof fn lemma_list_fields(m: ProfileView)
    requires
        m.sized(),
    ensures
        merge_all(ProfileView::blank(), m.list_fields()) == Some(
            ProfileView {
                sample_type: m.sample_type,
                sample: m.sample,
                mapping: m.mapping,
                location: m.location,
                function: m.function,
                string_table: m.string_table,
                ..ProfileView::blank()
            },
        ),
{
    let s0 = ProfileView::blank();
    let f1 = repeated(1, value_type_bodies(m.sample_type));
    let f2 = repeated(2, sample_bodies(m.sample));
    let f3 = repeated(3, mapping_bodies(m.mapping));
    let f4 = repeated(4, location_bodies(m.location));
    let f5 = repeated(5, function_bodies(m.function));
    let f6 = repeated(6, string_bodies(m.string_table));
    let s1 = ProfileView { sample_type: m.sample_type, ..s0 };
    let s2 = ProfileView { sample: m.sample, ..s1 };
    let s3 = ProfileView { mapping: m.mapping, ..s2 };
    let s4 = ProfileView { location: m.location, ..s3 };
    let s5 = ProfileView { function: m.function, ..s4 };
    let s6 = ProfileView { string_table: m.string_table, ..s5 };
    assert(merge_all(s0, f1) == Some(s1)) by {
        let states = |i: int| ProfileView { sample_type: m.sample_type.take(i), ..s0 };
        assert forall|i: int| 0 <= i < f1.len() implies #[trigger] states(i).merged(f1[i])
            == Some(states(i + 1)) by {
            law_value_type_fields(m.sample_type[i]);
            lemma_nested_reads_back(m.sample_type[i].fields(), m.sample_type[i], 99);
            assert(m.sample_type.take(i).push(m.sample_type[i]) =~= m.sample_type.take(i + 1));
        }
        lemma_merge_states(f1, states, f1.len() as int);
        assert(f1.take(f1.len() as int) =~= f1);
        assert(m.sample_type.take(0) =~= s0.sample_type);
        assert(m.sample_type.take(m.sample_type.len() as int) =~= m.sample_type);
    }
    assert(merge_all(s1, f2) == Some(s2)) by {
        let states = |i: int| ProfileView { sample: m.sample.take(i), ..s1 };
        assert forall|i: int| 0 <= i < f2.len() implies #[trigger] states(i).merged(f2[i])
            == Some(states(i + 1)) by {
            law_sample_fields(m.sample[i]);
            lemma_nested_reads_back(m.sample[i].fields(), m.sample[i], 99);
            assert(m.sample.take(i).push(m.sample[i]) =~= m.sample.take(i + 1));
        }
        lemma_merge_states(f2, states, f2.len() as int);
        assert(f2.take(f2.len() as int) =~= f2);
        assert(m.sample.take(0) =~= s1.sample);
        assert(m.sample.take(m.sample.len() as int) =~= m.sample);
    }
    assert(merge_all(s2, f3) == Some(s3)) by {
        let states = |i: int| ProfileView { mapping: m.mapping.take(i), ..s2 };
        assert forall|i: int| 0 <= i < f3.len() implies #[trigger] states(i).merged(f3[i])
            == Some(states(i + 1)) by {
            law_mapping_fields(m.mapping[i]);
            lemma_nested_reads_back(m.mapping[i].fields(), m.mapping[i], 99);
            assert(m.mapping.take(i).push(m.mapping[i]) =~= m.mapping.take(i + 1));
        }
        lemma_merge_states(f3, states, f3.len() as int);
        assert(f3.take(f3.len() as int) =~= f3);
        assert(m.mapping.take(0) =~= s2.mapping);
        assert(m.mapping.take(m.mapping.len() as int) =~= m.mapping);
    }
    assert(merge_all(s3, f4) == Some(s4)) by {
        let states = |i: int| ProfileView { location: m.location.take(i), ..s3 };
        assert forall|i: int| 0 <= i < f4.len() implies #[trigger] states(i).merged(f4[i])
            == Some(states(i + 1)) by {
            law_location_fields(m.location[i]);
            lemma_nested_reads_back(m.location[i].fields(), m.location[i], 99);
            assert(m.location.take(i).push(m.location[i]) =~= m.location.take(i + 1));
        }
        lemma_merge_states(f4, states, f4.len() as int);
        assert(f4.take(f4.len() as int) =~= f4);
        assert(m.location.take(0) =~= s3.location);
        assert(m.location.take(m.location.len() as int) =~= m.location);
    }
    assert(merge_all(s4, f5) == Some(s5)) by {
        let states = |i: int| ProfileView { function: m.function.take(i), ..s4 };
        assert forall|i: int| 0 <= i < f5.len() implies #[trigger] states(i).merged(f5[i])
            == Some(states(i + 1)) by {
            law_function_fields(m.function[i]);
            lemma_nested_reads_back(m.function[i].fields(), m.function[i], 99);
            assert(m.function.take(i).push(m.function[i]) =~= m.function.take(i + 1));
        }
        lemma_merge_states(f5, states, f5.len() as int);
        assert(f5.take(f5.len() as int) =~= f5);
        assert(m.function.take(0) =~= s4.function);
        assert(m.function.take(m.function.len() as int) =~= m.function);
    }
    assert(merge_all(s5, f6) == Some(s6)) by {
        let states = |i: int| ProfileView { string_table: m.string_table.take(i), ..s5 };
        assert forall|i: int| 0 <= i < f6.len() implies #[trigger] states(i).merged(f6[i])
            == Some(states(i + 1)) by {
            encode_utf8_valid_utf8(m.string_table[i]);
            encode_utf8_decode_utf8(m.string_table[i]);
            assert(m.string_table.take(i).push(m.string_table[i]) =~= m.string_table.take(i + 1));
        }
        lemma_merge_states(f6, states, f6.len() as int);
        assert(f6.take(f6.len() as int) =~= f6);
        assert(m.string_table.take(0) =~= s5.string_table);
        assert(m.string_table.take(m.string_table.len() as int) =~= m.string_table);
    }
    lemma_merge_concat(s0, f1, f2);
    lemma_merge_concat(s0, f1 + f2, f3);
    lemma_merge_concat(s0, f1 + f2 + f3, f4);
    lemma_merge_concat(s0, f1 + f2 + f3 + f4, f5);
    lemma_merge_concat(s0, f1 + f2 + f3 + f4 + f5, f6);
}

proof fn lemma_own_fields(s0: ProfileView, m: ProfileView)
    requires
        s0.drop_frames == 0,
        s0.keep_frames == 0,
        s0.time_nanos == 0,
        s0.duration_nanos == 0,
        s0.period_type is None,
        s0.period == 0,
        s0.comment == Seq::<i64>::empty(),
        s0.default_sample_type == 0,
        s0.doc_url == 0,
    ensures
        merge_all(s0, m.own_fields()) == Some(
            ProfileView {
                drop_frames: m.drop_frames,
                keep_frames: m.keep_frames,
                time_nanos: m.time_nanos,
                duration_nanos: m.duration_nanos,
                period_type: m.period_type,
                period: m.period,
                comment: m.comment,
                default_sample_type: m.default_sample_type,
                doc_url: m.doc_url,
                ..s0
            },
        ),
{
    let f1 = varint_field(7, m.drop_frames as u64);
    let f2 = varint_field(8, m.keep_frames as u64);
    let f3 = varint_field(9, m.time_nanos as u64);
    let f4 = varint_field(10, m.duration_nanos as u64);
    let f5 = optional_field(11, m.period_type);
    let f6 = varint_field(12, m.period as u64);
    let f7 = packed_field(13, unsigned(m.comment));
    let f8 = varint_field(14, m.default_sample_type as u64);
    let f9 = varint_field(15, m.doc_url as u64);
    let s1 = ProfileView { drop_frames: m.drop_frames, ..s0 };
    let s2 = ProfileView { keep_frames: m.keep_frames, ..s1 };
    let s3 = ProfileView { time_nanos: m.time_nanos, ..s2 };
    let s4 = ProfileView { duration_nanos: m.duration_nanos, ..s3 };
    let s5 = ProfileView { period_type: m.period_type, ..s4 };
    let s6 = ProfileView { period: m.period, ..s5 };
    let s7 = ProfileView { comment: m.comment, ..s6 };
    let s8 = ProfileView { default_sample_type: m.default_sample_type, ..s7 };
    let s9 = ProfileView { doc_url: m.doc_url, ..s8 };
    lemma_signed(m.drop_frames);
    lemma_signed(m.keep_frames);
    lemma_signed(m.time_nanos);
    lemma_signed(m.duration_nanos);
    lemma_signed(m.period);
    lemma_signed(m.default_sample_type);
    lemma_signed(m.doc_url);
    lemma_merge_varint(s0, 7, m.drop_frames as u64);
    assert(merge_all(s0, f1) == Some(s1));
    lemma_merge_varint(s1, 8, m.keep_frames as u64);
    assert(merge_all(s1, f2) == Some(s2));
    lemma_merge_varint(s2, 9, m.time_nanos as u64);
    assert(merge_all(s2, f3) == Some(s3));
    lemma_merge_varint(s3, 10, m.duration_nanos as u64);
    assert(merge_all(s3, f4) == Some(s4));
    assert(merge_all(s4, f5) == Some(s5)) by {
        if let Some(v) = m.period_type {
            law_value_type_fields(v);
            lemma_nested_reads_back(v.fields(), v, 99);
            lemma_merge_one(s4, f5[0]);
        }
    }
    lemma_merge_varint(s5, 12, m.period as u64);
    assert(merge_all(s5, f6) == Some(s6));
    assert(merge_all(s6, f7) == Some(s7)) by {
        law_varints_read_back(unsigned(m.comment));
        lemma_signed_list(m.comment);
        if m.comment.len() > 0 {
            lemma_merge_one(s6, f7[0]);
            assert(s6.comment + m.comment =~= m.comment);
        } else {
            assert(s6.comment =~= m.comment);
        }
    }
    lemma_merge_varint(s7, 14, m.default_sample_type as u64);
    assert(merge_all(s7, f8) == Some(s8));
    lemma_merge_varint(s8, 15, m.doc_url as u64);
    assert(merge_all(s8, f9) == Some(s9));
    lemma_merge_concat(s0, f1, f2);
    lemma_merge_concat(s0, f1 + f2, f3);
    lemma_merge_concat(s0, f1 + f2 + f3, f4);
    lemma_merge_concat(s0, f1 + f2 + f3 + f4, f5);
    lemma_merge_concat(s0, f1 + f2 + f3 + f4 + f5, f6);
    lemma_merge_concat(s0, f1 + f2 + f3 + f4 + f5 + f6, f7);
    lemma_merge_concat(s0, f1 + f2 + f3 + f4 + f5 + f6 + f7, f8);
    lemma_merge_concat(s0, f1 + f2 + f3 + f4 + f5 + f6 + f7 + f8, f9);
}

proof fn lemma_message_reads_back(m: ProfileView)
    requires
        m.sized(),
    ensures
        read_message(m.bytes()) == Some(m),
{
    let s0 = ProfileView::blank();
    lemma_list_fields(m);
    let s1 = merge_all(s0, m.list_fields())->0;
    lemma_own_fields(s1, m);
    lemma_merge_concat(s0, m.list_fields(), m.own_fields());
    law_fields_read_back(m.fields(), DEPTH as nat);
    assert(merge_all(s0, m.fields())->0 =~= m);
}

/// Every run of bytes in a list of fields is shorter than the whole.
proof fn lemma_field_is_shorter(fields: Seq<FieldView>, i: int)
    requires
        0 <= i < fields.len(),
        fields[i].1 is Bytes,
    ensures
        fields[i].1->Bytes_0.len() <= fields_bytes(fields).len(),
    decreases fields.len(),
{
    if i < fields.len() - 1 {
        lemma_field_is_shorter(fields.drop_last(), i);
    }
}

/// A list of numbered integers and runs of bytes whose bytes are few enough
/// can be written.
proof fn lemma_short_is_writable(fields: Seq<FieldView>)
    requires
        fields_bytes(fields).len() <= u64::MAX,
        forall|i: int|
            0 <= i < fields.len() ==> 1 <= (#[trigger] fields[i]).0 < 0x2000_0000 && (
            fields[i].1 is Bytes || fields[i].1 is Varint),
    ensures
        all_writable(fields),
{
    assert forall|i: int| 0 <= i < fields.len() implies writable(#[trigger] fields[i]) by {
        if fields[i].1 is Bytes {
            lemma_field_is_shorter(fields, i);
        }
    }
}

spec fn plain(fields: Seq<FieldView>) -> bool {
    forall|i: int|
        0 <= i < fields.len() ==> 1 <= (#[trigger] fields[i]).0 < 0x2000_0000 && (
        fields[i].1 is Bytes || fields[i].1 is Varint)
}

proof fn lemma_plain_concat(a: Seq<FieldView>, b: Seq<FieldView>)
    requires
        plain(a),
        plain(b),
    ensures
        plain(a + b),
{
    assert forall|i: int| 0 <= i < (a + b).len() implies 1 <= (#[trigger] (a + b)[i]).0
        < 0x2000_0000 && ((a + b)[i].1 is Bytes || (a + b)[i].1 is Varint) by {
        if i < a.len() {
            assert((a + b)[i] == a[i]);
        } else {
            assert((a + b)[i] == b[i - a.len()]);
        }
    }
}

proof fn lemma_plain_list(m: ProfileView)
    ensures
        plain(m.list_fields()),
{
    let f1 = repeated(1, value_type_bodies(m.sample_type));
    let f2 = repeated(2, sample_bodies(m.sample));
    let f3 = repeated(3, mapping_bodies(m.mapping));
    let f4 = repeated(4, location_bodies(m.location));
    let f5 = repeated(5, function_bodies(m.function));
    let f6 = repeated(6, string_bodies(m.string_table));
    lemma_plain_concat(f1, f2);
    lemma_plain_concat(f1 + f2, f3);
    lemma_plain_concat(f1 + f2 + f3, f4);
    lemma_plain_concat(f1 + f2 + f3 + f4, f5);
    lemma_plain_concat(f1 + f2 + f3 + f4 + f5, f6);
}

proof fn lemma_plain_own(m: ProfileView)
    ensures
        plain(m.own_fields()),
{
    let f1 = varint_field(7, m.drop_frames as u64);
    let f2 = varint_field(8, m.keep_frames as u64);
    let f3 = varint_field(9, m.time_nanos as u64);
    let f4 = varint_field(10, m.duration_nanos as u64);
    let f5 = optional_field(11, m.period_type);
    let f6 = varint_field(12, m.period as u64);
    let f7 = packed_field(13, unsigned(m.comment));
    let f8 = varint_field(14, m.default_sample_type as u64);
    let f9 = varint_field(15, m.doc_url as u64);
    lemma_plain_concat(f1, f2);
    lemma_plain_concat(f1 + f2, f3);
    lemma_plain_concat(f1 + f2 + f3, f4);
    lemma_plain_concat(f1 + f2 + f3 + f4, f5);
    lemma_plain_concat(f1 + f2 + f3 + f4 + f5, f6);
    lemma_plain_concat(f1 + f2 + f3 + f4 + f5 + f6, f7);
    lemma_plain_concat(f1 + f2 + f3 + f4 + f5 + f6 + f7, f8);
    lemma_plain_concat(f1 + f2 + f3 + f4 + f5 + f6 + f7 + f8, f9);
}

proof fn lemma_sized(m: ProfileView)
    requires
        m.bytes().len() <= u64::MAX,
    ensures
        m.sized(),
{
    let all = m.fields();
    lemma_plain_list(m);
    lemma_plain_own(m);
    lemma_plain_concat(m.list_fields(), m.own_fields());
    lemma_short_is_writable(all);
    let n1 = m.sample_type.len() as int;
    assert forall|i: int| 0 <= i < m.sample.len() implies all_writable(
        (#[trigger] m.sample[i]).fields(),
    ) by {
        let s = m.sample[i];
        assert(all[n1 + i] == (2nat, ValueView::Bytes(fields_bytes(s.fields()))));
        lemma_field_is_shorter(all, n1 + i);
        let g1 = packed_field(1, s.location_id);
        let g2 = packed_field(2, unsigned(s.value));
        let g3 = repeated(3, label_bodies(s.label));
        lemma_plain_concat(g1, g2);
        lemma_plain_concat(g1 + g2, g3);
        lemma_short_is_writable(s.fields());
    }
    let n3 = n1 + m.sample.len() + m.mapping.len();
    assert forall|i: int| 0 <= i < m.location.len() implies all_writable(
        (#[trigger] m.location[i]).fields(),
    ) by {
        let s = m.location[i];
        assert(all[n3 + i] == (4nat, ValueView::Bytes(fields_bytes(s.fields()))));
        lemma_field_is_shorter(all, n3 + i);
        let g1 = varint_field(1, s.id);
        let g2 = varint_field(2, s.mapping_id);
        let g3 = varint_field(3, s.address);
        let g4 = repeated(4, line_bodies(s.line));
        let g5 = varint_field(5, flag(s.is_folded));
        lemma_plain_concat(g1, g2);
        lemma_plain_concat(g1 + g2, g3);
        lemma_plain_concat(g1 + g2 + g3, g4);
        lemma_plain_concat(g1 + g2 + g3 + g4, g5);
        lemma_short_is_writable(s.fields());
    }
}

/// A message that was written is read back as it was, whatever it holds, where
/// the length of its bytes is an integer of the wire.
pub proof fn law_message_reads_back(m: ProfileView)
    requires
        m.bytes().len() <= u64::MAX,
    ensures
        read_message(m.bytes()) == Some(m),
{
    lemma_sized(m);
    lemma_message_reads_back(m);
}

} // verus!
