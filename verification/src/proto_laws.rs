//! Which field of the wire is which member of a pprof message.

use vstd::prelude::*;
use vstd::utf8::{encode_utf8, encode_utf8_decode_utf8, encode_utf8_valid_utf8};

use crate::proto::{
    lemma_signed, signed, unsigned, Function, Label, Line, LocationView, Mapping, ProfileView,
    SampleView, ValueType,
};
use crate::wire::{
    decoded, field_bytes, law_varint_reads_back, law_varints_read_back, read_fields, read_group,
    read_key, read_varint, write_varint, write_varints, Message, ValueView,
};

verus! {

/// Whether a value is neither an integer nor a run of bytes.
pub open spec fn odd(value: ValueView) -> bool {
    !(value is Varint) && !(value is Bytes)
}

/// A field starts with its number and its kind: eight times the number, and two
/// more for a run of bytes, which comes with its length before it.
pub proof fn law_fields_start_with_their_number(tag: nat, value: u64, bytes: Seq<u8>)
    requires
        1 <= tag <= 15,
        bytes.len() < 0x80,
    ensures
        field_bytes((tag, ValueView::Varint(value)))[0] == 8 * tag,
        read_varint(field_bytes((tag, ValueView::Varint(value))).skip(1), 0) matches Some((n, used))
            && n == value && used == field_bytes((tag, ValueView::Varint(value))).len() - 1,
        field_bytes((tag, ValueView::Bytes(bytes))) == seq![(8 * tag + 2) as u8, bytes.len() as u8]
            + bytes,
{
    reveal_with_fuel(write_varint, 1);
    let a = field_bytes((tag, ValueView::Varint(value)));
    assert(write_varint(tag * 8) =~= seq![(tag * 8) as u8]);
    assert(write_varint(tag * 8 + 2) =~= seq![(tag * 8 + 2) as u8]);
    assert(write_varint(bytes.len()) =~= seq![bytes.len() as u8]);
    let tail = write_varint(value as nat);
    assert(a.skip(1) =~= tail + Seq::empty());
    law_varint_reads_back(value, Seq::empty());
    assert(field_bytes((tag, ValueView::Bytes(bytes))) =~= seq![
        (8 * tag + 2) as u8,
        bytes.len() as u8,
    ] + bytes);
}

/// The numbers of the fields of a value type. A later field replaces an earlier
/// one, a field of another number says nothing, and one that is no integer is
/// refused.
pub proof fn law_value_type_numbers(m: ValueType, v: i64, tag: nat, value: ValueView)
    ensures
        ValueType::blank() == (ValueType { kind: 0, unit: 0 }),
        m.merged((1, ValueView::Varint(v as u64))) == Some(ValueType { kind: v, ..m }),
        m.merged((2, ValueView::Varint(v as u64))) == Some(ValueType { unit: v, ..m }),
        tag == 0 || tag > 2 ==> m.merged((tag, value)) == Some(m),
        1 <= tag <= 2 && !(value is Varint) ==> m.merged((tag, value)) is None,
{
    lemma_signed(v);
}

/// The numbers of the fields of a label.
pub proof fn law_label_numbers(m: Label, v: i64, tag: nat, value: ValueView)
    ensures
        Label::blank() == (Label { key: 0, text: 0, num: 0, num_unit: 0 }),
        m.merged((1, ValueView::Varint(v as u64))) == Some(Label { key: v, ..m }),
        m.merged((2, ValueView::Varint(v as u64))) == Some(Label { text: v, ..m }),
        m.merged((3, ValueView::Varint(v as u64))) == Some(Label { num: v, ..m }),
        m.merged((4, ValueView::Varint(v as u64))) == Some(Label { num_unit: v, ..m }),
        tag == 0 || tag > 4 ==> m.merged((tag, value)) == Some(m),
        1 <= tag <= 4 && !(value is Varint) ==> m.merged((tag, value)) is None,
{
    lemma_signed(v);
}

/// The numbers of the fields of a line.
pub proof fn law_line_numbers(m: Line, u: u64, v: i64, tag: nat, value: ValueView)
    ensures
        Line::blank() == (Line { function_id: 0, line: 0, column: 0 }),
        m.merged((1, ValueView::Varint(u))) == Some(Line { function_id: u, ..m }),
        m.merged((2, ValueView::Varint(v as u64))) == Some(Line { line: v, ..m }),
        m.merged((3, ValueView::Varint(v as u64))) == Some(Line { column: v, ..m }),
        tag == 0 || tag > 3 ==> m.merged((tag, value)) == Some(m),
        1 <= tag <= 3 && !(value is Varint) ==> m.merged((tag, value)) is None,
{
    lemma_signed(v);
}

/// The numbers of the fields of a function.
pub proof fn law_function_numbers(m: Function, u: u64, v: i64, tag: nat, value: ValueView)
    ensures
        Function::blank() == (Function {
            id: 0,
            name: 0,
            system_name: 0,
            filename: 0,
            start_line: 0,
        }),
        m.merged((1, ValueView::Varint(u))) == Some(Function { id: u, ..m }),
        m.merged((2, ValueView::Varint(v as u64))) == Some(Function { name: v, ..m }),
        m.merged((3, ValueView::Varint(v as u64))) == Some(Function { system_name: v, ..m }),
        m.merged((4, ValueView::Varint(v as u64))) == Some(Function { filename: v, ..m }),
        m.merged((5, ValueView::Varint(v as u64))) == Some(Function { start_line: v, ..m }),
        tag == 0 || tag > 5 ==> m.merged((tag, value)) == Some(m),
        1 <= tag <= 5 && !(value is Varint) ==> m.merged((tag, value)) is None,
{
    lemma_signed(v);
}

/// The numbers of the fields of a mapping.
pub proof fn law_mapping_numbers(m: Mapping, u: u64, v: i64, tag: nat, value: ValueView)
    ensures
        m.merged((1, ValueView::Varint(u))) == Some(Mapping { id: u, ..m }),
        m.merged((2, ValueView::Varint(u))) == Some(Mapping { memory_start: u, ..m }),
        m.merged((3, ValueView::Varint(u))) == Some(Mapping { memory_limit: u, ..m }),
        m.merged((4, ValueView::Varint(u))) == Some(Mapping { file_offset: u, ..m }),
        m.merged((5, ValueView::Varint(v as u64))) == Some(Mapping { filename: v, ..m }),
        m.merged((6, ValueView::Varint(v as u64))) == Some(Mapping { build_id: v, ..m }),
        m.merged((7, ValueView::Varint(u))) == Some(Mapping { has_functions: u != 0, ..m }),
        m.merged((8, ValueView::Varint(u))) == Some(Mapping { has_filenames: u != 0, ..m }),
        m.merged((9, ValueView::Varint(u))) == Some(Mapping { has_line_numbers: u != 0, ..m }),
        m.merged((10, ValueView::Varint(u))) == Some(Mapping { has_inline_frames: u != 0, ..m }),
        tag == 0 || tag > 10 ==> m.merged((tag, value)) == Some(m),
        1 <= tag <= 10 && !(value is Varint) ==> m.merged((tag, value)) is None,
{
    lemma_signed(v);
}

proof fn lemma_signed_back(values: Seq<i64>)
    ensures
        signed(unsigned(values)) == values,
{
    assert forall|i: int| 0 <= i < values.len() implies signed(unsigned(values))[i]
        == #[trigger] values[i] by {
        lemma_signed(values[i]);
    }
    assert(signed(unsigned(values)) =~= values);
}

/// The numbers of the fields of a sample. Locations and values add up, whether
/// they come one by one or packed.
pub proof fn law_sample_numbers(
    m: SampleView,
    u: u64,
    us: Seq<u64>,
    v: i64,
    vs: Seq<i64>,
    body: Seq<u8>,
    tag: nat,
    value: ValueView,
)
    ensures
        SampleView::blank().location_id.len() == 0,
        SampleView::blank().value.len() == 0,
        SampleView::blank().label.len() == 0,
        m.merged((1, ValueView::Varint(u))) == Some(
            SampleView { location_id: m.location_id.push(u), ..m },
        ),
        m.merged((1, ValueView::Bytes(write_varints(us)))) == Some(
            SampleView { location_id: m.location_id + us, ..m },
        ),
        m.merged((2, ValueView::Varint(v as u64))) == Some(
            SampleView { value: m.value.push(v), ..m },
        ),
        m.merged((2, ValueView::Bytes(write_varints(unsigned(vs))))) == Some(
            SampleView { value: m.value + vs, ..m },
        ),
        m.merged((3, ValueView::Bytes(body))) == (match decoded(Label::blank(), body, 98) {
            Some(label) => Some(SampleView { label: m.label.push(label), ..m }),
            None => None,
        }),
        tag == 0 || tag > 3 ==> m.merged((tag, value)) == Some(m),
        1 <= tag <= 3 && odd(value) ==> m.merged((tag, value)) is None,
{
    lemma_signed(v);
    law_varints_read_back(us);
    law_varints_read_back(unsigned(vs));
    lemma_signed_back(vs);
    assert(m.location_id + seq![u] =~= m.location_id.push(u));
    assert(m.value + signed(seq![v as u64]) =~= m.value.push(v));
}

/// The numbers of the fields of a location.
pub proof fn law_location_numbers(
    m: LocationView,
    u: u64,
    body: Seq<u8>,
    tag: nat,
    value: ValueView,
)
    ensures
        LocationView::blank().id == 0,
        LocationView::blank().mapping_id == 0,
        LocationView::blank().address == 0,
        LocationView::blank().line.len() == 0,
        !LocationView::blank().is_folded,
        m.merged((1, ValueView::Varint(u))) == Some(LocationView { id: u, ..m }),
        m.merged((2, ValueView::Varint(u))) == Some(LocationView { mapping_id: u, ..m }),
        m.merged((3, ValueView::Varint(u))) == Some(LocationView { address: u, ..m }),
        m.merged((4, ValueView::Bytes(body))) == (match decoded(Line::blank(), body, 98) {
            Some(line) => Some(LocationView { line: m.line.push(line), ..m }),
            None => None,
        }),
        m.merged((5, ValueView::Varint(u))) == Some(LocationView { is_folded: u != 0, ..m }),
        tag == 0 || tag > 5 ==> m.merged((tag, value)) == Some(m),
        1 <= tag <= 5 && odd(value) ==> m.merged((tag, value)) is None,
{
}

/// The numbers of the fields of a profile that are lists: each field adds one
/// item.
pub proof fn law_profile_list_numbers(m: ProfileView, body: Seq<u8>, text: Seq<char>)
    ensures
        m.merged((1, ValueView::Bytes(body))) == (match decoded(ValueType::blank(), body, 99) {
            Some(item) => Some(ProfileView { sample_type: m.sample_type.push(item), ..m }),
            None => None,
        }),
        m.merged((2, ValueView::Bytes(body))) == (match decoded(SampleView::blank(), body, 99) {
            Some(item) => Some(ProfileView { sample: m.sample.push(item), ..m }),
            None => None,
        }),
        m.merged((3, ValueView::Bytes(body))) == (match decoded(Mapping::blank(), body, 99) {
            Some(item) => Some(ProfileView { mapping: m.mapping.push(item), ..m }),
            None => None,
        }),
        m.merged((4, ValueView::Bytes(body))) == (match decoded(LocationView::blank(), body, 99) {
            Some(item) => Some(ProfileView { location: m.location.push(item), ..m }),
            None => None,
        }),
        m.merged((5, ValueView::Bytes(body))) == (match decoded(Function::blank(), body, 99) {
            Some(item) => Some(ProfileView { function: m.function.push(item), ..m }),
            None => None,
        }),
        m.merged((6, ValueView::Bytes(encode_utf8(text)))) == Some(
            ProfileView { string_table: m.string_table.push(text), ..m },
        ),
{
    encode_utf8_valid_utf8(text);
    encode_utf8_decode_utf8(text);
}

/// The numbers of the other fields of a profile.
pub proof fn law_profile_numbers(m: ProfileView, v: i64, tag: nat, value: ValueView)
    ensures
        m.merged((7, ValueView::Varint(v as u64))) == Some(ProfileView { drop_frames: v, ..m }),
        m.merged((8, ValueView::Varint(v as u64))) == Some(ProfileView { keep_frames: v, ..m }),
        m.merged((9, ValueView::Varint(v as u64))) == Some(ProfileView { time_nanos: v, ..m }),
        m.merged((10, ValueView::Varint(v as u64))) == Some(ProfileView { duration_nanos: v, ..m }),
        m.merged((12, ValueView::Varint(v as u64))) == Some(ProfileView { period: v, ..m }),
        m.merged((13, ValueView::Varint(v as u64))) == Some(
            ProfileView { comment: m.comment.push(v), ..m },
        ),
        m.merged((14, ValueView::Varint(v as u64))) == Some(
            ProfileView { default_sample_type: v, ..m },
        ),
        m.merged((15, ValueView::Varint(v as u64))) == Some(ProfileView { doc_url: v, ..m }),
        tag == 0 || tag > 15 ==> m.merged((tag, value)) == Some(m),
        1 <= tag <= 15 && odd(value) ==> m.merged((tag, value)) is None,
{
    lemma_signed(v);
    assert(m.comment + signed(seq![v as u64]) =~= m.comment.push(v));
}

/// A field of eight or of four fixed bytes, or an empty group, is passed over as
/// what it is, and what follows it is read as if it were not there.
pub proof fn law_other_kinds_are_passed_over(
    tag: nat,
    eight: Seq<u8>,
    four: Seq<u8>,
    rest: Seq<u8>,
    depth: nat,
)
    requires
        1 <= tag <= 15,
        eight.len() == 8,
        four.len() == 4,
        read_fields(rest, depth) is Some,
    ensures
        read_fields(seq![(8 * tag + 1) as u8] + eight + rest, depth) == Some(
            seq![(tag, ValueView::Fixed64)] + read_fields(rest, depth)->0,
        ),
        read_fields(seq![(8 * tag + 5) as u8] + four + rest, depth) == Some(
            seq![(tag, ValueView::Fixed32)] + read_fields(rest, depth)->0,
        ),
        read_fields(seq![(8 * tag + 3) as u8, (8 * tag + 4) as u8] + rest, depth) == Some(
            seq![(tag, ValueView::Group)] + read_fields(rest, depth)->0,
        ),
{
    let a = seq![(8 * tag + 1) as u8] + eight + rest;
    assert(read_key(a) == Some((tag, 1nat, 1nat)));
    assert(a.skip(1) =~= eight + rest);
    assert(a.skip(9) =~= rest);
    let b = seq![(8 * tag + 5) as u8] + four + rest;
    assert(read_key(b) == Some((tag, 5nat, 1nat)));
    assert(b.skip(1) =~= four + rest);
    assert(b.skip(5) =~= rest);
    let c = seq![(8 * tag + 3) as u8, (8 * tag + 4) as u8] + rest;
    assert(read_key(c) == Some((tag, 3nat, 1nat)));
    let d = c.skip(1);
    assert(d =~= seq![(8 * tag + 4) as u8] + rest);
    assert(read_key(d) == Some((tag, 4nat, 1nat)));
    assert(read_group(d, tag, depth) == Some(1nat));
    assert(c.skip(2) =~= rest);
}

} // verus!
