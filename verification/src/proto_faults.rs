//! What is wrong with bytes that are no pprof message: the first field at fault
//! and why, as the decoder of the messages tells it.
//!
//! A message is read from the bytes that are left of the whole input. One that
//! is nested has a length of its own; a field in it that runs past its end is
//! told as such.

use vstd::prelude::*;
use vstd::slice::slice_subrange;
use vstd::utf8::valid_utf8;

use crate::number::{decimal, push_decimal};
use crate::text::utf8_text;
use crate::wire::{lemma_read_varint, read_varint, take_varint};

verus! {

/// The messages of the format.
#[derive(Debug, Clone, Copy, PartialEq, Eq, Structural)]
pub enum Part {
    Profile,
    ValueType,
    Sample,
    Label,
    Mapping,
    Location,
    Line,
    Function,
}

/// What a field holds.
#[derive(Debug, Clone, Copy, PartialEq, Eq, Structural)]
pub enum Slot {
    /// An integer or a truth value.
    Varint,
    /// Integers, packed or not.
    Packed,
    /// A text.
    Text,
    /// A message.
    Nested(Part),
}

/// Why a message cannot be read, and the fields that lead to the fault, the
/// innermost first.
pub struct FaultView {
    pub path: Seq<char>,
    pub reason: Seq<char>,
}

/// Why a message cannot be read, and the fields that lead to the fault.
pub struct Fault {
    pub path: String,
    pub reason: String,
}

impl View for Fault {
    type V = FaultView;

    open spec fn view(&self) -> FaultView {
        FaultView { path: self.path@, reason: self.reason@ }
    }
}

/// What a step came to: the bytes that are left, or why it failed.
pub open spec fn stepped<'a>(r: std::result::Result<&'a [u8], String>) -> std::result::Result<
    Seq<u8>,
    Seq<char>,
> {
    match r {
        Ok(rest) => Ok(rest@),
        Err(reason) => Err(reason@),
    }
}

/// What a step through fields came to.
pub open spec fn traced<'a>(r: std::result::Result<&'a [u8], Fault>) -> std::result::Result<
    Seq<u8>,
    FaultView,
> {
    match r {
        Ok(rest) => Ok(rest@),
        Err(fault) => Err(fault@),
    }
}

/// What a wire type is called.
pub open spec fn kind_name(kind: nat) -> Seq<char> {
    if kind == 0 {
        "Varint"@
    } else if kind == 1 {
        "SixtyFourBit"@
    } else if kind == 2 {
        "LengthDelimited"@
    } else if kind == 3 {
        "StartGroup"@
    } else if kind == 4 {
        "EndGroup"@
    } else {
        "ThirtyTwoBit"@
    }
}

/// What is said of a field of the wrong wire type.
pub open spec fn kind_reason(kind: nat, wanted: nat) -> Seq<char> {
    "invalid wire type: "@ + kind_name(kind) + " (expected "@ + kind_name(wanted) + ")"@
}

/// An integer and the bytes behind it.
pub open spec fn varint_step(rest: Seq<u8>) -> std::result::Result<(nat, Seq<u8>), Seq<char>> {
    match read_varint(rest, 0) {
        Some((value, used)) => Ok((value, rest.skip(used as int))),
        None => Err("invalid varint"@),
    }
}

/// The tag and the wire type of a field, and the bytes behind them.
pub open spec fn key_step(rest: Seq<u8>) -> std::result::Result<(nat, nat, Seq<u8>), Seq<char>> {
    match varint_step(rest) {
        Err(reason) => Err(reason),
        Ok((key, next)) => if key > u32::MAX {
            Err("invalid key value: "@ + decimal(key))
        } else if key % 8 > 5 {
            Err("invalid wire type value: "@ + decimal(key % 8))
        } else if key / 8 == 0 {
            Err("invalid tag value: 0"@)
        } else {
            Ok((key / 8, key % 8, next))
        },
    }
}

/// The bytes behind the next `count`.
pub open spec fn pass(rest: Seq<u8>, count: nat) -> std::result::Result<Seq<u8>, Seq<char>> {
    if count > rest.len() {
        Err("buffer underflow"@)
    } else {
        Ok(rest.skip(count as int))
    }
}

/// The bytes behind a field that no message knows. `depth` groups may nest.
pub open spec fn skip_step(kind: nat, tag: nat, rest: Seq<u8>, depth: nat) -> std::result::Result<
    Seq<u8>,
    Seq<char>,
>
    decreases depth, rest.len(), 1int,
{
    if depth == 0 {
        Err("recursion limit reached"@)
    } else if kind == 0 {
        match varint_step(rest) {
            Err(reason) => Err(reason),
            Ok((_, next)) => Ok(next),
        }
    } else if kind == 1 {
        pass(rest, 8)
    } else if kind == 2 {
        match varint_step(rest) {
            Err(reason) => Err(reason),
            Ok((length, next)) => pass(next, length),
        }
    } else if kind == 3 {
        group_step(tag, rest, depth)
    } else if kind == 4 {
        Err("unexpected end group tag"@)
    } else {
        pass(rest, 4)
    }
}

/// The bytes behind the end of a group. Every field in it takes a byte.
pub open spec fn group_step(tag: nat, rest: Seq<u8>, depth: nat) -> std::result::Result<
    Seq<u8>,
    Seq<char>,
>
    decreases depth, rest.len(), 0int,
{
    match key_step(rest) {
        Err(reason) => Err(reason),
        Ok((inner, kind, next)) => if kind == 4 {
            if inner == tag {
                Ok(next)
            } else {
                Err("unexpected end group tag"@)
            }
        } else if depth == 0 {
            Err("recursion limit reached"@)
        } else {
            match skip_step(kind, inner, next, (depth - 1) as nat) {
                Err(reason) => Err(reason),
                Ok(after) => if after.len() < rest.len() {
                    group_step(tag, after, depth)
                } else {
                    Ok(after)
                },
            }
        },
    }
}

/// The bytes behind packed integers, of which `limit` are left.
pub open spec fn packed_step(rest: Seq<u8>, limit: nat) -> std::result::Result<Seq<u8>, Seq<char>>
    decreases rest.len(),
{
    if rest.len() > limit {
        match varint_step(rest) {
            Err(reason) => Err(reason),
            Ok((_, next)) => if next.len() < rest.len() {
                packed_step(next, limit)
            } else {
                Ok(next)
            },
        }
    } else if rest.len() == limit {
        Ok(rest)
    } else {
        Err("delimited length exceeded"@)
    }
}

/// The bytes behind the length of a field, where they are at least as many.
pub open spec fn length_step(rest: Seq<u8>) -> std::result::Result<(nat, Seq<u8>), Seq<char>> {
    match varint_step(rest) {
        Err(reason) => Err(reason),
        Ok((length, next)) => if length > next.len() {
            Err("buffer underflow"@)
        } else {
            Ok((length, next))
        },
    }
}

/// The bytes behind an integer field.
pub open spec fn number_step(kind: nat, rest: Seq<u8>) -> std::result::Result<Seq<u8>, Seq<char>> {
    if kind != 0 {
        Err(kind_reason(kind, 0))
    } else {
        match varint_step(rest) {
            Err(reason) => Err(reason),
            Ok((_, next)) => Ok(next),
        }
    }
}

/// The bytes behind a field of integers.
pub open spec fn numbers_step(kind: nat, rest: Seq<u8>) -> std::result::Result<Seq<u8>, Seq<char>> {
    if kind == 2 {
        match length_step(rest) {
            Err(reason) => Err(reason),
            Ok((length, next)) => packed_step(next, (next.len() - length) as nat),
        }
    } else {
        number_step(kind, rest)
    }
}

/// The bytes behind a text field.
pub open spec fn text_step(kind: nat, rest: Seq<u8>) -> std::result::Result<Seq<u8>, Seq<char>> {
    if kind != 2 {
        Err(kind_reason(kind, 2))
    } else {
        match length_step(rest) {
            Err(reason) => Err(reason),
            Ok((length, next)) => if valid_utf8(next.take(length as int)) {
                Ok(next.skip(length as int))
            } else {
                Err("invalid string value: data is not UTF-8 encoded"@)
            },
        }
    }
}

/// What a message is called.
pub open spec fn part_name(part: Part) -> Seq<char> {
    match part {
        Part::Profile => "Profile"@,
        Part::ValueType => "ValueType"@,
        Part::Sample => "Sample"@,
        Part::Label => "Label"@,
        Part::Mapping => "Mapping"@,
        Part::Location => "Location"@,
        Part::Line => "Line"@,
        Part::Function => "Function"@,
    }
}

/// The name of the field of a message with a tag, and what it holds.
pub open spec fn slot_at(part: Part, tag: nat) -> Option<(Seq<char>, Slot)> {
    match part {
        Part::Profile => if tag == 1 {
            Some(("sample_type"@, Slot::Nested(Part::ValueType)))
        } else if tag == 2 {
            Some(("sample"@, Slot::Nested(Part::Sample)))
        } else if tag == 3 {
            Some(("mapping"@, Slot::Nested(Part::Mapping)))
        } else if tag == 4 {
            Some(("location"@, Slot::Nested(Part::Location)))
        } else if tag == 5 {
            Some(("function"@, Slot::Nested(Part::Function)))
        } else if tag == 6 {
            Some(("string_table"@, Slot::Text))
        } else if tag == 7 {
            Some(("drop_frames"@, Slot::Varint))
        } else if tag == 8 {
            Some(("keep_frames"@, Slot::Varint))
        } else if tag == 9 {
            Some(("time_nanos"@, Slot::Varint))
        } else if tag == 10 {
            Some(("duration_nanos"@, Slot::Varint))
        } else if tag == 11 {
            Some(("period_type"@, Slot::Nested(Part::ValueType)))
        } else if tag == 12 {
            Some(("period"@, Slot::Varint))
        } else if tag == 13 {
            Some(("comment"@, Slot::Packed))
        } else if tag == 14 {
            Some(("default_sample_type"@, Slot::Varint))
        } else if tag == 15 {
            Some(("doc_url"@, Slot::Varint))
        } else {
            None
        },
        Part::ValueType => if tag == 1 {
            Some(("r#type"@, Slot::Varint))
        } else if tag == 2 {
            Some(("unit"@, Slot::Varint))
        } else {
            None
        },
        Part::Sample => if tag == 1 {
            Some(("location_id"@, Slot::Packed))
        } else if tag == 2 {
            Some(("value"@, Slot::Packed))
        } else if tag == 3 {
            Some(("label"@, Slot::Nested(Part::Label)))
        } else {
            None
        },
        Part::Label => if tag == 1 {
            Some(("key"@, Slot::Varint))
        } else if tag == 2 {
            Some(("str"@, Slot::Varint))
        } else if tag == 3 {
            Some(("num"@, Slot::Varint))
        } else if tag == 4 {
            Some(("num_unit"@, Slot::Varint))
        } else {
            None
        },
        Part::Mapping => if tag == 1 {
            Some(("id"@, Slot::Varint))
        } else if tag == 2 {
            Some(("memory_start"@, Slot::Varint))
        } else if tag == 3 {
            Some(("memory_limit"@, Slot::Varint))
        } else if tag == 4 {
            Some(("file_offset"@, Slot::Varint))
        } else if tag == 5 {
            Some(("filename"@, Slot::Varint))
        } else if tag == 6 {
            Some(("build_id"@, Slot::Varint))
        } else if tag == 7 {
            Some(("has_functions"@, Slot::Varint))
        } else if tag == 8 {
            Some(("has_filenames"@, Slot::Varint))
        } else if tag == 9 {
            Some(("has_line_numbers"@, Slot::Varint))
        } else if tag == 10 {
            Some(("has_inline_frames"@, Slot::Varint))
        } else {
            None
        },
        Part::Location => if tag == 1 {
            Some(("id"@, Slot::Varint))
        } else if tag == 2 {
            Some(("mapping_id"@, Slot::Varint))
        } else if tag == 3 {
            Some(("address"@, Slot::Varint))
        } else if tag == 4 {
            Some(("line"@, Slot::Nested(Part::Line)))
        } else if tag == 5 {
            Some(("is_folded"@, Slot::Varint))
        } else {
            None
        },
        Part::Line => if tag == 1 {
            Some(("function_id"@, Slot::Varint))
        } else if tag == 2 {
            Some(("line"@, Slot::Varint))
        } else if tag == 3 {
            Some(("column"@, Slot::Varint))
        } else {
            None
        },
        Part::Function => if tag == 1 {
            Some(("id"@, Slot::Varint))
        } else if tag == 2 {
            Some(("name"@, Slot::Varint))
        } else if tag == 3 {
            Some(("system_name"@, Slot::Varint))
        } else if tag == 4 {
            Some(("filename"@, Slot::Varint))
        } else if tag == 5 {
            Some(("start_line"@, Slot::Varint))
        } else {
            None
        },
    }
}

/// The bytes behind what a field holds. `depth` messages may nest.
pub open spec fn slot_step(slot: Slot, kind: nat, rest: Seq<u8>, depth: nat) -> std::result::Result<
    Seq<u8>,
    FaultView,
>
    decreases depth, 1int, 0nat,
{
    match slot {
        Slot::Varint => plain(number_step(kind, rest)),
        Slot::Packed => plain(numbers_step(kind, rest)),
        Slot::Text => plain(text_step(kind, rest)),
        Slot::Nested(part) => if kind != 2 {
            Err(bare(kind_reason(kind, 2)))
        } else if depth == 0 {
            Err(bare("recursion limit reached"@))
        } else {
            match length_step(rest) {
                Err(reason) => Err(bare(reason)),
                Ok((length, next)) => message_step(
                    part,
                    next,
                    (next.len() - length) as nat,
                    (depth - 1) as nat,
                ),
            }
        },
    }
}

/// A fault that no field leads to.
pub open spec fn bare(reason: Seq<char>) -> FaultView {
    FaultView { path: Seq::empty(), reason }
}

/// What a step came to, where no field leads to it.
pub open spec fn plain(r: std::result::Result<Seq<u8>, Seq<char>>) -> std::result::Result<
    Seq<u8>,
    FaultView,
> {
    match r {
        Ok(rest) => Ok(rest),
        Err(reason) => Err(bare(reason)),
    }
}

/// The bytes behind a field of a message.
pub open spec fn field_step(
    part: Part,
    tag: nat,
    kind: nat,
    rest: Seq<u8>,
    depth: nat,
) -> std::result::Result<Seq<u8>, FaultView>
    decreases depth, 2int, 0nat,
{
    match slot_at(part, tag) {
        None => plain(skip_step(kind, tag, rest, depth)),
        Some((name, slot)) => match slot_step(slot, kind, rest, depth) {
            Ok(after) => Ok(after),
            Err(fault) => Err(
                FaultView {
                    path: fault.path + part_name(part) + "."@ + name + ": "@,
                    reason: fault.reason,
                },
            ),
        },
    }
}

/// The bytes behind a message, of which `limit` are left. Every field takes a
/// byte.
pub open spec fn message_step(
    part: Part,
    rest: Seq<u8>,
    limit: nat,
    depth: nat,
) -> std::result::Result<Seq<u8>, FaultView>
    decreases depth, 3int, rest.len(),
{
    if rest.len() > limit {
        match key_step(rest) {
            Err(reason) => Err(bare(reason)),
            Ok((tag, kind, next)) => match field_step(part, tag, kind, next, depth) {
                Err(fault) => Err(fault),
                Ok(after) => if after.len() < rest.len() {
                    message_step(part, after, limit, depth)
                } else {
                    Ok(after)
                },
            },
        }
    } else if rest.len() == limit {
        Ok(rest)
    } else {
        Err(bare("delimited length exceeded"@))
    }
}

/// What is wrong with bytes as a profile message: the fields that lead to the
/// fault, then the reason.
pub open spec fn profile_fault(bytes: Seq<u8>) -> Seq<char> {
    match message_step(Part::Profile, bytes, 0, 100) {
        Ok(_) => Seq::empty(),
        Err(fault) => fault.path + fault.reason,
    }
}

fn name_of_kind(kind: u64) -> (r: &'static str)
    ensures
        r@ == kind_name(kind as nat),
{
    match kind {
        0 => "Varint",
        1 => "SixtyFourBit",
        2 => "LengthDelimited",
        3 => "StartGroup",
        4 => "EndGroup",
        _ => "ThirtyTwoBit",
    }
}

fn wrong_kind(kind: u64, wanted: u64) -> (r: String)
    ensures
        r@ == kind_reason(kind as nat, wanted as nat),
{
    let mut text: String = "invalid wire type: ".to_owned();
    text.push_str(name_of_kind(kind));
    text.push_str(" (expected ");
    text.push_str(name_of_kind(wanted));
    text.push_str(")");
    text
}

fn take_number<'a>(rest: &'a [u8]) -> (r: std::result::Result<(u64, &'a [u8]), String>)
    ensures
        match r {
            Ok((value, next)) => {
                &&& varint_step(rest@) == Ok::<(nat, Seq<u8>), Seq<char>>((value as nat, next@))
                &&& next@.len() < rest@.len()
            },
            Err(reason) => varint_step(rest@) == Err::<(nat, Seq<u8>), Seq<char>>(reason@),
        },
{
    proof {
        lemma_read_varint(rest@, 0);
    }
    match take_varint(rest) {
        Some((value, next)) => Ok((value, next)),
        None => Err("invalid varint".to_owned()),
    }
}

fn take_key<'a>(rest: &'a [u8]) -> (r: std::result::Result<(u64, u64, &'a [u8]), String>)
    ensures
        match r {
            Ok((tag, kind, next)) => {
                &&& key_step(rest@) == Ok::<(nat, nat, Seq<u8>), Seq<char>>(
                    (tag as nat, kind as nat, next@),
                )
                &&& next@.len() < rest@.len()
            },
            Err(reason) => key_step(rest@) == Err::<(nat, nat, Seq<u8>), Seq<char>>(reason@),
        },
{
    let (key, next): (u64, &'a [u8]) = match take_number(rest) {
        Ok(found) => found,
        Err(reason) => return Err(reason),
    };
    if key > u32::MAX as u64 {
        let mut text: String = "invalid key value: ".to_owned();
        push_decimal(&mut text, key);
        return Err(text);
    }
    if key % 8 > 5 {
        let mut text: String = "invalid wire type value: ".to_owned();
        push_decimal(&mut text, key % 8);
        return Err(text);
    }
    if key / 8 == 0 {
        return Err("invalid tag value: 0".to_owned());
    }
    Ok((key / 8, key % 8, next))
}

fn take_bytes<'a>(rest: &'a [u8], count: u64) -> (r: std::result::Result<&'a [u8], String>)
    ensures
        stepped(r) == pass(rest@, count as nat),
        r matches Ok(after) ==> after@.len() <= rest@.len(),
{
    if count > rest.len() as u64 {
        return Err("buffer underflow".to_owned());
    }
    let after = slice_subrange(rest, count as usize, rest.len());
    assert(after@ =~= rest@.skip(count as int));
    Ok(after)
}

fn skip_field<'a>(kind: u64, tag: u64, rest: &'a [u8], depth: u32) -> (r: std::result::Result<
    &'a [u8],
    String,
>)
    ensures
        stepped(r) == skip_step(kind as nat, tag as nat, rest@, depth as nat),
        r matches Ok(after) ==> after@.len() <= rest@.len(),
    decreases depth, 1int,
{
    if depth == 0 {
        return Err("recursion limit reached".to_owned());
    }
    match kind {
        0 => match take_number(rest) {
            Ok((_, next)) => Ok(next),
            Err(reason) => Err(reason),
        },
        1 => take_bytes(rest, 8),
        2 => match take_number(rest) {
            Ok((length, next)) => take_bytes(next, length),
            Err(reason) => Err(reason),
        },
        3 => skip_group(tag, rest, depth),
        4 => Err("unexpected end group tag".to_owned()),
        _ => take_bytes(rest, 4),
    }
}

fn skip_group<'a>(tag: u64, rest: &'a [u8], depth: u32) -> (r: std::result::Result<
    &'a [u8],
    String,
>)
    requires
        depth > 0,
    ensures
        stepped(r) == group_step(tag as nat, rest@, depth as nat),
        r matches Ok(after) ==> after@.len() <= rest@.len(),
    decreases depth, 0int,
{
    let mut left: &'a [u8] = rest;
    loop
        invariant
            depth > 0,
            left@.len() <= rest@.len(),
            group_step(tag as nat, rest@, depth as nat) == group_step(
                tag as nat,
                left@,
                depth as nat,
            ),
        decreases left@.len(),
    {
        let (inner, kind, next): (u64, u64, &'a [u8]) = match take_key(left) {
            Ok(found) => found,
            Err(reason) => return Err(reason),
        };
        if kind == 4 {
            if inner == tag {
                return Ok(next);
            }
            return Err("unexpected end group tag".to_owned());
        }
        match skip_field(kind, inner, next, depth - 1) {
            Ok(after) => {
                left = after;
            },
            Err(reason) => return Err(reason),
        }
    }
}

fn take_length<'a>(rest: &'a [u8]) -> (r: std::result::Result<(usize, &'a [u8]), String>)
    ensures
        match r {
            Ok((length, next)) => {
                &&& length_step(rest@) == Ok::<(nat, Seq<u8>), Seq<char>>((length as nat, next@))
                &&& length <= next@.len() < rest@.len()
            },
            Err(reason) => length_step(rest@) == Err::<(nat, Seq<u8>), Seq<char>>(reason@),
        },
{
    match take_number(rest) {
        Ok((length, next)) => {
            if length > next.len() as u64 {
                Err("buffer underflow".to_owned())
            } else {
                Ok((length as usize, next))
            }
        },
        Err(reason) => Err(reason),
    }
}

fn pass_number<'a>(kind: u64, rest: &'a [u8]) -> (r: std::result::Result<&'a [u8], String>)
    ensures
        stepped(r) == number_step(kind as nat, rest@),
        r matches Ok(after) ==> after@.len() <= rest@.len(),
{
    if kind != 0 {
        return Err(wrong_kind(kind, 0));
    }
    match take_number(rest) {
        Ok((_, next)) => Ok(next),
        Err(reason) => Err(reason),
    }
}

fn pass_numbers<'a>(kind: u64, rest: &'a [u8]) -> (r: std::result::Result<&'a [u8], String>)
    ensures
        stepped(r) == numbers_step(kind as nat, rest@),
        r matches Ok(after) ==> after@.len() <= rest@.len(),
{
    if kind != 2 {
        return pass_number(kind, rest);
    }
    let (length, next): (usize, &'a [u8]) = match take_length(rest) {
        Ok(found) => found,
        Err(reason) => return Err(reason),
    };
    let limit: usize = next.len() - length;
    let mut left: &'a [u8] = next;
    while left.len() > limit
        invariant
            left@.len() <= next@.len() <= rest@.len(),
            numbers_step(kind as nat, rest@) == packed_step(left@, limit as nat),
        decreases left@.len(),
    {
        match take_number(left) {
            Ok((_, after)) => {
                left = after;
            },
            Err(reason) => return Err(reason),
        }
    }
    if left.len() == limit {
        Ok(left)
    } else {
        Err("delimited length exceeded".to_owned())
    }
}

fn pass_text<'a>(kind: u64, rest: &'a [u8]) -> (r: std::result::Result<&'a [u8], String>)
    ensures
        stepped(r) == text_step(kind as nat, rest@),
        r matches Ok(after) ==> after@.len() <= rest@.len(),
{
    if kind != 2 {
        return Err(wrong_kind(kind, 2));
    }
    let (length, next): (usize, &'a [u8]) = match take_length(rest) {
        Ok(found) => found,
        Err(reason) => return Err(reason),
    };
    let text = slice_subrange(next, 0, length);
    let after = slice_subrange(next, length, next.len());
    assert(text@ =~= next@.take(length as int));
    assert(after@ =~= next@.skip(length as int));
    match utf8_text(text) {
        Ok(_) => Ok(after),
        Err(_) => Err("invalid string value: data is not UTF-8 encoded".to_owned()),
    }
}

fn name_of_part(part: Part) -> (r: &'static str)
    ensures
        r@ == part_name(part),
{
    match part {
        Part::Profile => "Profile",
        Part::ValueType => "ValueType",
        Part::Sample => "Sample",
        Part::Label => "Label",
        Part::Mapping => "Mapping",
        Part::Location => "Location",
        Part::Line => "Line",
        Part::Function => "Function",
    }
}

fn slot_of(part: Part, tag: u64) -> (r: Option<(&'static str, Slot)>)
    ensures
        match r {
            Some((name, slot)) => slot_at(part, tag as nat) == Some((name@, slot)),
            None => slot_at(part, tag as nat) is None,
        },
{
    match part {
        Part::Profile => if tag == 1 {
            Some(("sample_type", Slot::Nested(Part::ValueType)))
        } else if tag == 2 {
            Some(("sample", Slot::Nested(Part::Sample)))
        } else if tag == 3 {
            Some(("mapping", Slot::Nested(Part::Mapping)))
        } else if tag == 4 {
            Some(("location", Slot::Nested(Part::Location)))
        } else if tag == 5 {
            Some(("function", Slot::Nested(Part::Function)))
        } else if tag == 6 {
            Some(("string_table", Slot::Text))
        } else if tag == 7 {
            Some(("drop_frames", Slot::Varint))
        } else if tag == 8 {
            Some(("keep_frames", Slot::Varint))
        } else if tag == 9 {
            Some(("time_nanos", Slot::Varint))
        } else if tag == 10 {
            Some(("duration_nanos", Slot::Varint))
        } else if tag == 11 {
            Some(("period_type", Slot::Nested(Part::ValueType)))
        } else if tag == 12 {
            Some(("period", Slot::Varint))
        } else if tag == 13 {
            Some(("comment", Slot::Packed))
        } else if tag == 14 {
            Some(("default_sample_type", Slot::Varint))
        } else if tag == 15 {
            Some(("doc_url", Slot::Varint))
        } else {
            None
        },
        Part::ValueType => if tag == 1 {
            Some(("r#type", Slot::Varint))
        } else if tag == 2 {
            Some(("unit", Slot::Varint))
        } else {
            None
        },
        Part::Sample => if tag == 1 {
            Some(("location_id", Slot::Packed))
        } else if tag == 2 {
            Some(("value", Slot::Packed))
        } else if tag == 3 {
            Some(("label", Slot::Nested(Part::Label)))
        } else {
            None
        },
        Part::Label => if tag == 1 {
            Some(("key", Slot::Varint))
        } else if tag == 2 {
            Some(("str", Slot::Varint))
        } else if tag == 3 {
            Some(("num", Slot::Varint))
        } else if tag == 4 {
            Some(("num_unit", Slot::Varint))
        } else {
            None
        },
        Part::Mapping => if tag == 1 {
            Some(("id", Slot::Varint))
        } else if tag == 2 {
            Some(("memory_start", Slot::Varint))
        } else if tag == 3 {
            Some(("memory_limit", Slot::Varint))
        } else if tag == 4 {
            Some(("file_offset", Slot::Varint))
        } else if tag == 5 {
            Some(("filename", Slot::Varint))
        } else if tag == 6 {
            Some(("build_id", Slot::Varint))
        } else if tag == 7 {
            Some(("has_functions", Slot::Varint))
        } else if tag == 8 {
            Some(("has_filenames", Slot::Varint))
        } else if tag == 9 {
            Some(("has_line_numbers", Slot::Varint))
        } else if tag == 10 {
            Some(("has_inline_frames", Slot::Varint))
        } else {
            None
        },
        Part::Location => if tag == 1 {
            Some(("id", Slot::Varint))
        } else if tag == 2 {
            Some(("mapping_id", Slot::Varint))
        } else if tag == 3 {
            Some(("address", Slot::Varint))
        } else if tag == 4 {
            Some(("line", Slot::Nested(Part::Line)))
        } else if tag == 5 {
            Some(("is_folded", Slot::Varint))
        } else {
            None
        },
        Part::Line => if tag == 1 {
            Some(("function_id", Slot::Varint))
        } else if tag == 2 {
            Some(("line", Slot::Varint))
        } else if tag == 3 {
            Some(("column", Slot::Varint))
        } else {
            None
        },
        Part::Function => if tag == 1 {
            Some(("id", Slot::Varint))
        } else if tag == 2 {
            Some(("name", Slot::Varint))
        } else if tag == 3 {
            Some(("system_name", Slot::Varint))
        } else if tag == 4 {
            Some(("filename", Slot::Varint))
        } else if tag == 5 {
            Some(("start_line", Slot::Varint))
        } else {
            None
        },
    }
}

fn unplaced<'a>(r: std::result::Result<&'a [u8], String>) -> (fault: std::result::Result<
    &'a [u8],
    Fault,
>)
    ensures
        traced(fault) == plain(stepped(r)),
        fault matches Ok(rest) ==> r matches Ok(same) && rest@ == same@,
{
    match r {
        Ok(rest) => Ok(rest),
        Err(reason) => Err(unplaced_reason(reason)),
    }
}

fn unplaced_reason(reason: String) -> (r: Fault)
    ensures
        r@ == bare(reason@),
{
    let r = Fault { path: String::new(), reason };
    assert(r.path@ =~= Seq::empty());
    r
}

fn pass_slot<'a>(slot: Slot, kind: u64, rest: &'a [u8], depth: u32) -> (r: std::result::Result<
    &'a [u8],
    Fault,
>)
    ensures
        traced(r) == slot_step(slot, kind as nat, rest@, depth as nat),
        r matches Ok(after) ==> after@.len() <= rest@.len(),
    decreases depth, 1int,
{
    match slot {
        Slot::Varint => unplaced(pass_number(kind, rest)),
        Slot::Packed => unplaced(pass_numbers(kind, rest)),
        Slot::Text => unplaced(pass_text(kind, rest)),
        Slot::Nested(part) => {
            if kind != 2 {
                return Err(unplaced_reason(wrong_kind(kind, 2)));
            }
            if depth == 0 {
                return Err(unplaced_reason("recursion limit reached".to_owned()));
            }
            match take_length(rest) {
                Ok((length, next)) => pass_message(part, next, next.len() - length, depth - 1),
                Err(reason) => Err(unplaced_reason(reason)),
            }
        },
    }
}

fn pass_field<'a>(part: Part, tag: u64, kind: u64, rest: &'a [u8], depth: u32) -> (r:
    std::result::Result<&'a [u8], Fault>)
    ensures
        traced(r) == field_step(part, tag as nat, kind as nat, rest@, depth as nat),
        r matches Ok(after) ==> after@.len() <= rest@.len(),
    decreases depth, 2int,
{
    match slot_of(part, tag) {
        None => unplaced(skip_field(kind, tag, rest, depth)),
        Some((name, slot)) => match pass_slot(slot, kind, rest, depth) {
            Ok(after) => Ok(after),
            Err(fault) => {
                let mut path: String = fault.path;
                path.push_str(name_of_part(part));
                path.push_str(".");
                path.push_str(name);
                path.push_str(": ");
                Err(Fault { path, reason: fault.reason })
            },
        },
    }
}

fn pass_message<'a>(part: Part, rest: &'a [u8], limit: usize, depth: u32) -> (r:
    std::result::Result<&'a [u8], Fault>)
    ensures
        traced(r) == message_step(part, rest@, limit as nat, depth as nat),
        r matches Ok(after) ==> after@.len() <= rest@.len(),
    decreases depth, 3int,
{
    let mut left: &'a [u8] = rest;
    while left.len() > limit
        invariant
            left@.len() <= rest@.len(),
            message_step(part, rest@, limit as nat, depth as nat) == message_step(
                part,
                left@,
                limit as nat,
                depth as nat,
            ),
        decreases left@.len(),
    {
        let (tag, kind, next): (u64, u64, &'a [u8]) = match take_key(left) {
            Ok(found) => found,
            Err(reason) => return Err(unplaced_reason(reason)),
        };
        match pass_field(part, tag, kind, next, depth) {
            Ok(after) => {
                left = after;
            },
            Err(fault) => return Err(fault),
        }
    }
    if left.len() == limit {
        Ok(left)
    } else {
        Err(unplaced_reason("delimited length exceeded".to_owned()))
    }
}

/// Finds what is wrong with bytes as a profile message.
pub fn find_profile_fault(bytes: &[u8]) -> (r: String)
    ensures
        r@ == profile_fault(bytes@),
{
    match pass_message(Part::Profile, bytes, 0, 100) {
        Ok(_) => {
            let r: String = String::new();
            assert(r@ =~= Seq::empty());
            r
        },
        Err(fault) => {
            let mut r: String = fault.path;
            r.push_str(fault.reason.as_str());
            r
        },
    }
}

} // verus!
