//! JSON values, one layer at a time.
//!
//! Parsing, printing and the value type itself are `serde_json`'s; this module
//! says what a value holds, opens a value by one layer, and closes a layer into
//! a value.

use serde::de::Unexpected;
use vstd::prelude::*;

use crate::error::{ErrorView, ProfcastError, Result};
use crate::model::{opt_text, FrameId};
use crate::number::{decimal, push_decimal};
use crate::path::word_list;

verus! {

/// A JSON value of `serde_json`.
#[verifier::external_type_specification]
#[verifier::external_body]
pub struct ExValue(serde_json::Value);

/// What a JSON value holds. A number that is no integer is told by its bits.
/// The entries of an object are in their order, and no two have one key.
pub enum JsonView {
    Null,
    Bool(bool),
    Number(int),
    Float(u64),
    Text(Seq<char>),
    Array(Seq<JsonView>),
    Object(Seq<(Seq<char>, JsonView)>),
}

/// What a `serde_json::Value` holds.
pub uninterp spec fn held(value: serde_json::Value) -> JsonView;

/// What `serde_json::from_slice` reads from bytes; nothing where it reports an
/// error.
pub uninterp spec fn json_parse(bytes: Seq<u8>) -> Option<JsonView>;

/// What `serde_json::to_vec` makes of a value.
pub uninterp spec fn compact_text(value: JsonView) -> Seq<u8>;

/// What `serde_json::to_vec_pretty` makes of a value.
pub uninterp spec fn pretty_text(value: JsonView) -> Seq<u8>;

/// The text of a value, pretty or compact.
pub open spec fn json_text(value: JsonView, pretty: bool) -> Seq<u8> {
    if pretty {
        pretty_text(value)
    } else {
        compact_text(value)
    }
}

/// Whether a value is an array or an object with something in it.
pub open spec fn holds_values(value: JsonView) -> bool {
    match value {
        JsonView::Array(items) => items.len() > 0,
        JsonView::Object(entries) => entries.len() > 0,
        _ => false,
    }
}

/// What a list of values holds.
pub open spec fn held_all(values: Seq<serde_json::Value>) -> Seq<JsonView> {
    Seq::new(values.len(), |i: int| held(values[i]))
}

/// What a list of keys and values holds.
pub open spec fn held_entries(entries: Seq<(String, serde_json::Value)>) -> Seq<
    (Seq<char>, JsonView),
> {
    Seq::new(entries.len(), |i: int| (entries[i].0@, held(entries[i].1)))
}

/// Whether no two entries have one key.
pub open spec fn distinct_keys(entries: Seq<(Seq<char>, JsonView)>) -> bool {
    forall|i: int, j: int|
        0 <= i < j < entries.len() ==> (#[trigger] entries[i]).0 != (#[trigger] entries[j]).0
}

/// A value opened by one layer.
pub enum Layer<'a> {
    Null,
    Bool(bool),
    Unsigned(u64),
    Negative(i64),
    Float(u64),
    Text(&'a str),
    Array(&'a Vec<serde_json::Value>),
    Object(Vec<(&'a str, &'a serde_json::Value)>),
}

impl<'a> View for Layer<'a> {
    type V = JsonView;

    open spec fn view(&self) -> JsonView {
        match self {
            Layer::Null => JsonView::Null,
            Layer::Bool(value) => JsonView::Bool(*value),
            Layer::Unsigned(value) => JsonView::Number(*value as int),
            Layer::Negative(value) => JsonView::Number(*value as int),
            Layer::Float(bits) => JsonView::Float(*bits),
            Layer::Text(text) => JsonView::Text(text@),
            Layer::Array(items) => JsonView::Array(held_all(items@)),
            Layer::Object(entries) => JsonView::Object(
                Seq::new(entries@.len(), |i: int| (entries@[i].0@, held(*entries@[i].1))),
            ),
        }
    }
}

/// Opens a `serde_json::Value` by one layer: its variant, and what stands in it.
/// `Number::as_u64` and `as_i64` tell an integer, and `as_f64` the bits of any
/// other number. `Map::iter` hands out the entries of an object in their order,
/// and no two of them have one key.
#[verifier::external_body]
pub(crate) fn open_value<'a>(value: &'a serde_json::Value) -> (r: Layer<'a>)
    ensures
        r@ == held(*value),
        r@ matches JsonView::Object(entries) ==> distinct_keys(entries),
{
    match value {
        serde_json::Value::Null => Layer::Null,
        serde_json::Value::Bool(value) => Layer::Bool(*value),
        serde_json::Value::Number(n) => match (n.as_u64(), n.as_i64(), n.as_f64()) {
            (Some(value), _, _) => Layer::Unsigned(value),
            (None, Some(value), _) => Layer::Negative(value),
            (None, None, value) => Layer::Float(value.unwrap_or_default().to_bits()),
        },
        serde_json::Value::String(text) => Layer::Text(text),
        serde_json::Value::Array(items) => Layer::Array(items),
        serde_json::Value::Object(map) => {
            Layer::Object(map.iter().map(|(key, value)| (key.as_str(), value)).collect())
        },
    }
}

/// A layer from which a value is made.
pub enum Shape {
    Null,
    Unsigned(u64),
    Signed(i64),
    Text(String),
    Array(Vec<serde_json::Value>),
    Object(Vec<(String, serde_json::Value)>),
}

impl View for Shape {
    type V = JsonView;

    open spec fn view(&self) -> JsonView {
        match self {
            Shape::Null => JsonView::Null,
            Shape::Unsigned(value) => JsonView::Number(*value as int),
            Shape::Signed(value) => JsonView::Number(*value as int),
            Shape::Text(text) => JsonView::Text(text@),
            Shape::Array(items) => JsonView::Array(held_all(items@)),
            Shape::Object(entries) => JsonView::Object(held_entries(entries@)),
        }
    }
}

/// Makes a `serde_json::Value` from a layer: `Value::from` of an integer, the
/// variant itself of a text or an array, and a `serde_json::Map` collected from
/// the entries of an object, which keeps their order.
#[verifier::external_body]
pub(crate) fn close_value(shape: Shape) -> (r: serde_json::Value)
    requires
        shape@ matches JsonView::Object(entries) ==> distinct_keys(entries),
    ensures
        held(r) == shape@,
{
    match shape {
        Shape::Null => serde_json::Value::Null,
        Shape::Unsigned(value) => serde_json::Value::from(value),
        Shape::Signed(value) => serde_json::Value::from(value),
        Shape::Text(text) => serde_json::Value::String(text),
        Shape::Array(items) => serde_json::Value::Array(items),
        Shape::Object(entries) => serde_json::Value::Object(entries.into_iter().collect()),
    }
}

/// Whether a value holds integers and texts only, and is at most `depth` layers
/// of arrays and objects deep.
pub open spec fn simple(value: JsonView, depth: nat) -> bool
    decreases depth,
{
    match value {
        JsonView::Null => true,
        JsonView::Bool(_) => true,
        JsonView::Number(n) => i64::MIN <= n <= u64::MAX,
        JsonView::Float(_) => false,
        JsonView::Text(_) => true,
        JsonView::Array(items) => depth > 0 && forall|i: int|
            0 <= i < items.len() ==> simple(#[trigger] items[i], (depth - 1) as nat),
        JsonView::Object(entries) => depth > 0 && forall|i: int|
            0 <= i < entries.len() ==> simple((#[trigger] entries[i]).1, (depth - 1) as nat),
    }
}

/// Parses by `serde_json::from_slice`.
#[verifier::external_body]
fn parse_value(bytes: &[u8]) -> (r: std::result::Result<serde_json::Value, serde_json::Error>)
    ensures
        match r {
            Ok(value) => json_parse(bytes@) == Some(held(value)),
            Err(_) => json_parse(bytes@) is None,
        },
{
    serde_json::from_slice(bytes)
}

/// Prints by `serde_json::to_vec`, which fails only where a value refuses to be
/// serialized or has keys that are no strings, and a `serde_json::Value` does
/// neither. The text is one line. A value of integers and texts that is not
/// nested deeper than the parser goes is parsed back as it was.
#[verifier::external_body]
fn print_compact(value: &serde_json::Value) -> (r: std::result::Result<Vec<u8>, serde_json::Error>)
    ensures
        r is Ok,
        r matches Ok(bytes) ==> {
            &&& bytes@ == compact_text(held(*value))
            &&& !bytes@.contains(0x0a)
            &&& simple(held(*value), 100) ==> json_parse(bytes@) == Some(held(*value))
        },
{
    serde_json::to_vec(value)
}

/// Prints by `serde_json::to_vec_pretty`, which fails only where a value
/// refuses to be serialized or has keys that are no strings, and a
/// `serde_json::Value` does neither. Each entry of an array or an object starts
/// a line. A value of integers and texts that is not nested deeper than the
/// parser goes is parsed back as it was.
#[verifier::external_body]
fn print_pretty(value: &serde_json::Value) -> (r: std::result::Result<Vec<u8>, serde_json::Error>)
    ensures
        r is Ok,
        r matches Ok(bytes) ==> {
            &&& bytes@ == pretty_text(held(*value))
            &&& holds_values(held(*value)) ==> bytes@.contains(0x0a)
            &&& simple(held(*value), 100) ==> json_parse(bytes@) == Some(held(*value))
        },
{
    serde_json::to_vec_pretty(value)
}

/// Whether an error, asked for its text, gives `text`.
pub open spec fn says(error: serde_json::Error, text: Seq<char>) -> bool {
    forall|given: String|
        #[trigger] vstd::string::to_string_from_display_ensures(&error, given) ==> given@ == text
}

/// Whether a text ends in a decimal number behind a space.
pub open spec fn ends_in_number(text: Seq<char>) -> bool {
    exists|k: int|
        0 <= k < text.len() - 1 && #[trigger] text[k] == ' ' && forall|j: int|
            k < j < text.len() ==> '0' <= #[trigger] text[j] <= '9'
}

/// An error with a text of its own, by `serde::de::Error::custom`. Its
/// `to_string` gives the text back. A text that ends in a number behind a space
/// is left out: it may name a line and a column, which `serde_json` takes as a
/// place in the input and writes anew.
#[verifier::external_body]
pub(crate) fn custom_error(message: &str) -> (r: serde_json::Error)
    ensures
        !ends_in_number(message@) ==> says(r, message@),
{
    <serde_json::Error as serde::de::Error>::custom(message)
}

proof fn lemma_no_number(text: Seq<char>)
    requires
        text.len() > 0,
        !('0' <= text.last() <= '9'),
    ensures
        !ends_in_number(text),
{
    assert(text[text.len() - 1] == text.last());
}

/// The text of the error that `serde_json` has for a value that is not of the
/// expected kind.
pub uninterp spec fn wrong_type_text(value: JsonView, expected: Seq<char>) -> Seq<char>;

/// The error for a value that is not of the expected kind, by
/// `serde::de::Error::invalid_type`. Its text rests on the value and on what was
/// expected alone: it quotes a number, a text or a truth value, and names any
/// other kind.
#[verifier::external_body]
pub(crate) fn wrong_type(value: &serde_json::Value, expected: &str) -> (r: serde_json::Error)
    ensures
        says(r, wrong_type_text(held(*value), expected@)),
{
    let found = match value {
        serde_json::Value::Null => Unexpected::Unit,
        serde_json::Value::Bool(value) => Unexpected::Bool(*value),
        serde_json::Value::Number(n) => match (n.as_u64(), n.as_i64()) {
            (Some(value), _) => Unexpected::Unsigned(value),
            (None, Some(value)) => Unexpected::Signed(value),
            (None, None) => Unexpected::Float(n.as_f64().unwrap_or_default()),
        },
        serde_json::Value::String(text) => Unexpected::Str(text),
        serde_json::Value::Array(_) => Unexpected::Seq,
        serde_json::Value::Object(_) => Unexpected::Map,
    };
    serde::de::Error::invalid_type(found, &expected)
}

/// What is said of an integer that is out of range.
pub open spec fn range_text(n: nat, expected: Seq<char>) -> Seq<char> {
    "invalid value: integer `"@ + decimal(n) + "`, expected "@ + expected
}

/// What is said of an array that is too short or too long.
pub open spec fn length_text(length: nat, expected: Seq<char>) -> Seq<char> {
    "invalid length "@ + decimal(length) + ", expected "@ + expected
}

/// What is said of a field that is not there.
pub open spec fn missing_text(field: Seq<char>) -> Seq<char> {
    "missing field `"@ + field + "`"@
}

/// The error for an integer that is out of range.
pub(crate) fn out_of_range(n: u64, expected: &str) -> (r: serde_json::Error)
    ensures
        !ends_in_number(range_text(n as nat, expected@)) ==> says(
            r,
            range_text(n as nat, expected@),
        ),
{
    let mut text: String = "invalid value: integer `".to_owned();
    push_decimal(&mut text, n);
    text.push_str("`, expected ");
    text.push_str(expected);
    custom_error(text.as_str())
}

/// The error for an array that is too short or too long.
pub(crate) fn wrong_length(length: usize, expected: &str) -> (r: serde_json::Error)
    ensures
        !ends_in_number(length_text(length as nat, expected@)) ==> says(
            r,
            length_text(length as nat, expected@),
        ),
{
    let mut text: String = "invalid length ".to_owned();
    push_decimal(&mut text, length as u64);
    text.push_str(", expected ");
    text.push_str(expected);
    custom_error(text.as_str())
}

/// The error for a field that is not there.
pub(crate) fn missing_field(field: &str) -> (r: serde_json::Error)
    ensures
        says(r, missing_text(field@)),
{
    proof {
        reveal_strlit("`");
    }
    let mut text: String = "missing field `".to_owned();
    text.push_str(field);
    text.push_str("`");
    proof {
        lemma_no_number(text@);
    }
    custom_error(text.as_str())
}

/// Parses a JSON text.
pub fn parse_json(bytes: &[u8]) -> (r: Result<serde_json::Value>)
    ensures
        match r {
            Ok(value) => json_parse(bytes@) == Some(held(value)),
            Err(error) => json_parse(bytes@) is None && error@ == ErrorView::Json,
        },
{
    match parse_value(bytes) {
        Ok(value) => Ok(value),
        Err(error) => Err(ProfcastError::Json(error)),
    }
}

/// Prints a JSON value.
pub fn print_json(value: &serde_json::Value, pretty: bool) -> (r: Result<Vec<u8>>)
    ensures
        crate::error::outcome(r) == Ok::<Seq<u8>, crate::error::ErrorView>(
            json_text(held(*value), pretty),
        ),
        r matches Ok(bytes) ==> simple(held(*value), 100) ==> json_parse(bytes@) == Some(
            held(*value),
        ),
        r matches Ok(bytes) ==> holds_values(held(*value)) ==> (bytes@.contains(0x0a) <==> pretty),
{
    let printed = if pretty {
        print_pretty(value)
    } else {
        print_compact(value)
    };
    match printed {
        Ok(bytes) => Ok(bytes),
        Err(error) => Err(ProfcastError::Json(error)),
    }
}

/// The value of the entry with a key.
pub open spec fn entry(entries: Seq<(Seq<char>, JsonView)>, key: Seq<char>) -> Option<JsonView>
    decreases entries.len(),
{
    if entries.len() == 0 {
        None
    } else if entries.last().0 == key {
        Some(entries.last().1)
    } else {
        entry(entries.drop_last(), key)
    }
}

/// What a list of borrowed entries holds.
pub open spec fn opened(entries: Seq<(&str, &serde_json::Value)>) -> Seq<(Seq<char>, JsonView)> {
    Seq::new(entries.len(), |i: int| (entries[i].0@, held(*entries[i].1)))
}

/// Finds the entry with a key.
pub fn find_entry<'a>(entries: &Vec<(&'a str, &'a serde_json::Value)>, key: &str) -> (r: Option<
    &'a serde_json::Value,
>)
    ensures
        match r {
            Some(value) => entry(opened(entries@), key@) == Some(held(*value)),
            None => entry(opened(entries@), key@) is None,
        },
{
    let ghost all = opened(entries@);
    let mut n: usize = entries.len();
    assert(all.take(n as int) =~= all);
    while n > 0
        invariant
            n <= entries.len(),
            all == opened(entries@),
            entry(all, key@) == entry(all.take(n as int), key@),
        decreases n,
    {
        assert(all.take(n as int).drop_last() =~= all.take(n - 1));
        assert(all.take(n as int).last() == all[n - 1]);
        if crate::text::same_text(entries[n - 1].0, key) {
            return Some(entries[n - 1].1);
        }
        n = n - 1;
    }
    None
}

/// A text as a value.
pub fn text_value(text: &str) -> (r: serde_json::Value)
    ensures
        held(r) == JsonView::Text(text@),
{
    close_value(Shape::Text(text.to_owned()))
}

/// An unsigned integer as a value.
pub fn unsigned_value(n: u64) -> (r: serde_json::Value)
    ensures
        held(r) == JsonView::Number(n as int),
{
    close_value(Shape::Unsigned(n))
}

/// A signed integer as a value.
pub fn signed_value(n: i64) -> (r: serde_json::Value)
    ensures
        held(r) == JsonView::Number(n as int),
{
    close_value(Shape::Signed(n))
}

/// A text that may be missing, which is null.
pub open spec fn opt_text_view(text: Option<Seq<char>>) -> JsonView {
    match text {
        Some(text) => JsonView::Text(text),
        None => JsonView::Null,
    }
}

/// A text that may be missing, which is null.
pub fn opt_text_value(text: &Option<String>) -> (r: serde_json::Value)
    ensures
        held(r) == opt_text_view(opt_text(*text)),
{
    match text {
        Some(text) => text_value(text.as_str()),
        None => close_value(Shape::Null),
    }
}

/// An integer that may be missing, which is null.
pub open spec fn opt_number_view(n: Option<u64>) -> JsonView {
    match n {
        Some(n) => JsonView::Number(n as int),
        None => JsonView::Null,
    }
}

/// An integer that may be missing, which is null.
pub fn opt_number_value(n: Option<u64>) -> (r: serde_json::Value)
    ensures
        held(r) == opt_number_view(n),
{
    match n {
        Some(n) => unsigned_value(n),
        None => close_value(Shape::Null),
    }
}

/// An array.
pub fn array_value(items: Vec<serde_json::Value>) -> (r: serde_json::Value)
    ensures
        held(r) == JsonView::Array(held_all(items@)),
{
    close_value(Shape::Array(items))
}

/// An object.
pub fn object_value(entries: Vec<(String, serde_json::Value)>) -> (r: serde_json::Value)
    requires
        distinct_keys(held_entries(entries@)),
    ensures
        held(r) == JsonView::Object(held_entries(entries@)),
{
    close_value(Shape::Object(entries))
}

/// A list of signed integers.
pub open spec fn numbers_view(values: Seq<i64>) -> JsonView {
    JsonView::Array(Seq::new(values.len(), |i: int| JsonView::Number(values[i] as int)))
}

/// A list of signed integers.
pub fn numbers_value(values: &Vec<i64>) -> (r: serde_json::Value)
    ensures
        held(r) == numbers_view(values@),
{
    let mut items: Vec<serde_json::Value> = Vec::new();
    let mut i: usize = 0;
    while i < values.len()
        invariant
            i <= values.len(),
            items@.len() == i,
            forall|j: int|
                0 <= j < i ==> held(#[trigger] items@[j]) == JsonView::Number(values@[j] as int),
        decreases values.len() - i,
    {
        items.push(signed_value(values[i]));
        i = i + 1;
    }
    let r = array_value(items);
    assert(held_all(items@) =~= Seq::new(
        values@.len(),
        |i: int| JsonView::Number(values@[i] as int),
    ));
    r
}

/// The frame ids of a stack.
pub open spec fn stack_view(stack: Seq<FrameId>) -> JsonView {
    JsonView::Array(Seq::new(stack.len(), |i: int| JsonView::Number(stack[i].0 as int)))
}

/// The frame ids of a stack.
pub fn stack_value(stack: &Vec<FrameId>) -> (r: serde_json::Value)
    ensures
        held(r) == stack_view(stack@),
{
    let mut items: Vec<serde_json::Value> = Vec::new();
    let mut i: usize = 0;
    while i < stack.len()
        invariant
            i <= stack.len(),
            items@.len() == i,
            forall|j: int|
                0 <= j < i ==> held(#[trigger] items@[j]) == JsonView::Number(stack@[j].0 as int),
        decreases stack.len() - i,
    {
        items.push(unsigned_value(stack[i].0 as u64));
        i = i + 1;
    }
    let r = array_value(items);
    assert(held_all(items@) =~= Seq::new(
        stack@.len(),
        |i: int| JsonView::Number(stack@[i].0 as int),
    ));
    r
}

/// The fields of a record, each where it is given: by key in an object, or by
/// position in an array. An array has as many items as there are fields, or
/// fewer where `lenient` is set.
pub open spec fn record(value: JsonView, keys: Seq<Seq<char>>, lenient: bool) -> Option<
    Seq<Option<JsonView>>,
> {
    match value {
        JsonView::Object(entries) => Some(
            Seq::new(keys.len(), |i: int| entry(entries, keys[i])),
        ),
        JsonView::Array(items) => if items.len() == keys.len() || (lenient && items.len()
            < keys.len()) {
            Some(
                Seq::new(
                    keys.len(),
                    |i: int|
                        if i < items.len() {
                            Some(items[i])
                        } else {
                            None
                        },
                ),
            )
        } else {
            None
        },
        _ => None,
    }
}

/// What a list of fields holds, each where it is given.
pub open spec fn held_fields(fields: Seq<Option<&serde_json::Value>>) -> Seq<Option<JsonView>> {
    Seq::new(
        fields.len(),
        |i: int|
            match fields[i] {
                Some(value) => Some(held(*value)),
                None => None,
            },
    )
}

/// Opens a record.
pub fn open_record<'a>(
    value: &'a serde_json::Value,
    keys: &[&'static str],
    lenient: bool,
) -> (r: Option<Vec<Option<&'a serde_json::Value>>>)
    ensures
        match r {
            Some(fields) => record(held(*value), word_list(keys@), lenient) == Some(
                held_fields(fields@),
            ),
            None => record(held(*value), word_list(keys@), lenient) is None,
        },
{
    let ghost names = word_list(keys@);
    let mut out: Vec<Option<&'a serde_json::Value>> = Vec::new();
    match open_value(value) {
        Layer::Object(entries) => {
            let ghost all = opened(entries@);
            let mut i: usize = 0;
            while i < keys.len()
                invariant
                    i <= keys.len(),
                    names == word_list(keys@),
                    all == opened(entries@),
                    out@.len() == i,
                    forall|j: int|
                        0 <= j < i ==> match #[trigger] out@[j] {
                            Some(value) => entry(all, names[j]) == Some(held(*value)),
                            None => entry(all, names[j]) is None,
                        },
                decreases keys.len() - i,
            {
                out.push(find_entry(&entries, keys[i]));
                i = i + 1;
            }
            assert(held_fields(out@) =~= record(held(*value), names, lenient)->0);
            Some(out)
        },
        Layer::Array(items) => {
            if items.len() == keys.len() || (lenient && items.len() < keys.len()) {
                let mut i: usize = 0;
                while i < keys.len()
                    invariant
                        i <= keys.len(),
                        out@.len() == i,
                        forall|j: int|
                            0 <= j < i ==> match #[trigger] out@[j] {
                                Some(value) => j < items.len() && *value == items@[j],
                                None => j >= items.len(),
                            },
                    decreases keys.len() - i,
                {
                    if i < items.len() {
                        out.push(Some(&items[i]));
                    } else {
                        out.push(None);
                    }
                    i = i + 1;
                }
                assert(held_fields(out@) =~= record(held(*value), names, lenient)->0);
                Some(out)
            } else {
                None
            }
        },
        _ => None,
    }
}

/// The text that a value is.
pub open spec fn as_text(value: JsonView) -> Option<Seq<char>> {
    match value {
        JsonView::Text(text) => Some(text),
        _ => None,
    }
}

/// The integer that a value is, where it is in range.
pub open spec fn as_number(value: JsonView, min: int, max: int) -> Option<int> {
    match value {
        JsonView::Number(n) => if min <= n <= max {
            Some(n)
        } else {
            None
        },
        _ => None,
    }
}

/// Reads a text.
pub fn read_text(value: &serde_json::Value) -> (r: Option<String>)
    ensures
        match r {
            Some(text) => as_text(held(*value)) == Some(text@),
            None => as_text(held(*value)) is None,
        },
{
    match open_value(value) {
        Layer::Text(text) => Some(text.to_owned()),
        _ => None,
    }
}

/// Reads an unsigned integer of at most `max`.
pub fn read_unsigned(value: &serde_json::Value, max: u64) -> (r: Option<u64>)
    ensures
        match r {
            Some(n) => as_number(held(*value), 0, max as int) == Some(n as int) && n <= max,
            None => as_number(held(*value), 0, max as int) is None,
        },
{
    match open_value(value) {
        Layer::Unsigned(n) => if n <= max {
            Some(n)
        } else {
            None
        },
        Layer::Negative(n) => if 0 <= n && n as u64 <= max {
            Some(n as u64)
        } else {
            None
        },
        _ => None,
    }
}

/// Reads a signed integer.
pub fn read_signed(value: &serde_json::Value) -> (r: Option<i64>)
    ensures
        match r {
            Some(n) => as_number(held(*value), i64::MIN as int, i64::MAX as int) == Some(n as int),
            None => as_number(held(*value), i64::MIN as int, i64::MAX as int) is None,
        },
{
    match open_value(value) {
        Layer::Unsigned(n) => if n <= i64::MAX as u64 {
            Some(n as i64)
        } else {
            None
        },
        Layer::Negative(n) => Some(n),
        _ => None,
    }
}

/// The items of an array.
pub open spec fn as_array(value: JsonView) -> Option<Seq<JsonView>> {
    match value {
        JsonView::Array(items) => Some(items),
        _ => None,
    }
}

/// Reads the items of an array.
pub fn read_array<'a>(value: &'a serde_json::Value) -> (r: Option<&'a Vec<serde_json::Value>>)
    ensures
        match r {
            Some(items) => as_array(held(*value)) == Some(held_all(items@)),
            None => as_array(held(*value)) is None,
        },
{
    match open_value(value) {
        Layer::Array(items) => Some(items),
        _ => None,
    }
}

/// A text that may be missing: not given, or null. The outer `None` is a value
/// of another kind.
pub open spec fn as_opt_text(field: Option<JsonView>) -> Option<Option<Seq<char>>> {
    match field {
        None => Some(None),
        Some(JsonView::Null) => Some(None),
        Some(value) => match as_text(value) {
            Some(text) => Some(Some(text)),
            None => None,
        },
    }
}

/// An integer that may be missing: not given, or null. The outer `None` is a
/// value of another kind.
pub open spec fn as_opt_number(field: Option<JsonView>, min: int, max: int) -> Option<Option<int>> {
    match field {
        None => Some(None),
        Some(JsonView::Null) => Some(None),
        Some(value) => match as_number(value, min, max) {
            Some(n) => Some(Some(n)),
            None => None,
        },
    }
}

/// What a field holds, where it is given.
pub open spec fn held_opt(field: Option<&serde_json::Value>) -> Option<JsonView> {
    match field {
        Some(value) => Some(held(*value)),
        None => None,
    }
}

/// Whether a field is missing: not given, or null.
fn is_missing(field: Option<&serde_json::Value>) -> (r: bool)
    ensures
        r == (held_opt(field) is None || held_opt(field) == Some(JsonView::Null)),
{
    match field {
        None => true,
        Some(value) => match open_value(value) {
            Layer::Null => true,
            _ => false,
        },
    }
}

/// Reads a text that may be missing.
pub fn read_opt_text(field: Option<&serde_json::Value>) -> (r: Option<Option<String>>)
    ensures
        match r {
            Some(text) => as_opt_text(held_opt(field)) == Some(opt_text(text)),
            None => as_opt_text(held_opt(field)) is None,
        },
{
    if is_missing(field) {
        return Some(None);
    }
    match field {
        None => Some(None),
        Some(value) => match read_text(value) {
            Some(text) => Some(Some(text)),
            None => None,
        },
    }
}

/// Reads an unsigned integer that may be missing.
pub fn read_opt_unsigned(field: Option<&serde_json::Value>, max: u64) -> (r: Option<Option<u64>>)
    ensures
        match r {
            Some(Some(n)) => as_opt_number(held_opt(field), 0, max as int) == Some(Some(n as int))
                && n <= max,
            Some(None) => as_opt_number(held_opt(field), 0, max as int) == Some(None::<int>),
            None => as_opt_number(held_opt(field), 0, max as int) is None,
        },
{
    if is_missing(field) {
        return Some(None);
    }
    match field {
        None => Some(None),
        Some(value) => match read_unsigned(value, max) {
            Some(n) => Some(Some(n)),
            None => None,
        },
    }
}

/// Reads a signed integer that may be missing.
pub fn read_opt_signed(field: Option<&serde_json::Value>) -> (r: Option<Option<i64>>)
    ensures
        match r {
            Some(Some(n)) => as_opt_number(held_opt(field), i64::MIN as int, i64::MAX as int)
                == Some(Some(n as int)),
            Some(None) => as_opt_number(held_opt(field), i64::MIN as int, i64::MAX as int) == Some(
                None::<int>,
            ),
            None => as_opt_number(held_opt(field), i64::MIN as int, i64::MAX as int) is None,
        },
{
    if is_missing(field) {
        return Some(None);
    }
    match field {
        None => Some(None),
        Some(value) => match read_signed(value) {
            Some(n) => Some(Some(n)),
            None => None,
        },
    }
}

} // verus!
