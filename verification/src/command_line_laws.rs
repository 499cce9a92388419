//! How arguments stand in a command line, and how text stands in UTF-16.

use vstd::prelude::*;

use crate::command_line::{command_line, escaped, needs_quotes, quoted, slashes, utf16, utf16_units};

verus! {

/// Whether a character has to be inside quotes: a blank of any kind, or a quote.
pub open spec fn sets_apart(c: char) -> bool {
    c == ' ' || c == '\t' || c == '\n' || c == '\u{b}' || c == '"'
}

/// An argument stands as it is where it is not empty and no character in it has
/// to be inside quotes. Any other stands between quotes.
pub proof fn law_arguments_are_quoted_where_needed(arg: Seq<char>)
    ensures
        arg.len() > 0 && (forall|i: int| 0 <= i < arg.len() ==> !sets_apart(#[trigger] arg[i]))
            ==> quoted(arg) == arg,
        arg.len() == 0 || (exists|i: int| 0 <= i < arg.len() && sets_apart(#[trigger] arg[i]))
            ==> quoted(arg).len() >= 2 && quoted(arg)[0] == '"' && quoted(arg).last() == '"'
            && quoted(arg) == seq!['"'] + escaped(arg, 0) + seq!['"'],
{
    if arg.len() > 0 && (forall|i: int| 0 <= i < arg.len() ==> !sets_apart(#[trigger] arg[i])) {
        assert forall|i: int| 0 <= i < arg.len() implies !crate::command_line::splits(
            #[trigger] arg[i],
        ) by {
            assert(!sets_apart(arg[i]));
        }
    } else if exists|i: int| 0 <= i < arg.len() && sets_apart(#[trigger] arg[i]) {
        let i = choose|i: int| 0 <= i < arg.len() && sets_apart(#[trigger] arg[i]);
        assert(crate::command_line::splits(arg[i]));
        assert(needs_quotes(arg));
    }
}

/// Whether a text holds neither a backslash nor a quote.
pub open spec fn plain(s: Seq<char>) -> bool {
    forall|i: int| 0 <= i < s.len() ==> #[trigger] s[i] != '\\' && s[i] != '"'
}

proof fn lemma_slashes_wait(count: nat, tail: Seq<char>, pending: nat)
    ensures
        escaped(slashes(count) + tail, pending) == escaped(tail, pending + count),
    decreases count,
{
    let all = slashes(count) + tail;
    if count > 0 {
        assert(all[0] == '\\');
        assert(all.skip(1) =~= slashes((count - 1) as nat) + tail);
        lemma_slashes_wait((count - 1) as nat, tail, pending + 1);
    } else {
        assert(all =~= tail);
    }
}

proof fn lemma_plain_stays(text: Seq<char>, tail: Seq<char>)
    requires
        plain(text),
    ensures
        escaped(text + tail, 0) == text + escaped(tail, 0),
    decreases text.len(),
{
    let all = text + tail;
    if text.len() > 0 {
        let rest = text.skip(1);
        assert(all[0] == text[0]);
        assert(text[0] != '\\' && text[0] != '"');
        assert(all.skip(1) =~= rest + tail);
        assert forall|i: int| 0 <= i < rest.len() implies #[trigger] rest[i] != '\\' && rest[i]
            != '"' by {
            assert(rest[i] == text[i + 1]);
        }
        lemma_plain_stays(rest, tail);
        assert(slashes(0) + seq![text[0]] + (rest + escaped(tail, 0)) =~= text + escaped(tail, 0));
    } else {
        assert(all =~= tail);
        assert(text + escaped(tail, 0) =~= escaped(tail, 0));
    }
}

/// Inside quotes, backslashes are doubled before a quote, which gets one more,
/// and at the end; everywhere else they stay, as all other text does.
pub proof fn law_backslashes_are_doubled_before_quotes(
    text: Seq<char>,
    count: nat,
    c: char,
    tail: Seq<char>,
)
    requires
        plain(text),
        c != '\\' && c != '"',
    ensures
        escaped(text, 0) == text,
        escaped(text + slashes(count), 0) == text + slashes(2 * count),
        escaped(text + slashes(count) + seq!['"'] + tail, 0) == text + slashes(2 * count + 1)
            + seq!['"'] + escaped(tail, 0),
        escaped(text + slashes(count) + seq![c] + tail, 0) == text + slashes(count) + seq![c]
            + escaped(tail, 0),
{
    let nothing = Seq::<char>::empty();
    assert(text + nothing =~= text);
    lemma_plain_stays(text, nothing);
    assert(slashes(0) =~= nothing);
    assert(escaped(nothing, 0) =~= nothing);
    lemma_plain_stays(text, slashes(count));
    lemma_slashes_wait(count, nothing, 0);
    assert(slashes(count) + nothing =~= slashes(count));
    let quote = seq!['"'] + tail;
    assert(text + slashes(count) + seq!['"'] + tail =~= text + (slashes(count) + quote));
    lemma_plain_stays(text, slashes(count) + quote);
    lemma_slashes_wait(count, quote, 0);
    assert(quote.skip(1) =~= tail);
    assert(text + (slashes(2 * count + 1) + seq!['"'] + escaped(tail, 0)) =~= text + slashes(
        2 * count + 1,
    ) + seq!['"'] + escaped(tail, 0));
    let other = seq![c] + tail;
    assert(text + slashes(count) + seq![c] + tail =~= text + (slashes(count) + other));
    lemma_plain_stays(text, slashes(count) + other);
    lemma_slashes_wait(count, other, 0);
    assert(other.skip(1) =~= tail);
    assert(text + (slashes(count) + seq![c] + escaped(tail, 0)) =~= text + slashes(count) + seq![c]
        + escaped(tail, 0));
}

/// Arguments stand in their order with one space between two.
pub proof fn law_arguments_are_set_apart_by_spaces(argv: Seq<Seq<char>>, arg: Seq<char>)
    ensures
        command_line(Seq::empty()).len() == 0,
        command_line(seq![arg]) == quoted(arg),
        argv.len() > 0 ==> command_line(argv.push(arg)) == command_line(argv) + seq![' '] + quoted(
            arg,
        ),
{
    assert(argv.push(arg).drop_last() =~= argv);
}

/// A character of the basic plane is one unit, its code. Any other is two: the
/// upper ten bits of what its code has beyond the basic plane, and the lower
/// ten, each in its own range.
pub proof fn law_characters_are_one_or_two_units(c: char)
    ensures
        (c as u32) < 0x1_0000 ==> utf16_units(c).len() == 1 && utf16_units(c)[0] == c as u32,
        (c as u32) >= 0x1_0000 ==> {
            &&& utf16_units(c).len() == 2
            &&& 0xd800 <= utf16_units(c)[0] < 0xdc00
            &&& 0xdc00 <= utf16_units(c)[1] < 0xe000
            &&& 0x1_0000 + 0x400 * (utf16_units(c)[0] - 0xd800) + (utf16_units(c)[1] - 0xdc00)
                == c as u32
        },
{
}

/// The units of a text are those of its characters, in their order.
pub proof fn law_texts_are_their_characters(a: Seq<char>, b: Seq<char>, c: char)
    ensures
        utf16(a + b) == utf16(a) + utf16(b),
        utf16(seq![c]) == utf16_units(c),
        utf16(Seq::empty()).len() == 0,
    decreases b.len(),
{
    assert(seq![c].drop_last() =~= Seq::empty());
    assert(utf16(Seq::<char>::empty()) =~= Seq::empty());
    assert(utf16(seq![c]) =~= utf16_units(c)) by {
        reveal_with_fuel(utf16, 2);
    }
    if b.len() > 0 {
        assert((a + b).drop_last() =~= a + b.drop_last());
        law_texts_are_their_characters(a, b.drop_last(), c);
        assert(utf16(a + b) =~= utf16(a) + utf16(b));
    } else {
        assert(a + b =~= a);
        assert(utf16(a) + utf16(b) =~= utf16(a));
    }
}

} // verus!
