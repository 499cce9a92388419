//! What cutting and trimming text means.

use vstd::prelude::*;

use crate::text::{
    first_of, is_white, lemma_first_is, lemma_first_of, lines, split, trim, trim_end, trim_start,
};

verus! {

/// Whether a text is white space only.
pub open spec fn blank(s: Seq<char>) -> bool {
    forall|i: int| 0 <= i < s.len() ==> is_white(#[trigger] s[i])
}

proof fn lemma_drop_blanks_before(blanks: Seq<char>, s: Seq<char>)
    requires
        blank(blanks),
    ensures
        trim_start(blanks + s) == trim_start(s),
    decreases blanks.len(),
{
    let whole = blanks + s;
    if blanks.len() > 0 {
        assert(whole[0] == blanks[0]);
        let rest = blanks.skip(1);
        assert forall|i: int| 0 <= i < rest.len() implies is_white(#[trigger] rest[i]) by {
            assert(rest[i] == blanks[i + 1]);
        }
        assert(whole.skip(1) =~= rest + s);
        lemma_drop_blanks_before(rest, s);
    } else {
        assert(whole =~= s);
    }
}

proof fn lemma_drop_blanks_after(s: Seq<char>, blanks: Seq<char>)
    requires
        blank(blanks),
    ensures
        trim_end(s + blanks) == trim_end(s),
    decreases blanks.len(),
{
    let whole = s + blanks;
    if blanks.len() > 0 {
        assert(whole.last() == blanks[blanks.len() - 1]);
        let rest = blanks.drop_last();
        assert forall|i: int| 0 <= i < rest.len() implies is_white(#[trigger] rest[i]) by {
            assert(rest[i] == blanks[i]);
        }
        assert(whole.drop_last() =~= s + rest);
        lemma_drop_blanks_after(s, rest);
    } else {
        assert(whole =~= s);
    }
}

/// Trimming drops the white space around a text and nothing of the text, which
/// neither starts nor ends in white space.
pub proof fn law_trimming_drops_the_blanks_around(
    before: Seq<char>,
    text: Seq<char>,
    after: Seq<char>,
)
    requires
        blank(before),
        blank(after),
        text.len() > 0 ==> !is_white(text[0]) && !is_white(text.last()),
    ensures
        trim(before + text + after) == text,
        trim_end(text + after) == text,
        trim_start(before + text) == text,
{
    assert(before + text + after =~= before + (text + after));
    lemma_drop_blanks_before(before, text + after);
    lemma_drop_blanks_before(before, text);
    lemma_drop_blanks_after(text, after);
    if text.len() == 0 {
        assert(text + after =~= after);
        let nothing = Seq::<char>::empty();
        assert(after + nothing =~= after);
        lemma_drop_blanks_before(after, nothing);
    } else {
        assert((text + after)[0] == text[0]);
    }
}

/// The pieces of a text between separators, put together with the separators
/// between them, are the text, and none of them holds a separator.
pub proof fn law_split_pieces_make_up_the_text(s: Seq<char>, sep: char)
    ensures
        split(s, sep).len() > 0,
        split_joined(split(s, sep), sep) == s,
        forall|i: int| 0 <= i < split(s, sep).len() ==> !(#[trigger] split(s, sep)[i]).contains(sep),
    decreases s.len(),
{
    lemma_first_of(s, sep);
    let end = first_of(s, sep);
    let all = split(s, sep);
    if end < s.len() {
        let rest = split(s.skip(end + 1), sep);
        law_split_pieces_make_up_the_text(s.skip(end + 1), sep);
        assert(all.skip(1) =~= rest);
        assert(all[0] == s.take(end));
        assert(split_joined(all, sep) =~= s);
        assert forall|i: int| 0 <= i < all.len() implies !(#[trigger] all[i]).contains(sep) by {
            if i > 0 {
                assert(all[i] == rest[i - 1]);
            }
        }
    } else {
        assert(all[0] == s);
    }
}

/// Pieces with a separator between each two.
pub open spec fn split_joined(parts: Seq<Seq<char>>, sep: char) -> Seq<char>
    decreases parts.len(),
{
    if parts.len() == 0 {
        Seq::empty()
    } else if parts.len() == 1 {
        parts[0]
    } else {
        parts[0] + seq![sep] + split_joined(parts.skip(1), sep)
    }
}

/// Lines with a line feed behind each.
pub open spec fn lines_joined(parts: Seq<Seq<char>>) -> Seq<char>
    decreases parts.len(),
{
    if parts.len() == 0 {
        Seq::empty()
    } else {
        parts[0] + seq!['\n'] + lines_joined(parts.skip(1))
    }
}

/// Lines that are written one after the other, each with a line feed, are read
/// as those lines, where none of them holds a line feed or ends in a carriage
/// return; one of these before the line feed is dropped.
pub proof fn law_written_lines_are_read(parts: Seq<Seq<char>>)
    requires
        forall|i: int|
            0 <= i < parts.len() ==> !(#[trigger] parts[i]).contains('\n') && (parts[i].len() > 0
                ==> parts[i].last() != '\r'),
    ensures
        lines(lines_joined(parts)) == parts,
    decreases parts.len(),
{
    let text = lines_joined(parts);
    if parts.len() > 0 {
        let first = parts[0];
        assert(!first.contains('\n'));
        let rest = parts.skip(1);
        assert forall|i: int| 0 <= i < rest.len() implies !(#[trigger] rest[i]).contains('\n') && (
        rest[i].len() > 0 ==> rest[i].last() != '\r') by {
            assert(rest[i] == parts[i + 1]);
        }
        law_written_lines_are_read(rest);
        let end = first.len() as int;
        assert forall|j: int| 0 <= j < end implies text[j] != '\n' by {
            assert(text[j] == first[j]);
            assert(first.contains(first[j]));
        }
        lemma_first_is(text, '\n', end);
        assert(text.take(end) =~= first);
        assert(text.skip(end + 1) =~= lines_joined(rest));
        assert(seq![first] + rest =~= parts);
    }
}

/// A carriage return before a line feed belongs to the end of the line.
pub proof fn law_carriage_returns_end_lines(line: Seq<char>, rest: Seq<char>)
    requires
        !line.contains('\n'),
    ensures
        lines(line + seq!['\r', '\n'] + rest) == seq![line] + lines(rest),
{
    let text = line + seq!['\r', '\n'] + rest;
    let end = (line.len() + 1) as int;
    assert forall|j: int| 0 <= j < end implies text[j] != '\n' by {
        if j < line.len() {
            assert(text[j] == line[j]);
            assert(line.contains(line[j]));
        }
    }
    lemma_first_is(text, '\n', end);
    assert(text.take(end) =~= line.push('\r'));
    assert(line.push('\r').drop_last() =~= line);
    assert(text.skip(end + 1) =~= rest);
}

/// Of the characters of ASCII the space, the tab and the four line breaks from
/// line feed to carriage return are white space, and no letter, digit, mark or
/// other control character is.
pub proof fn law_ascii_white_space(c: char)
    requires
        c as u32 <= 0x7f,
    ensures
        is_white(c) <==> c == ' ' || c == '\t' || 0xa <= c as u32 <= 0xd,
{
}

/// Beyond ASCII the next line, the no-break space, the blanks from U+2000 to
/// U+200A, the line and paragraph separators and the blanks of four scripts are
/// white space; a zero-width space is none, and no letter of a script is.
pub proof fn law_wide_white_space(c: char)
    requires
        c as u32 > 0x7f,
    ensures
        c as u32 == 0x85 || c as u32 == 0xa0 ==> is_white(c),
        0x2000 <= c as u32 <= 0x200a ==> is_white(c),
        c as u32 == 0x2028 || c as u32 == 0x2029 ==> is_white(c),
        c as u32 == 0x1680 || c as u32 == 0x202f || c as u32 == 0x205f || c as u32 == 0x3000
            ==> is_white(c),
        c as u32 == 0x200b ==> !is_white(c),
        0xa1 <= (c as u32) && (c as u32) < 0x1680 ==> !is_white(c),
        c as u32 > 0x3000 ==> !is_white(c),
{
}

} // verus!
