//! Text on which the line oriented formats rest: trimming, splitting, and the
//! reading and rendering of integers, on sequences of characters.

use vstd::prelude::*;
use vstd::slice::slice_subrange;
use vstd::utf8::{decode_utf8, encode_utf8, encode_utf8_decode_utf8, valid_utf8};

verus! {

/// `String::push` appends one character.
pub assume_specification[ String::push ](s: &mut String, c: char)
    ensures
        final(s)@ == old(s)@.push(c),
;

/// `String::push_str` appends a whole string.
pub assume_specification[ String::push_str ](s: &mut String, tail: &str)
    ensures
        final(s)@ == old(s)@ + tail@,
;

/// `String::into_bytes` hands out the UTF-8 encoding of the string.
pub assume_specification[ String::into_bytes ](s: String) -> (bytes: Vec<u8>)
    ensures
        bytes@ == encode_utf8(s@),
;

/// `std::str::from_utf8` accepts exactly the valid UTF-8, and hands out the
/// text whose encoding the bytes are.
pub assume_specification<'a>[ std::str::from_utf8 ](bytes: &'a [u8]) -> (r: std::result::Result<
    &'a str,
    std::str::Utf8Error,
>)
    ensures
        r is Ok <==> valid_utf8(bytes@),
        r matches Ok(text) ==> encode_utf8(text@) == bytes@,
;

/// The text that `String::from_utf8_lossy` makes of bytes: where they are not
/// UTF-8, it puts replacement characters.
pub uninterp spec fn lossy_text(bytes: Seq<u8>) -> Seq<char>;

/// Decodes bytes by `String::from_utf8_lossy`. Bytes that are valid UTF-8 come
/// out as the text they encode.
#[verifier::external_body]
pub(crate) fn lossy(bytes: &[u8]) -> (r: String)
    ensures
        r@ == lossy_text(bytes@),
        valid_utf8(bytes@) ==> encode_utf8(r@) == bytes@,
{
    String::from_utf8_lossy(bytes).into_owned()
}

/// Decodes UTF-8.
pub fn utf8_text(bytes: &[u8]) -> (r: std::result::Result<&str, std::str::Utf8Error>)
    ensures
        r is Ok <==> valid_utf8(bytes@),
        r matches Ok(text) ==> text@ == decode_utf8(bytes@) && encode_utf8(text@) == bytes@,
{
    let r = std::str::from_utf8(bytes);
    proof {
        if let Ok(text) = r {
            encode_utf8_decode_utf8(text@);
        }
    }
    r
}

/// The characters with the Unicode property `White_Space`, which is what
/// `char::is_whitespace` tests.
pub open spec fn is_white(c: char) -> bool {
    let n = c as u32;
    ||| 0x9 <= n <= 0xd
    ||| n == 0x20
    ||| n == 0x85
    ||| n == 0xa0
    ||| n == 0x1680
    ||| 0x2000 <= n <= 0x200a
    ||| n == 0x2028
    ||| n == 0x2029
    ||| n == 0x202f
    ||| n == 0x205f
    ||| n == 0x3000
}

/// Whether `c` is white space.
pub fn white(c: char) -> (r: bool)
    ensures
        r == is_white(c),
{
    let n: u32 = c as u32;
    (0x9 <= n && n <= 0xd) || n == 0x20 || n == 0x85 || n == 0xa0 || n == 0x1680 || (0x2000 <= n
        && n <= 0x200a) || n == 0x2028 || n == 0x2029 || n == 0x202f || n == 0x205f || n == 0x3000
}

/// `s` without its leading white space.
pub open spec fn trim_start(s: Seq<char>) -> Seq<char>
    decreases s.len(),
{
    if s.len() > 0 && is_white(s[0]) {
        trim_start(s.skip(1))
    } else {
        s
    }
}

/// `s` without its trailing white space.
pub open spec fn trim_end(s: Seq<char>) -> Seq<char>
    decreases s.len(),
{
    if s.len() > 0 && is_white(s.last()) {
        trim_end(s.drop_last())
    } else {
        s
    }
}

/// `s` without the white space at either end.
pub open spec fn trim(s: Seq<char>) -> Seq<char> {
    trim_end(trim_start(s))
}

/// Drops leading white space.
pub fn trimmed_start(s: &[char]) -> (r: &[char])
    ensures
        r@ == trim_start(s@),
{
    let mut i: usize = 0;
    assert(s@.skip(0) =~= s@);
    while i < s.len() && white(s[i])
        invariant
            i <= s.len(),
            trim_start(s@) == trim_start(s@.skip(i as int)),
        decreases s.len() - i,
    {
        assert(s@.skip(i as int).skip(1) =~= s@.skip(i + 1));
        i = i + 1;
    }
    assert(i < s.len() ==> s@.skip(i as int)[0] == s@[i as int]);
    assert(s@.subrange(i as int, s.len() as int) =~= s@.skip(i as int));
    slice_subrange(s, i, s.len())
}

/// Drops trailing white space.
pub fn trimmed_end(s: &[char]) -> (r: &[char])
    ensures
        r@ == trim_end(s@),
{
    let mut n: usize = s.len();
    assert(s@.take(n as int) =~= s@);
    while n > 0 && white(s[n - 1])
        invariant
            n <= s.len(),
            trim_end(s@) == trim_end(s@.take(n as int)),
        decreases n,
    {
        assert(s@.take(n as int).drop_last() =~= s@.take(n - 1));
        n = n - 1;
    }
    assert(s@.subrange(0, n as int) =~= s@.take(n as int));
    slice_subrange(s, 0, n)
}

/// Drops the white space at either end.
pub fn trimmed(s: &[char]) -> (r: &[char])
    ensures
        r@ == trim(s@),
{
    trimmed_end(trimmed_start(s))
}

/// The index of the first `c` in `s`, or the length of `s` where there is none.
pub open spec fn first_of(s: Seq<char>, c: char) -> int
    decreases s.len(),
{
    if s.len() == 0 || s[0] == c {
        0
    } else {
        1 + first_of(s.skip(1), c)
    }
}

pub proof fn lemma_first_of(s: Seq<char>, c: char)
    ensures
        0 <= first_of(s, c) <= s.len(),
        first_of(s, c) < s.len() ==> s[first_of(s, c)] == c,
        forall|i: int| 0 <= i < first_of(s, c) ==> s[i] != c,
    decreases s.len(),
{
    if s.len() == 0 || s[0] == c {
    } else {
        lemma_first_of(s.skip(1), c);
        assert forall|i: int| 0 <= i < first_of(s, c) implies s[i] != c by {
            if i > 0 {
                assert(s.skip(1)[i - 1] == s[i]);
            }
        }
    }
}

/// An index before which there is no `c`, and at which there is one or the
/// end, is the first.
pub proof fn lemma_first_is(s: Seq<char>, c: char, i: int)
    requires
        0 <= i <= s.len(),
        i < s.len() ==> s[i] == c,
        forall|j: int| 0 <= j < i ==> s[j] != c,
    ensures
        first_of(s, c) == i,
{
    lemma_first_of(s, c);
}

/// Finds the first `c` at or after `from`.
pub fn find(s: &[char], from: usize, c: char) -> (r: usize)
    requires
        from <= s.len(),
    ensures
        from <= r <= s.len(),
        r == from + first_of(s@.skip(from as int), c),
{
    let mut i: usize = from;
    while i < s.len() && s[i] != c
        invariant
            from <= i <= s.len(),
            forall|j: int| from <= j < i ==> s@[j] != c,
        decreases s.len() - i,
    {
        i = i + 1;
    }
    proof {
        lemma_first_is(s@.skip(from as int), c, i - from);
    }
    i
}

/// `s` without one trailing carriage return.
pub open spec fn strip_cr(s: Seq<char>) -> Seq<char> {
    if s.len() > 0 && s.last() == '\r' {
        s.drop_last()
    } else {
        s
    }
}

/// The lines of `s`. A line ends at a line feed, with or without a carriage
/// return before it; what follows the last line feed is a line unless it is
/// empty, and keeps a carriage return at its end.
pub open spec fn lines(s: Seq<char>) -> Seq<Seq<char>>
    decreases s.len(),
{
    proof {
        lemma_first_of(s, '\n');
    }
    let end = first_of(s, '\n');
    if s.len() == 0 {
        Seq::empty()
    } else if 0 <= end < s.len() {
        seq![strip_cr(s.take(end))] + lines(s.skip(end + 1))
    } else {
        seq![s]
    }
}

/// The pieces of `s` between the separators `sep`; there is always one.
pub open spec fn split(s: Seq<char>, sep: char) -> Seq<Seq<char>>
    decreases s.len(),
{
    proof {
        lemma_first_of(s, sep);
    }
    let end = first_of(s, sep);
    if 0 <= end < s.len() {
        seq![s.take(end)] + split(s.skip(end + 1), sep)
    } else {
        seq![s]
    }
}

/// What a list of borrowed pieces of text holds.
pub open spec fn pieces(v: Seq<&[char]>) -> Seq<Seq<char>> {
    Seq::new(v.len(), |i: int| v[i]@)
}

/// Cuts `s` into its lines.
pub fn split_lines<'a>(s: &'a [char]) -> (r: Vec<&'a [char]>)
    ensures
        pieces(r@) == lines(s@),
{
    let mut out: Vec<&'a [char]> = Vec::new();
    let mut pos: usize = 0;
    assert(s@.skip(0) =~= s@);
    assert(pieces(out@) + lines(s@) =~= lines(s@));
    while pos < s.len()
        invariant
            pos <= s.len(),
            pieces(out@) + lines(s@.skip(pos as int)) == lines(s@),
        decreases s.len() - pos,
    {
        let end: usize = find(s, pos, '\n');
        let ghost rest = s@.skip(pos as int);
        let ghost before = pieces(out@);
        let ghost done = out@;
        proof {
            lemma_first_of(rest, '\n');
        }
        if end < s.len() {
            let mut stop: usize = end;
            if stop > pos && s[stop - 1] == '\r' {
                stop = stop - 1;
            }
            out.push(slice_subrange(s, pos, stop));
            proof {
                assert(s@.subrange(pos as int, stop as int) =~= strip_cr(rest.take(end - pos)));
                assert(rest.skip(end - pos + 1) =~= s@.skip(end + 1));
                assert(pieces(out@) =~= before.push(strip_cr(rest.take(end - pos))));
                assert(before + (seq![strip_cr(rest.take(end - pos))] + lines(s@.skip(end + 1)))
                    =~= pieces(out@) + lines(s@.skip(end + 1)));
            }
            pos = end + 1;
        } else {
            out.push(slice_subrange(s, pos, s.len()));
            proof {
                assert(s@.subrange(pos as int, s.len() as int) =~= rest);
                assert(pieces(out@) =~= before.push(rest));
                assert(before + seq![rest] =~= pieces(out@) + lines(s@.skip(s.len() as int)));
            }
            pos = s.len();
        }
    }
    assert(lines(s@.skip(pos as int)) =~= Seq::empty());
    assert(pieces(out@) =~= pieces(out@) + lines(s@.skip(pos as int)));
    out
}

/// Cuts `s` at every `sep`.
pub fn split_at_each<'a>(s: &'a [char], sep: char) -> (r: Vec<&'a [char]>)
    ensures
        pieces(r@) == split(s@, sep),
{
    let mut out: Vec<&'a [char]> = Vec::new();
    let mut pos: usize = 0;
    let mut end: usize = find(s, 0, sep);
    assert(s@.skip(0) =~= s@);
    assert(pieces(out@) + split(s@, sep) =~= split(s@, sep));
    while end < s.len()
        invariant
            pos <= end <= s.len(),
            end == pos + first_of(s@.skip(pos as int), sep),
            pieces(out@) + split(s@.skip(pos as int), sep) == split(s@, sep),
        decreases s.len() - end,
    {
        let ghost rest = s@.skip(pos as int);
        let ghost before = pieces(out@);
        out.push(slice_subrange(s, pos, end));
        proof {
            assert(s@.subrange(pos as int, end as int) =~= rest.take(end - pos));
            assert(rest.skip(end - pos + 1) =~= s@.skip(end + 1));
            assert(pieces(out@) =~= before.push(rest.take(end - pos)));
            assert(before + (seq![rest.take(end - pos)] + split(s@.skip(end + 1), sep))
                =~= pieces(out@) + split(s@.skip(end + 1), sep));
        }
        pos = end + 1;
        end = find(s, pos, sep);
    }
    let ghost rest = s@.skip(pos as int);
    let ghost before = pieces(out@);
    out.push(slice_subrange(s, pos, s.len()));
    assert(s@.subrange(pos as int, s.len() as int) =~= rest);
    assert(pieces(out@) =~= before + seq![rest]);
    out
}

/// The index of the last white space in `s`, or -1.
pub open spec fn last_white(s: Seq<char>) -> int
    decreases s.len(),
{
    if s.len() == 0 {
        -1
    } else if is_white(s.last()) {
        s.len() - 1
    } else {
        last_white(s.drop_last())
    }
}

/// The index of the last `c` in `s`, or -1.
pub open spec fn last_of(s: Seq<char>, c: char) -> int
    decreases s.len(),
{
    if s.len() == 0 {
        -1
    } else if s.last() == c {
        s.len() - 1
    } else {
        last_of(s.drop_last(), c)
    }
}

/// The index of the last `a` with a `b` right behind it, or -1.
pub open spec fn last_pair(s: Seq<char>, a: char, b: char) -> int
    decreases s.len(),
{
    if s.len() < 2 {
        -1
    } else if s[s.len() - 2] == a && s.last() == b {
        s.len() - 2
    } else {
        last_pair(s.drop_last(), a, b)
    }
}

pub proof fn lemma_last_white(s: Seq<char>)
    ensures
        -1 <= last_white(s) < s.len(),
        last_white(s) >= 0 ==> is_white(s[last_white(s)]),
        forall|i: int| last_white(s) < i < s.len() ==> !is_white(s[i]),
    decreases s.len(),
{
    if s.len() > 0 && !is_white(s.last()) {
        lemma_last_white(s.drop_last());
        assert forall|i: int| last_white(s) < i < s.len() implies !is_white(s[i]) by {
            if i < s.len() - 1 {
                assert(s.drop_last()[i] == s[i]);
            }
        }
    }
}

pub proof fn lemma_last_of(s: Seq<char>, c: char)
    ensures
        -1 <= last_of(s, c) < s.len(),
        last_of(s, c) >= 0 ==> s[last_of(s, c)] == c,
        forall|i: int| last_of(s, c) < i < s.len() ==> s[i] != c,
    decreases s.len(),
{
    if s.len() > 0 && s.last() != c {
        lemma_last_of(s.drop_last(), c);
        assert forall|i: int| last_of(s, c) < i < s.len() implies s[i] != c by {
            if i < s.len() - 1 {
                assert(s.drop_last()[i] == s[i]);
            }
        }
    }
}

pub proof fn lemma_last_pair(s: Seq<char>, a: char, b: char)
    ensures
        -1 <= last_pair(s, a, b),
        last_pair(s, a, b) >= 0 ==> last_pair(s, a, b) + 1 < s.len() && s[last_pair(s, a, b)] == a
            && s[last_pair(s, a, b) + 1] == b,
    decreases s.len(),
{
    if s.len() >= 2 && !(s[s.len() - 2] == a && s.last() == b) {
        lemma_last_pair(s.drop_last(), a, b);
    }
}

/// Finds the last white space.
pub fn find_last_white(s: &[char]) -> (r: Option<usize>)
    ensures
        match r {
            Some(i) => i == last_white(s@) && i < s.len(),
            None => last_white(s@) == -1,
        },
{
    let mut n: usize = s.len();
    assert(s@.take(n as int) =~= s@);
    while n > 0
        invariant
            n <= s.len(),
            last_white(s@) == last_white(s@.take(n as int)),
        decreases n,
    {
        assert(s@.take(n as int).drop_last() =~= s@.take(n - 1));
        if white(s[n - 1]) {
            return Some(n - 1);
        }
        n = n - 1;
    }
    None
}

/// Finds the last `c`.
pub fn find_last(s: &[char], c: char) -> (r: Option<usize>)
    ensures
        match r {
            Some(i) => i == last_of(s@, c) && i < s.len(),
            None => last_of(s@, c) == -1,
        },
{
    let mut n: usize = s.len();
    assert(s@.take(n as int) =~= s@);
    while n > 0
        invariant
            n <= s.len(),
            last_of(s@, c) == last_of(s@.take(n as int), c),
        decreases n,
    {
        assert(s@.take(n as int).drop_last() =~= s@.take(n - 1));
        if s[n - 1] == c {
            return Some(n - 1);
        }
        n = n - 1;
    }
    None
}

/// Finds the last `a` with a `b` right behind it.
pub fn find_last_pair(s: &[char], a: char, b: char) -> (r: Option<usize>)
    ensures
        match r {
            Some(i) => i == last_pair(s@, a, b) && i + 1 < s.len(),
            None => last_pair(s@, a, b) == -1,
        },
{
    let mut n: usize = s.len();
    assert(s@.take(n as int) =~= s@);
    while n >= 2
        invariant
            n <= s.len(),
            last_pair(s@, a, b) == last_pair(s@.take(n as int), a, b),
        decreases n,
    {
        assert(s@.take(n as int).drop_last() =~= s@.take(n - 1));
        if s[n - 2] == a && s[n - 1] == b {
            return Some(n - 2);
        }
        n = n - 1;
    }
    None
}

/// The characters of a string.
pub fn chars_of(s: &str) -> (r: Vec<char>)
    ensures
        r@ == s@,
{
    let mut out: Vec<char> = Vec::new();
    for c in it: s.chars()
        invariant
            out@ =~= it.seq().take(it.index() as int),
            it.seq() == s@,
    {
        out.push(c);
    }
    out
}

/// The string made of `s`.
pub fn string_of(s: &[char]) -> (r: String)
    ensures
        r@ == s@,
{
    let mut out: String = String::new();
    let mut i: usize = 0;
    while i < s.len()
        invariant
            i <= s.len(),
            out@ == s@.take(i as int),
        decreases s.len() - i,
    {
        out.push(s[i]);
        assert(s@.take(i + 1) =~= s@.take(i as int).push(s@[i as int]));
        i = i + 1;
    }
    assert(s@.take(i as int) =~= s@);
    out
}

/// Whether two strings hold the same text.
pub fn same_text(a: &str, b: &str) -> (r: bool)
    ensures
        r == (a@ == b@),
{
    a.to_owned() == b.to_owned()
}

/// Whether `word` stands in `s` at `at`.
pub open spec fn stands_at(s: Seq<char>, word: Seq<char>, at: int) -> bool {
    0 <= at && at + word.len() <= s.len() && s.subrange(at, at + word.len()) == word
}

/// Whether `word` occurs in `s`.
pub open spec fn occurs(s: Seq<char>, word: Seq<char>) -> bool {
    exists|at: int| #[trigger] stands_at(s, word, at)
}

/// Whether `word` stands in `s` at `at`.
fn has_at(s: &[char], word: &Vec<char>, at: usize) -> (r: bool)
    requires
        at + word.len() <= s.len(),
    ensures
        r == stands_at(s@, word@, at as int),
{
    let mut i: usize = 0;
    while i < word.len()
        invariant
            i <= word.len(),
            at + word.len() <= s.len(),
            forall|j: int| 0 <= j < i ==> s@[at + j] == word@[j],
        decreases word.len() - i,
    {
        if s[at + i] != word[i] {
            proof {
                if stands_at(s@, word@, at as int) {
                    assert(s@.subrange(at as int, at + word.len())[i as int] == word@[i as int]);
                }
            }
            return false;
        }
        i = i + 1;
    }
    assert(s@.subrange(at as int, at + word.len()) =~= word@);
    true
}

/// Whether `word` occurs in `s`.
pub fn has_text(s: &[char], word: &str) -> (r: bool)
    ensures
        r == occurs(s@, word@),
{
    let pattern = chars_of(word);
    if pattern.len() > s.len() {
        return false;
    }
    let last: usize = s.len() - pattern.len();
    let mut at: usize = 0;
    while at < last
        invariant
            last == s.len() - pattern.len(),
            at <= last,
            pattern@ == word@,
            forall|k: int| 0 <= k < at ==> !#[trigger] stands_at(s@, word@, k),
        decreases last - at,
    {
        if has_at(s, &pattern, at) {
            return true;
        }
        at = at + 1;
    }
    has_at(s, &pattern, last)
}

} // verus!
