//! Command lines for a system that hands a program one string: the standard
//! Windows argument quoting, and the UTF-16 that such a string is passed in.

use vstd::prelude::*;

use crate::capture::texts;
use crate::text::chars_of;

verus! {

/// A number of backslashes.
pub open spec fn slashes(count: nat) -> Seq<char> {
    Seq::new(count, |i: int| '\\')
}

/// Whether an argument has to be quoted to stay one argument.
pub open spec fn needs_quotes(arg: Seq<char>) -> bool {
    arg.len() == 0 || exists|i: int| 0 <= i < arg.len() && splits(#[trigger] arg[i])
}

/// Whether a character ends an argument, or opens a quotation, where it stands
/// unquoted.
pub open spec fn splits(c: char) -> bool {
    c == ' ' || c == '\t' || c == '\n' || c == '\u{b}' || c == '"'
}

/// The inside of a quotation for `rest`, with `pending` backslashes before it
/// that are not written yet. Backslashes are doubled before a quote and at the
/// end, where they would escape it, and stay as they are elsewhere.
pub open spec fn escaped(rest: Seq<char>, pending: nat) -> Seq<char>
    decreases rest.len(),
{
    if rest.len() == 0 {
        slashes(2 * pending)
    } else if rest[0] == '\\' {
        escaped(rest.skip(1), pending + 1)
    } else if rest[0] == '"' {
        slashes(2 * pending + 1) + seq!['"'] + escaped(rest.skip(1), 0)
    } else {
        slashes(pending) + seq![rest[0]] + escaped(rest.skip(1), 0)
    }
}

/// An argument as it stands in a command line.
pub open spec fn quoted(arg: Seq<char>) -> Seq<char> {
    if needs_quotes(arg) {
        seq!['"'] + escaped(arg, 0) + seq!['"']
    } else {
        arg
    }
}

/// The command line for a list of arguments.
pub open spec fn command_line(argv: Seq<Seq<char>>) -> Seq<char>
    decreases argv.len(),
{
    if argv.len() == 0 {
        Seq::empty()
    } else if argv.len() == 1 {
        quoted(argv[0])
    } else {
        command_line(argv.drop_last()) + seq![' '] + quoted(argv.last())
    }
}

/// The UTF-16 code units of a character.
pub open spec fn utf16_units(c: char) -> Seq<u16> {
    let code = c as u32;
    if code < 0x1_0000 {
        seq![code as u16]
    } else {
        seq![
            (0xd800 + (code - 0x1_0000) / 0x400) as u16,
            (0xdc00 + (code - 0x1_0000) % 0x400) as u16,
        ]
    }
}

/// The UTF-16 code units of a text.
pub open spec fn utf16(text: Seq<char>) -> Seq<u16>
    decreases text.len(),
{
    if text.len() == 0 {
        Seq::empty()
    } else {
        utf16(text.drop_last()) + utf16_units(text.last())
    }
}

fn push_slashes(line: &mut String, count: usize)
    ensures
        final(line)@ == old(line)@ + slashes(count as nat),
{
    let ghost start = line@;
    let mut i: usize = 0;
    assert(start + slashes(0) =~= start);
    while i < count
        invariant
            i <= count,
            line@ == start + slashes(i as nat),
        decreases count - i,
    {
        line.push('\\');
        assert(slashes((i + 1) as nat) =~= slashes(i as nat).push('\\'));
        i = i + 1;
    }
}

/// Appends `arg` to `line`, quoting and escaping only when necessary.
pub fn append_quoted(arg: &str, line: &mut String)
    ensures
        final(line)@ == old(line)@ + quoted(arg@),
{
    let ghost start = line@;
    let chars = chars_of(arg);
    let mut needed: bool = chars.len() == 0;
    let mut k: usize = 0;
    while k < chars.len()
        invariant
            k <= chars.len(),
            needed <==> chars.len() == 0 || exists|i: int|
                0 <= i < k && splits(#[trigger] chars@[i]),
        decreases chars.len() - k,
    {
        let c = chars[k];
        if c == ' ' || c == '\t' || c == '\n' || c == '\u{b}' || c == '"' {
            assert(splits(chars@[k as int]));
            needed = true;
        }
        k = k + 1;
    }
    if !needed {
        line.push_str(arg);
        return;
    }
    line.push('"');
    let ghost head = line@;
    let mut backslashes: usize = 0;
    let mut i: usize = 0;
    assert(chars@.skip(0) =~= chars@);
    while i < chars.len()
        invariant
            i <= chars.len(),
            backslashes <= i,
            head + escaped(chars@, 0) == line@ + escaped(
                chars@.skip(i as int),
                backslashes as nat,
            ),
        decreases chars.len() - i,
    {
        let ghost rest = chars@.skip(i as int);
        let ghost before = line@;
        assert(rest[0] == chars@[i as int]);
        assert(rest.skip(1) =~= chars@.skip(i + 1));
        let c = chars[i];
        if c == '\\' {
            backslashes = backslashes + 1;
        } else if c == '"' {
            // Double every preceding backslash, then add one to escape the
            // quote itself.
            push_slashes(line, backslashes);
            push_slashes(line, backslashes);
            line.push('\\');
            line.push('"');
            assert(line@ =~= before + (slashes((2 * backslashes + 1) as nat) + seq!['"']));
            assert(before + escaped(rest, backslashes as nat) =~= line@ + escaped(rest.skip(1), 0));
            backslashes = 0;
        } else {
            // Preceding backslashes are literal here, not escapes.
            push_slashes(line, backslashes);
            line.push(c);
            assert(before + escaped(rest, backslashes as nat) =~= line@ + escaped(rest.skip(1), 0));
            backslashes = 0;
        }
        i = i + 1;
    }
    let ghost before = line@;
    // Double any trailing backslashes so they don't escape the closing quote.
    push_slashes(line, backslashes);
    push_slashes(line, backslashes);
    assert(chars@.skip(i as int) =~= Seq::empty());
    assert(line@ =~= before + slashes((2 * backslashes) as nat));
    assert(line@ == head + escaped(arg@, 0));
    line.push('"');
    assert(line@ =~= start + quoted(arg@));
}

/// Encodes a text as UTF-16.
pub fn encode_utf16(text: &str) -> (r: Vec<u16>)
    ensures
        r@ == utf16(text@),
{
    let chars = chars_of(text);
    let mut out: Vec<u16> = Vec::new();
    let mut i: usize = 0;
    assert(chars@.take(0) =~= Seq::empty());
    while i < chars.len()
        invariant
            i <= chars.len(),
            out@ == utf16(chars@.take(i as int)),
        decreases chars.len() - i,
    {
        assert(chars@.take(i + 1).drop_last() =~= chars@.take(i as int));
        let ghost before = out@;
        let code: u32 = chars[i] as u32;
        if code < 0x1_0000 {
            out.push(code as u16);
            assert(out@ =~= before + utf16_units(chars@[i as int]));
        } else {
            let beyond: u32 = code - 0x1_0000;
            out.push((0xd800 + beyond / 0x400) as u16);
            out.push((0xdc00 + beyond % 0x400) as u16);
            assert(out@ =~= before + utf16_units(chars@[i as int]));
        }
        i = i + 1;
    }
    assert(chars@.take(i as int) =~= chars@);
    out
}

/// Joins `argv` into a single command line using the standard Windows quoting
/// rules, encoded as UTF-16.
pub fn encode_command_line(argv: &[String]) -> (r: Vec<u16>)
    ensures
        r@ == utf16(command_line(texts(argv@))),
{
    let mut line: String = String::new();
    let ghost words = texts(argv@);
    let mut i: usize = 0;
    assert(words.take(0) =~= Seq::empty());
    assert(line@ =~= Seq::empty());
    while i < argv.len()
        invariant
            i <= argv.len(),
            words == texts(argv@),
            line@ == command_line(words.take(i as int)),
        decreases argv.len() - i,
    {
        let ghost next = words.take(i + 1);
        assert(next.drop_last() =~= words.take(i as int));
        assert(next.last() == argv@[i as int]@);
        let ghost before = line@;
        if i != 0 {
            line.push(' ');
        }
        append_quoted(argv[i].as_str(), &mut line);
        if i == 0 {
            assert(line@ =~= quoted(next[0]));
        } else {
            assert(line@ =~= before + seq![' '] + quoted(next.last()));
        }
        i = i + 1;
    }
    assert(words.take(i as int) =~= words);
    encode_utf16(line.as_str())
}

/// How a program reads one argument off its command line: what the argument
/// holds, and what is left of the line. `quoting` says whether the reading is
/// inside a quotation, `pending` counts backslashes that were just read, and
/// `got` is what the argument holds so far.
pub open spec fn read_argument(line: Seq<char>, pending: nat, quoting: bool, got: Seq<char>) -> (
    Seq<char>,
    Seq<char>,
)
    decreases line.len(),
{
    if line.len() == 0 {
        (got + slashes(pending), line)
    } else if line[0] == '\\' {
        read_argument(line.skip(1), pending + 1, quoting, got)
    } else if line[0] == '"' {
        if pending % 2 == 1 {
            read_argument(line.skip(1), 0, quoting, got + slashes(pending / 2) + seq!['"'])
        } else {
            read_argument(line.skip(1), 0, !quoting, got + slashes(pending / 2))
        }
    } else if !quoting && (line[0] == ' ' || line[0] == '\t') {
        (got + slashes(pending), line)
    } else {
        read_argument(line.skip(1), 0, quoting, got + slashes(pending) + seq![line[0]])
    }
}

proof fn lemma_read_slashes(count: nat, line: Seq<char>, pending: nat, quoting: bool, got: Seq<char>)
    ensures
        read_argument(slashes(count) + line, pending, quoting, got) == read_argument(
            line,
            pending + count,
            quoting,
            got,
        ),
    decreases count,
{
    let all = slashes(count) + line;
    if count == 0 {
        assert(all =~= line);
    } else {
        let fewer = (count - 1) as nat;
        assert(all.skip(1) =~= slashes(fewer) + line);
        assert(all[0] == '\\');
        lemma_read_slashes(fewer, line, pending + 1, quoting, got);
    }
}

proof fn lemma_read_plain(arg: Seq<char>, tail: Seq<char>, pending: nat, got: Seq<char>)
    requires
        forall|i: int| 0 <= i < arg.len() ==> !splits(#[trigger] arg[i]),
        tail.len() == 0 || tail[0] == ' ',
    ensures
        read_argument(arg + tail, pending, false, got) == (got + slashes(pending) + arg, tail),
    decreases arg.len(),
{
    let all = arg + tail;
    if arg.len() == 0 {
        assert(all =~= tail);
        assert(got + slashes(pending) + arg =~= got + slashes(pending));
    } else {
        let rest = arg.skip(1);
        assert(all.skip(1) =~= rest + tail);
        assert(all[0] == arg[0]);
        assert(!splits(arg[0]));
        assert forall|i: int| 0 <= i < rest.len() implies !splits(#[trigger] rest[i]) by {
            assert(rest[i] == arg[i + 1]);
        }
        if arg[0] == '\\' {
            lemma_read_plain(rest, tail, pending + 1, got);
            assert(got + slashes(pending + 1) + rest =~= got + slashes(pending) + arg);
        } else {
            let more = got + slashes(pending) + seq![arg[0]];
            lemma_read_plain(rest, tail, 0, more);
            assert(more + slashes(0) + rest =~= got + slashes(pending) + arg);
        }
    }
}

proof fn lemma_read_escaped(rest: Seq<char>, tail: Seq<char>, pending: nat, got: Seq<char>)
    requires
        tail.len() == 0 || tail[0] == ' ',
    ensures
        read_argument(escaped(rest, pending) + seq!['"'] + tail, 0, true, got) == (
            got + slashes(pending) + rest,
            tail,
        ),
    decreases rest.len(),
{
    let all = escaped(rest, pending) + seq!['"'] + tail;
    if rest.len() == 0 {
        let close = seq!['"'] + tail;
        assert(all =~= slashes(2 * pending) + close);
        lemma_read_slashes(2 * pending, close, 0, true, got);
        assert(close.skip(1) =~= tail);
        assert(close[0] == '"');
        assert((2 * pending) % 2 == 0);
        assert((2 * pending) / 2 == pending);
        let done = got + slashes(pending);
        assert(done + slashes(0) =~= done);
        assert(read_argument(tail, 0, false, done) == (done + slashes(0), tail));
        assert(done + rest =~= done);
    } else if rest[0] == '\\' {
        lemma_read_escaped(rest.skip(1), tail, pending + 1, got);
        assert(got + slashes(pending + 1) + rest.skip(1) =~= got + slashes(pending) + rest);
    } else if rest[0] == '"' {
        let more = escaped(rest.skip(1), 0) + seq!['"'] + tail;
        let inner = seq!['"'] + more;
        assert(all =~= slashes(2 * pending + 1) + inner);
        lemma_read_slashes(2 * pending + 1, inner, 0, true, got);
        assert(inner.skip(1) =~= more);
        assert(inner[0] == '"');
        assert((2 * pending + 1) % 2 == 1);
        assert((2 * pending + 1) / 2 == pending);
        let so_far = got + slashes(pending) + seq!['"'];
        lemma_read_escaped(rest.skip(1), tail, 0, so_far);
        assert(so_far + slashes(0) + rest.skip(1) =~= got + slashes(pending) + rest);
    } else {
        let more = escaped(rest.skip(1), 0) + seq!['"'] + tail;
        let inner = seq![rest[0]] + more;
        assert(all =~= slashes(pending) + inner);
        lemma_read_slashes(pending, inner, 0, true, got);
        assert(inner.skip(1) =~= more);
        assert(inner[0] == rest[0]);
        let so_far = got + slashes(pending) + seq![rest[0]];
        lemma_read_escaped(rest.skip(1), tail, 0, so_far);
        assert(so_far + slashes(0) + rest.skip(1) =~= got + slashes(pending) + rest);
    }
}

/// Whatever an argument holds, a program reads it back off the command line as
/// it was: quoting is undone by reading, up to the blank before the next
/// argument or the end of the line.
pub proof fn law_quoting_is_undone(arg: Seq<char>, tail: Seq<char>)
    requires
        tail.len() == 0 || tail[0] == ' ',
    ensures
        read_argument(quoted(arg) + tail, 0, false, Seq::empty()) == (arg, tail),
{
    let none: Seq<char> = Seq::empty();
    if needs_quotes(arg) {
        let inner = escaped(arg, 0) + seq!['"'] + tail;
        let all = quoted(arg) + tail;
        assert(all =~= seq!['"'] + inner);
        assert(all[0] == '"');
        assert(all.skip(1) =~= inner);
        assert(none + slashes(0) =~= none);
        lemma_read_escaped(arg, tail, 0, none);
    } else {
        lemma_read_plain(arg, tail, 0, none);
    }
    assert(none + slashes(0) + arg =~= arg);
}

/// How a program reads all the arguments off its command line.
pub open spec fn read_arguments(line: Seq<char>, count: nat) -> Seq<Seq<char>>
    decreases count,
{
    if count == 0 {
        Seq::empty()
    } else {
        let (arg, left) = read_argument(line, 0, false, Seq::empty());
        seq![arg] + read_arguments(
            if left.len() > 0 {
                left.skip(1)
            } else {
                left
            },
            (count - 1) as nat,
        )
    }
}

proof fn lemma_line_front(argv: Seq<Seq<char>>)
    requires
        argv.len() > 1,
    ensures
        command_line(argv) == quoted(argv[0]) + seq![' '] + command_line(argv.skip(1)),
    decreases argv.len(),
{
    let rest = argv.skip(1);
    if argv.len() == 2 {
        assert(argv.drop_last().len() == 1);
        assert(command_line(argv.drop_last()) == quoted(argv[0]));
        assert(command_line(rest) == quoted(argv[1]));
    } else {
        lemma_line_front(argv.drop_last());
        assert(argv.drop_last().skip(1) =~= rest.drop_last());
        assert(command_line(argv) =~= quoted(argv[0]) + seq![' '] + command_line(rest));
    }
}

/// The arguments of a command line read back as they were, in order.
pub proof fn law_command_line_reads_back(argv: Seq<Seq<char>>)
    ensures
        read_arguments(command_line(argv), argv.len()) == argv,
    decreases argv.len(),
{
    if argv.len() > 0 {
        let rest = argv.skip(1);
        law_command_line_reads_back(rest);
        if argv.len() == 1 {
            law_quoting_is_undone(argv[0], Seq::empty());
            assert(quoted(argv[0]) + Seq::<char>::empty() =~= command_line(argv));
            assert(read_arguments(command_line(argv), 1) =~= seq![argv[0]] + read_arguments(
                Seq::empty(),
                0,
            ));
        } else {
            lemma_line_front(argv);
            let tail = seq![' '] + command_line(rest);
            assert(command_line(argv) =~= quoted(argv[0]) + tail);
            law_quoting_is_undone(argv[0], tail);
            assert(tail.skip(1) =~= command_line(rest));
        }
        assert(seq![argv[0]] + rest =~= argv);
        assert(read_arguments(command_line(argv), argv.len()) =~= argv);
    }
}

} // verus!
