//! What holds of the folded form piece by piece: labels, lines and samples.

use vstd::prelude::*;
use vstd::utf8::{encode_utf8, encode_utf8_decode_utf8, encode_utf8_valid_utf8, valid_utf8};

use crate::error::ErrorView;
use crate::folded::{
    classify, content_likeness, folded_meaning, folded_rendering, frame_label, label_frame, labels_in, probe_lines,
    read_lines, stack_labels, stack_text, text_likeness, valueless_message, whole_lines,
    write_samples, LineView, Reading,
};
use crate::folded_laws::{
    all_labelled, avoids, entries_reading, entries_text, join, lemma_decimal_is_dark,
    lemma_entries_sound, lemma_last_pair_is, lemma_read_text, lemma_trim_tight, opens_nothing,
    tight, Entry,
};
use crate::format::Confidence;
use crate::intern::{grown_all, ids, law_grown_all_keeps_places, lemma_grown_all_concat, place};
use crate::model::{
    dangling_message, lemma_first_dangling, FrameId, FrameView, ProfileView, SampleView,
    ValueKindView,
};
use crate::number::{
    all_digits, decimal, digit, digits_value, hexadecimal, law_decimal_reads_back,
    law_hexadecimal_reads_back, read_i64, read_unsigned,
};
use crate::text::{
    first_of, is_white, last_of, last_white, lemma_first_is, lemma_first_of, lemma_last_of,
    lemma_last_white, lines, lossy_text, split, strip_cr, trim, trim_end, trim_start,
};
use crate::text_laws::{blank, law_trimming_drops_the_blanks_around};

verus! {

/// A label that was read is rendered as it is, whatever else is known.
pub proof fn law_labels_win(frame: FrameView)
    requires
        frame.raw.len() > 0,
    ensures
        frame_label(frame) == frame.raw,
{
}

/// Where a frame has no label of its own, what is rendered starts with its
/// function, where it has one, whatever else is known of it. Nothing depends on
/// the address then.
pub proof fn law_rendered_labels_start_with_the_function(frame: FrameView, address: Option<u64>)
    requires
        frame.raw.len() == 0,
        frame.function is Some,
    ensures
        frame.function->0.is_prefix_of(frame_label(frame)),
        frame_label(FrameView { address, ..frame }) == frame_label(frame),
{
    reveal_strlit(" (");
    let function = frame.function->0;
    assert(frame_label(frame).take(function.len() as int) =~= function);
}

/// Where a frame has neither a label nor a function, what is rendered starts
/// with its address in hexadecimal, where it has one.
pub proof fn law_rendered_labels_fall_back_to_the_address(frame: FrameView)
    requires
        frame.raw.len() == 0,
        frame.function is None,
        frame.address is Some,
    ensures
        ("0x"@ + hexadecimal(frame.address->0 as nat)).is_prefix_of(frame_label(frame)),
{
    reveal_strlit(" (");
    let symbol = "0x"@ + hexadecimal(frame.address->0 as nat);
    assert(frame_label(frame).take(symbol.len() as int) =~= symbol);
}

/// Behind the function or the address stand, in parentheses, the file and the
/// line, the file alone where the line is unknown, or the module where the file
/// is; a frame of which none of these is known ends there.
pub proof fn law_rendered_labels_end_in_the_source(frame: FrameView)
    requires
        frame.raw.len() == 0,
    ensures
        ({
            let symbol = frame_label(
                FrameView { file: None, line: None, module: None, ..frame },
            );
            &&& frame.function matches Some(function) ==> symbol == function
            &&& frame.function is None && frame.address is Some ==> symbol == "0x"@ + hexadecimal(
                frame.address->0 as nat,
            )
            &&& frame.function is None && frame.address is None ==> symbol.len() == 0
            &&& frame.file is Some && frame.line is Some ==> frame_label(frame) == symbol + " ("@
                + frame.file->0 + ":"@ + decimal(frame.line->0 as nat) + ")"@
            &&& frame.file is Some && frame.line is None ==> frame_label(frame) == symbol + " ("@
                + frame.file->0 + ")"@
            &&& frame.file is None && frame.module is Some ==> frame_label(frame) == symbol + " ("@
                + frame.module->0 + ")"@
            &&& frame.file is None && frame.module is None ==> frame_label(frame) == symbol
        }),
{
}

proof fn lemma_no_pair(s: Seq<char>)
    requires
        opens_nothing(s),
    ensures
        crate::text::last_pair(s, ' ', '(') == -1,
    decreases s.len(),
{
    if s.len() >= 2 {
        let front = s.drop_last();
        assert(!(s[s.len() - 2] == ' ' && s[s.len() - 2 + 1] == '('));
        assert forall|j: int| 0 <= j < front.len() - 1 implies !(#[trigger] front[j] == ' '
            && front[j + 1] == '(') by {
            assert(!(s[j] == ' ' && s[j + 1] == '('));
        }
        lemma_no_pair(front);
    }
}

/// Whether a text starts like an address.
pub open spec fn like_an_address(s: Seq<char>) -> bool {
    s.len() > 2 && s[0] == '0' && (s[1] == 'x' || s[1] == 'X')
}

/// A label without an annotation is the name of a function, where it does not
/// start like an address and has no white space around it. Nothing else is known
/// of the frame.
pub proof fn law_plain_labels_are_functions(label: Seq<char>)
    requires
        label.len() > 0,
        tight(label),
        !like_an_address(label),
        label.last() != ')' || opens_nothing(label.drop_last()),
    ensures
        label_frame(label) == (FrameView {
            raw: label,
            function: Some(label),
            file: None,
            line: None,
            module: None,
            address: None,
        }),
{
    lemma_trim_tight(label);
    if label.last() == ')' {
        lemma_no_pair(label.drop_last());
    }
}

/// A symbol with an annotation in parentheses behind it.
pub open spec fn annotated(symbol: Seq<char>, annotation: Seq<char>) -> Seq<char> {
    symbol + " ("@ + annotation + ")"@
}

proof fn lemma_cut_annotated(symbol: Seq<char>, annotation: Seq<char>)
    requires
        tight(symbol),
        opens_nothing(annotation),
    ensures
        crate::folded::cut_label(annotated(symbol, annotation)) == (symbol, Some(annotation)),
{
    reveal_strlit(" (");
    reveal_strlit(")");
    let label = annotated(symbol, annotation);
    let rest = label.drop_last();
    let at = symbol.len() as int;
    assert(rest =~= symbol + " ("@ + annotation);
    assert forall|j: int| at < j < rest.len() - 1 implies !(#[trigger] rest[j] == ' ' && rest[j + 1]
        == '(') by {
        let k = j - at - 2;
        if k < 0 {
            assert(rest[j] == '(');
        } else {
            assert(rest[j] == annotation[k] && rest[j + 1] == annotation[k + 1]);
        }
    }
    lemma_last_pair_is(rest, ' ', '(', at);
    assert(rest.take(at) =~= symbol);
    assert(rest.skip(at + 2) =~= annotation);
    lemma_trim_tight(symbol);
}

/// A label that ends in parentheses without a colon in them is a symbol of the
/// module that they hold. The symbol is the name of a function, where there is
/// any and it does not start like an address.
pub proof fn law_annotations_are_modules(symbol: Seq<char>, module: Seq<char>)
    requires
        tight(symbol),
        !like_an_address(symbol),
        opens_nothing(module),
        avoids(module, ':'),
    ensures
        label_frame(annotated(symbol, module)) == (FrameView {
            raw: annotated(symbol, module),
            function: if symbol.len() > 0 {
                Some(symbol)
            } else {
                None
            },
            file: None,
            line: None,
            module: Some(module),
            address: None,
        }),
{
    lemma_cut_annotated(symbol, module);
    lemma_last_of(module, ':');
}

proof fn lemma_file_line(file: Seq<char>, line: nat)
    requires
        file.len() > 0,
        line <= u32::MAX,
    ensures
        crate::folded::file_line(file + ":"@ + decimal(line)) == Some((file, line)),
{
    reveal_strlit(":");
    let digits = decimal(line);
    let tail = file + ":"@ + digits;
    let colon = file.len() as int;
    law_decimal_reads_back(line);
    lemma_decimal_is_dark(line);
    lemma_last_of(tail, ':');
    assert(tail[colon] == ':');
    assert forall|k: int| colon < k < tail.len() implies tail[k] != ':' by {
        assert(tail[k] == digits[k - colon - 1]);
    }
    assert(last_of(tail, ':') == colon);
    assert(tail.take(colon) =~= file);
    assert(tail.skip(colon + 1) =~= digits);
    assert(digits[0] != '+');
}

proof fn lemma_opens_nothing_more(file: Seq<char>, line: nat)
    requires
        opens_nothing(file),
    ensures
        opens_nothing(file + ":"@ + decimal(line)),
{
    reveal_strlit(":");
    lemma_decimal_is_dark(line);
    let digits = decimal(line);
    let tail = file + ":"@ + digits;
    assert forall|k: int| 0 <= k < tail.len() - 1 implies !(#[trigger] tail[k] == ' ' && tail[k + 1]
        == '(') by {
        if k < file.len() - 1 {
            assert(tail[k] == file[k] && tail[k + 1] == file[k + 1]);
        } else if k == file.len() - 1 {
            assert(tail[k + 1] == ':');
        } else if k > file.len() {
            assert(tail[k] == digits[k - file.len() - 1]);
        }
    }
}

/// A label that ends in a file, a colon and a number in parentheses is a symbol
/// at that file and line, and of no module.
pub proof fn law_annotations_are_source_lines(symbol: Seq<char>, file: Seq<char>, line: u32)
    requires
        tight(symbol),
        !like_an_address(symbol),
        file.len() > 0,
        opens_nothing(file),
    ensures
        ({
            let label = annotated(symbol, file + ":"@ + decimal(line as nat));
            label_frame(label) == (FrameView {
                raw: label,
                function: if symbol.len() > 0 {
                    Some(symbol)
                } else {
                    None
                },
                file: Some(file),
                line: Some(line),
                module: None,
                address: None,
            })
        }),
{
    lemma_file_line(file, line as nat);
    lemma_opens_nothing_more(file, line as nat);
    lemma_cut_annotated(symbol, file + ":"@ + decimal(line as nat));
}

proof fn lemma_address_token(address: u64)
    ensures
        crate::folded::hex_address("0x"@ + hexadecimal(address as nat)) == Some(address as nat),
        tight("0x"@ + hexadecimal(address as nat)),
{
    reveal_strlit("0x");
    let digits = hexadecimal(address as nat);
    let token = "0x"@ + digits;
    law_hexadecimal_reads_back(address as nat);
    assert(token.skip(2) =~= digits);
    assert(digit(digits[digits.len() - 1], true) is Some);
    assert(token.last() == digits[digits.len() - 1]);
}

/// An address in hexadecimal is read as the address of a frame without a
/// function, of the module or at the file and line behind it.
pub proof fn law_addresses_are_read_back(address: u64, module: Seq<char>, file: Seq<char>, line: u32)
    requires
        opens_nothing(module),
        avoids(module, ':'),
        file.len() > 0,
        opens_nothing(file),
    ensures
        ({
            let symbol = "0x"@ + hexadecimal(address as nat);
            let bare = FrameView {
                raw: symbol,
                function: None,
                file: None,
                line: None,
                module: None,
                address: Some(address),
            };
            let mapped = annotated(symbol, module);
            let placed = annotated(symbol, file + ":"@ + decimal(line as nat));
            &&& label_frame(symbol) == bare
            &&& label_frame(mapped) == (FrameView { raw: mapped, module: Some(module), ..bare })
            &&& label_frame(placed) == (FrameView {
                raw: placed,
                file: Some(file),
                line: Some(line),
                ..bare
            })
        }),
{
    let symbol = "0x"@ + hexadecimal(address as nat);
    lemma_address_token(address);
    lemma_trim_tight(symbol);
    lemma_cut_annotated(symbol, module);
    lemma_last_of(module, ':');
    lemma_file_line(file, line as nat);
    lemma_opens_nothing_more(file, line as nat);
    lemma_cut_annotated(symbol, file + ":"@ + decimal(line as nat));
    assert(symbol.last() != ')') by {
        law_hexadecimal_reads_back(address as nat);
        let digits = hexadecimal(address as nat);
        reveal_strlit("0x");
        assert(digit(digits[digits.len() - 1], true) is Some);
        assert(symbol.last() == digits[digits.len() - 1]);
    }
}

/// Whether a label is not empty.
pub open spec fn some_text() -> spec_fn(Seq<char>) -> bool {
    |label: Seq<char>| label.len() > 0
}

/// A text without the white space around it.
pub open spec fn without_blanks() -> spec_fn(Seq<char>) -> Seq<char> {
    |part: Seq<char>| trim(part)
}

proof fn lemma_labels_in(parts: Seq<Seq<char>>)
    ensures
        labels_in(parts) == parts.map_values(without_blanks()).filter(some_text()),
    decreases parts.len(),
{
    reveal(Seq::filter);
    if parts.len() > 0 {
        let front = parts.drop_last();
        lemma_labels_in(front);
        assert(parts.map_values(without_blanks()).drop_last() =~= front.map_values(
            without_blanks(),
        ));
    }
}

/// The labels of a stack are its parts between semicolons, in their order,
/// without the white space around them, and without those of which nothing is
/// left.
pub proof fn law_labels_stand_between_semicolons(stack: Seq<char>)
    ensures
        stack_labels(stack) == split(stack, ';').map_values(without_blanks()).filter(some_text()),
{
    lemma_labels_in(split(stack, ';'));
}

/// Whether a stack names something: not every character is a semicolon or white
/// space.
pub open spec fn names_something(stack: Seq<char>) -> bool {
    exists|i: int| 0 <= i < stack.len() && #[trigger] stack[i] != ';' && !is_white(stack[i])
}

proof fn lemma_trim_is_empty(s: Seq<char>)
    ensures
        trim(s).len() == 0 <==> blank(s),
    decreases s.len(),
{
    if blank(s) {
        let nothing = Seq::<char>::empty();
        law_trimming_drops_the_blanks_around(s, nothing, nothing);
        assert(s + nothing + nothing =~= s);
    } else {
        if is_white(s[0]) {
            let rest = s.skip(1);
            let i = choose|i: int| 0 <= i < s.len() && !is_white(#[trigger] s[i]);
            assert(rest[i - 1] == s[i]);
            lemma_trim_is_empty(rest);
            assert(trim_start(s) == trim_start(rest));
        } else {
            lemma_trim_end_keeps(s);
        }
    }
}

proof fn lemma_trim_end_keeps(s: Seq<char>)
    requires
        s.len() > 0,
        !is_white(s[0]),
    ensures
        trim_end(s).len() > 0,
    decreases s.len(),
{
    if is_white(s.last()) {
        lemma_trim_end_keeps(s.drop_last());
    }
}

proof fn lemma_labels_there(parts: Seq<Seq<char>>)
    ensures
        labels_in(parts).len() == 0 <==> (forall|i: int|
            0 <= i < parts.len() ==> blank(#[trigger] parts[i])),
    decreases parts.len(),
{
    if parts.len() > 0 {
        let front = parts.drop_last();
        lemma_labels_there(front);
        lemma_trim_is_empty(parts.last());
        if labels_in(parts).len() == 0 {
            assert forall|i: int| 0 <= i < parts.len() implies blank(#[trigger] parts[i]) by {
                if i < front.len() {
                    assert(front[i] == parts[i]);
                }
            }
        } else if labels_in(front).len() == 0 {
            assert(!blank(parts[parts.len() - 1]));
        } else {
            let i = choose|i: int| 0 <= i < front.len() && !blank(#[trigger] front[i]);
            assert(parts[i] == front[i]);
        }
    }
}

proof fn lemma_parts_named(s: Seq<char>)
    ensures
        names_something(s) <==> (exists|i: int|
            0 <= i < split(s, ';').len() && !blank(#[trigger] split(s, ';')[i])),
    decreases s.len(),
{
    lemma_first_of(s, ';');
    let end = first_of(s, ';');
    let all = split(s, ';');
    if end < s.len() {
        let tail = s.skip(end + 1);
        lemma_parts_named(tail);
        let rest = split(tail, ';');
        let head = s.take(end);
        assert(all[0] == head);
        if names_something(s) {
            let i = choose|i: int|
                0 <= i < s.len() && #[trigger] s[i] != ';' && !is_white(s[i]);
            if i < end {
                assert(!is_white(head[i]));
                assert(!blank(all[0]));
            } else {
                assert(tail[i - end - 1] == s[i]);
                let k = choose|k: int| 0 <= k < rest.len() && !blank(#[trigger] rest[k]);
                assert(all[k + 1] == rest[k]);
            }
        }
        if exists|i: int| 0 <= i < all.len() && !blank(#[trigger] all[i]) {
            let i = choose|i: int| 0 <= i < all.len() && !blank(#[trigger] all[i]);
            if i == 0 {
                let k = choose|k: int| 0 <= k < head.len() && !is_white(#[trigger] head[k]);
                assert(s[k] == head[k]);
            } else {
                assert(all[i] == rest[i - 1]);
                let k = choose|k: int|
                    0 <= k < tail.len() && #[trigger] tail[k] != ';' && !is_white(tail[k]);
                assert(s[k + end + 1] == tail[k]);
            }
        }
    } else {
        assert(all[0] == s);
        if exists|i: int| 0 <= i < all.len() && !blank(#[trigger] all[i]) {
            let k = choose|k: int| 0 <= k < s.len() && !is_white(#[trigger] s[k]);
            assert(s[k] != ';');
        }
    }
}

/// Blank lines and comments say nothing.
pub proof fn law_blank_lines_and_comments_are_skipped(before: Seq<char>, text: Seq<char>)
    requires
        blank(before),
    ensures
        classify(before) is Skip,
        classify(before.push('#') + text) is Skip,
{
    lemma_trim_is_empty(before);
    let line = before.push('#') + text;
    assert(before =~= line.take(before.len() as int));
    lemma_trim_keeps_the_first(before, line);
}

proof fn lemma_trim_keeps_the_first(before: Seq<char>, line: Seq<char>)
    requires
        blank(before),
        before.len() < line.len(),
        before == line.take(before.len() as int),
        !is_white(line[before.len() as int]),
    ensures
        trim(line).len() > 0,
        trim(line)[0] == line[before.len() as int],
    decreases before.len(),
{
    if before.len() > 0 {
        assert(line[0] == before[0]);
        let rest = before.skip(1);
        let tail = line.skip(1);
        assert forall|i: int| 0 <= i < rest.len() implies is_white(#[trigger] rest[i]) by {
            assert(rest[i] == before[i + 1]);
        }
        assert(rest =~= tail.take(rest.len() as int)) by {
            assert forall|i: int| 0 <= i < rest.len() implies rest[i] == tail[i] by {
                assert(before[i + 1] == line[i + 1]);
            }
        }
        lemma_trim_keeps_the_first(rest, tail);
        assert(trim_start(line) == trim_start(tail));
    } else {
        lemma_trim_end_first(line);
    }
}

proof fn lemma_trim_end_first(s: Seq<char>)
    requires
        s.len() > 0,
        !is_white(s[0]),
    ensures
        trim_end(s).len() > 0,
        trim_end(s)[0] == s[0],
    decreases s.len(),
{
    if is_white(s.last()) {
        lemma_trim_end_first(s.drop_last());
    }
}

/// A line is a stack and, behind the last white space in it, a count. It is
/// refused where the count is not an integer or is negative, and says nothing
/// where the stack names nothing. Else it says that stack and that count.
pub proof fn law_lines_are_a_stack_and_a_count(
    before: Seq<char>,
    stack: Seq<char>,
    gap: Seq<char>,
    word: Seq<char>,
    after: Seq<char>,
)
    requires
        blank(before),
        stack.len() > 0,
        tight(stack),
        stack[0] != '#',
        gap.len() > 0,
        blank(gap),
        word.len() > 0,
        forall|i: int| 0 <= i < word.len() ==> !is_white(#[trigger] word[i]),
        blank(after),
    ensures
        ({
            let line = before + (stack + gap + word) + after;
            &&& read_i64(word) is None ==> classify(line) == LineView::Invalid(
                "sample count is not an integer"@,
            )
            &&& read_i64(word) matches Some(count) ==> {
                &&& count < 0 ==> classify(line) == LineView::Invalid("sample count is negative"@)
                &&& count >= 0 && !names_something(stack) ==> classify(line) is Skip
                &&& count >= 0 && names_something(stack) ==> classify(line) == (LineView::Stack {
                    stack,
                    count,
                })
            }
        }),
{
    let core = stack + gap + word;
    let line = before + core + after;
    assert(core[0] == stack[0]);
    assert(core.last() == word[word.len() - 1]);
    law_trimming_drops_the_blanks_around(before, core, after);
    let at = stack.len() + gap.len() - 1;
    lemma_last_white(core);
    assert(core[at] == gap[gap.len() - 1]);
    assert forall|i: int| at < i < core.len() implies !is_white(#[trigger] core[i]) by {
        assert(core[i] == word[i - at - 1]);
    }
    assert(last_white(core) == at);
    let spare = gap.drop_last();
    assert forall|i: int| 0 <= i < spare.len() implies is_white(#[trigger] spare[i]) by {
        assert(spare[i] == gap[i]);
    }
    assert(core.take(at) =~= stack + spare);
    let nothing = Seq::<char>::empty();
    law_trimming_drops_the_blanks_around(nothing, stack, spare);
    assert(core.skip(at + 1) =~= word);
    lemma_trim_tight(word);
    lemma_labels_there(split(stack, ';'));
    lemma_parts_named(stack);
}

/// A line of one word is refused, where it is no comment and no count: it has
/// no count behind a stack. A count alone says nothing.
pub proof fn law_lines_without_a_count_are_refused(
    before: Seq<char>,
    word: Seq<char>,
    after: Seq<char>,
)
    requires
        blank(before),
        word.len() > 0,
        word[0] != '#',
        forall|i: int| 0 <= i < word.len() ==> !is_white(#[trigger] word[i]),
        blank(after),
    ensures
        ({
            let line = before + word + after;
            let count = read_i64(word);
            &&& count is Some && count->0 >= 0 ==> classify(line) is Skip
            &&& count is None || count->0 < 0 ==> classify(line) == LineView::Invalid(
                "missing whitespace-separated sample count"@,
            )
        }),
{
    law_trimming_drops_the_blanks_around(before, word, after);
    lemma_last_white(word);
}

proof fn lemma_read_lines(lines: Seq<Seq<char>>)
    ensures
        match read_lines(lines) {
            Ok(_) => forall|i: int|
                0 <= i < lines.len() ==> !(classify(#[trigger] lines[i]) is Invalid),
            Err(error) => exists|at: int| #[trigger]
                first_refused(lines, at) && error == (ErrorView::Parse {
                    line: (at + 1) as nat,
                    message: classify(lines[at])->Invalid_0,
                }),
        },
    decreases lines.len(),
{
    if lines.len() > 0 {
        let front = lines.drop_last();
        lemma_read_lines(front);
        if read_lines(front) is Err {
            let error = read_lines(front)->Err_0;
            let at = choose|at: int| #[trigger]
                first_refused(front, at) && error == (ErrorView::Parse {
                    line: (at + 1) as nat,
                    message: classify(front[at])->Invalid_0,
                });
            assert(lines[at] == front[at]);
            assert forall|j: int| 0 <= j < at implies !(classify(
                #[trigger] lines[j],
            ) is Invalid) by {
                assert(lines[j] == front[j]);
            }
            assert(first_refused(lines, at));
        } else {
            assert forall|i: int| 0 <= i < front.len() implies !(classify(
                #[trigger] lines[i],
            ) is Invalid) by {
                assert(lines[i] == front[i]);
            }
            if read_lines(lines) is Err {
                assert(first_refused(lines, lines.len() - 1));
            }
        }
    }
}

/// Whether a line is the first that is refused.
pub open spec fn first_refused(lines: Seq<Seq<char>>, at: int) -> bool {
    &&& 0 <= at < lines.len()
    &&& classify(lines[at]) is Invalid
    &&& forall|j: int| 0 <= j < at ==> !(classify(#[trigger] lines[j]) is Invalid)
}

/// Lines are read where none of them is refused. Where one is, the error tells
/// the number of the first, counted from one, and why.
pub proof fn law_the_first_refused_line_is_told(lines: Seq<Seq<char>>, at: int)
    ensures
        read_lines(lines) is Ok <==> (forall|i: int|
            0 <= i < lines.len() ==> !(classify(#[trigger] lines[i]) is Invalid)),
        first_refused(lines, at) ==> read_lines(lines) == Err::<Reading, ErrorView>(
            ErrorView::Parse { line: (at + 1) as nat, message: classify(lines[at])->Invalid_0 },
        ),
{
    lemma_read_lines(lines);
    if let Err(error) = read_lines(lines) {
        let k = choose|at: int| #[trigger]
            first_refused(lines, at) && error == (ErrorView::Parse {
                line: (at + 1) as nat,
                message: classify(lines[at])->Invalid_0,
            });
        assert(classify(lines[k]) is Invalid);
        if first_refused(lines, at) {
            if at < k {
                assert(!(classify(lines[at]) is Invalid));
            } else if k < at {
                assert(!(classify(lines[k]) is Invalid));
            }
        }
    } else if first_refused(lines, at) {
        assert(!(classify(lines[at]) is Invalid));
    }
}

/// A line that says nothing may stand anywhere: what is read is the same
/// without it.
pub proof fn law_skipped_lines_change_nothing(
    above: Seq<Seq<char>>,
    line: Seq<char>,
    below: Seq<Seq<char>>,
)
    requires
        classify(line) is Skip,
        read_lines(above + below) is Ok,
    ensures
        read_lines(above.push(line) + below) == read_lines(above + below),
    decreases below.len(),
{
    let whole = above.push(line) + below;
    if below.len() > 0 {
        let front = below.drop_last();
        assert(whole.drop_last() =~= above.push(line) + front);
        assert((above + below).drop_last() =~= above + front);
        law_skipped_lines_change_nothing(above, line, front);
    } else {
        assert(whole.drop_last() =~= above);
        assert(whole.last() == line);
        assert(above + below =~= above);
    }
}

/// Whether a sample has a count and is of labels.
spec fn read_from(table: Seq<Seq<char>>, sample: SampleView, entry: Entry) -> bool {
    &&& sample.values == seq![entry.count]
    &&& sample.stack.len() == entry.labels.len()
    &&& forall|j: int|
        0 <= j < entry.labels.len() ==> {
            &&& (#[trigger] sample.stack[j]).0 < table.len()
            &&& table[sample.stack[j].0 as int] == entry.labels[j]
        }
}

proof fn lemma_read_from_grows(
    table: Seq<Seq<char>>,
    larger: Seq<Seq<char>>,
    sample: SampleView,
    entry: Entry,
)
    requires
        read_from(table, sample, entry),
        table.is_prefix_of(larger),
    ensures
        read_from(larger, sample, entry),
{
    assert forall|j: int| 0 <= j < entry.labels.len() implies {
        &&& (#[trigger] sample.stack[j]).0 < larger.len()
        &&& larger[sample.stack[j].0 as int] == entry.labels[j]
    } by {
        let k = sample.stack[j].0 as int;
        assert(larger.take(table.len() as int)[k] == table[k]);
    }
}

proof fn lemma_entries_reading(entries: Seq<Entry>)
    requires
        all_labelled(entries),
    ensures
        entries_reading(entries).samples.len() == entries.len(),
        entries_reading(entries).labels.len() <= u32::MAX ==> forall|i: int|
            0 <= i < entries.len() ==> read_from(
                entries_reading(entries).labels,
                #[trigger] entries_reading(entries).samples[i],
                entries[i],
            ),
    decreases entries.len(),
{
    if entries.len() > 0 {
        let front = entries.drop_last();
        assert forall|i: int| 0 <= i < front.len() implies (#[trigger] front[i]).labelled() by {
            assert(front[i] == entries[i]);
        }
        lemma_entries_reading(front);
        lemma_entries_sound(front);
        let before = entries_reading(front);
        let after = entries_reading(entries);
        let last = entries[entries.len() - 1];
        assert(last.labelled());
        law_grown_all_keeps_places(before.labels, last.labels);
        if after.labels.len() <= u32::MAX {
            assert(before.labels.len() <= after.labels.len());
            assert forall|i: int| 0 <= i < entries.len() implies read_from(
                after.labels,
                #[trigger] after.samples[i],
                entries[i],
            ) by {
                if i < front.len() {
                    assert(front[i] == entries[i]);
                    assert(after.samples[i] == before.samples[i]);
                    lemma_read_from_grows(
                        before.labels,
                        after.labels,
                        before.samples[i],
                        entries[i],
                    );
                } else {
                    let stack = after.samples[i].stack;
                    assert(stack == ids(after.labels, last.labels));
                    assert forall|j: int| 0 <= j < last.labels.len() implies {
                        &&& (#[trigger] stack[j]).0 < after.labels.len()
                        &&& after.labels[stack[j].0 as int] == last.labels[j]
                    } by {
                        assert(after.labels.contains(last.labels[j]));
                        let p = place(after.labels, last.labels[j]);
                        assert(0 <= p < after.labels.len() && after.labels[p] == last.labels[j]);
                    }
                }
            }
        }
    }
}

/// Folded text is read as it stands: one sample for each line, in their order,
/// with the count of the line as its one value, and with the frames of the labels
/// of the line, outermost first. The values are counts of samples. There are at
/// most `u32::MAX` distinct labels.
pub proof fn law_folded_text_is_read_as_it_stands(entries: Seq<Entry>)
    requires
        all_labelled(entries),
        forall|i: int| 0 <= i < entries.len() ==> !(#[trigger] entries[i]).commented(),
        entries_reading(entries).labels.len() <= u32::MAX,
    ensures
        folded_meaning(encode_utf8(entries_text(entries))) is Ok,
        ({
            let q = folded_meaning(encode_utf8(entries_text(entries)))->Ok_0;
            &&& q.value_kinds == seq![ValueKindView { kind: "samples"@, unit: "count"@ }]
            &&& q.samples.len() == entries.len()
            &&& forall|i: int|
                0 <= i < entries.len() ==> (#[trigger] q.samples[i]).values == seq![
                    entries[i].count,
                ] && q.samples[i].stack.len() == entries[i].labels.len()
            &&& forall|i: int, j: int|
                0 <= i < entries.len() && 0 <= j < entries[i].labels.len() ==> q.frames[(
                #[trigger] q.samples[i].stack[j]).0 as int] == label_frame(entries[i].labels[j])
        }),
{
    let text = entries_text(entries);
    encode_utf8_valid_utf8(text);
    encode_utf8_decode_utf8(text);
    lemma_read_text(entries);
    lemma_entries_reading(entries);
    let reading = entries_reading(entries);
    let q = folded_meaning(encode_utf8(text))->Ok_0;
    assert(q.samples == reading.samples);
    assert forall|i: int| 0 <= i < entries.len() implies (#[trigger] q.samples[i]).values == seq![
        entries[i].count,
    ] && q.samples[i].stack.len() == entries[i].labels.len() by {
        assert(read_from(reading.labels, reading.samples[i], entries[i]));
    }
    assert forall|i: int, j: int|
        0 <= i < entries.len() && 0 <= j < entries[i].labels.len() implies q.frames[(
    #[trigger] q.samples[i].stack[j]).0 as int] == label_frame(entries[i].labels[j]) by {
        assert(read_from(reading.labels, reading.samples[i], entries[i]));
        assert(reading.samples[i].stack[j] == q.samples[i].stack[j]);
    }
}

/// The lines of a profile: the labels of each stack, root first, and the first
/// value.
pub open spec fn profile_entries(p: ProfileView) -> Seq<Entry> {
    Seq::new(
        p.samples.len(),
        |i: int|
            Entry {
                labels: Seq::new(
                    p.samples[i].stack.len(),
                    |j: int| frame_label(p.frames[p.samples[i].stack[j].0 as int]),
                ),
                count: p.samples[i].values[0],
            },
    )
}

proof fn lemma_stack_text_is_joined(frames: Seq<FrameView>, stack: Seq<FrameId>)
    ensures
        stack_text(frames, stack) == join(
            Seq::new(stack.len(), |j: int| frame_label(frames[stack[j].0 as int])),
        ),
    decreases stack.len(),
{
    let labels = Seq::new(stack.len(), |j: int| frame_label(frames[stack[j].0 as int]));
    if stack.len() > 0 {
        let front = stack.drop_last();
        lemma_stack_text_is_joined(frames, front);
        assert(labels.drop_last() =~= Seq::new(
            front.len(),
            |j: int| frame_label(frames[front[j].0 as int]),
        ));
    }
}

/// Whether a sample can be written.
pub open spec fn writable(p: ProfileView, i: int) -> bool {
    &&& p.samples[i].values.len() > 0
    &&& forall|j: int|
        0 <= j < p.samples[i].stack.len() ==> (#[trigger] p.samples[i].stack[j]).0 < p.frames.len()
}

proof fn lemma_write_samples(p: ProfileView, n: nat)
    requires
        n <= p.samples.len(),
        forall|i: int| 0 <= i < n ==> #[trigger] writable(p, i),
    ensures
        write_samples(p, n) == Ok::<Seq<char>, ErrorView>(
            entries_text(profile_entries(p).take(n as int)),
        ),
    decreases n,
{
    let entries = profile_entries(p).take(n as int);
    if n > 0 {
        lemma_write_samples(p, (n - 1) as nat);
        assert(entries.drop_last() =~= profile_entries(p).take(n - 1));
        assert(entries.last() == profile_entries(p)[n - 1]);
        assert(writable(p, n - 1));
        let sample = p.samples[n - 1];
        lemma_first_dangling(sample.stack, p.frames.len());
        lemma_stack_text_is_joined(p.frames, sample.stack);
        assert(entries.last().labels =~= Seq::new(
            sample.stack.len(),
            |j: int| frame_label(p.frames[sample.stack[j].0 as int]),
        ));
    }
}

/// A profile is written as one line per sample, in their order: the labels of
/// its frames from the root to the leaf with semicolons between them, a space
/// and its first value.
pub proof fn law_samples_are_written_as_lines(p: ProfileView)
    requires
        forall|i: int| 0 <= i < p.samples.len() ==> #[trigger] writable(p, i),
    ensures
        folded_rendering(p) == Ok::<Seq<u8>, ErrorView>(
            encode_utf8(entries_text(profile_entries(p))),
        ),
{
    let n = p.samples.len();
    lemma_write_samples(p, n);
    assert(profile_entries(p).take(n as int) =~= profile_entries(p));
}

proof fn lemma_write_stops(p: ProfileView, at: nat, n: nat)
    requires
        at < n,
        write_samples(p, at + 1) is Err,
    ensures
        write_samples(p, n) == write_samples(p, at + 1),
    decreases n,
{
    if at + 1 < n {
        lemma_write_stops(p, at, (n - 1) as nat);
    }
}

/// A profile is refused for its first sample that cannot be written: one that
/// has no value, or one that has and points at a frame that is not there, which
/// the error names by the first such id.
pub proof fn law_unwritable_samples_are_told(p: ProfileView, at: int)
    requires
        0 <= at < p.samples.len(),
        !writable(p, at),
        forall|i: int| 0 <= i < at ==> #[trigger] writable(p, i),
    ensures
        p.samples[at].values.len() == 0 ==> folded_rendering(p) == Err::<Seq<u8>, ErrorView>(
            ErrorView::InvalidProfile(valueless_message(at as nat)),
        ),
        p.samples[at].values.len() > 0 ==> exists|j: int|
            0 <= j < p.samples[at].stack.len() && (#[trigger] p.samples[at].stack[j]).0
                >= p.frames.len() && (forall|k: int|
                0 <= k < j ==> (#[trigger] p.samples[at].stack[k]).0 < p.frames.len())
                && folded_rendering(p) == Err::<Seq<u8>, ErrorView>(
                ErrorView::InvalidProfile(
                    dangling_message(
                        at as nat,
                        p.samples[at].stack[j].0 as nat,
                        p.frames.len(),
                    ),
                ),
            ),
{
    lemma_write_samples(p, at as nat);
    let sample = p.samples[at];
    lemma_first_dangling(sample.stack, p.frames.len());
    let bad = crate::model::first_dangling(sample.stack, p.frames.len());
    assert(write_samples(p, at as nat + 1) is Err);
    lemma_write_stops(p, at as nat, p.samples.len());
    if sample.values.len() > 0 {
        assert(sample.stack[bad].0 >= p.frames.len());
    }
}

/// Whether a line says a stack.
pub open spec fn says_a_stack() -> spec_fn(Seq<char>) -> bool {
    |line: Seq<char>| classify(line) is Stack
}

/// Whether the prober meets a line that is refused: the first such line comes
/// before it has met as many stacks as it looks at.
pub open spec fn meets_a_refused_line(lines: Seq<Seq<char>>, seen: nat, at: int) -> bool {
    first_refused(lines, at) && seen + lines.take(at).filter(says_a_stack()).len() < 32
}

proof fn lemma_stacks_before(lines: Seq<Seq<char>>, at: int)
    requires
        0 <= at < lines.len() - 1,
    ensures
        lines.take(at + 1).filter(says_a_stack()).len() == lines.skip(1).take(at).filter(
            says_a_stack(),
        ).len() + (if classify(lines[0]) is Stack {
            1int
        } else {
            0
        }),
{
    let one = seq![lines[0]];
    let rest = lines.skip(1).take(at);
    assert(lines.take(at + 1) =~= one + rest);
    Seq::filter_distributes_over_add(one, rest, says_a_stack());
    assert(one.filter(says_a_stack()).len() == (if classify(lines[0]) is Stack {
        1int
    } else {
        0
    })) by {
        reveal(Seq::filter);
        assert(one.drop_last() =~= Seq::empty());
        assert(one.drop_last().filter(says_a_stack()) =~= Seq::empty());
    }
}

proof fn lemma_refused_further(lines: Seq<Seq<char>>, at: int)
    requires
        lines.len() > 0,
        !(classify(lines[0]) is Invalid),
    ensures
        first_refused(lines, at + 1) <==> first_refused(lines.skip(1), at),
        !first_refused(lines, 0),
{
    let rest = lines.skip(1);
    if first_refused(lines, at + 1) {
        if at < 0 {
            assert(at == -1);
        }
        assert(rest[at] == lines[at + 1]);
        assert forall|j: int| 0 <= j < at implies !(classify(#[trigger] rest[j]) is Invalid) by {
            assert(rest[j] == lines[j + 1]);
        }
    }
    if first_refused(rest, at) {
        assert(rest[at] == lines[at + 1]);
        assert forall|j: int| 0 <= j < at + 1 implies !(classify(
            #[trigger] lines[j],
        ) is Invalid) by {
            if j > 0 {
                assert(rest[j - 1] == lines[j]);
            }
        }
    }
}

proof fn lemma_probe_lines(lines: Seq<Seq<char>>, seen: nat)
    ensures
        probe_lines(lines, seen) == Confidence::NoMatch <==> exists|at: int| #[trigger]
            meets_a_refused_line(lines, seen, at),
        probe_lines(lines, seen) == Confidence::NoMatch || (probe_lines(lines, seen)
            == Confidence::Likely <==> (seen > 0 || exists|i: int|
            0 <= i < lines.len() && classify(#[trigger] lines[i]) is Stack)),
        probe_lines(lines, seen) == Confidence::NoMatch || probe_lines(lines, seen)
            == Confidence::Likely || probe_lines(lines, seen) == Confidence::Weak,
    decreases lines.len(),
{
    if lines.len() > 0 && seen < 32 {
        let rest = lines.skip(1);
        if classify(lines[0]) is Invalid {
            assert(lines.take(0).filter(says_a_stack()).len() == 0) by {
                reveal(Seq::filter);
            }
            assert(meets_a_refused_line(lines, seen, 0));
        } else {
            let more: nat = if classify(lines[0]) is Stack {
                seen + 1
            } else {
                seen
            };
            lemma_probe_lines(rest, more);
            if exists|at: int| #[trigger] meets_a_refused_line(lines, seen, at) {
                let at = choose|at: int| #[trigger] meets_a_refused_line(lines, seen, at);
                lemma_refused_further(lines, at - 1);
                lemma_stacks_before(lines, at - 1);
                assert(meets_a_refused_line(rest, more, at - 1));
            }
            if exists|at: int| #[trigger] meets_a_refused_line(rest, more, at) {
                let at = choose|at: int| #[trigger] meets_a_refused_line(rest, more, at);
                lemma_refused_further(lines, at);
                lemma_stacks_before(lines, at);
                assert(meets_a_refused_line(lines, seen, at + 1));
            }
            if exists|i: int| 0 <= i < rest.len() && classify(#[trigger] rest[i]) is Stack {
                let i = choose|i: int| 0 <= i < rest.len() && classify(#[trigger] rest[i]) is Stack;
                assert(classify(lines[i + 1]) is Stack);
            }
            if exists|i: int| 0 <= i < lines.len() && classify(#[trigger] lines[i]) is Stack {
                let i = choose|i: int|
                    0 <= i < lines.len() && classify(#[trigger] lines[i]) is Stack;
                if i > 0 {
                    assert(classify(rest[i - 1]) is Stack);
                }
            }
        }
    }
}

/// Text is rejected where a whole line is refused before thirty-two stacks have
/// been met, and only there. Else it is likely where one of its whole lines is a
/// stack, and weak where none is.
pub proof fn law_the_prober_rejects_for_a_refused_line(text: Seq<char>)
    ensures
        text_likeness(text) == Confidence::NoMatch <==> exists|at: int| #[trigger]
            meets_a_refused_line(whole_lines(text), 0, at),
        text_likeness(text) != Confidence::NoMatch ==> text_likeness(text) == if exists|i: int|
            0 <= i < whole_lines(text).len() && classify(
                #[trigger] whole_lines(text)[i],
            ) is Stack {
            Confidence::Likely
        } else {
            Confidence::Weak
        },
{
    lemma_probe_lines(whole_lines(text), 0);
}

/// The labels of all entries, one entry after the other.
pub open spec fn all_labels(entries: Seq<Entry>) -> Seq<Seq<char>> {
    Seq::new(entries.len(), |i: int| entries[i].labels).flatten()
}

proof fn lemma_labels_in_order(entries: Seq<Entry>)
    ensures
        entries_reading(entries).labels == grown_all(Seq::empty(), all_labels(entries)),
    decreases entries.len(),
{
    let lists = Seq::new(entries.len(), |i: int| entries[i].labels);
    lists.lemma_flatten_and_flatten_alt_are_equivalent();
    if entries.len() > 0 {
        let front = entries.drop_last();
        lemma_labels_in_order(front);
        let before = Seq::new(front.len(), |i: int| front[i].labels);
        assert(lists.drop_last() =~= before);
        before.lemma_flatten_and_flatten_alt_are_equivalent();
        let own = entries.last().labels;
        assert(all_labels(entries) == all_labels(front) + own);
        lemma_grown_all_concat(Seq::<Seq<char>>::empty(), all_labels(front), own);
        if own.len() == 0 {
            assert(grown_all(grown_all(Seq::empty(), all_labels(front)), own) == grown_all(
                Seq::empty(),
                all_labels(front),
            ));
        }
    } else {
        assert(lists.flatten_alt() =~= Seq::empty());
    }
}

/// The frames of folded text are those of its labels, each once, in the order in
/// which they are first seen.
pub proof fn law_frames_come_in_the_order_of_their_labels(entries: Seq<Entry>)
    requires
        all_labelled(entries),
        forall|i: int| 0 <= i < entries.len() ==> !(#[trigger] entries[i]).commented(),
    ensures
        ({
            let table = grown_all(Seq::empty(), all_labels(entries));
            &&& folded_meaning(encode_utf8(entries_text(entries))) matches Ok(q)
            &&& q.frames.len() == table.len()
            &&& forall|k: int|
                0 <= k < table.len() ==> #[trigger] q.frames[k] == label_frame(table[k])
        }),
{
    let text = entries_text(entries);
    encode_utf8_valid_utf8(text);
    encode_utf8_decode_utf8(text);
    lemma_read_text(entries);
    lemma_labels_in_order(entries);
}

/// Blanks around a symbol say nothing: the label reads as it does without them.
pub proof fn law_blanks_around_a_symbol_say_nothing(
    before: Seq<char>,
    symbol: Seq<char>,
    after: Seq<char>,
    annotation: Seq<char>,
)
    requires
        blank(before),
        blank(after),
        tight(symbol),
        opens_nothing(annotation),
    ensures
        ({
            let wide = annotated(before + symbol + after, annotation);
            label_frame(wide) == (FrameView {
                raw: wide,
                ..label_frame(annotated(symbol, annotation))
            })
        }),
{
    reveal_strlit(" (");
    reveal_strlit(")");
    let spaced = before + symbol + after;
    let label = annotated(spaced, annotation);
    let rest = label.drop_last();
    let at = spaced.len() as int;
    assert(rest =~= spaced + " ("@ + annotation);
    assert forall|j: int| at < j < rest.len() - 1 implies !(#[trigger] rest[j] == ' ' && rest[j + 1]
        == '(') by {
        let k = j - at - 2;
        if k < 0 {
            assert(rest[j] == '(');
        } else {
            assert(rest[j] == annotation[k] && rest[j + 1] == annotation[k + 1]);
        }
    }
    lemma_last_pair_is(rest, ' ', '(', at);
    assert(rest.take(at) =~= spaced);
    assert(rest.skip(at + 2) =~= annotation);
    law_trimming_drops_the_blanks_around(before, symbol, after);
    lemma_cut_annotated(symbol, annotation);
}

/// An annotation with a colon is a module where no number that a line can have
/// follows the last colon, or nothing stands before it.
pub proof fn law_annotations_without_a_line_are_modules(
    symbol: Seq<char>,
    head: Seq<char>,
    tail: Seq<char>,
)
    requires
        tight(symbol),
        opens_nothing(head + seq![':'] + tail),
        avoids(tail, ':'),
        head.len() == 0 || read_unsigned(tail, false, u32::MAX as nat) is None,
    ensures
        ({
            let module = head + seq![':'] + tail;
            let frame = label_frame(annotated(symbol, module));
            frame.module == Some(module) && frame.file is None && frame.line is None
        }),
{
    let module = head + seq![':'] + tail;
    lemma_cut_annotated(symbol, module);
    lemma_last_of(module, ':');
    let colon = head.len() as int;
    assert(module[colon] == ':');
    assert forall|k: int| colon < k < module.len() implies module[k] != ':' by {
        assert(module[k] == tail[k - colon - 1]);
    }
    assert(last_of(module, ':') == colon);
    assert(module.skip(colon + 1) =~= tail);
}

/// A symbol that starts like an address is one exactly where hexadecimal digits
/// follow, in either case, of a number that an address can have. Else it is the
/// name of a function.
pub proof fn law_symbols_are_addresses_by_their_digits(x: char, digits: Seq<char>)
    requires
        x == 'x' || x == 'X',
        tight(seq!['0', x] + digits),
        digits.len() > 0,
        digits.last() != ')',
    ensures
        ({
            let symbol = seq!['0', x] + digits;
            let frame = label_frame(symbol);
            if all_digits(digits, true) && digits_value(digits, true) <= u64::MAX {
                frame.address == Some(digits_value(digits, true) as u64) && frame.function is None
            } else {
                frame.address is None && frame.function == Some(symbol)
            }
        }),
{
    let symbol = seq!['0', x] + digits;
    lemma_trim_tight(symbol);
    assert(symbol.skip(2) =~= digits);
    assert(symbol.last() == digits.last());
}

proof fn lemma_lines_partial(text: Seq<char>, partial: Seq<char>)
    requires
        text.len() > 0 ==> text.last() == '\n',
        avoids(partial, '\n'),
        partial.len() > 0,
    ensures
        lines(text + partial) == lines(text).push(partial),
    decreases text.len(),
{
    let whole = text + partial;
    lemma_first_of(text, '\n');
    let end = first_of(text, '\n');
    if text.len() == 0 {
        assert(whole =~= partial);
        lemma_first_is(whole, '\n', partial.len() as int);
        assert(lines(text) =~= Seq::empty());
        assert(lines(text).push(partial) =~= seq![partial]);
    } else {
        assert(end < text.len()) by {
            if end == text.len() {
                assert(text[text.len() - 1] == '\n');
            }
        }
        assert(forall|i: int| 0 <= i < text.len() ==> whole[i] == text[i]);
        lemma_first_is(whole, '\n', end);
        let rest = text.skip(end + 1);
        lemma_lines_partial(rest, partial);
        assert(whole.take(end) =~= text.take(end));
        assert(whole.skip(end + 1) =~= rest + partial);
        let first = strip_cr(text.take(end));
        assert(seq![first] + lines(rest).push(partial) =~= (seq![first] + lines(rest)).push(
            partial,
        ));
    }
}

/// The prober looks at whole lines alone: what stands behind the last line feed
/// may have been cut off, and does not count.
pub proof fn law_cut_lines_do_not_count(text: Seq<char>, partial: Seq<char>)
    requires
        text.len() > 0 ==> text.last() == '\n',
        avoids(partial, '\n'),
    ensures
        whole_lines(text + partial) == lines(text),
        text_likeness(text + partial) == text_likeness(text),
{
    if partial.len() > 0 {
        lemma_lines_partial(text, partial);
        assert((text + partial).last() == partial[partial.len() - 1]);
        assert(lines(text).push(partial).drop_last() =~= lines(text));
    } else {
        assert(text + partial =~= text);
    }
    if text.len() == 0 {
        assert(lines(text) =~= Seq::empty());
    }
}

/// Bytes are probed by the text that they are, lossily decoded. No bytes at all
/// are no folded text.
pub proof fn law_empty_input_is_not_folded(buf: Seq<u8>)
    ensures
        buf.len() == 0 ==> content_likeness(buf) == Confidence::NoMatch,
        buf.len() > 0 ==> content_likeness(buf) == text_likeness(lossy_text(buf)),
{
}

/// Bytes that are no UTF-8 are refused as such.
pub proof fn law_other_bytes_are_no_folded_text(input: Seq<u8>)
    requires
        !valid_utf8(input),
    ensures
        folded_meaning(input) == Err::<ProfileView, ErrorView>(ErrorView::Utf8),
{
}

} // verus!
