//! What holds of the folded format as a whole: readers hand out valid
//! profiles, and what is read, written and read again stays the same.

use vstd::prelude::*;
use vstd::utf8::{decode_utf8, encode_utf8, encode_utf8_decode_utf8, encode_utf8_valid_utf8};

use crate::error::ErrorView;
use crate::folded::{
    classify, folded_meaning, folded_rendering, frame_label, hex_address, label_frame,
    label_frames, labels_in, probe_lines, read_lines, sample_line, stack_labels, stack_text, text_likeness, text_meaning,
    whole_lines, write_samples, LineView, Reading, PROBE_LINE_BUDGET,
};
use crate::format::Confidence;
use crate::intern::{ids, law_grown_all_keeps_places, place};
use crate::model::{lemma_first_dangling, FrameView};
use crate::number::{decimal, decimal_int, digit, law_decimal_reads_back, law_i64_reads_back};
use crate::text::{
    first_of, is_white, last_of, last_pair, last_white, lemma_first_is, lemma_first_of,
    lemma_last_of, lemma_last_white, lines, split, strip_cr, trim, trim_end, trim_start,
};

verus! {

/// Whether `c` does not occur in `s`.
pub open spec fn avoids(s: Seq<char>, c: char) -> bool {
    forall|i: int| 0 <= i < s.len() ==> #[trigger] s[i] != c
}

/// Whether `s` is empty, or neither starts nor ends in white space.
pub open spec fn tight(s: Seq<char>) -> bool {
    s.len() > 0 ==> !is_white(s[0]) && !is_white(s.last())
}

proof fn lemma_trim_start(s: Seq<char>) -> (k: int)
    ensures
        0 <= k <= s.len(),
        trim_start(s) == s.skip(k),
        k < s.len() ==> !is_white(s[k]),
    decreases s.len(),
{
    if s.len() > 0 && is_white(s[0]) {
        let j = lemma_trim_start(s.skip(1));
        assert(s.skip(1).skip(j) =~= s.skip(j + 1));
        j + 1
    } else {
        assert(s.skip(0) =~= s);
        0
    }
}

proof fn lemma_trim_end(s: Seq<char>) -> (k: int)
    ensures
        0 <= k <= s.len(),
        trim_end(s) == s.take(k),
        k > 0 ==> !is_white(s[k - 1]),
    decreases s.len(),
{
    if s.len() > 0 && is_white(s.last()) {
        let j = lemma_trim_end(s.drop_last());
        assert(s.drop_last().take(j) =~= s.take(j));
        j
    } else {
        assert(s.take(s.len() as int) =~= s);
        s.len() as int
    }
}

/// Trimming leaves a tight part of the text.
proof fn lemma_trim(s: Seq<char>) -> (r: (int, int))
    ensures
        0 <= r.0 <= r.1 <= s.len(),
        trim(s) == s.subrange(r.0, r.1),
        tight(trim(s)),
{
    let a = lemma_trim_start(s);
    let t = trim_start(s);
    let b = lemma_trim_end(t);
    assert(t.take(b) =~= s.subrange(a, a + b));
    (a, a + b)
}

pub proof fn lemma_trim_tight(s: Seq<char>)
    requires
        tight(s),
    ensures
        trim(s) == s,
        trim_end(s) == s,
{
}

proof fn lemma_trim_avoids(s: Seq<char>, c: char)
    requires
        avoids(s, c),
    ensures
        avoids(trim(s), c),
{
    let (a, b) = lemma_trim(s);
}

/// The pieces between separators hold no separator, and nothing that the whole
/// did not hold.
proof fn lemma_split_avoids(s: Seq<char>, sep: char, c: char)
    requires
        avoids(s, c),
    ensures
        forall|i: int|
            0 <= i < split(s, sep).len() ==> avoids(#[trigger] split(s, sep)[i], sep) && avoids(
                split(s, sep)[i],
                c,
            ),
    decreases s.len(),
{
    lemma_first_of(s, sep);
    let end = first_of(s, sep);
    if end < s.len() {
        lemma_split_avoids(s.skip(end + 1), sep, c);
        let rest = split(s.skip(end + 1), sep);
        assert forall|i: int| 0 <= i < split(s, sep).len() implies avoids(
            #[trigger] split(s, sep)[i],
            sep,
        ) && avoids(split(s, sep)[i], c) by {
            if i > 0 {
                assert(split(s, sep)[i] == rest[i - 1]);
            }
        }
    }
}

/// Lines hold no line feed.
proof fn lemma_lines_avoid(s: Seq<char>)
    ensures
        forall|i: int| 0 <= i < lines(s).len() ==> avoids(#[trigger] lines(s)[i], '\n'),
    decreases s.len(),
{
    lemma_first_of(s, '\n');
    let end = first_of(s, '\n');
    if s.len() > 0 && end < s.len() {
        lemma_lines_avoid(s.skip(end + 1));
        let rest = lines(s.skip(end + 1));
        assert forall|i: int| 0 <= i < lines(s).len() implies avoids(
            #[trigger] lines(s)[i],
            '\n',
        ) by {
            if i > 0 {
                assert(lines(s)[i] == rest[i - 1]);
            }
        }
    }
}

proof fn lemma_labels_in(parts: Seq<Seq<char>>)
    requires
        forall|i: int|
            0 <= i < parts.len() ==> avoids(#[trigger] parts[i], ';') && avoids(parts[i], '\n'),
    ensures
        forall|i: int| 0 <= i < labels_in(parts).len() ==> good_label(#[trigger] labels_in(parts)[i]),
    decreases parts.len(),
{
    if parts.len() > 0 {
        let front = parts.drop_last();
        assert forall|i: int| 0 <= i < front.len() implies avoids(#[trigger] front[i], ';')
            && avoids(front[i], '\n') by {
            assert(front[i] == parts[i]);
        }
        lemma_labels_in(front);
        let last = parts[parts.len() - 1];
        let _ = lemma_trim(last);
        lemma_trim_avoids(last, ';');
        lemma_trim_avoids(last, '\n');
        let all = labels_in(parts);
        assert forall|i: int| 0 <= i < all.len() implies good_label(#[trigger] all[i]) by {
            if i < labels_in(front).len() {
                assert(all[i] == labels_in(front)[i]);
            }
        }
    }
}

/// A label that can stand in a folded stack.
pub open spec fn good_label(label: Seq<char>) -> bool {
    label.len() > 0 && tight(label) && avoids(label, ';') && avoids(label, '\n')
}

/// A stack and its count.
#[verifier::ext_equal]
pub struct Entry {
    pub labels: Seq<Seq<char>>,
    pub count: i64,
}

impl Entry {
    /// Whether the stack has labels, all of which can stand in a stack.
    pub open spec fn labelled(self) -> bool {
        &&& self.labels.len() > 0
        &&& self.count >= 0
        &&& forall|i: int| 0 <= i < self.labels.len() ==> good_label(#[trigger] self.labels[i])
    }

    /// Whether the line of the entry would be taken for a comment.
    pub open spec fn commented(self) -> bool {
        self.labels[0][0] == '#'
    }

    /// The line of the entry, without its end.
    pub open spec fn line(self) -> Seq<char> {
        join(self.labels).push(' ') + decimal_int(self.count as int)
    }
}

/// Labels joined by `;`.
pub open spec fn join(labels: Seq<Seq<char>>) -> Seq<char>
    decreases labels.len(),
{
    if labels.len() == 0 {
        Seq::empty()
    } else if labels.len() == 1 {
        labels[0]
    } else {
        join(labels.drop_last()).push(';') + labels.last()
    }
}

/// The text of a list of entries, one line each.
pub open spec fn entries_text(entries: Seq<Entry>) -> Seq<char>
    decreases entries.len(),
{
    if entries.len() == 0 {
        Seq::empty()
    } else {
        entries_text(entries.drop_last()) + entries.last().line().push('\n')
    }
}

/// What is read from a list of entries.
pub open spec fn entries_reading(entries: Seq<Entry>) -> Reading
    decreases entries.len(),
{
    if entries.len() == 0 {
        Reading::nothing()
    } else {
        entries_reading(entries.drop_last()).stack(
            entries.last().labels,
            entries.last().count as int,
        )
    }
}

/// Whether every entry is labelled.
pub open spec fn all_labelled(entries: Seq<Entry>) -> bool {
    forall|i: int| 0 <= i < entries.len() ==> (#[trigger] entries[i]).labelled()
}

/// The entries that lines hold.
pub open spec fn line_entries(lines: Seq<Seq<char>>) -> Seq<Entry>
    decreases lines.len(),
{
    if lines.len() == 0 {
        Seq::empty()
    } else {
        let before = line_entries(lines.drop_last());
        match classify(lines.last()) {
            LineView::Stack { stack, count } => if stack_labels(stack).len() > 0 {
                before.push(Entry { labels: stack_labels(stack), count: count as i64 })
            } else {
                before
            },
            _ => before,
        }
    }
}

proof fn lemma_stack_of(line: Seq<char>)
    requires
        avoids(line, '\n'),
        classify(line) is Stack,
    ensures
        classify(line)->count >= 0,
        classify(line)->count <= i64::MAX,
        forall|i: int|
            0 <= i < stack_labels(classify(line)->stack).len() ==> good_label(
                #[trigger] stack_labels(classify(line)->stack)[i],
            ),
{
    let t = trim(line);
    let at = last_white(t);
    lemma_last_white(t);
    let (a, b) = lemma_trim(line);
    let k = lemma_trim_end(t.take(at));
    let stack = classify(line)->stack;
    assert(avoids(t, '\n'));
    assert(avoids(stack, '\n'));
    lemma_split_avoids(stack, ';', '\n');
    lemma_labels_in(split(stack, ';'));
}

/// What lines say is what their entries say.
proof fn lemma_read_entries(all: Seq<Seq<char>>)
    requires
        forall|i: int| 0 <= i < all.len() ==> avoids(#[trigger] all[i], '\n'),
        read_lines(all) is Ok,
    ensures
        all_labelled(line_entries(all)),
        read_lines(all) == Ok::<Reading, ErrorView>(entries_reading(line_entries(all))),
    decreases all.len(),
{
    if all.len() > 0 {
        let front = all.drop_last();
        assert forall|i: int| 0 <= i < front.len() implies avoids(#[trigger] front[i], '\n') by {
            assert(front[i] == all[i]);
        }
        lemma_read_entries(front);
        let entries = line_entries(all);
        if classify(all.last()) is Stack {
            lemma_stack_of(all.last());
            let labels = stack_labels(classify(all.last())->stack);
            if labels.len() > 0 {
                assert(entries.drop_last() =~= line_entries(front));
            }
        }
    }
}

/// The ids of labels in a table point at places of the table.
proof fn lemma_ids_fit(table: Seq<Seq<char>>, labels: Seq<Seq<char>>)
    requires
        forall|i: int| 0 <= i < labels.len() ==> table.contains(#[trigger] labels[i]),
    ensures
        forall|i: int| 0 <= i < labels.len() ==> (#[trigger] ids(table, labels)[i]).0 < table.len(),
{
    assert forall|i: int| 0 <= i < labels.len() implies (#[trigger] ids(table, labels)[i]).0
        < table.len() by {
        assert(table.contains(labels[i]));
        let k = place(table, labels[i]);
        assert(0 <= k < table.len());
    }
}

/// A reading that came of stacks: the labels are distinct, and every sample
/// has one count and points at labels that are there.
pub open spec fn sound(reading: Reading) -> bool {
    &&& reading.labels.no_duplicates()
    &&& forall|i: int|
        0 <= i < reading.samples.len() ==> (#[trigger] reading.samples[i]).fits(
            reading.labels.len(),
            1,
        )
}

proof fn lemma_stack_sound(reading: Reading, labels: Seq<Seq<char>>, count: int)
    requires
        sound(reading),
    ensures
        sound(reading.stack(labels, count)),
        reading.labels.is_prefix_of(reading.stack(labels, count).labels),
{
    let after = reading.stack(labels, count);
    law_grown_all_keeps_places(reading.labels, labels);
    assert(reading.labels.is_prefix_of(after.labels)) by {
        assert(reading.labels.take(reading.labels.len() as int) =~= reading.labels);
    }
    if labels.len() > 0 {
        lemma_ids_fit(after.labels, labels);
        assert forall|i: int| 0 <= i < after.samples.len() implies (#[trigger] after.samples[i]).fits(
            after.labels.len(),
            1,
        ) by {
            if i < reading.samples.len() {
                assert(after.samples[i] == reading.samples[i]);
                assert(reading.samples[i].fits(reading.labels.len(), 1));
            }
        }
    }
}

proof fn lemma_lines_sound(all: Seq<Seq<char>>)
    ensures
        read_lines(all) matches Ok(reading) ==> sound(reading),
    decreases all.len(),
{
    if all.len() > 0 {
        lemma_lines_sound(all.drop_last());
        if let Ok(reading) = read_lines(all.drop_last()) {
            if let LineView::Stack { stack, count } = classify(all.last()) {
                lemma_stack_sound(reading, stack_labels(stack), count);
            }
        }
    }
}

/// Every profile that the folded reader hands out is valid, and no two of its
/// frames have the same label.
pub proof fn law_folded_reads_valid_profiles(input: Seq<u8>)
    ensures
        folded_meaning(input) matches Ok(p) ==> p.valid() && forall|i: int, j: int|
            0 <= i < j < p.frames.len() ==> (#[trigger] p.frames[i]).raw != (
            #[trigger] p.frames[j]).raw,
{
    if let Ok(p) = folded_meaning(input) {
        let all = lines(decode_utf8(input));
        lemma_lines_sound(all);
        let reading = read_lines(all)->Ok_0;
        assert forall|i: int| 0 <= i < p.samples.len() implies (#[trigger] p.samples[i]).fits(
            p.frames.len(),
            p.value_kinds.len(),
        ) by {
            assert(reading.samples[i].fits(reading.labels.len(), 1));
        }
    }
}

/// The label that a frame was read from is the label it is rendered as, so no
/// information is lost.
pub proof fn law_label_is_kept(label: Seq<char>)
    requires
        label.len() > 0,
    ensures
        frame_label(label_frame(label)) == label,
{
}

pub proof fn lemma_last_pair_is(s: Seq<char>, a: char, b: char, at: int)
    requires
        0 <= at < s.len() - 1,
        s[at] == a && s[at + 1] == b,
        forall|j: int| at < j < s.len() - 1 ==> !(#[trigger] s[j] == a && s[j + 1] == b),
    ensures
        last_pair(s, a, b) == at,
    decreases s.len(),
{
    if at < s.len() - 2 {
        let front = s.drop_last();
        assert(!(s[s.len() - 2] == a && s[s.len() - 2 + 1] == b));
        assert forall|j: int| at < j < front.len() - 1 implies !(#[trigger] front[j] == a
            && front[j + 1] == b) by {
            assert(!(s[j] == a && s[j + 1] == b));
        }
        lemma_last_pair_is(front, a, b, at);
    }
}

/// Whether a text holds no ` (`, which would start an annotation.
pub open spec fn opens_nothing(s: Seq<char>) -> bool {
    forall|j: int| 0 <= j < s.len() - 1 ==> !(#[trigger] s[j] == ' ' && s[j + 1] == '(')
}

/// A label that is rendered from a function, a file and a line is parsed back
/// to them: the function has no white space at its ends and does not read as an
/// address, and neither it nor the file is empty, nor holds the file a ` (`.
pub proof fn law_rendered_location_reads_back(frame: FrameView)
    requires
        frame.raw.len() == 0,
        frame.function is Some,
        frame.function->0.len() > 0,
        tight(frame.function->0),
        hex_address(frame.function->0) is None,
        frame.file is Some,
        frame.file->0.len() > 0,
        opens_nothing(frame.file->0),
        frame.line is Some,
        frame.module is None,
        frame.address is None,
    ensures
        label_frame(frame_label(frame)) == (FrameView { raw: frame_label(frame), ..frame }),
{
    reveal_strlit(" (");
    reveal_strlit(":");
    reveal_strlit(")");
    let function = frame.function->0;
    let file = frame.file->0;
    let line = frame.line->0;
    let digits = decimal(line as nat);
    let label = frame_label(frame);
    law_decimal_reads_back(line as nat);
    lemma_decimal_is_dark(line as nat);
    let rest = label.drop_last();
    let at = function.len() as int;
    let tail = file + ":"@ + digits;
    assert(rest =~= function + " ("@ + tail);
    assert(label.last() == ')');
    assert forall|j: int| at < j < rest.len() - 1 implies !(#[trigger] rest[j] == ' ' && rest[j + 1]
        == '(') by {
        let k = j - at - 2;
        if k < 0 {
            assert(rest[j] == '(');
        } else {
            assert(rest[j] == tail[k] && rest[j + 1] == tail[k + 1]);
            if k < file.len() - 1 {
                assert(tail[k] == file[k] && tail[k + 1] == file[k + 1]);
            } else if k == file.len() - 1 {
                assert(tail[k + 1] == ':');
            } else if k > file.len() {
                assert(tail[k] == digits[k - file.len() - 1]);
            }
        }
    }
    lemma_last_pair_is(rest, ' ', '(', at);
    assert(rest.take(at) =~= function);
    lemma_trim_tight(function);
    assert(rest.skip(at + 2) =~= tail);
    let colon = file.len() as int;
    lemma_last_of(tail, ':');
    assert(tail[colon] == ':');
    assert forall|k: int| colon < k < tail.len() implies tail[k] != ':' by {
        assert(tail[k] == digits[k - colon - 1]);
    }
    assert(last_of(tail, ':') == colon);
    assert(tail.take(colon) =~= file);
    assert(tail.skip(colon + 1) =~= digits);
    assert(digits[0] != '+');
    assert(label_frame(label) =~= (FrameView { raw: label, ..frame }));
}

proof fn lemma_split_join(head: Seq<char>, tail: Seq<char>, sep: char)
    requires
        avoids(tail, sep),
    ensures
        split(head.push(sep) + tail, sep) == split(head, sep).push(tail),
    decreases head.len(),
{
    let whole = head.push(sep) + tail;
    lemma_first_of(head, sep);
    let end = first_of(head, sep);
    assert(forall|i: int| 0 <= i < head.len() ==> whole[i] == head[i]);
    assert(whole[head.len() as int] == sep);
    lemma_first_is(whole, sep, end);
    if end < head.len() {
        let rest = head.skip(end + 1);
        lemma_split_join(rest, tail, sep);
        assert(whole.skip(end + 1) =~= rest.push(sep) + tail);
        assert(whole.take(end) =~= head.take(end));
        assert(seq![head.take(end)] + split(rest, sep).push(tail) =~= (seq![head.take(end)] + split(
            rest,
            sep,
        )).push(tail));
    } else {
        assert(whole.skip(end + 1) =~= tail);
        assert(whole.take(end) =~= head);
        lemma_first_is(tail, sep, tail.len() as int);
        assert(split(tail, sep) == seq![tail]);
        assert(seq![head] + seq![tail] =~= seq![head].push(tail));
    }
}

proof fn lemma_split_of_join(labels: Seq<Seq<char>>)
    requires
        labels.len() > 0,
        forall|i: int| 0 <= i < labels.len() ==> good_label(#[trigger] labels[i]),
    ensures
        split(join(labels), ';') == labels,
        join(labels).len() > 0,
        tight(join(labels)),
        join(labels)[0] == labels[0][0],
        avoids(join(labels), '\n'),
    decreases labels.len(),
{
    if labels.len() == 1 {
        let label = labels[0];
        lemma_first_is(label, ';', label.len() as int);
        assert(labels =~= seq![label]);
    } else {
        let front = labels.drop_last();
        assert forall|i: int| 0 <= i < front.len() implies good_label(#[trigger] front[i]) by {
            assert(front[i] == labels[i]);
        }
        lemma_split_of_join(front);
        let last = labels[labels.len() - 1];
        lemma_split_join(join(front), last, ';');
        assert(front.push(last) =~= labels);
        assert(front[0] == labels[0]);
    }
}

proof fn lemma_labels_kept(labels: Seq<Seq<char>>)
    requires
        forall|i: int| 0 <= i < labels.len() ==> good_label(#[trigger] labels[i]),
    ensures
        labels_in(labels) == labels,
    decreases labels.len(),
{
    if labels.len() > 0 {
        let front = labels.drop_last();
        assert forall|i: int| 0 <= i < front.len() implies good_label(#[trigger] front[i]) by {
            assert(front[i] == labels[i]);
        }
        lemma_labels_kept(front);
        lemma_trim_tight(labels[labels.len() - 1]);
        assert(front.push(labels.last()) =~= labels);
    }
}

pub proof fn lemma_decimal_is_dark(n: nat)
    ensures
        decimal(n).len() > 0,
        forall|i: int| 0 <= i < decimal(n).len() ==> '0' <= #[trigger] decimal(n)[i] <= '9',
{
    law_decimal_reads_back(n);
    assert forall|i: int| 0 <= i < decimal(n).len() implies '0' <= #[trigger] decimal(n)[i] <= '9' by {
        assert(digit(decimal(n)[i], false) is Some);
    }
}

/// A labelled entry whose line is no comment is read back from its line.
proof fn lemma_entry_line(entry: Entry)
    requires
        entry.labelled(),
        !entry.commented(),
    ensures
        classify(entry.line()) == (LineView::Stack {
            stack: join(entry.labels),
            count: entry.count as int,
        }),
        stack_labels(join(entry.labels)) == entry.labels,
        avoids(entry.line(), '\n'),
        entry.line().len() > 0,
        entry.line().last() != '\r',
{
    let stack = join(entry.labels);
    let digits = decimal_int(entry.count as int);
    let line = entry.line();
    lemma_split_of_join(entry.labels);
    lemma_labels_kept(entry.labels);
    lemma_decimal_is_dark(entry.count as nat);
    law_i64_reads_back(entry.count);
    let at = stack.len() as int;
    assert(line[0] == stack[0]);
    assert(line.last() == digits.last());
    assert(tight(line));
    lemma_trim_tight(line);
    lemma_last_white(line);
    assert(line[at] == ' ');
    assert forall|i: int| at < i < line.len() implies !is_white(#[trigger] line[i]) by {
        assert(line[i] == digits[i - at - 1]);
    }
    assert(last_white(line) == at);
    assert(line.take(at) =~= stack);
    assert(line.skip(at + 1) =~= digits);
    lemma_trim_tight(stack);
    lemma_trim_tight(digits);
    assert(avoids(line, '\n')) by {
        assert forall|i: int| 0 <= i < line.len() implies #[trigger] line[i] != '\n' by {
            if i < at {
                assert(line[i] == stack[i]);
            } else if i > at {
                assert(line[i] == digits[i - at - 1]);
            }
        }
    }
}

/// One more whole line at the end of a text that ends in a line feed.
proof fn lemma_lines_push(text: Seq<char>, line: Seq<char>)
    requires
        text.len() > 0 ==> text.last() == '\n',
        avoids(line, '\n'),
        line.len() > 0,
        line.last() != '\r',
    ensures
        lines(text + line.push('\n')) == lines(text).push(line),
    decreases text.len(),
{
    let whole = text + line.push('\n');
    lemma_first_of(text, '\n');
    let end = first_of(text, '\n');
    if text.len() == 0 {
        assert(whole =~= line.push('\n'));
        lemma_first_is(whole, '\n', line.len() as int);
        assert(whole.take(line.len() as int) =~= line);
        assert(whole.skip(line.len() as int + 1) =~= Seq::empty());
        assert(lines(whole.skip(line.len() as int + 1)) =~= Seq::empty());
        assert(lines(whole) =~= seq![line]);
        assert(lines(text).push(line) =~= seq![line]);
    } else {
        assert(end < text.len()) by {
            if end == text.len() {
                assert(text[text.len() - 1] == '\n');
            }
        }
        assert(forall|i: int| 0 <= i < text.len() ==> whole[i] == text[i]);
        lemma_first_is(whole, '\n', end);
        let rest = text.skip(end + 1);
        lemma_lines_push(rest, line);
        assert(whole.take(end) =~= text.take(end));
        assert(whole.skip(end + 1) =~= rest + line.push('\n'));
        let first = strip_cr(text.take(end));
        assert(seq![first] + lines(rest).push(line) =~= (seq![first] + lines(rest)).push(line));
    }
}

/// Reading the text of entries gives what the entries say.
pub proof fn lemma_read_text(entries: Seq<Entry>)
    requires
        all_labelled(entries),
        forall|i: int| 0 <= i < entries.len() ==> !(#[trigger] entries[i]).commented(),
    ensures
        read_lines(lines(entries_text(entries))) == Ok::<Reading, ErrorView>(
            entries_reading(entries),
        ),
        entries_text(entries).len() > 0 ==> entries_text(entries).last() == '\n',
    decreases entries.len(),
{
    if entries.len() == 0 {
        assert(lines(entries_text(entries)) =~= Seq::empty());
    } else {
        let front = entries.drop_last();
        let last = entries[entries.len() - 1];
        assert forall|i: int| 0 <= i < front.len() implies (#[trigger] front[i]).labelled()
            && !front[i].commented() by {
            assert(front[i] == entries[i]);
        }
        lemma_read_text(front);
        lemma_entry_line(last);
        lemma_lines_push(entries_text(front), last.line());
        let all = lines(entries_text(entries));
        assert(all.drop_last() =~= lines(entries_text(front)));
        assert(all.last() == last.line());
    }
}

pub proof fn lemma_entries_sound(entries: Seq<Entry>)
    ensures
        sound(entries_reading(entries)),
    decreases entries.len(),
{
    if entries.len() > 0 {
        lemma_entries_sound(entries.drop_last());
        lemma_stack_sound(
            entries_reading(entries.drop_last()),
            entries.last().labels,
            entries.last().count as int,
        );
    }
}

/// A stack of ids into a table is rendered as the labels joined.
proof fn lemma_stack_text(table: Seq<Seq<char>>, small: Seq<Seq<char>>, labels: Seq<Seq<char>>)
    requires
        table.len() <= u32::MAX,
        small.is_prefix_of(table),
        forall|i: int|
            0 <= i < labels.len() ==> small.contains(#[trigger] labels[i]) && good_label(labels[i]),
    ensures
        stack_text(label_frames(table), ids(small, labels)) == join(labels),
    decreases labels.len(),
{
    let stack = ids(small, labels);
    if labels.len() > 0 {
        let front = labels.drop_last();
        let last = labels[labels.len() - 1];
        assert forall|i: int| 0 <= i < front.len() implies small.contains(#[trigger] front[i])
            && good_label(front[i]) by {
            assert(front[i] == labels[i]);
        }
        lemma_stack_text(table, small, front);
        assert(stack.drop_last() =~= ids(small, front));
        let k = place(small, last);
        assert(small.contains(last));
        assert(0 <= k < small.len() && small[k] == last);
        assert(table[k] == last) by {
            assert(table.take(small.len() as int)[k] == small[k]);
        }
        assert(stack.last().0 == k);
        law_label_is_kept(last);
        assert(label_frames(table)[k] == label_frame(last));
        if labels.len() == 1 {
            assert(labels[0] == last);
        }
    }
}

/// Writing what entries say gives their text.
proof fn lemma_write_entries(entries: Seq<Entry>, n: nat)
    requires
        all_labelled(entries),
        n <= entries.len(),
        entries_reading(entries).labels.len() <= u32::MAX,
    ensures
        entries_reading(entries).samples.len() == entries.len(),
        write_samples(entries_reading(entries).profile(), n) == Ok::<Seq<char>, ErrorView>(
            entries_text(entries.take(n as int)),
        ),
    decreases n,
{
    let reading = entries_reading(entries);
    let p = reading.profile();
    lemma_prefix_reading(entries, n as int);
    lemma_prefix_reading(entries, entries.len() as int);
    assert(entries.take(entries.len() as int) =~= entries);
    if n > 0 {
        let k = (n - 1) as nat;
        lemma_write_entries(entries, k);
        lemma_entries_sound(entries);
        lemma_entries_sound(entries.take(n as int));
        lemma_entries_sound(entries.take(k as int));
        let entry = entries[k as int];
        assert(entry.labelled());
        assert(entries.take(n as int).drop_last() =~= entries.take(k as int));
        assert(entries.take(n as int).last() == entry);
        let small = entries_reading(entries.take(n as int));
        let before = entries_reading(entries.take(k as int));
        law_grown_all_keeps_places(before.labels, entry.labels);
        let sample = p.samples[k as int];
        assert(sample == small.samples[k as int]);
        assert(sample.stack == ids(small.labels, entry.labels));
        assert forall|i: int| 0 <= i < entry.labels.len() implies small.labels.contains(
            #[trigger] entry.labels[i],
        ) && good_label(entry.labels[i]) by {}
        lemma_stack_text(reading.labels, small.labels, entry.labels);
        assert(reading.samples[k as int].fits(reading.labels.len(), 1));
        lemma_first_dangling(sample.stack, p.frames.len());
        let text = entries_text(entries.take(k as int));
        assert(sample_line(p.frames, sample) =~= entry.line().push('\n'));
    } else {
        assert(entries.take(0) =~= Seq::empty());
    }
}

/// What the first entries say is a beginning of what all of them say.
proof fn lemma_prefix_reading(entries: Seq<Entry>, n: int)
    requires
        all_labelled(entries),
        0 <= n <= entries.len(),
    ensures
        entries_reading(entries.take(n)).labels.is_prefix_of(entries_reading(entries).labels),
        entries_reading(entries.take(n)).samples.is_prefix_of(entries_reading(entries).samples),
        entries_reading(entries.take(n)).samples.len() == n,
    decreases entries.len(),
{
    if n == entries.len() {
        assert(entries.take(n) =~= entries);
        let all = entries_reading(entries);
        assert(all.labels.take(all.labels.len() as int) =~= all.labels);
        assert(all.samples.take(all.samples.len() as int) =~= all.samples);
        if n > 0 {
            let front = entries.drop_last();
            assert forall|i: int| 0 <= i < front.len() implies (#[trigger] front[i]).labelled() by {
                assert(front[i] == entries[i]);
            }
            lemma_prefix_reading(front, n - 1);
            assert(front.take(n - 1) =~= front);
            assert(entries[n - 1].labelled());
        }
    } else {
        let front = entries.drop_last();
        assert forall|i: int| 0 <= i < front.len() implies (#[trigger] front[i]).labelled() by {
            assert(front[i] == entries[i]);
        }
        lemma_prefix_reading(front, n);
        assert(front.take(n) =~= entries.take(n));
        let small = entries_reading(entries.take(n));
        let mid = entries_reading(front);
        let all = entries_reading(entries);
        lemma_entries_sound(front);
        lemma_stack_sound(mid, entries.last().labels, entries.last().count as int);
        assert(all.labels.take(small.labels.len() as int) =~= mid.labels.take(
            small.labels.len() as int,
        ));
        assert(all.samples.take(small.samples.len() as int) =~= mid.samples.take(
            small.samples.len() as int,
        ));
    }
}

/// Folded text that is one well-formed line per stack comes back byte for byte
/// when it is read and written again: a line is labels joined by `;`, a space
/// and a decimal count, where no label is empty, holds a `;` or a line feed, or
/// has white space at an end, and the first label of a line is no comment.
/// There are at most `u32::MAX` distinct labels.
pub proof fn law_folded_text_round_trips(entries: Seq<Entry>)
    requires
        all_labelled(entries),
        forall|i: int| 0 <= i < entries.len() ==> !(#[trigger] entries[i]).commented(),
        entries_reading(entries).labels.len() <= u32::MAX,
    ensures
        folded_meaning(encode_utf8(entries_text(entries))) matches Ok(p) && folded_rendering(p)
            == Ok::<Seq<u8>, ErrorView>(encode_utf8(entries_text(entries))),
{
    let text = entries_text(entries);
    encode_utf8_valid_utf8(text);
    encode_utf8_decode_utf8(text);
    lemma_read_text(entries);
    lemma_write_entries(entries, entries.len());
    assert(entries.take(entries.len() as int) =~= entries);
}

/// The entries of a folded text.
pub open spec fn text_entries(input: Seq<u8>) -> Seq<Entry> {
    line_entries(lines(decode_utf8(input)))
}

/// A profile that was read from folded bytes is the same when it is written
/// and read again, where no stack starts with a label that makes its line a
/// comment, and there are at most `u32::MAX` frames.
pub proof fn law_folded_profile_round_trips(input: Seq<u8>)
    requires
        folded_meaning(input) is Ok,
        folded_meaning(input)->Ok_0.frames.len() <= u32::MAX,
        forall|i: int|
            0 <= i < text_entries(input).len() ==> !(#[trigger] text_entries(input)[i]).commented(),
    ensures
        folded_rendering(folded_meaning(input)->Ok_0) matches Ok(bytes) && folded_meaning(bytes)
            == folded_meaning(input),
{
    let all = lines(decode_utf8(input));
    lemma_lines_avoid(decode_utf8(input));
    lemma_read_entries(all);
    let entries = text_entries(input);
    let text = entries_text(entries);
    lemma_read_text(entries);
    lemma_write_entries(entries, entries.len());
    assert(entries.take(entries.len() as int) =~= entries);
    encode_utf8_valid_utf8(text);
    encode_utf8_decode_utf8(text);
}

proof fn lemma_read_means_valid(all: Seq<Seq<char>>)
    requires
        read_lines(all) is Ok,
    ensures
        forall|i: int| 0 <= i < all.len() ==> !(classify(#[trigger] all[i]) is Invalid),
    decreases all.len(),
{
    if all.len() > 0 {
        lemma_read_means_valid(all.drop_last());
        assert forall|i: int| 0 <= i < all.len() implies !(classify(
            #[trigger] all[i],
        ) is Invalid) by {
            if i < all.len() - 1 {
                assert(all.drop_last()[i] == all[i]);
            }
        }
    }
}

proof fn lemma_valid_lines_probe(all: Seq<Seq<char>>, seen: nat)
    requires
        forall|i: int| 0 <= i < all.len() ==> !(classify(#[trigger] all[i]) is Invalid),
    ensures
        probe_lines(all, seen) == if seen > 0 || exists|i: int|
            0 <= i < all.len() && classify(#[trigger] all[i]) is Stack {
            Confidence::Likely
        } else {
            Confidence::Weak
        },
    decreases all.len(),
{
    if all.len() > 0 && seen < PROBE_LINE_BUDGET {
        let rest = all.skip(1);
        assert forall|i: int| 0 <= i < rest.len() implies !(classify(
            #[trigger] rest[i],
        ) is Invalid) by {
            assert(rest[i] == all[i + 1]);
        }
        assert(!(classify(all[0]) is Invalid));
        let more: nat = if classify(all[0]) is Stack {
            seen + 1
        } else {
            seen
        };
        lemma_valid_lines_probe(rest, more);
        if exists|i: int| 0 <= i < rest.len() && classify(#[trigger] rest[i]) is Stack {
            let i = choose|i: int| 0 <= i < rest.len() && classify(#[trigger] rest[i]) is Stack;
            assert(classify(all[i + 1]) is Stack);
        }
        if exists|i: int| 0 <= i < all.len() && classify(#[trigger] all[i]) is Stack {
            let i = choose|i: int| 0 <= i < all.len() && classify(#[trigger] all[i]) is Stack;
            if i > 0 {
                assert(classify(rest[i - 1]) is Stack);
            }
        }
    }
}

/// Detection and parsing never disagree: text that the reader accepts is
/// probed as likely where one of its whole lines is a stack, and as weak where
/// none is, but never rejected.
pub proof fn law_probe_agrees_with_reader(text: Seq<char>)
    requires
        text_meaning(text) is Ok,
    ensures
        text_likeness(text) == if exists|i: int|
            0 <= i < whole_lines(text).len() && classify(
                #[trigger] whole_lines(text)[i],
            ) is Stack {
            Confidence::Likely
        } else {
            Confidence::Weak
        },
{
    lemma_read_means_valid(lines(text));
    let whole = whole_lines(text);
    assert forall|i: int| 0 <= i < whole.len() implies !(classify(
        #[trigger] whole[i],
    ) is Invalid) by {
        assert(whole[i] == lines(text)[i]);
    }
    lemma_valid_lines_probe(whole, 0);
}

} // verus!
