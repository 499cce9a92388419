//! The ".folded" profiler format.
//!
//! Folded (a.k.a. "collapsed") stacks are the textual format popularised by
//! Brendan Gregg's `FlameGraph` tooling. Each non-empty, non-comment line is a
//! single aggregated stack of the shape:
//!
//! ```text
//! root_frame;middle_frame;leaf_frame <count>
//! ```
//!
//! Frames are separated by `;` and ordered outermost (root) to innermost
//! (leaf). The weight is the final whitespace-separated token and is a
//! non-negative integer sample count. Lines that are empty or begin with `#`
//! are treated as comments and ignored.

use vstd::prelude::*;
use vstd::slice::slice_subrange;
use vstd::utf8::{decode_utf8, encode_utf8, valid_utf8};

use crate::error::{outcome, ErrorView, ProfcastError, Result};
use crate::format::{
    weigh_name, weighed, Confidence, InputFormat, OutputFormat, ProbeData, ProbeView, WriteOptions,
};
use crate::intern::{
    frame_id, grown, grown_all, id_at, ids, law_grown_all_keeps_places, law_grown_keeps_places,
    place, Interner,
};
use crate::model::{
    dangling_message, dangling_text, find_dangling, first_dangling, lemma_first_dangling, views,
    Frame, FrameId, FrameView, Profile, ProfileView, Sample, SampleView, ValueKind, ValueKindView,
};
use crate::number::{
    decimal, decimal_int, hexadecimal, magnitude, parse_i64, parse_magnitude, parse_unsigned,
    push_decimal, push_hexadecimal, push_i64, read_i64, read_unsigned,
};
use crate::path::word_list;
use crate::text::{
    chars_of, find_last, find_last_pair, find_last_white, last_of, last_pair, last_white, lines,
    lossy, lossy_text, pieces, split, split_at_each, split_lines, string_of, trim, trim_end,
    trimmed, trimmed_end, utf8_text,
};

verus! {

/// Number of leading stacks the prober inspects before making up its mind.
pub const PROBE_LINE_BUDGET: usize = 32;

/// The folded format.
///
/// The format is stateless, so this is a zero-sized marker that exists only to
/// implement [`InputFormat`] and [`OutputFormat`].
#[derive(Debug, Clone, Copy)]
pub struct FoldedFormat;

impl Default for FoldedFormat {
    fn default() -> (r: Self)
        ensures
            r == FoldedFormat,
    {
        FoldedFormat
    }
}

/// The labels among `parts`: what is left of each without white space around
/// it, where anything is.
pub open spec fn labels_in(parts: Seq<Seq<char>>) -> Seq<Seq<char>>
    decreases parts.len(),
{
    if parts.len() == 0 {
        Seq::empty()
    } else {
        let before = labels_in(parts.drop_last());
        let label = trim(parts.last());
        if label.len() == 0 {
            before
        } else {
            before.push(label)
        }
    }
}

/// The labels of a `;`-separated stack, outermost first.
pub open spec fn stack_labels(stack: Seq<char>) -> Seq<Seq<char>> {
    labels_in(split(stack, ';'))
}

/// Labels that are there stay when parts are added.
proof fn lemma_labels_stay(parts: Seq<Seq<char>>, n: int)
    requires
        0 <= n <= parts.len(),
    ensures
        labels_in(parts.take(n)).len() <= labels_in(parts).len(),
    decreases parts.len() - n,
{
    if n < parts.len() {
        assert(parts.take(n + 1).drop_last() =~= parts.take(n));
        lemma_labels_stay(parts, n + 1);
    } else {
        assert(parts.take(n) =~= parts);
    }
}

/// Whether a stack has no label.
fn is_frameless(stack: &[char]) -> (r: bool)
    ensures
        r == (stack_labels(stack@).len() == 0),
{
    let parts = split_at_each(stack, ';');
    let ghost all = split(stack@, ';');
    let mut i: usize = 0;
    assert(all.take(0) =~= Seq::empty());
    while i < parts.len()
        invariant
            i <= parts.len(),
            pieces(parts@) == all,
            all == split(stack@, ';'),
            labels_in(all.take(i as int)).len() == 0,
        decreases parts.len() - i,
    {
        assert(all.take(i + 1).drop_last() =~= all.take(i as int));
        assert(all.take(i + 1).last() == parts@[i as int]@);
        if trimmed(parts[i]).len() > 0 {
            proof {
                lemma_labels_stay(all, i + 1);
            }
            return false;
        }
        i = i + 1;
    }
    assert(all.take(i as int) =~= all);
    true
}

/// What one line says.
#[verifier::ext_equal]
pub enum LineView {
    /// Blank line, `#` comment or frameless sample: carries no data.
    Skip,
    /// A stack, outermost frame first, and its weight.
    Stack { stack: Seq<char>, count: int },
    /// A line outside the grammar, with a reason.
    Invalid(Seq<char>),
}

/// What a line says: a stack and, behind the last white space, its count. A
/// stack without a label is frameless, and no stack.
pub open spec fn classify(line: Seq<char>) -> LineView {
    let line = trim(line);
    let at = last_white(line);
    if line.len() == 0 || line[0] == '#' {
        LineView::Skip
    } else if at < 0 {
        if read_i64(line) matches Some(count) && count >= 0 {
            LineView::Skip
        } else {
            LineView::Invalid("missing whitespace-separated sample count"@)
        }
    } else {
        let stack = trim_end(line.take(at));
        match read_i64(trim(line.skip(at + 1))) {
            None => LineView::Invalid("sample count is not an integer"@),
            Some(count) => if count < 0 {
                LineView::Invalid("sample count is negative"@)
            } else if stack_labels(stack).len() == 0 {
                LineView::Skip
            } else {
                LineView::Stack { stack, count }
            },
        }
    }
}

/// One parsed folded line: the stack portion and its weight.
pub struct FoldedLine<'a> {
    /// The `;`-separated stack, outermost first. It has a label.
    pub stack: &'a [char],
    /// The non-negative sample count.
    pub count: i64,
}

/// Classification of a single physical line of input.
pub enum LineKind<'a> {
    /// Blank line, `#` comment or frameless sample - carries no data and is
    /// skipped.
    Skip,
    /// A well-formed folded stack line.
    Stack(FoldedLine<'a>),
    /// A line that is not valid folded grammar, with a reason.
    Invalid(&'static str),
}

impl<'a> View for LineKind<'a> {
    type V = LineView;

    open spec fn view(&self) -> LineView {
        match self {
            LineKind::Skip => LineView::Skip,
            LineKind::Stack(line) => LineView::Stack {
                stack: line.stack@,
                count: line.count as int,
            },
            LineKind::Invalid(reason) => LineView::Invalid(reason@),
        }
    }
}

/// Classifies a single line against the folded grammar.
///
/// This is the single source of truth shared by [`FoldedFormat::probe`] and
/// [`FoldedFormat::read`] so that detection and parsing can never disagree.
pub fn classify_line<'a>(line: &'a [char]) -> (r: LineKind<'a>)
    ensures
        r@ == classify(line@),
{
    let line = trimmed(line);
    if line.len() == 0 || line[0] == '#' {
        return LineKind::Skip;
    }
    // The weight is the final whitespace-delimited token; everything before it
    // is the stack. Splitting from the right keeps frames that contain spaces
    // (e.g. `Foo::bar(int, int)`) intact.
    let at: usize = match find_last_white(line) {
        Some(at) => at,
        None => {
            // A lone non-negative integer is a frameless sample (py-spy emits
            // these); accept it as an empty, skipped stack. Any other lone
            // token is malformed.
            return match parse_i64(line) {
                Some(count) => if count >= 0 {
                    LineKind::Skip
                } else {
                    LineKind::Invalid("missing whitespace-separated sample count")
                },
                None => LineKind::Invalid("missing whitespace-separated sample count"),
            };
        },
    };
    assert(line@.subrange(0, at as int) =~= line@.take(at as int));
    assert(line@.subrange(at + 1, line.len() as int) =~= line@.skip(at + 1));
    let stack = trimmed_end(slice_subrange(line, 0, at));
    let tail = trimmed(slice_subrange(line, at + 1, line.len()));
    let count: i64 = match parse_i64(tail) {
        Some(count) => count,
        None => return LineKind::Invalid("sample count is not an integer"),
    };
    if count < 0 {
        return LineKind::Invalid("sample count is negative");
    }
    // A stack of only whitespace or separators (e.g. `;; 1`) is frameless too.
    if is_frameless(stack) {
        return LineKind::Skip;
    }
    LineKind::Stack(FoldedLine { stack, count })
}

/// What the prober makes of `lines`, having met `seen` stacks before them.
pub open spec fn probe_lines(lines: Seq<Seq<char>>, seen: nat) -> Confidence
    decreases lines.len(),
{
    if lines.len() == 0 || seen >= PROBE_LINE_BUDGET {
        if seen > 0 {
            Confidence::Likely
        } else {
            Confidence::Weak
        }
    } else {
        match classify(lines[0]) {
            LineView::Skip => probe_lines(lines.skip(1), seen),
            LineView::Stack { .. } => probe_lines(lines.skip(1), seen + 1),
            LineView::Invalid(_) => Confidence::NoMatch,
        }
    }
}

/// The lines of `text` that are whole: where the last does not end in a line
/// feed, it may have been cut off and does not count.
pub open spec fn whole_lines(text: Seq<char>) -> Seq<Seq<char>> {
    if lines(text).len() == 0 || text.last() == '\n' {
        lines(text)
    } else {
        lines(text).drop_last()
    }
}

/// What the prober makes of a text.
pub open spec fn text_likeness(text: Seq<char>) -> Confidence {
    probe_lines(whole_lines(text), 0)
}

/// What the prober makes of leading bytes, which it decodes lossily.
pub open spec fn content_likeness(buf: Seq<u8>) -> Confidence {
    if buf.len() == 0 {
        Confidence::NoMatch
    } else {
        text_likeness(lossy_text(buf))
    }
}

/// Reports how strongly a text resembles folded data.
pub fn probe_text(text: &str) -> (r: Confidence)
    ensures
        r == text_likeness(text@),
{
    let chars = chars_of(text);
    let all = split_lines(chars.as_slice());
    let ends_clean: bool = chars.len() > 0 && chars[chars.len() - 1] == '\n';
    let mut count: usize = all.len();
    if count > 0 && !ends_clean {
        // The buffer was likely truncated mid-line, so drop the final
        // (partial) line rather than judge it.
        count = count - 1;
    }
    let ghost judged = whole_lines(text@);
    assert(judged =~= pieces(all@).take(count as int));
    let mut seen: usize = 0;
    let mut i: usize = 0;
    assert(judged.skip(0) =~= judged);
    while i < count && seen < PROBE_LINE_BUDGET
        invariant
            i <= count <= all.len(),
            judged == pieces(all@).take(count as int),
            judged == whole_lines(text@),
            seen <= PROBE_LINE_BUDGET,
            probe_lines(judged, 0) == probe_lines(judged.skip(i as int), seen as nat),
        decreases count - i,
    {
        assert(judged.skip(i as int)[0] == all@[i as int]@);
        assert(judged.skip(i as int).skip(1) =~= judged.skip(i + 1));
        match classify_line(all[i]) {
            LineKind::Skip => {},
            LineKind::Stack(_) => {
                seen = seen + 1;
            },
            // A single grammar violation means this isn't folded; the format is
            // line-oriented and homogeneous.
            LineKind::Invalid(_) => return Confidence::NoMatch,
        }
        i = i + 1;
    }
    if seen > 0 {
        // Leading lines obey the grammar.
        Confidence::Likely
    } else {
        // Valid-ish text but nothing we could confirm (e.g. all comments).
        Confidence::Weak
    }
}

/// Inspects leading bytes and reports how strongly they resemble folded data.
///
/// Folded is a text format. The bytes are decoded lossily so a multi-byte
/// character cut off at the end of a header slice doesn't sink an otherwise
/// valid probe.
pub fn probe_content(buf: &[u8]) -> (r: Confidence)
    ensures
        r == content_likeness(buf@),
{
    if buf.len() == 0 {
        return Confidence::NoMatch;
    }
    probe_text(lossy(buf).as_str())
}

/// The address that a token stands for: hexadecimal digits behind `0x`, and
/// nothing else.
pub open spec fn hex_address(token: Seq<char>) -> Option<nat> {
    if token.len() > 2 && token[0] == '0' && (token[1] == 'x' || token[1] == 'X') {
        magnitude(token.skip(2), true, u64::MAX as nat)
    } else {
        None
    }
}

/// A source location: a file, and behind the last colon a line number.
pub open spec fn file_line(annotation: Seq<char>) -> Option<(Seq<char>, nat)> {
    let at = last_of(annotation, ':');
    if at <= 0 {
        None
    } else {
        match read_unsigned(annotation.skip(at + 1), false, u32::MAX as nat) {
            Some(line) => Some((annotation.take(at), line)),
            None => None,
        }
    }
}

/// A label cut into its symbol and the annotation in parentheses behind it.
pub open spec fn cut_label(label: Seq<char>) -> (Seq<char>, Option<Seq<char>>) {
    let rest = label.drop_last();
    let at = last_pair(rest, ' ', '(');
    if label.len() > 0 && label.last() == ')' && at >= 0 {
        (trim(rest.take(at)), Some(rest.skip(at + 2)))
    } else {
        (trim(label), None)
    }
}

/// What a label says of its frame.
pub open spec fn label_frame(label: Seq<char>) -> FrameView {
    let (symbol, annotation) = cut_label(label);
    let address = hex_address(symbol);
    let source = match annotation {
        Some(annotation) => file_line(annotation),
        None => None,
    };
    FrameView {
        raw: label,
        function: if address is None && symbol.len() > 0 {
            Some(symbol)
        } else {
            None
        },
        file: match source {
            Some((file, _)) => Some(file),
            None => None,
        },
        line: match source {
            Some((_, line)) => Some(line as u32),
            None => None,
        },
        module: if source is None {
            annotation
        } else {
            None
        },
        address: match address {
            Some(address) => Some(address as u64),
            None => None,
        },
    }
}

/// Parses a bare hexadecimal address such as `0x7f4060475e44`.
///
/// Requires the whole token to be a `0x`-prefixed hex literal so that ordinary
/// symbol names are never mistaken for addresses.
pub fn parse_hex_address(token: &[char]) -> (r: Option<u64>)
    ensures
        match r {
            Some(address) => hex_address(token@) == Some(address as nat),
            None => hex_address(token@) is None,
        },
{
    if token.len() > 2 && token[0] == '0' && (token[1] == 'x' || token[1] == 'X') {
        assert(token@.subrange(2, token.len() as int) =~= token@.skip(2));
        parse_magnitude(slice_subrange(token, 2, token.len()), true, u64::MAX)
    } else {
        None
    }
}

/// Splits a `file:line` annotation into its file and parsed line number.
///
/// Returns `None` when the trailing `:`-segment is not an integer line, which
/// is how a module annotation (e.g. `libc.so.6`) is told apart from a source
/// location (e.g. `base64.py:304`).
pub fn split_file_line<'a>(annotation: &'a [char]) -> (r: Option<(&'a [char], u32)>)
    ensures
        match r {
            Some((file, line)) => file_line(annotation@) == Some((file@, line as nat)),
            None => file_line(annotation@) is None,
        },
{
    let at: usize = match find_last(annotation, ':') {
        Some(at) => at,
        None => return None,
    };
    if at == 0 {
        return None;
    }
    assert(annotation@.subrange(0, at as int) =~= annotation@.take(at as int));
    assert(annotation@.subrange(at + 1, annotation.len() as int) =~= annotation@.skip(at + 1));
    match parse_unsigned(
        slice_subrange(annotation, at + 1, annotation.len()),
        false,
        u32::MAX as u64,
    ) {
        Some(line) => Some((slice_subrange(annotation, 0, at), line as u32)),
        None => None,
    }
}

/// Best-effort extraction of structured fields from a folded frame label.
///
/// Folded stacks have no formal sub-grammar for a frame; producers annotate the
/// bare symbol differently. This recognises the following shapes emitted by
/// perf's `stackcollapse` and `py-spy`:
///
/// - `symbol (file.ext:line)` -> function + file + line
/// - `symbol (module)`        -> function + module (e.g. `libc.so.6`)
/// - `0xADDR (module)`        -> address + module
/// - `symbol`                 -> function only
///
/// The full original label is always preserved in [`Frame::raw`], and anything
/// that does not match falls back to treating the whole label as the function
/// name, so no information is ever lost.
pub fn parse_frame(label: &str) -> (r: Frame)
    ensures
        r@ == label_frame(label@),
{
    let chars = chars_of(label);
    let s = chars.as_slice();
    let n: usize = s.len();
    let mut symbol: &[char] = trimmed(s);
    let mut annotation: Option<&[char]> = None;
    // Peel off a trailing " (...)" annotation. The leading space distinguishes
    // a real annotation from parentheses that belong to a signature such as
    // `Foo::bar(int, int)`.
    if n > 0 && s[n - 1] == ')' {
        let rest = slice_subrange(s, 0, n - 1);
        assert(rest@ =~= s@.drop_last());
        if let Some(at) = find_last_pair(rest, ' ', '(') {
            assert(rest@.subrange(0, at as int) =~= rest@.take(at as int));
            assert(rest@.subrange(at + 2, rest.len() as int) =~= rest@.skip(at + 2));
            symbol = trimmed(slice_subrange(rest, 0, at));
            annotation = Some(slice_subrange(rest, at + 2, rest.len()));
        }
    }
    let ghost cut = cut_label(label@);
    assert(symbol@ == cut.0);
    assert(match annotation {
        Some(text) => cut.1 == Some(text@),
        None => cut.1 is None,
    });
    let mut frame = Frame::default();
    frame.raw = label.to_owned();
    // The symbol is either a raw address or a function name.
    if let Some(address) = parse_hex_address(symbol) {
        frame.address = Some(address);
    } else if symbol.len() > 0 {
        frame.function = Some(string_of(symbol));
    }
    if let Some(text) = annotation {
        if let Some((file, line)) = split_file_line(text) {
            frame.file = Some(string_of(file));
            frame.line = Some(line);
        } else {
            frame.module = Some(string_of(text));
        }
    }
    frame
}

/// The frame of each label.
pub open spec fn label_frames(labels: Seq<Seq<char>>) -> Seq<FrameView> {
    Seq::new(labels.len(), |i: int| label_frame(labels[i]))
}

/// Builds a [`Profile`]'s interned frame table while parsing.
pub struct FrameInterner {
    labels: Interner<String>,
}

impl View for FrameInterner {
    type V = Seq<Seq<char>>;

    closed spec fn view(&self) -> Seq<Seq<char>> {
        self.labels@
    }
}

impl FrameInterner {
    /// The labels are distinct.
    pub closed spec fn wf(&self) -> bool {
        self.labels.wf()
    }

    /// A table without labels.
    pub fn new() -> (r: Self)
        ensures
            r.wf(),
            r@ == Seq::<Seq<char>>::empty(),
    {
        FrameInterner { labels: Interner::new() }
    }

    /// Returns the stable id for `label`, interning it on first sight.
    ///
    /// Frame ids are u32; 4 billion distinct frames is not a real input, so
    /// saturate rather than introduce a fallible path through every line.
    pub fn intern(&mut self, label: String) -> (r: FrameId)
        requires
            old(self).wf(),
        ensures
            final(self).wf(),
            final(self)@ == grown(old(self)@, label@),
            r == id_at(place(final(self)@, label@)),
    {
        frame_id(self.labels.intern(label))
    }

    /// Hands out the frame of each label.
    pub fn into_frames(self) -> (r: Vec<Frame>)
        ensures
            views(r@) == label_frames(self@),
    {
        let labels = self.labels.into_items();
        let mut frames: Vec<Frame> = Vec::new();
        let mut i: usize = 0;
        while i < labels.len()
            invariant
                i <= labels.len(),
                views(labels@) == self@,
                frames@.len() == i,
                forall|j: int| 0 <= j < i ==> (#[trigger] frames@[j])@ == label_frame(self@[j]),
            decreases labels.len() - i,
        {
            assert(views(labels@)[i as int] == labels@[i as int]@);
            frames.push(parse_frame(labels[i].as_str()));
            i = i + 1;
        }
        assert(views(frames@) =~= label_frames(self@));
        frames
    }
}

/// What has been read so far: the distinct labels in the order in which they
/// were first seen, and the samples over them.
#[verifier::ext_equal]
pub struct Reading {
    pub labels: Seq<Seq<char>>,
    pub samples: Seq<SampleView>,
}

impl Reading {
    /// Before the first line.
    pub open spec fn nothing() -> Reading {
        Reading { labels: Seq::empty(), samples: Seq::empty() }
    }

    /// One more stack; without labels it is frameless, and skipped.
    pub open spec fn stack(self, labels: Seq<Seq<char>>, count: int) -> Reading {
        let table = grown_all(self.labels, labels);
        if labels.len() == 0 {
            self
        } else {
            Reading {
                labels: table,
                samples: self.samples.push(
                    SampleView { stack: ids(table, labels), values: seq![count as i64] },
                ),
            }
        }
    }

    /// The profile that has been read.
    pub open spec fn profile(self) -> ProfileView {
        ProfileView {
            frames: label_frames(self.labels),
            samples: self.samples,
            value_kinds: seq![ValueKindView { kind: "samples"@, unit: "count"@ }],
        }
    }
}

/// What lines say. A line outside the grammar is an error, told of the first.
pub open spec fn read_lines(lines: Seq<Seq<char>>) -> std::result::Result<Reading, ErrorView>
    decreases lines.len(),
{
    if lines.len() == 0 {
        Ok(Reading::nothing())
    } else {
        match read_lines(lines.drop_last()) {
            Err(error) => Err(error),
            Ok(reading) => match classify(lines.last()) {
                LineView::Skip => Ok(reading),
                LineView::Stack { stack, count } => Ok(reading.stack(stack_labels(stack), count)),
                LineView::Invalid(reason) => Err(
                    ErrorView::Parse { line: lines.len(), message: reason },
                ),
            },
        }
    }
}

/// What a folded text says.
pub open spec fn text_meaning(text: Seq<char>) -> std::result::Result<ProfileView, ErrorView> {
    match read_lines(lines(text)) {
        Ok(reading) => Ok(reading.profile()),
        Err(error) => Err(error),
    }
}

/// What bytes say as folded stacks.
pub open spec fn folded_meaning(input: Seq<u8>) -> std::result::Result<ProfileView, ErrorView> {
    if valid_utf8(input) {
        text_meaning(decode_utf8(input))
    } else {
        Err(ErrorView::Utf8)
    }
}

proof fn lemma_error_stays(lines: Seq<Seq<char>>, n: int)
    requires
        0 <= n <= lines.len(),
        read_lines(lines.take(n)) is Err,
    ensures
        read_lines(lines) == read_lines(lines.take(n)),
    decreases lines.len() - n,
{
    if n < lines.len() {
        assert(lines.take(n + 1).drop_last() =~= lines.take(n));
        lemma_error_stays(lines, n + 1);
    } else {
        assert(lines.take(n) =~= lines);
    }
}

/// Interns the labels of a stack.
fn intern_stack(stack: &[char], interner: &mut FrameInterner) -> (r: Vec<FrameId>)
    requires
        old(interner).wf(),
        old(interner)@.no_duplicates(),
    ensures
        final(interner).wf(),
        final(interner)@ == grown_all(old(interner)@, stack_labels(stack@)),
        final(interner)@.no_duplicates(),
        r@ == ids(final(interner)@, stack_labels(stack@)),
{
    let parts = split_at_each(stack, ';');
    let ghost all = split(stack@, ';');
    let ghost table = interner@;
    let mut out: Vec<FrameId> = Vec::new();
    let mut i: usize = 0;
    assert(out@ =~= ids(table, labels_in(all.take(0))));
    while i < parts.len()
        invariant
            i <= parts.len(),
            pieces(parts@) == all,
            interner.wf(),
            table.no_duplicates(),
            interner@.no_duplicates(),
            interner@ == grown_all(table, labels_in(all.take(i as int))),
            out@ == ids(interner@, labels_in(all.take(i as int))),
        decreases parts.len() - i,
    {
        let ghost before = interner@;
        let ghost seen = labels_in(all.take(i as int));
        assert(all.take(i + 1).drop_last() =~= all.take(i as int));
        assert(all.take(i + 1).last() == parts@[i as int]@);
        let label = trimmed(parts[i]);
        // Drop empty segments produced by a stray leading/trailing `;`.
        if label.len() > 0 {
            let id = interner.intern(string_of(label));
            proof {
                let now = labels_in(all.take(i + 1));
                assert(now =~= seen.push(label@));
                assert(now.drop_last() =~= seen);
                law_grown_keeps_places(before, label@);
                law_grown_all_keeps_places(table, seen);
                assert forall|j: int| 0 <= j < seen.len() implies id_at(
                    place(interner@, #[trigger] seen[j]),
                ) == id_at(place(before, seen[j])) by {
                    assert(before.contains(seen[j]));
                }
                assert(ids(interner@, now) =~= ids(before, seen).push(id));
            }
            out.push(id);
        }
        i = i + 1;
    }
    assert(all.take(i as int) =~= all);
    out
}

/// Reads folded text.
pub fn read_text(text: &str) -> (r: Result<Profile>)
    ensures
        outcome(r) == text_meaning(text@),
{
    let chars = chars_of(text);
    let all = split_lines(chars.as_slice());
    let ghost whole = lines(text@);
    let mut interner = FrameInterner::new();
    let mut samples: Vec<Sample> = Vec::new();
    let mut index: usize = 0;
    assert(views(samples@) =~= Seq::empty());
    assert(whole.take(0) =~= Seq::empty());
    while index < all.len()
        invariant
            index <= all.len(),
            pieces(all@) == whole,
            whole == lines(text@),
            interner.wf(),
            interner@.no_duplicates(),
            read_lines(whole.take(index as int)) == Ok::<Reading, ErrorView>(
                Reading { labels: interner@, samples: views(samples@) },
            ),
        decreases all.len() - index,
    {
        let ghost reading = Reading { labels: interner@, samples: views(samples@) };
        let ghost now = whole.take(index + 1);
        assert(now.drop_last() =~= whole.take(index as int));
        assert(now.last() == all@[index as int]@);
        match classify_line(all[index]) {
            LineKind::Skip => {},
            LineKind::Invalid(reason) => {
                proof {
                    lemma_error_stays(whole, index + 1);
                }
                return Err(ProfcastError::Parse { line: index + 1, message: reason.to_owned() });
            },
            LineKind::Stack(line) => {
                let stack = intern_stack(line.stack, &mut interner);
                // A frameless sample (e.g. a line of only `;`) is skipped.
                if stack.len() > 0 {
                    let ghost before = views(samples@);
                    let mut values: Vec<i64> = Vec::new();
                    values.push(line.count);
                    let sample = Sample { stack, values };
                    let ghost said = sample@;
                    samples.push(sample);
                    proof {
                        assert(said.values =~= seq![line.count]);
                        assert(views(samples@) =~= before.push(said));
                    }
                } else {
                    assert(stack_labels(line.stack@).len() == 0);
                }
                proof {
                    assert(Reading { labels: interner@, samples: views(samples@) }
                        =~= reading.stack(stack_labels(line.stack@), line.count as int));
                }
            },
        }
        index = index + 1;
    }
    assert(whole.take(index as int) =~= whole);
    let mut value_kinds: Vec<ValueKind> = Vec::new();
    value_kinds.push(ValueKind { kind: "samples".to_owned(), unit: "count".to_owned() });
    assert(views(value_kinds@) =~= seq![ValueKindView { kind: "samples"@, unit: "count"@ }]);
    Ok(Profile { frame_intern: interner.into_frames(), samples, value_kinds })
}

/// The label for a frame: as it was read, or rebuilt from what is known of it.
pub open spec fn frame_label(frame: FrameView) -> Seq<char> {
    let symbol = match (frame.function, frame.address) {
        (Some(function), _) => function,
        (None, Some(address)) => "0x"@ + hexadecimal(address as nat),
        (None, None) => Seq::empty(),
    };
    if frame.raw.len() > 0 {
        frame.raw
    } else {
        match (frame.file, frame.line, frame.module) {
            (Some(file), Some(line), _) => symbol + " ("@ + file + ":"@ + decimal(line as nat)
                + ")"@,
            (Some(file), None, _) => symbol + " ("@ + file + ")"@,
            (None, _, Some(module)) => symbol + " ("@ + module + ")"@,
            (None, _, None) => symbol,
        }
    }
}

/// Renders a [`Frame`] back to a folded stack label.
///
/// This is the inverse of [`parse_frame`]: the label that a frame was read from
/// is the label it is rendered as.
pub fn render_frame(frame: &Frame) -> (r: String)
    ensures
        r@ == frame_label(frame@),
{
    if !frame.raw.as_str().is_empty() {
        return frame.raw.clone();
    }
    // Symbol: prefer the human-readable function name (pprof frames can carry
    // both); fall back to a bare address.
    let mut out: String = match (&frame.function, frame.address) {
        (Some(function), _) => function.clone(),
        (None, Some(address)) => {
            let mut hex: String = "0x".to_owned();
            push_hexadecimal(&mut hex, address);
            hex
        },
        (None, None) => String::new(),
    };
    // Annotation: a `(file:line)` source location or a `(module)` tag.
    match (&frame.file, frame.line, &frame.module) {
        (Some(file), Some(line), _) => {
            out.push_str(" (");
            out.push_str(file.as_str());
            out.push_str(":");
            push_decimal(&mut out, line as u64);
            out.push_str(")");
        },
        (Some(file), None, _) => {
            out.push_str(" (");
            out.push_str(file.as_str());
            out.push_str(")");
        },
        (None, _, Some(module)) => {
            out.push_str(" (");
            out.push_str(module.as_str());
            out.push_str(")");
        },
        (None, _, None) => {},
    }
    out
}

/// The labels of a stack joined by `;`.
pub open spec fn stack_text(frames: Seq<FrameView>, stack: Seq<FrameId>) -> Seq<char>
    decreases stack.len(),
{
    if stack.len() == 0 {
        Seq::empty()
    } else {
        let label = frame_label(frames[stack.last().0 as int]);
        if stack.len() == 1 {
            label
        } else {
            stack_text(frames, stack.drop_last()).push(';') + label
        }
    }
}

/// The line for a sample. Folded carries a single weight; the model may hold
/// several value series, so the first is emitted and the rest dropped.
pub open spec fn sample_line(frames: Seq<FrameView>, sample: SampleView) -> Seq<char> {
    (stack_text(frames, sample.stack).push(' ') + decimal_int(sample.values[0] as int)).push('\n')
}

pub open spec fn valueless_message(index: nat) -> Seq<char> {
    "sample "@ + decimal(index) + " has no value to emit as a folded count"@
}

/// The lines for the first `n` samples, or what is wrong with the first of
/// them that cannot be written.
pub open spec fn write_samples(p: ProfileView, n: nat) -> std::result::Result<Seq<char>, ErrorView>
    decreases n,
{
    if n == 0 {
        Ok(Seq::empty())
    } else {
        match write_samples(p, (n - 1) as nat) {
            Err(error) => Err(error),
            Ok(before) => {
                let sample = p.samples[n - 1];
                let bad = first_dangling(sample.stack, p.frames.len());
                if sample.values.len() == 0 {
                    Err(ErrorView::InvalidProfile(valueless_message((n - 1) as nat)))
                } else if bad < sample.stack.len() {
                    Err(
                        ErrorView::InvalidProfile(
                            dangling_message(
                                (n - 1) as nat,
                                sample.stack[bad].0 as nat,
                                p.frames.len(),
                            ),
                        ),
                    )
                } else {
                    Ok(before + sample_line(p.frames, sample))
                }
            },
        }
    }
}

/// The folded text for a profile.
pub open spec fn folded_rendering(p: ProfileView) -> std::result::Result<Seq<u8>, ErrorView> {
    match write_samples(p, p.samples.len()) {
        Ok(text) => Ok(encode_utf8(text)),
        Err(error) => Err(error),
    }
}

proof fn lemma_write_error_stays(p: ProfileView, n: nat, m: nat)
    requires
        n <= m,
        write_samples(p, n) is Err,
    ensures
        write_samples(p, m) == write_samples(p, n),
    decreases m - n,
{
    if n < m {
        lemma_write_error_stays(p, n, (m - 1) as nat);
    }
}

/// Appends the labels of a stack, joined by `;`.
fn push_stack(out: &mut String, frames: &Vec<Frame>, stack: &Vec<FrameId>)
    requires
        forall|i: int| 0 <= i < stack@.len() ==> (#[trigger] stack@[i]).0 < frames@.len(),
    ensures
        final(out)@ == old(out)@ + stack_text(views(frames@), stack@),
{
    let mut i: usize = 0;
    let ghost before = out@;
    assert(stack@.take(0) =~= Seq::empty());
    assert(out@ =~= before + stack_text(views(frames@), stack@.take(0)));
    while i < stack.len()
        invariant
            i <= stack.len(),
            forall|i: int| 0 <= i < stack@.len() ==> (#[trigger] stack@[i]).0 < frames@.len(),
            out@ == before + stack_text(views(frames@), stack@.take(i as int)),
        decreases stack.len() - i,
    {
        let ghost now = stack@.take(i + 1);
        assert(now.drop_last() =~= stack@.take(i as int));
        assert(now.last() == stack@[i as int]);
        if i > 0 {
            out.push(';');
        }
        let frame = &frames[stack[i].0 as usize];
        assert(views(frames@)[stack@[i as int].0 as int] == frame@);
        out.push_str(render_frame(frame).as_str());
        assert(out@ =~= before + stack_text(views(frames@), now));
        i = i + 1;
    }
    assert(stack@.take(i as int) =~= stack@);
}

/// Writes a profile as folded text.
pub fn write_text(profile: &Profile) -> (r: Result<String>)
    ensures
        outcome(r) == write_samples(profile@, profile@.samples.len()),
{
    let frame_count: usize = profile.frame_intern.len();
    let mut out: String = String::new();
    let mut index: usize = 0;
    while index < profile.samples.len()
        invariant
            index <= profile.samples.len(),
            frame_count == profile.frame_intern.len(),
            write_samples(profile@, index as nat) == Ok::<Seq<char>, ErrorView>(out@),
        decreases profile.samples.len() - index,
    {
        let sample = &profile.samples[index];
        let ghost before = out@;
        assert(profile@.samples[index as int] == sample@);
        if sample.values.len() == 0 {
            proof {
                lemma_write_error_stays(profile@, (index + 1) as nat, profile@.samples.len());
            }
            let mut message: String = "sample ".to_owned();
            push_decimal(&mut message, index as u64);
            message.push_str(" has no value to emit as a folded count");
            return Err(ProfcastError::InvalidProfile(message));
        }
        let bad: usize = find_dangling(&sample.stack, frame_count);
        if bad < sample.stack.len() {
            proof {
                lemma_write_error_stays(profile@, (index + 1) as nat, profile@.samples.len());
            }
            let message = dangling_text(index, sample.stack[bad].0, frame_count);
            return Err(ProfcastError::InvalidProfile(message));
        }
        proof {
            lemma_first_dangling(sample.stack@, frame_count as nat);
        }
        push_stack(&mut out, &profile.frame_intern, &sample.stack);
        out.push(' ');
        push_i64(&mut out, sample.values[0]);
        out.push('\n');
        assert(out@ =~= before + sample_line(profile@.frames, sample@));
        index = index + 1;
    }
    Ok(out)
}

impl InputFormat for FoldedFormat {
    open spec fn in_name(&self) -> Seq<char> {
        "folded"@
    }

    open spec fn in_extensions(&self) -> Seq<Seq<char>> {
        seq!["folded"@, "collapsed"@]
    }

    open spec fn likeness(&self, data: ProbeView) -> Confidence {
        weigh_name(content_likeness(data.buf), data.filename, seq!["folded"@, "collapsed"@])
    }

    open spec fn meaning(&self, input: Seq<u8>) -> std::result::Result<ProfileView, ErrorView> {
        folded_meaning(input)
    }

    fn name(&self) -> (r: &'static str) {
        "folded"
    }

    fn extensions(&self) -> (r: &'static [&'static str]) {
        let r: &'static [&'static str] = &["folded", "collapsed"];
        assert(word_list(r@) =~= seq!["folded"@, "collapsed"@]);
        r
    }

    fn probe(&self, data: &ProbeData<'_>) -> (r: Confidence) {
        weighed(probe_content(data.buf), data.filename, InputFormat::extensions(self))
    }

    fn read(&self, input: &[u8]) -> (r: Result<Profile>) {
        match utf8_text(input) {
            Ok(text) => read_text(text),
            Err(error) => Err(ProfcastError::Utf8(error)),
        }
    }
}

impl OutputFormat for FoldedFormat {
    open spec fn out_name(&self) -> Seq<char> {
        "folded"@
    }

    open spec fn out_extensions(&self) -> Seq<Seq<char>> {
        seq!["folded"@, "collapsed"@]
    }

    open spec fn rendering(&self, profile: ProfileView, options: WriteOptions) -> std::result::Result<
        Seq<u8>,
        ErrorView,
    > {
        folded_rendering(profile)
    }

    fn name(&self) -> (r: &'static str) {
        "folded"
    }

    fn extensions(&self) -> (r: &'static [&'static str]) {
        let r: &'static [&'static str] = &["folded", "collapsed"];
        assert(word_list(r@) =~= seq!["folded"@, "collapsed"@]);
        r
    }

    fn write(&self, profile: &Profile, _options: WriteOptions) -> (r: Result<Vec<u8>>) {
        match write_text(profile) {
            Ok(text) => Ok(text.into_bytes()),
            Err(error) => Err(error),
        }
    }
}

} // verus!
