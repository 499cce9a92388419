//! The listing of the formats that profcast can read and write.

use vstd::prelude::*;

use crate::intern::{grown, grown_all, lemma_grown_all_concat};
use crate::order::text_before;
use crate::path::{is_listed, word_list};
use crate::registry::{AnyInput, AnyOutput, Registry};
use crate::text::{chars_of, same_text};

verus! {

/// The read/write capabilities and selecting extensions of one format name.
///
/// Input and output formats are registered apart from each other but share a
/// name (e.g. `folded` is both), so that the listing merges them into one of
/// these per name.
pub struct FormatCaps {
    /// Whether the format can be used as a `convert`/`dump` input.
    pub readable: bool,
    /// Whether the format can be used as a `convert`/`record` output.
    pub writable: bool,
    /// File extensions that select the format, without leading dots, deduped
    /// across the input and output sides.
    pub extensions: Vec<&'static str>,
}

/// What a [`FormatCaps`] says.
pub struct CapsView {
    pub readable: bool,
    pub writable: bool,
    pub extensions: Seq<Seq<char>>,
}

impl View for FormatCaps {
    type V = CapsView;

    open spec fn view(&self) -> CapsView {
        CapsView {
            readable: self.readable,
            writable: self.writable,
            extensions: word_list(self.extensions@),
        }
    }
}

impl Default for FormatCaps {
    fn default() -> (r: Self)
        ensures
            r@ == (CapsView { readable: false, writable: false, extensions: Seq::empty() }),
    {
        let r = FormatCaps { readable: false, writable: false, extensions: Vec::new() };
        assert(r@.extensions =~= Seq::empty());
        r
    }
}

impl FormatCaps {
    /// Records the extensions reported by one side of the registry, skipping
    /// any already seen (the read and write sides usually report the same set).
    pub fn add_extensions(&mut self, extensions: &'static [&'static str])
        ensures
            final(self)@ == (CapsView {
                extensions: grown_all(old(self)@.extensions, word_list(extensions@)),
                ..old(self)@
            }),
    {
        let ghost words = word_list(extensions@);
        let ghost before = self@.extensions;
        let mut i: usize = 0;
        assert(words.take(0) =~= Seq::empty());
        while i < extensions.len()
            invariant
                i <= extensions.len(),
                words == word_list(extensions@),
                before == old(self)@.extensions,
                self@ == (CapsView {
                    extensions: grown_all(before, words.take(i as int)),
                    ..old(self)@
                }),
            decreases extensions.len() - i,
        {
            let ghost known = self@.extensions;
            let ext = extensions[i];
            assert(words.take(i + 1).drop_last() =~= words.take(i as int));
            assert(words.take(i + 1).last() == ext@);
            if !is_listed(self.extensions.as_slice(), ext) {
                self.extensions.push(ext);
                assert(self@.extensions =~= known.push(ext@));
            }
            assert(self@.extensions == grown(known, ext@));
            i = i + 1;
        }
        assert(words.take(i as int) =~= words);
    }
}

/// The extensions of the input formats of a given name, one list after the
/// other.
pub open spec fn input_words(inputs: Seq<AnyInput>, name: Seq<char>) -> Seq<Seq<char>>
    decreases inputs.len(),
{
    if inputs.len() == 0 {
        Seq::empty()
    } else if inputs.last().in_name() == name {
        input_words(inputs.drop_last(), name) + inputs.last().in_extensions()
    } else {
        input_words(inputs.drop_last(), name)
    }
}

/// The extensions of the output formats of a given name, one list after the
/// other.
pub open spec fn output_words(outputs: Seq<AnyOutput>, name: Seq<char>) -> Seq<Seq<char>>
    decreases outputs.len(),
{
    if outputs.len() == 0 {
        Seq::empty()
    } else if outputs.last().out_name() == name {
        output_words(outputs.drop_last(), name) + outputs.last().out_extensions()
    } else {
        output_words(outputs.drop_last(), name)
    }
}

/// Whether one of `inputs` has the given name.
pub open spec fn reads(inputs: Seq<AnyInput>, name: Seq<char>) -> bool {
    exists|i: int| 0 <= i < inputs.len() && (#[trigger] inputs[i]).in_name() == name
}

/// Whether one of `outputs` has the given name.
pub open spec fn writes(outputs: Seq<AnyOutput>, name: Seq<char>) -> bool {
    exists|i: int| 0 <= i < outputs.len() && (#[trigger] outputs[i]).out_name() == name
}

/// What the formats of a given name can do, each extension once.
pub open spec fn caps(inputs: Seq<AnyInput>, outputs: Seq<AnyOutput>, name: Seq<char>) -> CapsView {
    CapsView {
        readable: reads(inputs, name),
        writable: writes(outputs, name),
        extensions: grown_all(
            Seq::empty(),
            input_words(inputs, name) + output_words(outputs, name),
        ),
    }
}

/// Collects what the formats of a given name can do.
pub fn caps_of(registry: &Registry, name: &str) -> (r: FormatCaps)
    ensures
        r@ == caps(registry.input_formats(), registry.output_formats(), name@),
{
    let mut found = FormatCaps::default();
    let inputs = registry.formats();
    let mut i: usize = 0;
    assert(grown_all(Seq::empty(), input_words(inputs@.take(0), name@)) =~= Seq::empty());
    while i < inputs.len()
        invariant
            i <= inputs.len(),
            found.readable == reads(inputs@.take(i as int), name@),
            !found.writable,
            found@.extensions == grown_all(Seq::empty(), input_words(inputs@.take(i as int), name@)),
        decreases inputs.len() - i,
    {
        let ghost seen = inputs@.take(i as int);
        let ghost next = inputs@.take(i + 1);
        assert(next.drop_last() =~= seen);
        assert(next.last() == inputs@[i as int]);
        proof {
            assert forall|j: int| 0 <= j < seen.len() implies seen[j] == next[j] by {}
            if reads(seen, name@) {
                let j = choose|j: int|
                    0 <= j < seen.len() && (#[trigger] seen[j]).in_name() == name@;
                assert(next[j].in_name() == name@);
            }
            if reads(next, name@) && next.last().in_name() != name@ {
                let j = choose|j: int|
                    0 <= j < next.len() && (#[trigger] next[j]).in_name() == name@;
                assert(seen[j].in_name() == name@);
            }
        }
        if same_text(inputs[i].name(), name) {
            proof {
                assert(next[i as int].in_name() == name@);
                lemma_grown_all_concat(
                    Seq::empty(),
                    input_words(seen, name@),
                    next.last().in_extensions(),
                );
            }
            found.readable = true;
            found.add_extensions(inputs[i].extensions());
        }
        i = i + 1;
    }
    assert(inputs@.take(i as int) =~= inputs@);
    let outputs = registry.outputs();
    let ghost words = input_words(inputs@, name@);
    let mut k: usize = 0;
    assert(words + output_words(outputs@.take(0), name@) =~= words);
    while k < outputs.len()
        invariant
            k <= outputs.len(),
            found.readable == reads(inputs@, name@),
            found.writable == writes(outputs@.take(k as int), name@),
            found@.extensions == grown_all(
                Seq::empty(),
                words + output_words(outputs@.take(k as int), name@),
            ),
        decreases outputs.len() - k,
    {
        let ghost seen = outputs@.take(k as int);
        let ghost next = outputs@.take(k + 1);
        assert(next.drop_last() =~= seen);
        assert(next.last() == outputs@[k as int]);
        proof {
            assert forall|j: int| 0 <= j < seen.len() implies seen[j] == next[j] by {}
            if writes(seen, name@) {
                let j = choose|j: int|
                    0 <= j < seen.len() && (#[trigger] seen[j]).out_name() == name@;
                assert(next[j].out_name() == name@);
            }
            if writes(next, name@) && next.last().out_name() != name@ {
                let j = choose|j: int|
                    0 <= j < next.len() && (#[trigger] next[j]).out_name() == name@;
                assert(seen[j].out_name() == name@);
            }
        }
        if same_text(outputs[k].name(), name) {
            proof {
                assert(next[k as int].out_name() == name@);
                assert(words + output_words(next, name@) =~= (words + output_words(seen, name@))
                    + next.last().out_extensions());
                lemma_grown_all_concat(
                    Seq::empty(),
                    words + output_words(seen, name@),
                    next.last().out_extensions(),
                );
            }
            found.writable = true;
            found.add_extensions(outputs[k].extensions());
        }
        k = k + 1;
    }
    assert(outputs@.take(k as int) =~= outputs@);
    found
}

/// Where `name` belongs in an alphabetical list: before the first name that
/// does not come before it.
pub open spec fn slot(names: Seq<Seq<char>>, name: Seq<char>) -> int
    decreases names.len(),
{
    if names.len() == 0 || !text_before(names[0], name) {
        0
    } else {
        1 + slot(names.skip(1), name)
    }
}

/// An alphabetical list with `name` in it.
pub open spec fn enlisted(names: Seq<Seq<char>>, name: Seq<char>) -> Seq<Seq<char>> {
    let at = slot(names, name);
    if at < names.len() && names[at] == name {
        names
    } else {
        names.insert(at, name)
    }
}

/// The names of `inputs`, in alphabetical order.
pub open spec fn input_names(inputs: Seq<AnyInput>) -> Seq<Seq<char>>
    decreases inputs.len(),
{
    if inputs.len() == 0 {
        Seq::empty()
    } else {
        enlisted(input_names(inputs.drop_last()), inputs.last().in_name())
    }
}

/// The names of `inputs` and `outputs`, in alphabetical order.
pub open spec fn all_names(inputs: Seq<AnyInput>, outputs: Seq<AnyOutput>) -> Seq<Seq<char>>
    decreases outputs.len(),
{
    if outputs.len() == 0 {
        input_names(inputs)
    } else {
        enlisted(all_names(inputs, outputs.drop_last()), outputs.last().out_name())
    }
}

/// Whether a list is alphabetical and holds nothing twice.
pub open spec fn alphabetical(names: Seq<Seq<char>>) -> bool {
    forall|i: int, j: int|
        0 <= i < j < names.len() ==> text_before(#[trigger] names[i], #[trigger] names[j])
            && names[i] != names[j]
}

/// Two texts agree up to some point, where one ends or they differ.
proof fn lemma_fork(a: Seq<char>, b: Seq<char>, from: int) -> (k: int)
    requires
        0 <= from <= a.len(),
        from <= b.len(),
        a.take(from) == b.take(from),
    ensures
        from <= k <= a.len(),
        k <= b.len(),
        a.take(k) == b.take(k),
        k < a.len() && k < b.len() ==> a[k] != b[k],
    decreases a.len() - from,
{
    if from < a.len() && from < b.len() && a[from] == b[from] {
        assert(a.take(from + 1) =~= a.take(from).push(a[from]));
        assert(b.take(from + 1) =~= b.take(from).push(b[from]));
        lemma_fork(a, b, from + 1)
    } else {
        from
    }
}

/// Of two texts that differ one comes before the other.
pub proof fn lemma_text_total(a: Seq<char>, b: Seq<char>)
    ensures
        a == b || text_before(a, b) || text_before(b, a),
{
    assert(a.take(0) =~= b.take(0));
    let k = lemma_fork(a, b, 0);
    assert(a.take(k) == b.take(k));
    if k == a.len() && k == b.len() {
        assert(a =~= a.take(k));
        assert(b =~= b.take(k));
    } else if k < b.len() && (k == a.len() || a[k] < b[k]) {
        assert(text_before(a, b));
    } else {
        assert(b.take(k) == a.take(k));
        assert(text_before(b, a));
    }
}

/// No text comes before itself.
pub proof fn lemma_text_irreflexive(a: Seq<char>)
    ensures
        !text_before(a, a),
{
}

/// What comes before a text comes before all that it comes before.
pub proof fn lemma_text_transitive(a: Seq<char>, b: Seq<char>, c: Seq<char>)
    requires
        text_before(a, b),
        text_before(b, c),
    ensures
        text_before(a, c),
{
    let p = choose|k: int|
        #![trigger a.take(k)]
        0 <= k <= a.len() && k < b.len() && a.take(k) == b.take(k) && (k == a.len() || a[k] < b[k]);
    let q = choose|k: int|
        #![trigger b.take(k)]
        0 <= k <= b.len() && k < c.len() && b.take(k) == c.take(k) && (k == b.len() || b[k] < c[k]);
    let k = if p < q {
        p
    } else {
        q
    };
    assert(a.take(p)[0] == b.take(p)[0] || p == 0);
    assert(a.take(k) =~= c.take(k)) by {
        assert forall|i: int| 0 <= i < k implies a[i] == c[i] by {
            assert(a.take(p)[i] == b.take(p)[i]);
            assert(b.take(q)[i] == c.take(q)[i]);
        }
    }
    if p < q {
        assert(b.take(q)[p] == c.take(q)[p]);
    } else if q < p {
        assert(a.take(p)[q] == b.take(p)[q]);
    }
    assert(text_before(a, c));
}

proof fn lemma_slot(names: Seq<Seq<char>>, name: Seq<char>)
    ensures
        0 <= slot(names, name) <= names.len(),
        forall|i: int|
            0 <= i < slot(names, name) ==> text_before(#[trigger] names[i], name),
        slot(names, name) < names.len() ==> !text_before(names[slot(names, name)], name),
    decreases names.len(),
{
    if names.len() > 0 && text_before(names[0], name) {
        let rest = names.skip(1);
        lemma_slot(rest, name);
        assert forall|i: int| 0 <= i < slot(names, name) implies text_before(
            #[trigger] names[i],
            name,
        ) by {
            if i > 0 {
                assert(rest[i - 1] == names[i]);
            }
        }
        if slot(names, name) < names.len() {
            assert(rest[slot(rest, name)] == names[slot(names, name)]);
        }
    }
}

proof fn lemma_enlisted(names: Seq<Seq<char>>, name: Seq<char>)
    requires
        alphabetical(names),
    ensures
        alphabetical(enlisted(names, name)),
        forall|x: Seq<char>|
            #[trigger] enlisted(names, name).contains(x) <==> names.contains(x) || x == name,
{
    lemma_slot(names, name);
    let at = slot(names, name);
    let list = enlisted(names, name);
    if at < names.len() && names[at] == name {
        assert(names.contains(name));
    } else {
        assert forall|i: int, j: int| 0 <= i < j < list.len() implies text_before(
            #[trigger] list[i],
            #[trigger] list[j],
        ) && list[i] != list[j] by {
            if at < names.len() {
                lemma_text_total(names[at], name);
            }
            if i == at {
                let k = j - 1;
                assert(list[j] == names[k]);
                if k > at {
                    assert(text_before(names[at], names[k]));
                    lemma_text_transitive(name, names[at], names[k]);
                }
                assert(text_before(name, names[k]));
            }
            if j == at {
                assert(list[i] == names[i]);
                assert(text_before(names[i], name));
            }
            lemma_text_irreflexive(list[i]);
        }
        assert forall|x: Seq<char>| #[trigger] list.contains(x) <==> names.contains(x) || x
            == name by {
            if names.contains(x) {
                let k = names.index_of(x);
                if k < at {
                    assert(list[k] == x);
                } else {
                    assert(list[k + 1] == x);
                }
            }
            if x == name {
                assert(list[at] == x);
            }
            if list.contains(x) {
                let k = list.index_of(x);
                if k < at {
                    assert(names[k] == x);
                } else if k > at {
                    assert(names[k - 1] == x);
                }
            }
        }
    }
}

proof fn lemma_input_names(inputs: Seq<AnyInput>)
    ensures
        alphabetical(input_names(inputs)),
        forall|x: Seq<char>| #[trigger] input_names(inputs).contains(x) <==> reads(inputs, x),
    decreases inputs.len(),
{
    if inputs.len() > 0 {
        let rest = inputs.drop_last();
        lemma_input_names(rest);
        lemma_enlisted(input_names(rest), inputs.last().in_name());
        assert forall|x: Seq<char>| #[trigger] input_names(inputs).contains(x) <==> reads(
            inputs,
            x,
        ) by {
            assert(input_names(rest).contains(x) <==> reads(rest, x));
            if reads(rest, x) {
                let j = choose|j: int|
                    0 <= j < rest.len() && (#[trigger] rest[j]).in_name() == x;
                assert(inputs[j].in_name() == x);
            }
            if reads(inputs, x) && inputs.last().in_name() != x {
                let j = choose|j: int|
                    0 <= j < inputs.len() && (#[trigger] inputs[j]).in_name() == x;
                assert(rest[j].in_name() == x);
            }
            if inputs.last().in_name() == x {
                assert(inputs[inputs.len() - 1].in_name() == x);
            }
        }
    }
}

/// The listing is alphabetical, names no format twice, and names exactly the
/// formats that are registered on one side or the other.
pub proof fn law_listing_is_alphabetical_and_complete(
    inputs: Seq<AnyInput>,
    outputs: Seq<AnyOutput>,
)
    ensures
        alphabetical(all_names(inputs, outputs)),
        forall|x: Seq<char>| #[trigger]
            all_names(inputs, outputs).contains(x) <==> reads(inputs, x) || writes(outputs, x),
    decreases outputs.len(),
{
    if outputs.len() == 0 {
        lemma_input_names(inputs);
    } else {
        let rest = outputs.drop_last();
        law_listing_is_alphabetical_and_complete(inputs, rest);
        lemma_enlisted(all_names(inputs, rest), outputs.last().out_name());
        assert forall|x: Seq<char>| #[trigger]
            all_names(inputs, outputs).contains(x) <==> reads(inputs, x) || writes(outputs, x) by {
            assert(all_names(inputs, rest).contains(x) <==> reads(inputs, x) || writes(rest, x));
            if writes(rest, x) {
                let j = choose|j: int|
                    0 <= j < rest.len() && (#[trigger] rest[j]).out_name() == x;
                assert(outputs[j].out_name() == x);
            }
            if writes(outputs, x) && outputs.last().out_name() != x {
                let j = choose|j: int|
                    0 <= j < outputs.len() && (#[trigger] outputs[j]).out_name() == x;
                assert(rest[j].out_name() == x);
            }
            if outputs.last().out_name() == x {
                assert(outputs[outputs.len() - 1].out_name() == x);
            }
        }
    }
}

/// Whether one text comes before another, character by character.
pub fn precedes(a: &str, b: &str) -> (r: bool)
    ensures
        r == text_before(a@, b@),
{
    let x = chars_of(a);
    let y = chars_of(b);
    let mut k: usize = 0;
    assert(x@.take(0) =~= y@.take(0));
    while k < x.len() && k < y.len() && x[k] == y[k]
        invariant
            k <= x.len(),
            k <= y.len(),
            x@.take(k as int) == y@.take(k as int),
        decreases x.len() - k,
    {
        assert(x@.take(k + 1) =~= x@.take(k as int).push(x@[k as int]));
        assert(y@.take(k + 1) =~= y@.take(k as int).push(y@[k as int]));
        k = k + 1;
    }
    let r = k < y.len() && (k == x.len() || x[k] < y[k]);
    proof {
        let c = k as int;
        assert(a@.take(c) == b@.take(c));
        if text_before(a@, b@) {
            let q = choose|q: int|
                #![trigger a@.take(q)]
                0 <= q <= a@.len() && q < b@.len() && a@.take(q) == b@.take(q) && (q == a@.len()
                    || a@[q] < b@[q]);
            if q > c {
                assert(a@.take(q)[c] == b@.take(q)[c]);
            } else if q < c {
                assert(a@.take(c)[q] == b@.take(c)[q]);
            }
        }
    }
    r
}

fn enlist(names: &mut Vec<&'static str>, name: &'static str)
    ensures
        word_list(final(names)@) == enlisted(word_list(old(names)@), name@),
{
    let ghost words = word_list(names@);
    let mut at: usize = 0;
    assert(words.skip(0) =~= words);
    while at < names.len() && precedes(names[at], name)
        invariant
            at <= names.len(),
            words == word_list(names@),
            *names == *old(names),
            slot(words, name@) == at + slot(words.skip(at as int), name@),
        decreases names.len() - at,
    {
        assert(words.skip(at as int)[0] == words[at as int]);
        assert(words.skip(at as int).skip(1) =~= words.skip(at + 1));
        at = at + 1;
    }
    proof {
        if at < names.len() {
            assert(words.skip(at as int)[0] == words[at as int]);
        }
        assert(slot(words, name@) == at);
    }
    if at < names.len() && same_text(names[at], name) {
        return;
    }
    names.insert(at, name);
    assert(word_list(names@) =~= words.insert(at as int, name@));
}

/// Collects the names of all registered formats in alphabetical order.
pub fn format_names(registry: &Registry) -> (r: Vec<&'static str>)
    ensures
        word_list(r@) == all_names(registry.input_formats(), registry.output_formats()),
{
    let mut names: Vec<&'static str> = Vec::new();
    assert(word_list(names@) =~= Seq::empty());
    let inputs = registry.formats();
    let mut i: usize = 0;
    assert(inputs@.take(0) =~= Seq::empty());
    while i < inputs.len()
        invariant
            i <= inputs.len(),
            word_list(names@) == input_names(inputs@.take(i as int)),
        decreases inputs.len() - i,
    {
        assert(inputs@.take(i + 1).drop_last() =~= inputs@.take(i as int));
        enlist(&mut names, inputs[i].name());
        i = i + 1;
    }
    assert(inputs@.take(i as int) =~= inputs@);
    let outputs = registry.outputs();
    let mut k: usize = 0;
    assert(outputs@.take(0) =~= Seq::empty());
    while k < outputs.len()
        invariant
            k <= outputs.len(),
            word_list(names@) == all_names(inputs@, outputs@.take(k as int)),
        decreases outputs.len() - k,
    {
        assert(outputs@.take(k + 1).drop_last() =~= outputs@.take(k as int));
        enlist(&mut names, outputs[k].name());
        k = k + 1;
    }
    assert(outputs@.take(k as int) =~= outputs@);
    names
}

/// A number of spaces.
pub open spec fn spaces(count: int) -> Seq<char> {
    if count > 0 {
        Seq::new(count as nat, |i: int| ' ')
    } else {
        Seq::empty()
    }
}

/// Extensions as the listing has them: each with its dot, set apart by commas.
pub open spec fn extension_text(extensions: Seq<Seq<char>>) -> Seq<char>
    decreases extensions.len(),
{
    if extensions.len() == 0 {
        Seq::empty()
    } else if extensions.len() == 1 {
        "."@ + extensions[0]
    } else {
        extension_text(extensions.drop_last()) + ", ."@ + extensions.last()
    }
}

/// The line of one format in the listing.
pub open spec fn caps_line(name: Seq<char>, caps: CapsView) -> Seq<char> {
    " "@ + (if caps.readable {
        "R"@
    } else {
        "."@
    }) + (if caps.writable {
        "W"@
    } else {
        "."@
    }) + "  "@ + name + spaces(12 - name.len()) + extension_text(caps.extensions) + "\n"@
}

/// The lines of a number of formats in the listing.
pub open spec fn caps_lines(
    inputs: Seq<AnyInput>,
    outputs: Seq<AnyOutput>,
    names: Seq<Seq<char>>,
) -> Seq<char>
    decreases names.len(),
{
    if names.len() == 0 {
        Seq::empty()
    } else {
        caps_lines(inputs, outputs, names.drop_last()) + caps_line(
            names.last(),
            caps(inputs, outputs, names.last()),
        )
    }
}

/// The listing of formats: how to read it, then a line for each name.
pub open spec fn listing(inputs: Seq<AnyInput>, outputs: Seq<AnyOutput>) -> Seq<char> {
    " R. = readable (convert/dump input)\n"@ + " .W = writable (convert/record output)\n"@
        + " --\n"@ + caps_lines(inputs, outputs, all_names(inputs, outputs))
}

fn push_caps_line(out: &mut String, name: &str, caps: &FormatCaps)
    ensures
        final(out)@ == old(out)@ + caps_line(name@, caps@),
{
    let ghost start = out@;
    out.push_str(" ");
    out.push_str(if caps.readable { "R" } else { "." });
    out.push_str(if caps.writable { "W" } else { "." });
    out.push_str("  ");
    out.push_str(name);
    let width: usize = chars_of(name).len();
    let ghost head = out@;
    let mut column: usize = width;
    assert(head + spaces(0) =~= head);
    while column < 12
        invariant
            width == name@.len(),
            width <= column,
            column <= 12 || column == width,
            out@ == head + spaces(column - width),
        decreases 12 - column,
    {
        out.push(' ');
        assert(spaces(column + 1 - width) =~= spaces(column - width).push(' '));
        column = column + 1;
    }
    assert(out@ =~= head + spaces(12 - name@.len()));
    let ghost tail = out@;
    let ghost words = caps@.extensions;
    let mut i: usize = 0;
    assert(words.take(0) =~= Seq::empty());
    assert(tail + extension_text(words.take(0)) =~= tail);
    while i < caps.extensions.len()
        invariant
            i <= caps.extensions.len(),
            words == caps@.extensions,
            out@ == tail + extension_text(words.take(i as int)),
        decreases caps.extensions.len() - i,
    {
        let ghost next = words.take(i + 1);
        assert(next.drop_last() =~= words.take(i as int));
        assert(next.last() == caps.extensions@[i as int]@);
        if i > 0 {
            out.push_str(", .");
        } else {
            out.push_str(".");
        }
        out.push_str(caps.extensions[i]);
        assert(out@ =~= tail + extension_text(next));
        i = i + 1;
    }
    assert(words.take(i as int) =~= words);
    out.push_str("\n");
    assert(out@ =~= start + caps_line(name@, caps@));
}

/// Lists every registered input and output format with read/write flags.
pub fn formats_listing(registry: &Registry) -> (r: String)
    ensures
        r@ == listing(registry.input_formats(), registry.output_formats()),
{
    let ghost inputs = registry.input_formats();
    let ghost outputs = registry.output_formats();
    let mut out: String = " R. = readable (convert/dump input)\n".to_owned();
    out.push_str(" .W = writable (convert/record output)\n");
    out.push_str(" --\n");
    let ghost head = out@;
    let names = format_names(registry);
    let ghost words = word_list(names@);
    let mut i: usize = 0;
    assert(words.take(0) =~= Seq::empty());
    assert(head + caps_lines(inputs, outputs, words.take(0)) =~= head);
    while i < names.len()
        invariant
            i <= names.len(),
            words == word_list(names@),
            inputs == registry.input_formats(),
            outputs == registry.output_formats(),
            out@ == head + caps_lines(inputs, outputs, words.take(i as int)),
        decreases names.len() - i,
    {
        let ghost next = words.take(i + 1);
        assert(next.drop_last() =~= words.take(i as int));
        assert(next.last() == names@[i as int]@);
        let found = caps_of(registry, names[i]);
        push_caps_line(&mut out, names[i], &found);
        assert(out@ =~= head + caps_lines(inputs, outputs, next));
        i = i + 1;
    }
    assert(words.take(i as int) =~= words);
    out
}

} // verus!
