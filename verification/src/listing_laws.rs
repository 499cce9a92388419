//! What the listing of formats shows.

use vstd::prelude::*;

use crate::intern::law_grown_all_keeps_places;
use crate::listing::{
    all_names, caps, caps_line, caps_lines, extension_text, input_words, listing, output_words,
    CapsView,
};
use crate::order::text_before;
use crate::registry::{AnyInput, AnyOutput};
use crate::session_laws::law_tables_hold_what_was_added;

verus! {

proof fn lemma_input_words(inputs: Seq<AnyInput>, name: Seq<char>, ext: Seq<char>)
    ensures
        input_words(inputs, name).contains(ext) <==> exists|i: int|
            0 <= i < inputs.len() && (#[trigger] inputs[i]).in_name() == name
                && inputs[i].in_extensions().contains(ext),
    decreases inputs.len(),
{
    if inputs.len() > 0 {
        let front = inputs.drop_last();
        let last = inputs.len() - 1;
        lemma_input_words(front, name, ext);
        let words = input_words(inputs, name);
        let before = input_words(front, name);
        let own = inputs[last].in_extensions();
        if words.contains(ext) {
            if before.contains(ext) {
                let i = choose|i: int|
                    0 <= i < front.len() && (#[trigger] front[i]).in_name() == name
                        && front[i].in_extensions().contains(ext);
                assert(inputs[i] == front[i]);
            } else {
                let k = words.index_of(ext);
                assert(words[k] == ext);
                assert(k >= before.len());
                assert(own[k - before.len()] == ext);
                assert(inputs[last].in_extensions().contains(ext));
            }
        }
        if exists|i: int|
            0 <= i < inputs.len() && (#[trigger] inputs[i]).in_name() == name
                && inputs[i].in_extensions().contains(ext) {
            let i = choose|i: int|
                0 <= i < inputs.len() && (#[trigger] inputs[i]).in_name() == name
                    && inputs[i].in_extensions().contains(ext);
            if i < front.len() {
                assert(front[i] == inputs[i]);
                let k = before.index_of(ext);
                assert(words[k] == ext);
            } else {
                let k = own.index_of(ext);
                assert(words[before.len() + k] == ext);
            }
        }
    }
}

proof fn lemma_output_words(outputs: Seq<AnyOutput>, name: Seq<char>, ext: Seq<char>)
    ensures
        output_words(outputs, name).contains(ext) <==> exists|i: int|
            0 <= i < outputs.len() && (#[trigger] outputs[i]).out_name() == name
                && outputs[i].out_extensions().contains(ext),
    decreases outputs.len(),
{
    if outputs.len() > 0 {
        let front = outputs.drop_last();
        let last = outputs.len() - 1;
        lemma_output_words(front, name, ext);
        let words = output_words(outputs, name);
        let before = output_words(front, name);
        let own = outputs[last].out_extensions();
        if words.contains(ext) {
            if before.contains(ext) {
                let i = choose|i: int|
                    0 <= i < front.len() && (#[trigger] front[i]).out_name() == name
                        && front[i].out_extensions().contains(ext);
                assert(outputs[i] == front[i]);
            } else {
                let k = words.index_of(ext);
                assert(words[k] == ext);
                assert(k >= before.len());
                assert(own[k - before.len()] == ext);
                assert(outputs[last].out_extensions().contains(ext));
            }
        }
        if exists|i: int|
            0 <= i < outputs.len() && (#[trigger] outputs[i]).out_name() == name
                && outputs[i].out_extensions().contains(ext) {
            let i = choose|i: int|
                0 <= i < outputs.len() && (#[trigger] outputs[i]).out_name() == name
                    && outputs[i].out_extensions().contains(ext);
            if i < front.len() {
                assert(front[i] == outputs[i]);
                let k = before.index_of(ext);
                assert(words[k] == ext);
            } else {
                let k = own.index_of(ext);
                assert(words[before.len() + k] == ext);
            }
        }
    }
}

/// What is listed of a name: whether an input format has it, whether an output
/// format has it, and every extension that one of them lists, each once.
pub proof fn law_formats_are_listed_with_all_they_can(
    inputs: Seq<AnyInput>,
    outputs: Seq<AnyOutput>,
    name: Seq<char>,
    ext: Seq<char>,
)
    ensures
        caps(inputs, outputs, name).readable <==> exists|i: int|
            0 <= i < inputs.len() && (#[trigger] inputs[i]).in_name() == name,
        caps(inputs, outputs, name).writable <==> exists|i: int|
            0 <= i < outputs.len() && (#[trigger] outputs[i]).out_name() == name,
        caps(inputs, outputs, name).extensions.no_duplicates(),
        caps(inputs, outputs, name).extensions.contains(ext) <==> {
            ||| exists|i: int|
                0 <= i < inputs.len() && (#[trigger] inputs[i]).in_name() == name
                    && inputs[i].in_extensions().contains(ext)
            ||| exists|i: int|
                0 <= i < outputs.len() && (#[trigger] outputs[i]).out_name() == name
                    && outputs[i].out_extensions().contains(ext)
        },
{
    let a = input_words(inputs, name);
    let b = output_words(outputs, name);
    lemma_input_words(inputs, name, ext);
    lemma_output_words(outputs, name, ext);
    law_grown_all_keeps_places(Seq::<Seq<char>>::empty(), a + b);
    law_tables_hold_what_was_added(a + b, ext);
    if (a + b).contains(ext) {
        let k = (a + b).index_of(ext);
        assert((a + b)[k] == ext);
        if k < a.len() {
            assert(a[k] == ext);
        } else {
            assert(b[k - a.len()] == ext);
        }
    }
    if a.contains(ext) {
        assert((a + b)[a.index_of(ext)] == ext);
    }
    if b.contains(ext) {
        assert((a + b)[a.len() + b.index_of(ext)] == ext);
    }
}

/// A line of the listing shows, in its second and third column, `R` where the
/// format can be read and `W` where it can be written, and a dot else. The name
/// stands from the sixth column on, and the extensions from the eighteenth, or
/// right behind a longer name.
pub proof fn law_lines_have_their_columns(name: Seq<char>, caps: CapsView)
    ensures
        ({
            let line = caps_line(name, caps);
            let column: int = if name.len() < 12 {
                17
            } else {
                5 + name.len() as int
            };
            &&& line.len() == column + extension_text(caps.extensions).len() + 1
            &&& line[0] == ' '
            &&& line[1] == (if caps.readable {
                'R'
            } else {
                '.'
            })
            &&& line[2] == (if caps.writable {
                'W'
            } else {
                '.'
            })
            &&& line[3] == ' '
            &&& line[4] == ' '
            &&& line.subrange(5, 5 + name.len() as int) == name
            &&& forall|i: int| 5 + name.len() <= i < column ==> #[trigger] line[i] == ' '
            &&& line.subrange(column, line.len() - 1) == extension_text(caps.extensions)
            &&& line.last() == '\n'
        }),
{
    reveal_strlit(" ");
    reveal_strlit("R");
    reveal_strlit("W");
    reveal_strlit(".");
    reveal_strlit("  ");
    reveal_strlit("\n");
    let line = caps_line(name, caps);
    let column: int = if name.len() < 12 {
        17
    } else {
        5 + name.len() as int
    };
    assert(line.subrange(5, 5 + name.len() as int) =~= name);
    assert(line.subrange(column, line.len() - 1) =~= extension_text(caps.extensions));
}

/// Extensions are shown with a dot before each and a comma and a space between
/// two.
pub proof fn law_extensions_are_set_apart(extensions: Seq<Seq<char>>, ext: Seq<char>)
    ensures
        extension_text(Seq::empty()).len() == 0,
        extension_text(seq![ext]) == seq!['.'] + ext,
        extensions.len() > 0 ==> extension_text(extensions.push(ext)) == extension_text(extensions)
            + seq![',', ' ', '.'] + ext,
{
    reveal_strlit(".");
    reveal_strlit(", .");
    assert("."@ =~= seq!['.']);
    assert(", ."@ =~= seq![',', ' ', '.']);
    assert(extensions.push(ext).drop_last() =~= extensions);
}

proof fn lemma_lines(inputs: Seq<AnyInput>, outputs: Seq<AnyOutput>, names: Seq<Seq<char>>)
    ensures
        caps_lines(inputs, outputs, names) == Seq::new(
            names.len(),
            |i: int| caps_line(names[i], caps(inputs, outputs, names[i])),
        ).flatten(),
    decreases names.len(),
{
    let all = Seq::new(
        names.len(),
        |i: int| caps_line(names[i], caps(inputs, outputs, names[i])),
    );
    all.lemma_flatten_and_flatten_alt_are_equivalent();
    if names.len() > 0 {
        let front = names.drop_last();
        lemma_lines(inputs, outputs, front);
        let before = Seq::new(
            front.len(),
            |i: int| caps_line(front[i], caps(inputs, outputs, front[i])),
        );
        assert(all.drop_last() =~= before);
        before.lemma_flatten_and_flatten_alt_are_equivalent();
    } else {
        assert(all.flatten_alt() =~= Seq::empty());
    }
}

/// The listing is a legend of three lines, and then one line for each name.
pub proof fn law_the_listing_has_a_line_per_name(inputs: Seq<AnyInput>, outputs: Seq<AnyOutput>)
    ensures
        listing(inputs, outputs) == " R. = readable (convert/dump input)\n"@
            + " .W = writable (convert/record output)\n"@ + " --\n"@ + Seq::new(
            all_names(inputs, outputs).len(),
            |i: int|
                caps_line(
                    all_names(inputs, outputs)[i],
                    caps(inputs, outputs, all_names(inputs, outputs)[i]),
                ),
        ).flatten(),
{
    lemma_lines(inputs, outputs, all_names(inputs, outputs));
}

/// The order of texts: where two first differ, the smaller character decides,
/// and a text comes before those that it starts. None comes before itself.
pub proof fn law_texts_are_ordered_where_they_differ(
    common: Seq<char>,
    c: char,
    a: Seq<char>,
    d: char,
    b: Seq<char>,
)
    ensures
        c != d ==> (text_before(common + seq![c] + a, common + seq![d] + b) <==> c < d),
        text_before(common, common + seq![c] + a),
        !text_before(common + seq![c] + a, common),
        !text_before(common, common),
{
    let x = common + seq![c] + a;
    let y = common + seq![d] + b;
    let n = common.len() as int;
    assert(x.take(n) =~= common);
    assert(y.take(n) =~= common);
    assert(common.take(n) =~= common);
    assert(x[n] == c && y[n] == d);
    if c != d && text_before(x, y) {
        let k = choose|k: int|
            #![trigger x.take(k)]
            0 <= k <= x.len() && k < y.len() && x.take(k) == y.take(k) && (k == x.len() || x[k]
                < y[k]);
        if k > n {
            assert(x.take(k)[n] == x[n]);
            assert(y.take(k)[n] == y[n]);
        } else if k < n {
            assert(x[k] == common[k] && y[k] == common[k]);
        }
    }
    if text_before(x, common) {
        let k = choose|k: int|
            #![trigger x.take(k)]
            0 <= k <= x.len() && k < common.len() && x.take(k) == common.take(k) && (k == x.len()
                || x[k] < common[k]);
        assert(x[k] == common[k]);
    }
    if text_before(common, common) {
        let k = choose|k: int|
            #![trigger common.take(k)]
            0 <= k <= common.len() && k < common.len() && common.take(k) == common.take(k) && (k
                == common.len() || common[k] < common[k]);
    }
}

} // verus!
