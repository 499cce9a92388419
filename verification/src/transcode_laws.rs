//! What holds of requests as a whole: which formats they choose, and what
//! becomes of their input.

use vstd::prelude::*;

use crate::capi::{buffer_meaning, without_nul};
use crate::capture::{first_yes, gives_answer, told_name, Source, TargetView};
use crate::chrometrace::{chrome_meaning, chrome_rendering};
use crate::conformance::complaint;
use crate::error::ErrorView;
use crate::folded::{folded_meaning, folded_rendering};
use crate::format::{weigh_name, Confidence, InputFormat, ProbeView};
use crate::json::json_text;
use crate::json_format::profile_json;
use crate::model::{law_validation_decides_validity, ProfileView};
use crate::number::decimal;
use crate::path::{extension, last_component, strip_end};
use crate::pprof::{pprof_meaning, pprof_rendering};
use crate::registry::{
    best_match, input_named, law_best_match_is_strongest_and_earliest, output_for, output_named,
    shipped_inputs, shipped_outputs, AnyInput, AnyOutput,
};
use crate::registry_laws::law_shipped_formats_are_found_by_name;
use crate::speedscope::speedscope_rendering;
use crate::text::{last_of, lemma_last_of};
use crate::transcode::{
    chosen, command_of, converted, dumped, input_choice, loaded, looked_up, no_source,
    output_choice, recorded, target_choice, written, FailureView,
};

verus! {

/// Whether the first input format of a name stands at an index.
pub open spec fn first_input(inputs: Seq<AnyInput>, name: Seq<char>, at: int) -> bool {
    &&& 0 <= at < inputs.len()
    &&& inputs[at].in_name() == name
    &&& forall|j: int| 0 <= j < at ==> (#[trigger] inputs[j]).in_name() != name
}

/// Whether the first output format of a name stands at an index.
pub open spec fn first_output(outputs: Seq<AnyOutput>, name: Seq<char>, at: int) -> bool {
    &&& 0 <= at < outputs.len()
    &&& outputs[at].out_name() == name
    &&& forall|j: int| 0 <= j < at ==> (#[trigger] outputs[j]).out_name() != name
}

/// Whether the first output format that lists an extension stands at an index.
pub open spec fn first_listing(outputs: Seq<AnyOutput>, ext: Seq<char>, at: int) -> bool {
    &&& 0 <= at < outputs.len()
    &&& outputs[at].out_extensions().contains(ext)
    &&& forall|j: int| 0 <= j < at ==> !(#[trigger] outputs[j]).out_extensions().contains(ext)
}

/// The first input format with a name is found under it, and nothing is found
/// under a name that none has.
pub proof fn law_inputs_are_found_by_name(inputs: Seq<AnyInput>, name: Seq<char>, at: int)
    ensures
        first_input(inputs, name, at) ==> input_named(inputs, name) == Some(inputs[at]),
        (forall|j: int| 0 <= j < inputs.len() ==> (#[trigger] inputs[j]).in_name() != name)
            ==> input_named(inputs, name) is None,
    decreases inputs.len(),
{
    if inputs.len() > 0 {
        let rest = inputs.skip(1);
        law_inputs_are_found_by_name(rest, name, at - 1);
        if first_input(inputs, name, at) && at > 0 {
            assert(inputs[0].in_name() != name);
            assert(rest[at - 1] == inputs[at]);
            assert forall|j: int| 0 <= j < at - 1 implies (#[trigger] rest[j]).in_name() != name by {
                assert(rest[j] == inputs[j + 1]);
            }
            assert(first_input(rest, name, at - 1));
        }
        if forall|j: int| 0 <= j < inputs.len() ==> (#[trigger] inputs[j]).in_name() != name {
            assert(inputs[0].in_name() != name);
            assert forall|j: int| 0 <= j < rest.len() implies (#[trigger] rest[j]).in_name()
                != name by {
                assert(rest[j] == inputs[j + 1]);
            }
        }
    }
}

/// The first output format with a name is found under it, and nothing is found
/// under a name that none has.
pub proof fn law_outputs_are_found_by_name(outputs: Seq<AnyOutput>, name: Seq<char>, at: int)
    ensures
        first_output(outputs, name, at) ==> output_named(outputs, name) == Some(outputs[at]),
        (forall|j: int| 0 <= j < outputs.len() ==> (#[trigger] outputs[j]).out_name() != name)
            ==> output_named(outputs, name) is None,
    decreases outputs.len(),
{
    if outputs.len() > 0 {
        let rest = outputs.skip(1);
        law_outputs_are_found_by_name(rest, name, at - 1);
        if first_output(outputs, name, at) && at > 0 {
            assert(outputs[0].out_name() != name);
            assert(rest[at - 1] == outputs[at]);
            assert forall|j: int| 0 <= j < at - 1 implies (#[trigger] rest[j]).out_name()
                != name by {
                assert(rest[j] == outputs[j + 1]);
            }
            assert(first_output(rest, name, at - 1));
        }
        if forall|j: int| 0 <= j < outputs.len() ==> (#[trigger] outputs[j]).out_name() != name {
            assert(outputs[0].out_name() != name);
            assert forall|j: int| 0 <= j < rest.len() implies (#[trigger] rest[j]).out_name()
                != name by {
                assert(rest[j] == outputs[j + 1]);
            }
        }
    }
}

/// The first output format that lists an extension is selected by it, and
/// nothing is selected by an extension that none lists.
pub proof fn law_outputs_are_selected_by_extension(
    outputs: Seq<AnyOutput>,
    ext: Seq<char>,
    at: int,
)
    ensures
        first_listing(outputs, ext, at) ==> output_for(outputs, ext) == Some(outputs[at]),
        (forall|j: int|
            0 <= j < outputs.len() ==> !(#[trigger] outputs[j]).out_extensions().contains(ext))
            ==> output_for(outputs, ext) is None,
    decreases outputs.len(),
{
    if outputs.len() > 0 {
        let rest = outputs.skip(1);
        law_outputs_are_selected_by_extension(rest, ext, at - 1);
        if first_listing(outputs, ext, at) && at > 0 {
            assert(!outputs[0].out_extensions().contains(ext));
            assert(rest[at - 1] == outputs[at]);
            assert forall|j: int| 0 <= j < at - 1 implies !(
            #[trigger] rest[j]).out_extensions().contains(ext) by {
                assert(rest[j] == outputs[j + 1]);
            }
            assert(first_listing(rest, ext, at - 1));
        }
        if forall|j: int|
            0 <= j < outputs.len() ==> !(#[trigger] outputs[j]).out_extensions().contains(ext) {
            assert(!outputs[0].out_extensions().contains(ext));
            assert forall|j: int| 0 <= j < rest.len() implies !(
            #[trigger] rest[j]).out_extensions().contains(ext) by {
                assert(rest[j] == outputs[j + 1]);
            }
        }
    }
}

/// A format that is asked for by name is the one that an input is read in,
/// whatever the input looks like and is called. A name that no format has is
/// refused.
pub proof fn law_the_requested_input_format_wins(
    inputs: Seq<AnyInput>,
    input: Seq<char>,
    name: Seq<char>,
    bytes: Seq<u8>,
    at: int,
)
    ensures
        first_input(inputs, name, at) ==> input_choice(inputs, input, Some(name), bytes) == Ok::<
            AnyInput,
            FailureView,
        >(inputs[at]),
        (forall|j: int| 0 <= j < inputs.len() ==> (#[trigger] inputs[j]).in_name() != name)
            ==> input_choice(inputs, input, Some(name), bytes) == Err::<AnyInput, FailureView>(
            FailureView::UnknownInput(name),
        ),
{
    law_inputs_are_found_by_name(inputs, name, at);
}

/// Whether an input format is the one that data resembles most, and the first of
/// those.
pub open spec fn strongest(inputs: Seq<AnyInput>, data: ProbeView, at: int) -> bool {
    &&& 0 <= at < inputs.len()
    &&& inputs[at].likeness(data) != Confidence::NoMatch
    &&& forall|j: int|
        0 <= j < inputs.len() ==> (#[trigger] inputs[j]).likeness(data).level()
            <= inputs[at].likeness(data).level()
    &&& forall|j: int|
        0 <= j < at ==> (#[trigger] inputs[j]).likeness(data).level() < inputs[at].likeness(
            data,
        ).level()
}

/// The levels of confidence rise from no match to a certain one.
pub proof fn law_confidence_rises(a: Confidence, b: Confidence)
    ensures
        Confidence::NoMatch.level() < Confidence::Weak.level(),
        Confidence::Weak.level() < Confidence::Extension.level(),
        Confidence::Extension.level() < Confidence::Likely.level(),
        Confidence::Likely.level() < Confidence::Certain.level(),
        a.stronger(b) == a || a.stronger(b) == b,
        a.stronger(b).level() >= a.level(),
        a.stronger(b).level() >= b.level(),
        a.level() == b.level() ==> a == b,
{
}

/// An input without a format that was asked for is read in the one that it
/// resembles most, by its bytes and, where it is no standard input, by its name.
/// It is refused where it resembles none.
pub proof fn law_inputs_are_detected(
    inputs: Seq<AnyInput>,
    input: Seq<char>,
    bytes: Seq<u8>,
    at: int,
)
    ensures
        ({
            let data = ProbeView {
                filename: if input == "-"@ {
                    None
                } else {
                    Some(input)
                },
                buf: bytes,
            };
            &&& strongest(inputs, data, at) ==> input_choice(inputs, input, None, bytes) == Ok::<
                AnyInput,
                FailureView,
            >(inputs[at])
            &&& (forall|j: int|
                0 <= j < inputs.len() ==> (#[trigger] inputs[j]).likeness(data)
                    == Confidence::NoMatch) ==> input_choice(inputs, input, None, bytes) == Err::<
                AnyInput,
                FailureView,
            >(FailureView::Undetected)
        }),
{
    let data = ProbeView {
        filename: if input == "-"@ {
            None
        } else {
            Some(input)
        },
        buf: bytes,
    };
    law_best_match_is_strongest_and_earliest(inputs, data);
    if strongest(inputs, data, at) {
        let best = best_match(inputs, data)->0;
        assert(inputs[at].likeness(data).level() > 0);
        if at < best {
            assert(inputs[at].likeness(data).level() <= inputs[best].likeness(data).level());
        } else if best < at {
            assert(inputs[best].likeness(data).level() < inputs[at].likeness(data).level());
        }
    }
}

/// A name that ends in one of a format's extensions raises the confidence to
/// that level, where it is lower, and never lowers it. Any other name, or none,
/// changes nothing.
pub proof fn law_names_only_raise_confidence(
    content: Confidence,
    name: Seq<char>,
    extensions: Seq<Seq<char>>,
    ext: Seq<char>,
)
    ensures
        weigh_name(content, None, extensions) == content,
        extension(name) is None ==> weigh_name(content, Some(name), extensions) == content,
        extension(name) == Some(ext) && !extensions.contains(ext) ==> weigh_name(
            content,
            Some(name),
            extensions,
        ) == content,
        extension(name) == Some(ext) && extensions.contains(ext) ==> weigh_name(
            content,
            Some(name),
            extensions,
        ) == (if content == Confidence::Likely || content == Confidence::Certain {
            content
        } else {
            Confidence::Extension
        }),
{
}

proof fn lemma_strip_nothing(path: Seq<char>)
    requires
        path.len() > 0,
        path.last() != '/',
        path.last() != '.' || path.len() == 1 || path[path.len() - 2] != '/',
    ensures
        strip_end(path) == path,
{
}

proof fn lemma_last_of_is(s: Seq<char>, c: char, at: int)
    requires
        -1 <= at < s.len(),
        at >= 0 ==> s[at] == c,
        forall|i: int| at < i < s.len() ==> s[i] != c,
    ensures
        last_of(s, c) == at,
{
    lemma_last_of(s, c);
    let k = last_of(s, c);
    if k > at {
        assert(s[k] != c);
    } else if k < at {
        assert(s[at] != c);
    }
}

/// The last component of a path is what follows its last slash, where that is
/// there and no `.`. Slashes and a `.` component at the end say nothing.
pub proof fn law_the_last_component_follows_the_last_slash(
    directory: Seq<char>,
    name: Seq<char>,
)
    requires
        directory.len() > 0 ==> directory.last() == '/',
        name.len() > 0,
        !name.contains('/'),
        name.len() > 1 || name[0] != '.',
    ensures
        last_component(directory + name) == name,
        last_component((directory + name).push('/')) == name,
        last_component((directory + name).push('/').push('.')) == name,
{
    let path = directory + name;
    let n = path.len() as int;
    assert forall|i: int| 0 <= i < name.len() implies name[i] != '/' by {
        assert(name.contains(name[i]));
    }
    assert(path.last() == name[name.len() - 1]);
    if name.len() > 1 {
        assert(path[n - 2] == name[name.len() - 2]);
    }
    lemma_strip_nothing(path);
    assert(path.push('/').drop_last() =~= path);
    assert(strip_end(path.push('/')) == path);
    let dotted = path.push('/').push('.');
    assert(dotted.take(dotted.len() - 2) =~= path);
    assert(strip_end(dotted) == path);
    let at = directory.len() - 1;
    assert forall|i: int| at < i < path.len() implies path[i] != '/' by {
        assert(path[i] == name[i - directory.len()]);
    }
    lemma_last_of_is(path, '/', at);
    assert(path.skip(at + 1) =~= name);
}

/// The extension of a path is what follows the last dot of its last component,
/// where something stands before that dot.
pub proof fn law_extensions_follow_the_last_dot(path: Seq<char>, stem: Seq<char>, ext: Seq<char>)
    requires
        last_component(path) == stem + seq!['.'] + ext,
        stem.len() > 0,
        stem != seq!['.'] || ext.len() > 0,
        !ext.contains('.'),
    ensures
        extension(path) == Some(ext),
{
    let name = stem + seq!['.'] + ext;
    assert(name[stem.len() as int] == '.');
    assert forall|i: int| stem.len() < i < name.len() implies name[i] != '.' by {
        assert(name[i] == ext[i - stem.len() - 1]);
        assert(ext.contains(ext[i - stem.len() - 1]));
    }
    lemma_last_of_is(name, '.', stem.len() as int);
    assert(name.skip(stem.len() as int + 1) =~= ext);
    if name == seq!['.', '.'] {
        assert(name.len() == 2);
        assert(stem.len() == 1);
        assert(stem[0] == name[0]);
        assert(stem =~= seq!['.']);
    }
}

/// A file whose name has no dot, or only one at its start, has no extension.
pub proof fn law_names_without_a_dot_have_no_extension(path: Seq<char>)
    requires
        forall|i: int|
            0 < i < last_component(path).len() ==> #[trigger] last_component(path)[i] != '.',
    ensures
        extension(path) is None,
{
    let name = last_component(path);
    lemma_last_of(name, '.');
    let dot = last_of(name, '.');
    if dot > 0 {
        assert(name[dot] != '.');
    }
}

/// A format that is asked for by name is the one that an output is written in,
/// whatever the output is called. A name that no format has is refused.
pub proof fn law_the_requested_output_format_wins(
    outputs: Seq<AnyOutput>,
    output: Seq<char>,
    name: Seq<char>,
    at: int,
)
    ensures
        first_output(outputs, name, at) ==> output_choice(outputs, output, Some(name)) == Ok::<
            AnyOutput,
            FailureView,
        >(outputs[at]),
        (forall|j: int| 0 <= j < outputs.len() ==> (#[trigger] outputs[j]).out_name() != name)
            ==> output_choice(outputs, output, Some(name)) == Err::<AnyOutput, FailureView>(
            FailureView::UnknownOutput(name),
        ),
{
    law_outputs_are_found_by_name(outputs, name, at);
}

/// An output without a format that was asked for is written in the first format
/// that lists its extension.
pub proof fn law_the_extension_selects_the_output(
    outputs: Seq<AnyOutput>,
    output: Seq<char>,
    ext: Seq<char>,
    at: int,
)
    requires
        output != "-"@,
        extension(output) == Some(ext),
        first_listing(outputs, ext, at),
    ensures
        output_choice(outputs, output, None) == Ok::<AnyOutput, FailureView>(outputs[at]),
{
    law_outputs_are_selected_by_extension(outputs, ext, at);
}

/// An output whose extension selects nothing is written as JSON: standard
/// output, a name without an extension, and one whose extension no format lists.
/// It is refused where no format is called JSON.
pub proof fn law_json_is_the_last_resort(outputs: Seq<AnyOutput>, output: Seq<char>, at: int)
    requires
        output == "-"@ || extension(output) is None || forall|j: int|
            0 <= j < outputs.len() ==> !(#[trigger] outputs[j]).out_extensions().contains(
                extension(output)->0,
            ),
    ensures
        first_output(outputs, "json"@, at) ==> output_choice(outputs, output, None) == Ok::<
            AnyOutput,
            FailureView,
        >(outputs[at]),
        (forall|j: int| 0 <= j < outputs.len() ==> (#[trigger] outputs[j]).out_name() != "json"@)
            ==> output_choice(outputs, output, None) == Err::<AnyOutput, FailureView>(
            FailureView::NoDefaultOutput,
        ),
{
    law_outputs_are_found_by_name(outputs, "json"@, at);
    if extension(output) is Some {
        law_outputs_are_selected_by_extension(outputs, extension(output)->0, -1);
    }
}

/// The shipped input formats read what their readers say, and the shipped output
/// formats write what their writers say.
pub proof fn law_shipped_formats_are_what_they_are_called(
    input: Seq<char>,
    output: Seq<char>,
    bytes: Seq<u8>,
    p: ProfileView,
)
    ensures
        loaded(shipped_inputs(), input, Some("folded"@), bytes) == (match folded_meaning(bytes) {
            Ok(q) => Ok(q),
            Err(error) => Err(FailureView::Unreadable { format: "folded"@, error }),
        }),
        loaded(shipped_inputs(), input, Some("pprof"@), bytes) == (match pprof_meaning(bytes) {
            Ok(q) => Ok(q),
            Err(error) => Err(FailureView::Unreadable { format: "pprof"@, error }),
        }),
        loaded(shipped_inputs(), input, Some("chrometrace"@), bytes) == (match chrome_meaning(
            bytes,
        ) {
            Ok(q) => Ok(q),
            Err(error) => Err(FailureView::Unreadable { format: "chrometrace"@, error }),
        }),
        written(shipped_outputs(), output, Some("folded"@), p) == (match folded_rendering(p) {
            Ok(out) => Ok(out),
            Err(error) => Err(FailureView::Unwritable { format: "folded"@, error }),
        }),
        written(shipped_outputs(), output, Some("pprof"@), p) == (match pprof_rendering(p) {
            Ok(out) => Ok(out),
            Err(error) => Err(FailureView::Unwritable { format: "pprof"@, error }),
        }),
        written(shipped_outputs(), output, Some("json"@), p) == Ok::<Seq<u8>, FailureView>(
            json_text(profile_json(p), true),
        ),
        written(shipped_outputs(), output, Some("speedscope"@), p) == (match speedscope_rendering(
            p,
            true,
        ) {
            Ok(out) => Ok(out),
            Err(error) => Err(FailureView::Unwritable { format: "speedscope"@, error }),
        }),
        written(shipped_outputs(), output, Some("chrometrace"@), p) == (match chrome_rendering(
            p,
            true,
        ) {
            Ok(out) => Ok(out),
            Err(error) => Err(FailureView::Unwritable { format: "chrometrace"@, error }),
        }),
{
    law_shipped_formats_are_found_by_name();
    let inputs = shipped_inputs();
    let outputs = shipped_outputs();
    assert(inputs[0].in_name() == "folded"@);
    assert(inputs[1].in_name() == "pprof"@);
    assert(inputs[2].in_name() == "chrometrace"@);
    assert(outputs[0].out_name() == "folded"@);
    assert(outputs[1].out_name() == "pprof"@);
    assert(outputs[2].out_name() == "json"@);
    assert(outputs[3].out_name() == "speedscope"@);
    assert(outputs[4].out_name() == "chrometrace"@);
}

/// Each shipped output format is selected by its own extensions, and no other
/// extension selects any.
pub proof fn law_extensions_select_shipped_outputs(ext: Seq<char>)
    ensures
        ext == "folded"@ || ext == "collapsed"@ ==> (output_for(shipped_outputs(), ext) matches Some(
            format,
        ) && format is Folded),
        ext == "pprof"@ || ext == "pb"@ || ext == "gz"@ ==> (output_for(
            shipped_outputs(),
            ext,
        ) matches Some(format) && format is Pprof),
        ext == "json"@ ==> (output_for(shipped_outputs(), ext) matches Some(format)
            && format is Json),
        ext != "folded"@ && ext != "collapsed"@ && ext != "pprof"@ && ext != "pb"@ && ext != "gz"@
            && ext != "json"@ ==> output_for(shipped_outputs(), ext) is None,
{
    let outputs = shipped_outputs();
    let folded = outputs[0].out_extensions();
    let pprof = outputs[1].out_extensions();
    let json = outputs[2].out_extensions();
    assert(folded.contains(ext) <==> ext == "folded"@ || ext == "collapsed"@) by {
        assert(folded[0] == "folded"@);
        assert(folded[1] == "collapsed"@);
    }
    assert(pprof.contains(ext) <==> ext == "pprof"@ || ext == "pb"@ || ext == "gz"@) by {
        assert(pprof[0] == "pprof"@);
        assert(pprof[1] == "pb"@);
        assert(pprof[2] == "gz"@);
    }
    assert(json.contains(ext) <==> ext == "json"@) by {
        assert(json[0] == "json"@);
    }
    lemma_extensions_differ();
    if folded.contains(ext) {
        law_outputs_are_selected_by_extension(outputs, ext, 0);
        assert(first_listing(outputs, ext, 0));
    } else if pprof.contains(ext) {
        assert(first_listing(outputs, ext, 1));
        law_outputs_are_selected_by_extension(outputs, ext, 1);
    } else if json.contains(ext) {
        assert(first_listing(outputs, ext, 2));
        law_outputs_are_selected_by_extension(outputs, ext, 2);
    } else {
        law_outputs_are_selected_by_extension(outputs, ext, -1);
    }
}

proof fn lemma_extensions_differ()
    ensures
        "pprof"@ != "folded"@,
        "pprof"@ != "collapsed"@,
        "pb"@ != "folded"@,
        "pb"@ != "collapsed"@,
        "gz"@ != "folded"@,
        "gz"@ != "collapsed"@,
        "json"@ != "folded"@,
        "json"@ != "collapsed"@,
        "json"@ != "pprof"@,
        "json"@ != "pb"@,
        "json"@ != "gz"@,
{
    reveal_strlit("folded");
    reveal_strlit("collapsed");
    reveal_strlit("pprof");
    reveal_strlit("pb");
    reveal_strlit("gz");
    reveal_strlit("json");
    assert("folded"@.len() == 6);
    assert("collapsed"@.len() == 9);
    assert("pprof"@.len() == 5);
    assert("pb"@.len() == 2);
    assert("gz"@.len() == 2);
    assert("json"@.len() == 4);
}

/// A file that is called like a folded or a pprof file is taken for one, unless
/// its bytes say something stronger; a Chrome trace is known by its bytes alone.
pub proof fn law_extensions_recognise_shipped_inputs(name: Seq<char>, ext: Seq<char>, buf: Seq<u8>)
    requires
        extension(name) == Some(ext),
    ensures
        ({
            let data = ProbeView { filename: Some(name), buf };
            let inputs = shipped_inputs();
            &&& ext == "folded"@ || ext == "collapsed"@ ==> inputs[0].likeness(data).level()
                >= Confidence::Extension.level()
            &&& ext == "pprof"@ || ext == "pb"@ ==> inputs[1].likeness(data).level()
                >= Confidence::Extension.level()
            &&& ext != "folded"@ && ext != "collapsed"@ ==> inputs[0].likeness(data)
                == crate::folded::content_likeness(buf)
            &&& ext != "pprof"@ && ext != "pb"@ ==> inputs[1].likeness(data)
                == crate::pprof::content_likeness(buf)
            &&& inputs[2].likeness(data) == crate::chrometrace::content_likeness(buf)
        }),
{
    let folded = seq!["folded"@, "collapsed"@];
    let pprof = seq!["pprof"@, "pb"@];
    assert(folded.contains(ext) <==> ext == "folded"@ || ext == "collapsed"@) by {
        assert(folded[0] == "folded"@);
        assert(folded[1] == "collapsed"@);
    }
    assert(pprof.contains(ext) <==> ext == "pprof"@ || ext == "pb"@) by {
        assert(pprof[0] == "pprof"@);
        assert(pprof[1] == "pb"@);
    }
}

/// A conversion writes the profile that was read: it fails where reading fails,
/// with the same failure, and else comes to what writing comes to.
pub proof fn law_conversions_write_what_was_read(
    inputs: Seq<AnyInput>,
    outputs: Seq<AnyOutput>,
    input: Seq<char>,
    output: Seq<char>,
    from: Option<Seq<char>>,
    to: Option<Seq<char>>,
    bytes: Seq<u8>,
    format: AnyInput,
    target: AnyOutput,
)
    requires
        input_choice(inputs, input, from, bytes) == Ok::<AnyInput, FailureView>(format),
        output_choice(outputs, output, to) == Ok::<AnyOutput, FailureView>(target),
    ensures
        ({
            let done = converted(inputs, outputs, input, output, from, to, bytes);
            match format.meaning(bytes) {
                Err(error) => done == Err::<Seq<u8>, FailureView>(
                    FailureView::Unreadable { format: format.in_name(), error },
                ),
                Ok(profile) => match target.rendering(
                    profile,
                    crate::format::WriteOptions { pretty: true },
                ) {
                    Err(error) => done == Err::<Seq<u8>, FailureView>(
                        FailureView::Unwritable { format: target.out_name(), error },
                    ),
                    Ok(out) => done == Ok::<Seq<u8>, FailureView>(out),
                },
            }
        }),
{
}

/// A dump is the profile that was read as JSON, compact where that was asked for
/// and pretty else, and one line feed.
pub proof fn law_dumps_are_json_and_a_line_feed(
    inputs: Seq<AnyInput>,
    input: Seq<char>,
    from: Option<Seq<char>>,
    compact: bool,
    bytes: Seq<u8>,
)
    ensures
        match loaded(inputs, input, from, bytes) {
            Err(failure) => dumped(inputs, shipped_outputs(), input, from, compact, bytes)
                == Err::<Seq<u8>, FailureView>(failure),
            Ok(p) => dumped(inputs, shipped_outputs(), input, from, compact, bytes) == Ok::<
                Seq<u8>,
                FailureView,
            >(json_text(profile_json(p), !compact) + seq![0x0au8]),
        },
{
    law_shipped_formats_are_found_by_name();
    let outputs = shipped_outputs();
    assert(outputs[2].out_name() == "json"@);
    if let Ok(p) = loaded(inputs, input, from, bytes) {
        let text = json_text(profile_json(p), !compact);
        assert(text.push(0x0a) =~= text + seq![0x0au8]);
    }
}

/// A process id wins over all else, the session's own process over a program.
/// Where none of the three is given there is no target, and a program needs at
/// least one word.
pub proof fn law_targets_have_an_order(
    pid: u32,
    self_target: bool,
    program: Option<Seq<char>>,
    words: Option<Seq<Seq<char>>>,
)
    ensures
        target_choice(Some(pid), self_target, program) == Ok::<TargetView, FailureView>(
            TargetView::Pid(pid),
        ),
        target_choice(None, true, program) == Ok::<TargetView, FailureView>(TargetView::Current),
        target_choice(None, false, None) == Err::<TargetView, FailureView>(FailureView::NoTarget),
        words matches Some(argv) && argv.len() > 0 ==> command_of(words) == Ok::<
            TargetView,
            FailureView,
        >(TargetView::Command(words->0)),
        words matches Some(argv) ==> argv.len() == 0 ==> command_of(words) == Err::<
            TargetView,
            FailureView,
        >(FailureView::BadCommandLine),
        words is None ==> command_of(words) == Err::<TargetView, FailureView>(
            FailureView::BadCommandLine,
        ),
{
}

/// A recording writes what was captured, or fails with the name of the source
/// that failed.
pub proof fn law_recordings_write_what_was_captured(
    outputs: Seq<AnyOutput>,
    output: Seq<char>,
    to: Option<Seq<char>>,
    source: Seq<char>,
    p: ProfileView,
    error: ErrorView,
)
    ensures
        recorded(outputs, output, to, source, Ok(p)) == written(outputs, output, to, p),
        recorded(outputs, output, to, source, Err(error)) == Err::<Seq<u8>, FailureView>(
            FailureView::Uncaptured { source, error },
        ),
{
}

/// A buffer is read like a file of the name that it was given, and like standard
/// input where it was given none.
pub proof fn law_buffers_are_read_like_files(
    inputs: Seq<AnyInput>,
    from: Option<Seq<char>>,
    filename: Seq<char>,
    bytes: Seq<u8>,
)
    requires
        filename != "-"@,
    ensures
        buffer_meaning(inputs, from, Some(filename), bytes) == loaded(
            inputs,
            filename,
            from,
            bytes,
        ),
        buffer_meaning(inputs, from, None, bytes) == loaded(inputs, "-"@, from, bytes),
{
}

/// A message for C keeps its length and every byte but NUL, which becomes a
/// question mark.
pub proof fn law_messages_for_c_hold_no_nul(bytes: Seq<u8>, i: int)
    requires
        0 <= i < bytes.len(),
    ensures
        without_nul(bytes).len() == bytes.len(),
        bytes[i] != 0 ==> without_nul(bytes)[i] == bytes[i],
        bytes[i] == 0 ==> without_nul(bytes)[i] == '?' as u8,
{
}

/// Every error says its kind before what went wrong, and a parse error also the
/// line.
pub proof fn law_errors_say_their_kind(line: nat, text: Seq<char>)
    ensures
        ErrorView::Io.prefix() == "I/O error: "@,
        ErrorView::Json.prefix() == "JSON error: "@,
        ErrorView::Utf8.prefix() == "invalid UTF-8: "@,
        (ErrorView::Parse { line, message: text }).prefix() == "parse error on line "@ + decimal(
            line,
        ) + ": "@,
        (ErrorView::Parse { line, message: text }).detail() == Some(text),
        ErrorView::InvalidProfile(text).prefix() == "invalid profile: "@,
        ErrorView::InvalidProfile(text).detail() == Some(text),
        ErrorView::Decode(text).prefix() == "decode error: "@,
        ErrorView::Decode(text).detail() == Some(text),
        ErrorView::Capture(text).prefix() == "capture error: "@,
        ErrorView::Capture(text).detail() == Some(text),
        ErrorView::Unsupported(text).prefix() == "unsupported: "@,
        ErrorView::Unsupported(text).detail() == Some(text),
{
}

/// The first yes is found where it stands, and nothing is found where there is
/// none.
pub proof fn law_the_first_yes_is_found(answers: Seq<bool>, at: int)
    ensures
        0 <= at < answers.len() && answers[at] && (forall|j: int|
            0 <= j < at ==> !#[trigger] answers[j]) ==> first_yes(answers) == Some(at),
        (forall|j: int| 0 <= j < answers.len() ==> !#[trigger] answers[j]) ==> first_yes(
            answers,
        ) is None,
    decreases answers.len(),
{
    if answers.len() > 0 {
        let rest = answers.skip(1);
        law_the_first_yes_is_found(rest, at - 1);
        if 0 <= at < answers.len() && answers[at] && (forall|j: int|
            0 <= j < at ==> !#[trigger] answers[j]) && at > 0 {
            assert(!answers[0]);
            assert(rest[at - 1] == answers[at]);
            assert forall|j: int| 0 <= j < at - 1 implies !#[trigger] rest[j] by {
                assert(rest[j] == answers[j + 1]);
            }
        }
        if forall|j: int| 0 <= j < answers.len() ==> !#[trigger] answers[j] {
            assert(!answers[0]);
            assert forall|j: int| 0 <= j < rest.len() implies !#[trigger] rest[j] by {
                assert(rest[j] == answers[j + 1]);
            }
        }
    }
}

/// There is something to say against a reading exactly where it came to a profile
/// that is not valid.
pub proof fn law_only_invalid_profiles_are_complained_of<F: InputFormat>(format: &F, buf: Seq<u8>)
    ensures
        complaint(format, buf) is Some <==> (format.meaning(buf) matches Ok(p) && !p.valid()),
{
    if let Ok(p) = format.meaning(buf) {
        law_validation_decides_validity(p);
    }
}

/// The source that a request is about is one of the list that said it can run.
/// With a name it is the first that said it has that name, and without one the
/// first that said it can run.
pub proof fn law_the_first_fitting_source_is_chosen(
    listed: Seq<Box<dyn Source>>,
    name: Option<Seq<char>>,
    at: int,
    j: int,
)
    requires
        chosen(listed, name, at),
    ensures
        0 <= at < listed.len(),
        gives_answer::<dyn Source>(&*listed[at], true),
        name matches Some(text) ==> told_name::<dyn Source>(&*listed[at], text, true),
        name is Some && 0 <= j < at ==> told_name::<dyn Source>(&*listed[j], name->0, false),
        name is None && 0 <= j < at ==> gives_answer::<dyn Source>(&*listed[j], false),
{
}

/// A source is unknown only where the request had that name and every source said
/// that it has another, and there is none only where the request had no name and
/// every source said that it cannot run. One is unavailable only where the request
/// is about it and it said that it cannot run.
pub proof fn law_sources_are_refused_for_what_they_said(
    listed: Seq<Box<dyn Source>>,
    name: Option<Seq<char>>,
    text: Seq<char>,
    j: int,
)
    ensures
        no_source(listed, name, FailureView::UnknownSource(text)) ==> name == Some(text),
        no_source(listed, name, FailureView::UnknownSource(text)) && 0 <= j < listed.len()
            ==> told_name::<dyn Source>(&*listed[j], text, false),
        no_source(listed, name, FailureView::NoSource) ==> name is None,
        no_source(listed, name, FailureView::NoSource) && 0 <= j < listed.len()
            ==> gives_answer::<dyn Source>(&*listed[j], false),
        no_source(listed, name, FailureView::Unavailable(text)) ==> exists|at: int|
            #![trigger listed[at]]
            0 <= at < listed.len() && gives_answer::<dyn Source>(&*listed[at], false)
                && told_name::<dyn Source>(&*listed[at], text, true),
        !no_source(listed, name, FailureView::Undetected),
        !no_source(listed, name, FailureView::NoTarget),
{
    if no_source(listed, name, FailureView::Unavailable(text)) {
        let at = choose|at: int| #[trigger]
            looked_up(listed, name, at) && gives_answer::<dyn Source>(&*listed[at], false)
                && told_name::<dyn Source>(&*listed[at], text, true);
        assert(0 <= at < listed.len());
    }
}

} // verus!
