//! What holds of the shipped formats taken together.

use vstd::prelude::*;

use crate::chrometrace::{path, trace_samples, TrieNode};
use crate::folded::{folded_rendering, sample_line, write_samples};
use crate::format::{Confidence, ProbeView, WriteOptions};
use crate::model::{first_dangling, lemma_first_dangling, FrameId, FrameView, ProfileView};
use crate::registry::{
    best_match, input_named, law_best_match_is_strongest_and_earliest, output_named,
    shipped_inputs, shipped_outputs, AnyInput, AnyOutput,
};
use crate::sampling::{law_sampled_profiles_are_valid, CountsView};
use crate::speedscope::{kinds_fault, series_fault, stack_fault};

verus! {

proof fn lemma_no_dangling(p: ProfileView, i: int)
    requires
        p.valid(),
        0 <= i < p.samples.len(),
    ensures
        first_dangling(p.samples[i].stack, p.frames.len()) == p.samples[i].stack.len(),
        p.samples[i].values.len() == p.value_kinds.len(),
{
    assert(p.samples[i].fits(p.frames.len(), p.value_kinds.len()));
    lemma_first_dangling(p.samples[i].stack, p.frames.len());
}

proof fn lemma_folded_is_written(p: ProfileView, n: nat)
    requires
        p.valid(),
        p.value_kinds.len() > 0,
        n <= p.samples.len(),
    ensures
        write_samples(p, n) is Ok,
    decreases n,
{
    if n > 0 {
        lemma_folded_is_written(p, (n - 1) as nat);
        lemma_no_dangling(p, n - 1);
    }
}

proof fn lemma_path_is_made(trie: Seq<TrieNode>, stack: Seq<FrameId>, frames: nat)
    requires
        forall|i: int| 0 <= i < stack.len() ==> (#[trigger] stack[i]).0 < frames,
    ensures
        path(trie, stack, frames) is Ok,
    decreases stack.len(),
{
    if stack.len() > 0 {
        assert(stack[stack.len() - 1].0 < frames);
        lemma_path_is_made(trie, stack.drop_last(), frames);
    }
}

proof fn lemma_chrome_is_written(p: ProfileView, n: nat)
    requires
        p.valid(),
        n <= p.samples.len(),
    ensures
        trace_samples(p, n) is Ok,
    decreases n,
{
    if n > 0 {
        lemma_chrome_is_written(p, (n - 1) as nat);
        assert(p.samples[n - 1].fits(p.frames.len(), p.value_kinds.len()));
        let before = trace_samples(p, (n - 1) as nat)->Ok_0;
        lemma_path_is_made(before.trie, p.samples[n - 1].stack, p.frames.len());
    }
}

proof fn lemma_no_stack_fault(p: ProfileView, index: int)
    requires
        p.valid(),
    ensures
        stack_fault(p, index) is None,
    decreases p.samples.len() - index,
{
    if 0 <= index < p.samples.len() {
        lemma_no_dangling(p, index);
        lemma_no_stack_fault(p, index + 1);
    }
}

proof fn lemma_no_series_fault(p: ProfileView, series: int, index: int)
    requires
        p.valid(),
        0 <= series < p.value_kinds.len(),
    ensures
        series_fault(p, series, index) is None,
    decreases p.samples.len() - index,
{
    if 0 <= index < p.samples.len() {
        lemma_no_dangling(p, index);
        lemma_no_series_fault(p, series, index + 1);
    }
}

proof fn lemma_no_kinds_fault(p: ProfileView, series: int)
    requires
        p.valid(),
    ensures
        kinds_fault(p, series) is None,
    decreases p.value_kinds.len() - series,
{
    if 0 <= series < p.value_kinds.len() {
        lemma_no_series_fault(p, series, 0);
        lemma_no_kinds_fault(p, series + 1);
    }
}

/// Every valid profile can be written in every shipped format: in the folded
/// format if it has a value series at all.
pub proof fn law_valid_profiles_can_be_written(
    format: AnyOutput,
    p: ProfileView,
    options: WriteOptions,
)
    requires
        !(format is Other),
        p.valid(),
        format is Folded ==> p.value_kinds.len() > 0,
    ensures
        format.rendering(p, options) is Ok,
{
    match format {
        AnyOutput::Folded(_) => {
            lemma_folded_is_written(p, p.samples.len());
        },
        AnyOutput::Speedscope(_) => {
            lemma_no_stack_fault(p, 0);
            lemma_no_kinds_fault(p, 0);
        },
        AnyOutput::ChromeTrace(_) => {
            lemma_chrome_is_written(p, p.samples.len());
        },
        _ => {},
    }
}

/// A capture can be written in any shipped format.
pub proof fn law_captures_can_be_written(
    format: AnyOutput,
    counts: CountsView,
    frames: Seq<FrameView>,
    options: WriteOptions,
)
    requires
        !(format is Other),
        frames.len() == counts.addresses().len(),
        counts.profile(frames) is Ok,
    ensures
        format.rendering(counts.profile(frames)->Ok_0, options) is Ok,
{
    law_sampled_profiles_are_valid(counts, frames);
    law_valid_profiles_can_be_written(format, counts.profile(frames)->Ok_0, options);
}

/// Whether two profiles agree in all that the folded format can carry: the
/// frames, the stacks and the first value of each sample.
pub open spec fn same_first_series(p: ProfileView, q: ProfileView) -> bool {
    &&& p.frames == q.frames
    &&& p.samples.len() == q.samples.len()
    &&& forall|i: int|
        0 <= i < p.samples.len() ==> {
            &&& (#[trigger] p.samples[i]).stack == q.samples[i].stack
            &&& p.samples[i].values.len() > 0
            &&& q.samples[i].values.len() > 0
            &&& p.samples[i].values[0] == q.samples[i].values[0]
        }
}

proof fn lemma_same_lines(p: ProfileView, q: ProfileView, n: nat)
    requires
        same_first_series(p, q),
        n <= p.samples.len(),
    ensures
        write_samples(p, n) == write_samples(q, n),
    decreases n,
{
    if n > 0 {
        lemma_same_lines(p, q, (n - 1) as nat);
        assert(p.samples[n - 1].stack == q.samples[n - 1].stack);
        assert(sample_line(p.frames, p.samples[n - 1]) == sample_line(q.frames, q.samples[n - 1]));
    }
}

/// Folded output keeps only the first value series: it is the same for profiles
/// that differ in the other series alone.
pub proof fn law_folded_writes_only_the_first_series(p: ProfileView, q: ProfileView)
    requires
        same_first_series(p, q),
    ensures
        folded_rendering(p) == folded_rendering(q),
{
    lemma_same_lines(p, q, p.samples.len());
}

proof fn lemma_format_names()
    ensures
        "folded"@ != "pprof"@,
        "folded"@ != "json"@,
        "folded"@ != "speedscope"@,
        "folded"@ != "chrometrace"@,
        "pprof"@ != "json"@,
        "pprof"@ != "speedscope"@,
        "pprof"@ != "chrometrace"@,
        "json"@ != "speedscope"@,
        "json"@ != "chrometrace"@,
        "speedscope"@ != "chrometrace"@,
{
    reveal_strlit("folded");
    reveal_strlit("pprof");
    reveal_strlit("json");
    reveal_strlit("speedscope");
    reveal_strlit("chrometrace");
    assert("folded"@.len() == 6);
    assert("pprof"@.len() == 5);
    assert("json"@.len() == 4);
    assert("speedscope"@.len() == 10);
    assert("chrometrace"@.len() == 11);
}

/// Every shipped format is found by its own name.
pub proof fn law_shipped_formats_are_found_by_name()
    ensures
        forall|i: int|
            0 <= i < shipped_inputs().len() ==> input_named(
                shipped_inputs(),
                (#[trigger] shipped_inputs()[i]).in_name(),
            ) == Some(shipped_inputs()[i]),
        forall|i: int|
            0 <= i < shipped_outputs().len() ==> output_named(
                shipped_outputs(),
                (#[trigger] shipped_outputs()[i]).out_name(),
            ) == Some(shipped_outputs()[i]),
{
    lemma_format_names();
    reveal_with_fuel(input_named, 4);
    reveal_with_fuel(output_named, 6);
    let inputs = shipped_inputs();
    assert(inputs.skip(1)[0] == inputs[1]);
    assert(inputs.skip(1).skip(1)[0] == inputs[2]);
    let outputs = shipped_outputs();
    assert(outputs.skip(1)[0] == outputs[1]);
    assert(outputs.skip(1).skip(1)[0] == outputs[2]);
    assert(outputs.skip(1).skip(1).skip(1)[0] == outputs[3]);
    assert(outputs.skip(1).skip(1).skip(1).skip(1)[0] == outputs[4]);
}

/// A format that matches its input more strongly than every other is picked,
/// wherever it was registered.
pub proof fn law_the_stronger_match_is_picked(inputs: Seq<AnyInput>, data: ProbeView, at: int)
    requires
        0 <= at < inputs.len(),
        inputs[at].likeness(data) != Confidence::NoMatch,
        forall|i: int|
            0 <= i < inputs.len() && i != at ==> (#[trigger] inputs[i]).likeness(data).level()
                < inputs[at].likeness(data).level(),
    ensures
        best_match(inputs, data) == Some(at),
{
    law_best_match_is_strongest_and_earliest(inputs, data);
}

/// Input whose leading lines obey the folded grammar is detected as folded,
/// whatever else it resembles.
pub proof fn law_folded_grammar_is_detected(data: ProbeView)
    requires
        shipped_inputs()[0].likeness(data) == Confidence::Likely,
    ensures
        best_match(shipped_inputs(), data) == Some(0int),
        shipped_inputs()[0] is Folded,
{
    let inputs = shipped_inputs();
    law_best_match_is_strongest_and_earliest(inputs, data);
    assert(inputs[1].likeness(data).level() <= 3);
    assert(inputs[2].likeness(data).level() <= 3);
}

} // verus!
