//! What validation says of a profile.

use vstd::prelude::*;

use crate::error::ErrorView;
use crate::model::{
    arity_message, dangling_message, first_dangling, lemma_first_dangling, ProfileView,
};

verus! {

proof fn lemma_fault_at(p: ProfileView, from: int, at: int)
    requires
        0 <= from <= at < p.samples.len(),
        forall|i: int|
            from <= i < at ==> (#[trigger] p.samples[i]).fits(p.frames.len(), p.value_kinds.len()),
    ensures
        p.fault_from(from) == p.fault_from(at),
    decreases at - from,
{
    if from < at {
        let sample = p.samples[from];
        assert(sample.fits(p.frames.len(), p.value_kinds.len()));
        lemma_first_dangling(sample.stack, p.frames.len());
        lemma_fault_at(p, from + 1, at);
    }
}

/// A profile is refused for its first sample that does not fit: for the number
/// of its values where that is not the number of value kinds, and else for its
/// first frame id that points at no frame.
pub proof fn law_the_first_fault_is_told(p: ProfileView, at: int, j: int)
    requires
        0 <= at < p.samples.len(),
        forall|i: int|
            0 <= i < at ==> (#[trigger] p.samples[i]).fits(p.frames.len(), p.value_kinds.len()),
    ensures
        p.samples[at].values.len() != p.value_kinds.len() ==> p.verdict() == Err::<(), ErrorView>(
            ErrorView::InvalidProfile(
                arity_message(at as nat, p.samples[at].values.len(), p.value_kinds.len()),
            ),
        ),
        p.samples[at].values.len() == p.value_kinds.len() && 0 <= j < p.samples[at].stack.len()
            && p.samples[at].stack[j].0 >= p.frames.len() && (forall|k: int|
            0 <= k < j ==> (#[trigger] p.samples[at].stack[k]).0 < p.frames.len()) ==> p.verdict()
            == Err::<(), ErrorView>(
            ErrorView::InvalidProfile(
                dangling_message(at as nat, p.samples[at].stack[j].0 as nat, p.frames.len()),
            ),
        ),
{
    lemma_fault_at(p, 0, at);
    let stack = p.samples[at].stack;
    lemma_first_dangling(stack, p.frames.len());
    let bad = first_dangling(stack, p.frames.len());
    if 0 <= j < stack.len() && stack[j].0 >= p.frames.len() {
        if j < bad {
            assert(stack[j].0 < p.frames.len());
        }
    }
}

/// A profile without samples is in order, and so is one whose samples each have
/// a value for every value kind and point at frames that are there.
pub proof fn law_fitting_profiles_are_in_order(p: ProfileView)
    requires
        forall|i: int|
            0 <= i < p.samples.len() ==> (#[trigger] p.samples[i]).values.len()
                == p.value_kinds.len(),
        forall|i: int, j: int|
            0 <= i < p.samples.len() && 0 <= j < p.samples[i].stack.len() ==> (
            #[trigger] p.samples[i].stack[j]).0 < p.frames.len(),
    ensures
        p.valid(),
        p.verdict() is Ok,
{
    assert forall|i: int| 0 <= i < p.samples.len() implies (#[trigger] p.samples[i]).fits(
        p.frames.len(),
        p.value_kinds.len(),
    ) by {
        assert forall|j: int| 0 <= j < p.samples[i].stack.len() implies (
        #[trigger] p.samples[i].stack[j]).0 < p.frames.len() by {}
    }
    crate::model::lemma_fault(p, 0);
}

} // verus!
