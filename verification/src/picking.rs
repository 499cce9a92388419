//! When one list is picked from another: which items it takes, what it makes of
//! them, and in which order.

use vstd::prelude::*;

verus! {

/// Whether `at` tells which items of `source` make up `out`: all that are
/// wanted and no others, in their order, and each by its image.
pub open spec fn picked_at<A, B>(
    source: Seq<A>,
    wanted: spec_fn(A) -> bool,
    image: spec_fn(A) -> B,
    out: Seq<B>,
    at: Seq<int>,
) -> bool {
    &&& at.len() == out.len()
    &&& forall|i: int, j: int| 0 <= i < j < at.len() ==> #[trigger] at[i] < #[trigger] at[j]
    &&& forall|k: int|
        0 <= k < at.len() ==> {
            &&& 0 <= #[trigger] at[k] < source.len()
            &&& wanted(source[at[k]])
            &&& out[k] == image(source[at[k]])
        }
    &&& forall|i: int| 0 <= i < source.len() && wanted(#[trigger] source[i]) ==> at.contains(i)
}

/// Whether `out` is made of the wanted items of `source`, all of them, in their
/// order, and each by its image.
pub open spec fn picked<A, B>(
    source: Seq<A>,
    wanted: spec_fn(A) -> bool,
    image: spec_fn(A) -> B,
    out: Seq<B>,
) -> bool {
    exists|at: Seq<int>| #[trigger] picked_at(source, wanted, image, out, at)
}

pub proof fn lemma_picked_none<A, B>(
    source: Seq<A>,
    wanted: spec_fn(A) -> bool,
    image: spec_fn(A) -> B,
    out: Seq<B>,
)
    requires
        source.len() == 0,
        out.len() == 0,
    ensures
        picked(source, wanted, image, out),
{
    assert(picked_at(source, wanted, image, out, Seq::empty()));
}

/// One more item at the end of the source.
pub proof fn lemma_picked_more<A, B>(
    source: Seq<A>,
    wanted: spec_fn(A) -> bool,
    image: spec_fn(A) -> B,
    before: Seq<B>,
    out: Seq<B>,
)
    requires
        source.len() > 0,
        picked(source.drop_last(), wanted, image, before),
        out == (if wanted(source.last()) {
            before.push(image(source.last()))
        } else {
            before
        }),
    ensures
        picked(source, wanted, image, out),
{
    let front = source.drop_last();
    let last = source.len() - 1;
    let at = choose|at: Seq<int>| #[trigger] picked_at(front, wanted, image, before, at);
    let now = if wanted(source.last()) {
        at.push(last)
    } else {
        at
    };
    assert forall|k: int| 0 <= k < now.len() implies {
        &&& 0 <= #[trigger] now[k] < source.len()
        &&& wanted(source[now[k]])
        &&& out[k] == image(source[now[k]])
    } by {
        if k < at.len() {
            assert(now[k] == at[k]);
            assert(front[at[k]] == source[at[k]]);
        }
    }
    assert forall|i: int, j: int| 0 <= i < j < now.len() implies #[trigger] now[i]
        < #[trigger] now[j] by {
        assert(now[i] == at[i]);
        if j < at.len() {
            assert(now[j] == at[j]);
        }
    }
    assert forall|i: int| 0 <= i < source.len() && wanted(#[trigger] source[i]) implies now.contains(
        i,
    ) by {
        if i < last {
            assert(front[i] == source[i]);
            assert(at.contains(i));
            let k = at.index_of(i);
            assert(now[k] == i);
        } else {
            assert(now[at.len() as int] == last);
        }
    }
    assert(picked_at(source, wanted, image, out, now));
}

} // verus!
