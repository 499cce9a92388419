//! A stable order of numbers.

use vstd::prelude::*;

verus! {

/// Whether the key at `a` comes before the key at `b`: it is smaller, or they
/// are equal and it stands first.
pub open spec fn ranks(keys: Seq<u64>, a: int, b: int) -> bool {
    keys[a] < keys[b] || (keys[a] == keys[b] && a < b)
}

/// The places of `keys` from `low` up to `high`, each once, in the order of
/// their keys; equal keys keep their order.
pub open spec fn orders(keys: Seq<u64>, order: Seq<usize>, low: int, high: int) -> bool {
    &&& order.len() == high - low
    &&& forall|i: int| 0 <= i < order.len() ==> low <= #[trigger] order[i] < high
    &&& forall|i: int, j: int|
        0 <= i < j < order.len() ==> ranks(keys, #[trigger] order[i] as int, #[trigger] order[j] as int)
    &&& forall|k: usize| low <= k < high ==> #[trigger] order.contains(k)
}

fn merge(keys: &Vec<u64>, left: &Vec<usize>, right: &Vec<usize>, low: usize, mid: usize, high: usize)
    -> (r: Vec<usize>)
    requires
        low <= mid <= high <= keys.len(),
        orders(keys@, left@, low as int, mid as int),
        orders(keys@, right@, mid as int, high as int),
    ensures
        orders(keys@, r@, low as int, high as int),
{
    let mut out: Vec<usize> = Vec::new();
    let mut i: usize = 0;
    let mut j: usize = 0;
    while i < left.len() || j < right.len()
        invariant
            low <= mid <= high <= keys.len(),
            orders(keys@, left@, low as int, mid as int),
            orders(keys@, right@, mid as int, high as int),
            i <= left.len(),
            j <= right.len(),
            out.len() == i + j,
            forall|a: int| 0 <= a < out.len() ==> low <= #[trigger] out@[a] < high,
            forall|a: int, b: int|
                0 <= a < b < out.len() ==> ranks(
                    keys@,
                    #[trigger] out@[a] as int,
                    #[trigger] out@[b] as int,
                ),
            forall|a: int, b: int|
                0 <= a < out.len() && i <= b < left.len() ==> ranks(
                    keys@,
                    #[trigger] out@[a] as int,
                    #[trigger] left@[b] as int,
                ),
            forall|a: int, b: int|
                0 <= a < out.len() && j <= b < right.len() ==> ranks(
                    keys@,
                    #[trigger] out@[a] as int,
                    #[trigger] right@[b] as int,
                ),
            forall|a: int| 0 <= a < i ==> out@.contains(#[trigger] left@[a]),
            forall|a: int| 0 <= a < j ==> out@.contains(#[trigger] right@[a]),
        decreases left.len() - i + right.len() - j,
    {
        let ghost before = out@;
        let from_left: bool = j == right.len() || (i < left.len() && keys[left[i]]
            <= keys[right[j]]);
        let next: usize = if from_left {
            left[i]
        } else {
            right[j]
        };
        out.push(next);
        proof {
            assert forall|k: usize| before.contains(k) implies out@.contains(k) by {
                let a = before.index_of(k);
                assert(out@[a] == k);
            }
            assert(out@[before.len() as int] == next);
            assert(out@.contains(next));
            assert forall|a: int, b: int| 0 <= a < b < out.len() implies ranks(
                keys@,
                #[trigger] out@[a] as int,
                #[trigger] out@[b] as int,
            ) by {
                assert(out@[a] == before[a]);
                if b < before.len() {
                    assert(out@[b] == before[b]);
                }
            }
            let p = if from_left {
                i + 1
            } else {
                i as int
            };
            let q = if from_left {
                j as int
            } else {
                j + 1
            };
            assert forall|a: int, b: int| 0 <= a < out.len() && p <= b < left.len() implies ranks(
                keys@,
                #[trigger] out@[a] as int,
                #[trigger] left@[b] as int,
            ) by {
                if a < before.len() {
                    assert(out@[a] == before[a]);
                } else if from_left {
                    assert(ranks(keys@, left@[i as int] as int, left@[b] as int));
                } else {
                    assert(left@[i as int] < right@[j as int]);
                    if b > i {
                        assert(ranks(keys@, left@[i as int] as int, left@[b] as int));
                    }
                }
            }
            assert forall|a: int, b: int| 0 <= a < out.len() && q <= b < right.len() implies ranks(
                keys@,
                #[trigger] out@[a] as int,
                #[trigger] right@[b] as int,
            ) by {
                if a < before.len() {
                    assert(out@[a] == before[a]);
                } else if from_left {
                    assert(left@[i as int] < right@[b]);
                    if b > j {
                        assert(ranks(keys@, right@[j as int] as int, right@[b] as int));
                    }
                } else {
                    assert(ranks(keys@, right@[j as int] as int, right@[b] as int));
                }
            }
        }
        if from_left {
            i = i + 1;
        } else {
            j = j + 1;
        }
    }
    proof {
        assert forall|k: usize| low <= k < high implies #[trigger] out@.contains(k) by {
            if k < mid {
                assert(left@.contains(k));
                let a = left@.index_of(k);
                assert(out@.contains(left@[a]));
            } else {
                assert(right@.contains(k));
                let a = right@.index_of(k);
                assert(out@.contains(right@[a]));
            }
        }
    }
    out
}

fn order_range(keys: &Vec<u64>, low: usize, high: usize) -> (r: Vec<usize>)
    requires
        low <= high <= keys.len(),
    ensures
        orders(keys@, r@, low as int, high as int),
    decreases high - low,
{
    if high - low == 0 {
        Vec::new()
    } else if high - low == 1 {
        let mut one: Vec<usize> = Vec::new();
        one.push(low);
        assert(one@[0] == low);
        assert forall|k: usize| low <= k < high implies #[trigger] one@.contains(k) by {
            assert(one@[0] == k);
        }
        one
    } else {
        let mid: usize = low + (high - low) / 2;
        let left = order_range(keys, low, mid);
        let right = order_range(keys, mid, high);
        merge(keys, &left, &right, low, mid, high)
    }
}

/// Finds the stable order of `keys`: the places of all of them, each once, by
/// their keys; equal keys keep their order.
pub fn stable_order(keys: &Vec<u64>) -> (r: Vec<usize>)
    ensures
        orders(keys@, r@, 0, keys.len() as int),
{
    order_range(keys, 0, keys.len())
}

/// A stable order names every place once, smaller keys first, and of equal keys
/// the earlier first.
pub proof fn law_stable_order_sorts(keys: Seq<u64>, order: Seq<usize>)
    requires
        orders(keys, order, 0, keys.len() as int),
    ensures
        order.len() == keys.len(),
        order.no_duplicates(),
        forall|i: int| 0 <= i < order.len() ==> 0 <= #[trigger] order[i] < keys.len(),
        forall|i: int, j: int|
            0 <= i < j < order.len() ==> keys[#[trigger] order[i] as int]
                <= keys[#[trigger] order[j] as int],
        forall|i: int, j: int|
            0 <= i < j < order.len() && keys[#[trigger] order[i] as int] == keys[
            #[trigger] order[j] as int] ==> order[i] < order[j],
{
    assert forall|i: int, j: int| 0 <= i < order.len() && 0 <= j < order.len() && i != j implies
        order[i] != order[j] by {
        if i < j {
            assert(ranks(keys, order[i] as int, order[j] as int));
        } else {
            assert(ranks(keys, order[j] as int, order[i] as int));
        }
    }
    assert forall|i: int, j: int| 0 <= i < j < order.len() implies keys[#[trigger] order[i] as int]
        <= keys[#[trigger] order[j] as int] by {
        assert(ranks(keys, order[i] as int, order[j] as int));
    }
    assert forall|i: int, j: int|
        0 <= i < j < order.len() && keys[#[trigger] order[i] as int] == keys[
        #[trigger] order[j] as int] implies order[i] < order[j] by {
        assert(ranks(keys, order[i] as int, order[j] as int));
    }
}

/// There is only one stable order of a list of keys.
pub proof fn law_stable_order_is_unique(keys: Seq<u64>, a: Seq<usize>, b: Seq<usize>)
    requires
        orders(keys, a, 0, keys.len() as int),
        orders(keys, b, 0, keys.len() as int),
    ensures
        a == b,
{
    assert forall|i: int| 0 <= i < a.len() implies a[i] == b[i] by {
        lemma_same_up_to(keys, a, b, i + 1);
    }
    assert(a =~= b);
}

proof fn lemma_same_up_to(keys: Seq<u64>, a: Seq<usize>, b: Seq<usize>, n: int)
    requires
        orders(keys, a, 0, keys.len() as int),
        orders(keys, b, 0, keys.len() as int),
        0 <= n <= a.len(),
    ensures
        forall|i: int| 0 <= i < n ==> a[i] == b[i],
    decreases n,
{
    if n > 0 {
        let last = n - 1;
        lemma_same_up_to(keys, a, b, last);
        assert(b.contains(a[last]));
        let at = b.index_of(a[last]);
        assert(a.contains(b[last]));
        let back = a.index_of(b[last]);
        if at < last {
            assert(a[at] == b[at]);
            assert(ranks(keys, a[at] as int, a[last] as int));
        } else if at > last {
            if back < last {
                assert(a[back] == b[back]);
                assert(ranks(keys, b[back] as int, b[last] as int));
            } else if back > last {
                assert(ranks(keys, b[last] as int, b[at] as int));
                assert(ranks(keys, a[last] as int, a[back] as int));
            }
        }
    }
}

} // verus!
