//! The numbers below a bound in the order of their decimal texts, which is the
//! order in which a map keyed by those texts is walked.

use vstd::prelude::*;

use crate::number::{decimal, digit_char};

verus! {

/// How far `n` is below `count`.
pub open spec fn left(n: nat, count: nat) -> nat {
    if n < count {
        (count - n) as nat
    } else {
        0
    }
}

/// The numbers below `count` whose texts start with the text of `n`, in the
/// order of their texts.
pub open spec fn starting_with(n: nat, count: nat) -> Seq<nat>
    decreases left(n, count), 0nat,
{
    if n == 0 || n >= count {
        Seq::empty()
    } else {
        seq![n] + starting_within(10 * n, 10 * n + 10, count)
    }
}

/// The numbers below `count` whose texts start with the text of one of
/// `low..high`.
pub open spec fn starting_within(low: nat, high: nat, count: nat) -> Seq<nat>
    decreases left(low, count), 1 + (if low < high { high - low } else { 0 }),
{
    if low >= high {
        Seq::empty()
    } else {
        starting_with(low, count) + starting_within(low + 1, high, count)
    }
}

/// The numbers below `count` in the order of their decimal texts.
pub open spec fn text_order(count: nat) -> Seq<nat> {
    if count == 0 {
        Seq::empty()
    } else {
        seq![0nat] + starting_within(1, 10, count)
    }
}

/// What a list of numbers holds.
pub open spec fn numbers(list: Seq<u64>) -> Seq<nat> {
    Seq::new(list.len(), |i: int| list[i] as nat)
}

fn push_starting_with(n: u64, count: u64, out: &mut Vec<u64>)
    ensures
        numbers(final(out)@) == numbers(old(out)@) + starting_with(n as nat, count as nat),
    decreases left(n as nat, count as nat), 0nat,
{
    let ghost before = numbers(out@);
    if n == 0 || n >= count {
        assert(before + starting_with(n as nat, count as nat) =~= before);
        return;
    }
    out.push(n);
    assert(numbers(out@) =~= before.push(n as nat));
    if n <= (count - 1) / 10 {
        let low: u64 = n * 10;
        // The last of the ten may be past the largest number; none at or past
        // the bound counts.
        let high: u64 = if count - low >= 10 {
            low + 10
        } else {
            count
        };
        push_starting_within(low, high, count, out);
        proof {
            lemma_bounded(10 * n as nat, high as nat, (10 * n + 10) as nat, count as nat);
        }
    } else {
        proof {
            lemma_past(10 * n as nat, (10 * n + 10) as nat, count as nat);
        }
    }
    assert(numbers(out@) =~= before + starting_with(n as nat, count as nat));
}

fn push_starting_within(low: u64, high: u64, count: u64, out: &mut Vec<u64>)
    requires
        low <= high,
    ensures
        numbers(final(out)@) == numbers(old(out)@) + starting_within(
            low as nat,
            high as nat,
            count as nat,
        ),
    decreases left(low as nat, count as nat), 1 + (if low < high { high - low } else { 0 }),
{
    let ghost before = numbers(out@);
    if low < high {
        push_starting_with(low, count, out);
        push_starting_within(low + 1, high, count, out);
    }
    assert(numbers(out@) =~= before + starting_within(low as nat, high as nat, count as nat));
}

proof fn lemma_past(low: nat, high: nat, count: nat)
    requires
        low >= count,
    ensures
        starting_within(low, high, count) == Seq::<nat>::empty(),
    decreases high - low,
{
    if low < high {
        lemma_past(low + 1, high, count);
        reveal_with_fuel(starting_with, 2);
        assert(starting_with(low, count) == Seq::<nat>::empty());
        assert(starting_within(low, high, count) =~= Seq::<nat>::empty());
    }
}

proof fn lemma_bounded(low: nat, mid: nat, high: nat, count: nat)
    requires
        low <= mid <= high,
        mid == high || mid >= count,
    ensures
        starting_within(low, mid, count) == starting_within(low, high, count),
    decreases mid - low,
{
    if low < mid {
        lemma_bounded(low + 1, mid, high, count);
    } else if mid < high {
        lemma_past(mid, high, count);
    }
}

/// Lists the numbers below `count` in the order of their decimal texts.
pub fn in_text_order(count: u64) -> (r: Vec<u64>)
    ensures
        numbers(r@) == text_order(count as nat),
{
    let mut out: Vec<u64> = Vec::new();
    if count > 0 {
        out.push(0);
        assert(numbers(out@) =~= seq![0nat]);
        push_starting_within(1, 10, count, &mut out);
    }
    assert(numbers(out@) =~= text_order(count as nat));
    out
}

/// Whether the text of `k` starts with the text of `n`.
pub open spec fn extends_number(n: nat, k: nat) -> bool
    decreases k,
{
    k == n || (k > n && extends_number(n, k / 10))
}

proof fn lemma_child(n: nat, k: nat)
    requires
        n > 0,
        k != n,
        extends_number(n, k),
    ensures
        exists|m: nat| 10 * n <= m < 10 * n + 10 && #[trigger] extends_number(m, k),
    decreases k,
{
    if k / 10 == n {
        assert(extends_number(k, k));
    } else {
        lemma_child(n, k / 10);
        let m = choose|m: nat| 10 * n <= m < 10 * n + 10 && #[trigger] extends_number(m, k / 10);
        lemma_not_below(m, k / 10);
        assert(extends_number(m, k));
    }
}

proof fn lemma_not_below(n: nat, k: nat)
    requires
        extends_number(n, k),
    ensures
        k >= n,
{
}

proof fn lemma_parent(n: nat, m: nat, k: nat)
    requires
        n > 0,
        10 * n <= m < 10 * n + 10,
        extends_number(m, k),
    ensures
        extends_number(n, k),
        k > n,
    decreases k,
{
    if k == m {
        assert(k / 10 == n);
        assert(extends_number(n, n));
    } else {
        lemma_parent(n, m, k / 10);
    }
}

proof fn lemma_one_parent(p: nat, a: nat, b: nat, k: nat)
    requires
        10 * p <= a < 10 * p + 10,
        10 * p <= b < 10 * p + 10,
        0 < a,
        0 < b,
        extends_number(a, k),
        extends_number(b, k),
    ensures
        a == b,
    decreases k,
{
    if k == a && a != b {
        lemma_not_below(b, k / 10);
        assert(false);
    } else if k == b && a != b {
        lemma_not_below(a, k / 10);
        assert(false);
    } else if a != b {
        lemma_one_parent(p, a, b, k / 10);
    }
}

/// The numbers that are listed are those below the bound whose text starts
/// with the text of `n`.
proof fn lemma_starting_with(n: nat, count: nat, k: nat)
    requires
        n > 0,
    ensures
        starting_with(n, count).contains(k) <==> k < count && extends_number(n, k),
    decreases left(n, count), 0nat,
{
    let list = starting_with(n, count);
    if n < count {
        let rest = starting_within(10 * n, 10 * n + 10, count);
        lemma_starting_within(10 * n, 10 * n + 10, count, k);
        assert(list[0] == n);
        if list.contains(k) {
            let i = list.index_of(k);
            if i > 0 {
                assert(rest[i - 1] == k);
                assert(rest.contains(k));
                let m = choose|m: nat|
                    10 * n <= m < 10 * n + 10 && #[trigger] extends_number(m, k);
                lemma_parent(n, m, k);
            }
        }
        if k < count && extends_number(n, k) && k != n {
            lemma_child(n, k);
            assert(rest.contains(k));
            let i = rest.index_of(k);
            assert(list[i + 1] == k);
        }
    } else if k < count && extends_number(n, k) {
        lemma_not_below(n, k);
    }
}

proof fn lemma_starting_within(low: nat, high: nat, count: nat, k: nat)
    requires
        low > 0,
    ensures
        starting_within(low, high, count).contains(k) <==> k < count && exists|m: nat|
            low <= m < high && #[trigger] extends_number(m, k),
    decreases left(low, count), 1 + (if low < high { high - low } else { 0 }),
{
    let list = starting_within(low, high, count);
    if low < high {
        let first = starting_with(low, count);
        let rest = starting_within(low + 1, high, count);
        lemma_starting_with(low, count, k);
        lemma_starting_within(low + 1, high, count, k);
        if list.contains(k) {
            let i = list.index_of(k);
            if i < first.len() {
                assert(first[i] == k);
                assert(first.contains(k));
            } else {
                assert(rest[i - first.len()] == k);
                assert(rest.contains(k));
            }
        }
        if k < count && exists|m: nat| low <= m < high && #[trigger] extends_number(m, k) {
            let m = choose|m: nat| low <= m < high && #[trigger] extends_number(m, k);
            if m == low {
                let i = first.index_of(k);
                assert(list[i] == k);
            } else {
                assert(rest.contains(k));
                let i = rest.index_of(k);
                assert(list[first.len() + i] == k);
            }
        }
    }
}

/// Whether text `a` comes before text `b`: where they first differ `a` has the
/// smaller character, or `a` ends there.
pub open spec fn text_before(a: Seq<char>, b: Seq<char>) -> bool {
    exists|k: int|
        #![trigger a.take(k)]
        0 <= k <= a.len() && k < b.len() && a.take(k) == b.take(k) && (k == a.len() || a[k] < b[k])
}

proof fn lemma_text_extends(n: nat, k: nat)
    requires
        n > 0,
        extends_number(n, k),
    ensures
        decimal(n).is_prefix_of(decimal(k)),
        decimal(k).len() >= decimal(n).len(),
        k > n ==> decimal(k).len() > decimal(n).len(),
    decreases k,
{
    if k == n {
        assert(decimal(k).take(decimal(n).len() as int) =~= decimal(n));
    } else {
        lemma_not_below(n, k / 10);
        assert(k >= 10);
        lemma_text_extends(n, k / 10);
        assert(decimal(k).take(decimal(n).len() as int) =~= decimal(k / 10).take(
            decimal(n).len() as int,
        ));
    }
}

proof fn lemma_shorter_first(n: nat, k: nat)
    requires
        n > 0,
        k > n,
        extends_number(n, k),
    ensures
        text_before(decimal(n), decimal(k)),
{
    lemma_text_extends(n, k);
    let c = decimal(n).len() as int;
    assert(decimal(n).take(c) =~= decimal(n));
    assert(decimal(k).take(c) =~= decimal(n));
}

proof fn lemma_siblings(p: nat, a: nat, b: nat, x: nat, y: nat)
    requires
        10 * p <= a < b < 10 * p + 10,
        0 < a,
        extends_number(a, x),
        extends_number(b, y),
    ensures
        text_before(decimal(x), decimal(y)),
{
    lemma_text_extends(a, x);
    lemma_text_extends(b, y);
    let c: int = decimal(a).len() - 1;
    assert(a / 10 == p && b / 10 == p);
    let da = digit_char(a % 10);
    let db = digit_char(b % 10);
    assert(a % 10 < b % 10);
    assert(da < db);
    if p == 0 {
        assert(decimal(a) =~= seq![da]);
        assert(decimal(b) =~= seq![db]);
        assert(decimal(a).take(0) =~= decimal(b).take(0));
    } else {
        assert(decimal(a) == decimal(p).push(da));
        assert(decimal(b) == decimal(p).push(db));
        assert(decimal(a).take(c) =~= decimal(p));
        assert(decimal(b).take(c) =~= decimal(p));
    }
    assert(decimal(a)[c] == da && decimal(b)[c] == db);
    let tx = decimal(x).take(decimal(a).len() as int);
    let ty = decimal(y).take(decimal(b).len() as int);
    assert(tx == decimal(a));
    assert(ty == decimal(b));
    assert(decimal(x)[c] == tx[c]);
    assert(decimal(y)[c] == ty[c]);
    assert(decimal(x).take(c) =~= tx.take(c));
    assert(decimal(y).take(c) =~= ty.take(c));
    assert(decimal(b).len() == decimal(a).len());
    assert(decimal(x).take(c) == decimal(y).take(c));
}

/// Whether a list of numbers is in the order of their texts, each before all
/// that follow it.
pub open spec fn text_sorted(list: Seq<nat>) -> bool {
    forall|i: int, j: int|
        0 <= i < j < list.len() ==> text_before(
            decimal(#[trigger] list[i]),
            decimal(#[trigger] list[j]),
        ) && list[i] != list[j]
}

proof fn lemma_sorted_with(n: nat, count: nat)
    requires
        n > 0,
    ensures
        text_sorted(starting_with(n, count)),
    decreases left(n, count), 0nat,
{
    let list = starting_with(n, count);
    if n < count {
        let rest = starting_within(10 * n, 10 * n + 10, count);
        lemma_sorted_within(n, 10 * n, count);
        assert forall|i: int, j: int| 0 <= i < j < list.len() implies text_before(
            decimal(#[trigger] list[i]),
            decimal(#[trigger] list[j]),
        ) && list[i] != list[j] by {
            let k = rest[j - 1];
            assert(list[j] == k);
            if i == 0 {
                assert(rest.contains(k));
                lemma_starting_within(10 * n, 10 * n + 10, count, k);
                let m = choose|m: nat|
                    10 * n <= m < 10 * n + 10 && #[trigger] extends_number(m, k);
                lemma_parent(n, m, k);
                lemma_shorter_first(n, k);
            } else {
                assert(list[i] == rest[i - 1]);
            }
        }
    }
}

proof fn lemma_sorted_within(p: nat, low: nat, count: nat)
    requires
        0 < low,
        10 * p <= low <= 10 * p + 10,
    ensures
        text_sorted(starting_within(low, 10 * p + 10, count)),
    decreases left(low, count), 1 + (if low < 10 * p + 10 { 10 * p + 10 - low } else { 0 }),
{
    let high = 10 * p + 10;
    let list = starting_within(low, high, count);
    if low < high {
        let first = starting_with(low, count);
        let rest = starting_within(low + 1, high, count);
        lemma_sorted_with(low, count);
        lemma_sorted_within(p, low + 1, count);
        assert forall|i: int, j: int| 0 <= i < j < list.len() implies text_before(
            decimal(#[trigger] list[i]),
            decimal(#[trigger] list[j]),
        ) && list[i] != list[j] by {
            if j < first.len() {
                assert(list[i] == first[i] && list[j] == first[j]);
            } else if i >= first.len() {
                assert(list[i] == rest[i - first.len()] && list[j] == rest[j - first.len()]);
            } else {
                let x = first[i];
                let y = rest[j - first.len()];
                assert(list[i] == x && list[j] == y);
                assert(first.contains(x));
                assert(rest.contains(y));
                lemma_starting_with(low, count, x);
                lemma_starting_within(low + 1, high, count, y);
                let m = choose|m: nat| low + 1 <= m < high && #[trigger] extends_number(m, y);
                lemma_siblings(p, low, m, x, y);
                if x == y {
                    lemma_one_parent(p, low, m, x);
                }
            }
        }
    }
}

proof fn lemma_rooted(k: nat)
    requires
        k > 0,
    ensures
        exists|m: nat| 1 <= m < 10 && #[trigger] extends_number(m, k),
    decreases k,
{
    if k < 10 {
        assert(extends_number(k, k));
    } else {
        lemma_rooted(k / 10);
        let m = choose|m: nat| 1 <= m < 10 && #[trigger] extends_number(m, k / 10);
        assert(extends_number(m, k));
    }
}

/// The order lists exactly the numbers below the bound, each once, and each
/// before those whose decimal text comes after its own.
pub proof fn law_text_order(count: nat)
    ensures
        forall|k: nat| #[trigger] text_order(count).contains(k) <==> k < count,
        text_sorted(text_order(count)),
        text_order(count).no_duplicates(),
{
    let list = text_order(count);
    if count > 0 {
        let rest = starting_within(1, 10, count);
        lemma_sorted_within(0, 1, count);
        assert forall|k: nat| #[trigger] list.contains(k) <==> k < count by {
            lemma_starting_within(1, 10, count, k);
            assert(list[0] == 0);
            if k > 0 && k < count {
                lemma_rooted(k);
                assert(rest.contains(k));
                let i = rest.index_of(k);
                assert(list[i + 1] == k);
            }
            if list.contains(k) {
                let i = list.index_of(k);
                if i > 0 {
                    assert(rest[i - 1] == k);
                    assert(rest.contains(k));
                }
            }
        }
        assert forall|i: int, j: int| 0 <= i < j < list.len() implies text_before(
            decimal(#[trigger] list[i]),
            decimal(#[trigger] list[j]),
        ) && list[i] != list[j] by {
            let k = rest[j - 1];
            assert(list[j] == k);
            if i == 0 {
                assert(rest.contains(k));
                lemma_starting_within(1, 10, count, k);
                let m = choose|m: nat| 1 <= m < 10 && #[trigger] extends_number(m, k);
                lemma_not_below(m, k);
                lemma_text_extends(m, k);
                assert(decimal(0) =~= seq!['0']);
                assert(decimal(m) =~= seq![digit_char(m)]);
                let t = decimal(k).take(1);
                assert(t == decimal(m));
                assert(decimal(k)[0] == t[0]);
                assert(decimal(0).take(0) =~= decimal(k).take(0));
                assert(decimal(0)[0] < decimal(k)[0]);
            } else {
                assert(list[i] == rest[i - 1]);
            }
        }
    }
}

} // verus!
