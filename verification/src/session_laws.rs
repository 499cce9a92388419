//! What holds of the decisions of a sampling session.

use vstd::prelude::*;

use crate::capture::TargetView;
use crate::error::ErrorView;
use crate::intern::{grown_all, law_grown_all_keeps_places};
use crate::model::{FrameView, ValueKindView};
use crate::number::read_unsigned;
use crate::sampling::{law_frames_stand_for_addresses, walk, CountsView};
use crate::session::{
    advanced, ascending, baselines, covers, ids_in, interval, planned, sampled, up_to_nul,
    Observation, Phase, Plan, Tick,
};
use crate::sorting::orders;

verus! {

/// A frequency of zero is refused. Else every target but the session's own
/// process is watched to its end, and a command alone is launched.
pub proof fn law_plans_follow_the_target(target: TargetView, frequency_hz: u32)
    ensures
        frequency_hz == 0 ==> planned(target, frequency_hz) == Err::<Plan, ErrorView>(
            ErrorView::Capture("sampling frequency must be greater than zero"@),
        ),
        frequency_hz > 0 ==> (planned(target, frequency_hz) matches Ok(plan) && {
            &&& plan.launch <==> target is Command
            &&& plan.wait_for_exit <==> target is Command || target is Pid
        }),
{
}

/// Snapshots are at least a millisecond apart. Beyond that there are as many in
/// a second as the frequency says, or one every ten milliseconds where it says
/// nothing.
pub proof fn law_intervals_keep_the_frequency(frequency_hz: u32)
    ensures
        interval(frequency_hz) >= 1_000_000,
        frequency_hz == 0 ==> interval(frequency_hz) == 10_000_000,
        0 < frequency_hz <= 1000 ==> interval(frequency_hz) * frequency_hz <= 1_000_000_000 < (
        interval(frequency_hz) + 1) * frequency_hz,
        frequency_hz > 1000 ==> interval(frequency_hz) == 1_000_000,
{
    if frequency_hz > 0 {
        let f = frequency_hz as int;
        let wanted = 1_000_000_000int / f;
        vstd::arithmetic::div_mod::lemma_fundamental_div_mod(1_000_000_000, f);
        vstd::arithmetic::div_mod::lemma_mod_bound(1_000_000_000, f);
        let left = 1_000_000_000int % f;
        assert(f * wanted == wanted * f) by (nonlinear_arith);
        assert((wanted + 1) * f == wanted * f + f) by (nonlinear_arith);
        if f <= 1000 {
            assert(wanted >= 1_000_000) by (nonlinear_arith)
                requires
                    f * wanted + left == 1_000_000_000,
                    0 <= left < f,
                    0 < f <= 1000,
            ;
        } else {
            assert(wanted <= 1_000_000) by (nonlinear_arith)
                requires
                    f * wanted + left == 1_000_000_000,
                    0 <= left < f,
                    f > 1000,
            ;
        }
    }
}

/// A session that takes snapshots is over only after a yes, and takes a snapshot
/// before each time it asks. A no leads to a pause, and a pause to the next
/// snapshot.
pub proof fn law_ticks_end_on_a_yes(tick: Tick, yes: bool)
    ensures
        tick.after(yes) is Finished ==> tick is Finished || yes && (tick is AskDeadline
            || tick is AskExit),
        (tick is AskDeadline || tick is AskExit) && yes ==> tick.after(yes) is Finished,
        tick.after(yes) is AskDeadline ==> tick is Snapshot,
        tick is AskDeadline && !yes ==> tick.after(yes) is AskExit,
        tick is AskExit && !yes ==> tick.after(yes) is Pause,
        tick is Pause ==> tick.after(yes) is Snapshot,
        tick is Snapshot ==> tick.after(yes) is AskDeadline,
        tick is Finished ==> tick.after(yes) is Finished,
{
}

/// A session that drains ring buffers goes on with sleep and drains until it
/// hears a yes.
pub proof fn law_phases_go_on_until_a_yes(phase: Phase, yes: bool)
    ensures
        phase is Sleep ==> phase.after(yes) is Drain,
        phase is Drain ==> phase.after(yes) is AskDeadline,
        phase is AskDeadline && !yes ==> phase.after(yes) is AskExit,
        phase is AskExit && !yes ==> phase.after(yes) is Sleep,
        (phase is AskDeadline || phase is AskExit) && yes ==> phase.after(yes) is Disable,
        phase is Disable ==> phase.after(yes) is LastDrain,
        phase is LastDrain ==> phase.after(yes) is Finished,
        phase is Finished ==> phase.after(yes) is Finished,
{
}

/// A thread has run where its cycle count is known twice and has grown.
pub proof fn law_threads_run_by_their_cycles(last: Option<u64>, now: Option<u64>, a: u64, b: u64)
    ensures
        advanced(Some(a), Some(b)) <==> a < b,
        !advanced(None, now),
        !advanced(last, None),
{
}

/// Whether an observation counts as a sample: the thread is still there, and its
/// call-chain was walked.
pub open spec fn is_sample() -> spec_fn(Observation) -> bool {
    |seen: Observation| seen.cycles is Some && seen.stack@.len() > 0
}

/// The call-chain of an observation.
pub open spec fn its_stack() -> spec_fn(Observation) -> Seq<u64> {
    |seen: Observation| seen.stack@
}

/// The samples of a snapshot are the call-chains of all threads that are still
/// there and have one, in their order.
pub proof fn law_snapshots_sample_the_threads_there(seen: Seq<Observation>)
    ensures
        sampled(seen) == seen.filter(is_sample()).map_values(its_stack()),
    decreases seen.len(),
{
    reveal(Seq::filter);
    if seen.len() > 0 {
        let front = seen.drop_last();
        law_snapshots_sample_the_threads_there(front);
        let kept = front.filter(is_sample());
        assert(kept.push(seen.last()).map_values(its_stack()) =~= kept.map_values(
            its_stack(),
        ).push(its_stack()(seen.last())));
    } else {
        assert(seen.map_values(its_stack()) =~= Seq::empty());
    }
}

/// Whether the last observation of a thread with a cycle count stands at an
/// index.
pub open spec fn last_counted(seen: Seq<Observation>, tid: u32, at: int) -> bool {
    &&& 0 <= at < seen.len()
    &&& seen[at].tid == tid
    &&& seen[at].cycles is Some
    &&& forall|j: int|
        at < j < seen.len() ==> (#[trigger] seen[j]).tid != tid || seen[j].cycles is None
}

/// The cycle count that is kept of a thread is that of its last observation that
/// has one. Nothing is kept of a thread without any.
pub proof fn law_snapshots_keep_cycle_counts(seen: Seq<Observation>, tid: u32, at: int)
    ensures
        last_counted(seen, tid, at) ==> baselines(seen).contains_key(tid) && baselines(seen)[tid]
            == seen[at].cycles->0,
        (forall|j: int|
            0 <= j < seen.len() ==> (#[trigger] seen[j]).tid != tid || seen[j].cycles is None)
            ==> !baselines(seen).contains_key(tid),
    decreases seen.len(),
{
    if seen.len() > 0 {
        let front = seen.drop_last();
        law_snapshots_keep_cycle_counts(front, tid, at);
        if last_counted(seen, tid, at) && at < front.len() {
            assert(seen[at] == front[at]);
            assert forall|j: int| at < j < front.len() implies (#[trigger] front[j]).tid != tid
                || front[j].cycles is None by {
                assert(seen[j] == front[j]);
            }
            assert(last_counted(front, tid, at));
            assert(seen[seen.len() - 1].tid != tid || seen[seen.len() - 1].cycles is None);
        }
        if forall|j: int|
            0 <= j < seen.len() ==> (#[trigger] seen[j]).tid != tid || seen[j].cycles is None {
            assert forall|j: int| 0 <= j < front.len() implies (#[trigger] front[j]).tid != tid
                || front[j].cycles is None by {
                assert(seen[j] == front[j]);
            }
            assert(seen[seen.len() - 1].tid != tid || seen[seen.len() - 1].cycles is None);
        }
    }
}

/// An address belongs to a symbol of known size up to its end. It belongs to an
/// export of unknown size up to 8 KiB past its start, and to any other symbol of
/// unknown size however far it is.
pub proof fn law_symbols_end_at_their_size(size: u64, displacement: u64, export: bool)
    ensures
        size > 0 ==> (covers(size, export, displacement) <==> displacement < size),
        covers(0, true, displacement) <==> displacement <= 8192,
        covers(0, false, displacement),
{
}

/// The bytes of a string go up to the first NUL, or to the end where there is
/// none, and each is the character's bit pattern.
pub proof fn law_strings_end_at_the_first_nul(bytes: Seq<i8>, end: int)
    requires
        0 <= end <= bytes.len(),
        end < bytes.len() ==> bytes[end] == 0,
        forall|i: int| 0 <= i < end ==> #[trigger] bytes[i] != 0,
    ensures
        up_to_nul(bytes).len() == end,
        forall|i: int|
            0 <= i < end ==> #[trigger] up_to_nul(bytes)[i] == (if bytes[i] < 0 {
                bytes[i] + 256
            } else {
                bytes[i] as int
            }),
    decreases bytes.len(),
{
    if end > 0 {
        let rest = bytes.skip(1);
        assert(bytes[0] != 0);
        assert forall|i: int| 0 <= i < end - 1 implies #[trigger] rest[i] != 0 by {
            assert(rest[i] == bytes[i + 1]);
        }
        if end < bytes.len() {
            assert(rest[end - 1] == bytes[end]);
        }
        law_strings_end_at_the_first_nul(rest, end - 1);
        assert forall|i: int| 0 <= i < end implies #[trigger] up_to_nul(bytes)[i] == (if bytes[i]
            < 0 {
            bytes[i] + 256
        } else {
            bytes[i] as int
        }) by {
            if i > 0 {
                assert(up_to_nul(bytes)[i] == up_to_nul(rest)[i - 1]);
                assert(rest[i - 1] == bytes[i]);
            }
        }
    }
}

/// Whether a name is a number that a thread can have.
pub open spec fn is_thread_id() -> spec_fn(Seq<char>) -> bool {
    |name: Seq<char>| read_unsigned(name, false, u32::MAX as nat) is Some
}

/// The number that a name is.
pub open spec fn thread_id() -> spec_fn(Seq<char>) -> u64 {
    |name: Seq<char>| read_unsigned(name, false, u32::MAX as nat)->0 as u64
}

/// The threads of a process are the names that are numbers, all of them.
pub proof fn law_threads_are_the_numbers_among_the_names(names: Seq<Seq<char>>)
    ensures
        ids_in(names) == names.filter(is_thread_id()).map_values(thread_id()),
    decreases names.len(),
{
    reveal(Seq::filter);
    if names.len() > 0 {
        let front = names.drop_last();
        law_threads_are_the_numbers_among_the_names(front);
        let kept = front.filter(is_thread_id());
        assert(kept.push(names.last()).map_values(thread_id()) =~= kept.map_values(
            thread_id(),
        ).push(thread_id()(names.last())));
    } else {
        assert(names.map_values(thread_id()) =~= Seq::empty());
    }
}

/// Whether values come in the order of their first sight: of two in a table, the
/// one that comes first there was seen before the other was.
pub open spec fn seen_before<V>(values: Seq<V>, a: V, b: V) -> bool {
    exists|p: int|
        #![trigger values[p]]
        0 <= p < values.len() && values[p] == a && forall|q: int|
            0 <= q <= p ==> #[trigger] values[q] != b
}

/// A table that values are added to holds what was added and nothing else, each
/// once, in the order of first sight.
pub proof fn law_tables_are_in_the_order_of_first_sight<V>(values: Seq<V>, x: int, y: int)
    requires
        0 <= x < y < grown_all(Seq::empty(), values).len(),
    ensures
        grown_all(Seq::empty(), values).no_duplicates(),
        seen_before(
            values,
            grown_all(Seq::empty(), values)[x],
            grown_all(Seq::empty(), values)[y],
        ),
    decreases values.len(),
{
    law_grown_all_keeps_places(Seq::<V>::empty(), values);
    let front = values.drop_last();
    let before = grown_all(Seq::empty(), front);
    let after = grown_all(Seq::empty(), values);
    law_grown_all_keeps_places(Seq::<V>::empty(), front);
    if y < before.len() {
        law_tables_are_in_the_order_of_first_sight(front, x, y);
        assert(after[x] == before[x]);
        assert(after[y] == before[y]);
        let p = choose|p: int|
            #![trigger front[p]]
            0 <= p < front.len() && front[p] == before[x] && forall|q: int|
                0 <= q <= p ==> #[trigger] front[q] != before[y];
        assert(values[p] == front[p]);
        assert forall|q: int| 0 <= q <= p implies #[trigger] values[q] != after[y] by {
            assert(values[q] == front[q]);
        }
    } else {
        assert(after == before.push(values.last()));
        assert(after[x] == before[x]);
        assert(before.contains(before[x]));
        lemma_table_is_of_values(front, before[x]);
        let p = choose|p: int| 0 <= p < front.len() && #[trigger] front[p] == before[x];
        assert(values[p] == after[x]);
        assert forall|q: int| 0 <= q <= p implies #[trigger] values[q] != after[y] by {
            assert(values[q] == front[q]);
            assert(before.contains(front[q]));
        }
    }
}

proof fn lemma_table_is_of_values<V>(values: Seq<V>, value: V)
    ensures
        grown_all(Seq::empty(), values).contains(value) <==> exists|p: int|
            0 <= p < values.len() && #[trigger] values[p] == value,
    decreases values.len(),
{
    let after = grown_all(Seq::<V>::empty(), values);
    law_grown_all_keeps_places(Seq::<V>::empty(), values);
    if values.len() > 0 {
        let front = values.drop_last();
        let before = grown_all(Seq::<V>::empty(), front);
        lemma_table_is_of_values(front, value);
        if after.contains(value) {
            if before.contains(value) {
                let p = choose|p: int| 0 <= p < front.len() && #[trigger] front[p] == value;
                assert(values[p] == value);
            } else {
                let k = after.index_of(value);
                assert(after[k] == value);
                assert(k == before.len());
                assert(values[values.len() - 1] == value);
            }
        }
    }
}

/// A value is in a table exactly where it was added.
pub proof fn law_tables_hold_what_was_added<V>(values: Seq<V>, value: V)
    ensures
        grown_all(Seq::empty(), values).contains(value) <==> values.contains(value),
{
    lemma_table_is_of_values(values, value);
}

/// A list the other way round.
pub open spec fn backwards() -> spec_fn(Seq<u64>) -> Seq<u64> {
    |ips: Seq<u64>| ips.reverse()
}

/// Addresses are met one call-chain after the other, each from its root to its
/// leaf, where the leaf comes first in the call-chain.
pub proof fn law_addresses_are_met_from_the_root(stacks: Seq<Seq<u64>>)
    ensures
        walk(stacks) == stacks.map_values(backwards()).flatten(),
    decreases stacks.len(),
{
    let turned = stacks.map_values(backwards());
    turned.lemma_flatten_and_flatten_alt_are_equivalent();
    if stacks.len() > 0 {
        let front = stacks.drop_last();
        law_addresses_are_met_from_the_root(front);
        assert(turned.drop_last() =~= front.map_values(backwards()));
        front.map_values(backwards()).lemma_flatten_and_flatten_alt_are_equivalent();
    } else {
        assert(turned.flatten_alt() =~= Seq::empty());
    }
}

/// The profile of samples has one sample for each call-chain, with its count and
/// its frames from the root to the leaf: a frame stands at the place of its
/// address. It is refused where there are more addresses than ids.
pub proof fn law_profiles_show_the_call_chains(counts: CountsView, frames: Seq<FrameView>)
    requires
        counts.sound(),
        frames.len() == counts.addresses().len(),
    ensures
        counts.profile(frames) is Ok <==> counts.addresses().len() <= 0x1_0000_0000,
        counts.profile(frames) matches Err(error) ==> error == ErrorView::Capture(
            "too many distinct frames"@,
        ),
        counts.profile(frames) matches Ok(p) ==> {
            &&& p.frames == frames
            &&& p.value_kinds == seq![ValueKindView { kind: "samples"@, unit: "count"@ }]
            &&& p.samples.len() == counts.stacks.len()
            &&& forall|i: int|
                0 <= i < p.samples.len() ==> (#[trigger] p.samples[i]).values == seq![
                    counts.tallies[i],
                ] && p.samples[i].stack.len() == counts.stacks[i].len()
            &&& forall|i: int, j: int|
                0 <= i < p.samples.len() && 0 <= j < p.samples[i].stack.len()
                    ==> counts.addresses()[(#[trigger] p.samples[i].stack[j]).0 as int]
                    == counts.stacks[i][counts.stacks[i].len() - 1 - j]
        },
{
    if let Ok(p) = counts.profile(frames) {
        assert forall|i: int, j: int|
            0 <= i < p.samples.len() && 0 <= j < p.samples[i].stack.len() implies counts.addresses()[(
        #[trigger] p.samples[i].stack[j]).0 as int] == counts.stacks[i][counts.stacks[i].len() - 1
            - j] by {
            law_frames_stand_for_addresses(counts, i, i, j, j);
            assert(p.samples[i] == counts.sample(i));
        }
    }
}

/// Whether a list is sorted.
pub open spec fn rising(list: Seq<u32>) -> bool {
    forall|i: int, j: int| 0 <= i < j < list.len() ==> #[trigger] list[i] <= #[trigger] list[j]
}

/// Threads are listed in ascending order, each as often as it is named.
pub proof fn law_threads_are_listed_in_order(list: Seq<u64>, sorted: Seq<u32>)
    requires
        ascending(list, sorted),
        forall|i: int| 0 <= i < list.len() ==> #[trigger] list[i] <= u32::MAX,
    ensures
        rising(sorted),
        sorted.len() == list.len(),
{
    let order = choose|order: Seq<usize>|
        #![trigger orders(list, order, 0, list.len() as int)]
        orders(list, order, 0, list.len() as int) && sorted == Seq::new(
            order.len(),
            |i: int| list[order[i] as int] as u32,
        );
    crate::sorting::law_stable_order_sorts(list, order);
}

/// Call-chains are kept in the order of their first samples, each once.
pub proof fn law_call_chains_come_in_the_order_of_first_sight(chains: Seq<Seq<u64>>)
    ensures
        CountsView::empty().recorded_all(chains).stacks == grown_all(Seq::empty(), chains),
    decreases chains.len(),
{
    if chains.len() > 0 {
        law_call_chains_come_in_the_order_of_first_sight(chains.drop_last());
    }
}

/// A sample that is recorded adds one to the count of its call-chain, up to the
/// largest count there is, and leaves every other count as it is.
pub proof fn law_a_sample_adds_one(counts: CountsView, ips: Seq<u64>, other: Seq<u64>)
    requires
        counts.sound(),
        other != ips,
    ensures
        counts.tally(ips) < i64::MAX ==> counts.recorded(ips).tally(ips) == counts.tally(ips) + 1,
        counts.tally(ips) == i64::MAX ==> counts.recorded(ips).tally(ips) == i64::MAX,
        counts.recorded(ips).tally(other) == counts.tally(other),
        counts.recorded(ips).stacks.contains(ips),
{
    crate::sampling::lemma_recorded(counts, ips);
    if counts.stacks.contains(ips) {
        let at = crate::intern::place(counts.stacks, ips);
        assert(counts.stacks[at] == ips);
    } else {
        assert(counts.recorded(ips).stacks[counts.stacks.len() as int] == ips);
    }
}

} // verus!
