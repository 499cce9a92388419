//! Aggregated samples: counting call-chains, and making a profile of them.

use vstd::prelude::*;

use crate::error::{outcome, ErrorView, ProfcastError, Result};
use crate::intern::{
    frame_id, grown, grown_all, ids, law_grown_all_keeps_places, law_grown_keeps_places,
    lemma_place, place, Interner, Key,
};
use crate::model::{
    views, Frame, FrameId, FrameView, Profile, ProfileView, Sample, SampleView, ValueKind,
    ValueKindView,
};
use crate::number::{add_saturating, saturated};
use crate::symbols::{frame_at, LoadedView, MapView, Symbolizer};

verus! {

impl Key for u64 {
    open spec fn digest(value: u64) -> u64 {
        value
    }

    fn hashed(&self) -> (h: u64) {
        *self
    }

    fn same(&self, other: &Self) -> (r: bool) {
        *self == *other
    }
}

/// Leaf-first call-chains aggregated to sample counts.
pub struct Counts {
    stacks: Interner<Vec<u64>>,
    tallies: Vec<i64>,
}

/// What a [`Counts`] holds: each call-chain once, in the order of their first
/// samples, and how often each was seen.
#[verifier::ext_equal]
pub struct CountsView {
    pub stacks: Seq<Seq<u64>>,
    pub tallies: Seq<i64>,
}

impl View for Counts {
    type V = CountsView;

    closed spec fn view(&self) -> CountsView {
        CountsView { stacks: self.stacks@, tallies: self.tallies@ }
    }
}

impl CountsView {
    /// No samples.
    pub open spec fn empty() -> CountsView {
        CountsView { stacks: Seq::empty(), tallies: Seq::empty() }
    }

    /// Whether the call-chains are distinct and each has a count.
    pub open spec fn sound(self) -> bool {
        self.stacks.no_duplicates() && self.stacks.len() == self.tallies.len()
    }

    /// The counts with one more sample.
    pub open spec fn recorded(self, ips: Seq<u64>) -> CountsView {
        if self.stacks.contains(ips) {
            let at = place(self.stacks, ips);
            CountsView {
                stacks: self.stacks,
                tallies: self.tallies.update(at, saturated(self.tallies[at] + 1)),
            }
        } else {
            CountsView { stacks: self.stacks.push(ips), tallies: self.tallies.push(1) }
        }
    }

    /// The counts with a number of samples more.
    pub open spec fn recorded_all(self, chains: Seq<Seq<u64>>) -> CountsView
        decreases chains.len(),
    {
        if chains.len() == 0 {
            self
        } else {
            self.recorded_all(chains.drop_last()).recorded(chains.last())
        }
    }

    /// How often a call-chain was seen.
    pub open spec fn tally(self, ips: Seq<u64>) -> int {
        if self.stacks.contains(ips) {
            self.tallies[place(self.stacks, ips)] as int
        } else {
            0
        }
    }
}

/// How often `ips` occurs among `chains`.
pub open spec fn occurrences(chains: Seq<Seq<u64>>, ips: Seq<u64>) -> nat
    decreases chains.len(),
{
    if chains.len() == 0 {
        0
    } else {
        occurrences(chains.drop_last(), ips) + (if chains.last() == ips {
            1nat
        } else {
            0
        })
    }
}

pub proof fn lemma_recorded(counts: CountsView, ips: Seq<u64>)
    requires
        counts.sound(),
    ensures
        counts.recorded(ips).sound(),
        counts.recorded(ips).tally(ips) == saturated(counts.tally(ips) + 1),
        forall|other: Seq<u64>|
            other != ips ==> #[trigger] counts.recorded(ips).tally(other) == counts.tally(other),
{
    let after = counts.recorded(ips);
    if counts.stacks.contains(ips) {
        let at = place(counts.stacks, ips);
        assert(counts.stacks[at] == ips);
        assert forall|other: Seq<u64>| other != ips implies #[trigger] after.tally(other)
            == counts.tally(other) by {
            if counts.stacks.contains(other) {
                assert(counts.stacks[place(counts.stacks, other)] == other);
            }
        }
    } else {
        law_grown_keeps_places(counts.stacks, ips);
        let n = counts.stacks.len() as int;
        assert(after.stacks[n] == ips);
        lemma_place(after.stacks, n);
        assert forall|other: Seq<u64>| other != ips implies #[trigger] after.tally(other)
            == counts.tally(other) by {
            if counts.stacks.contains(other) {
                let i = place(counts.stacks, other);
                assert(counts.stacks[i] == other);
            }
            if after.stacks.contains(other) {
                let i = place(after.stacks, other);
                assert(after.stacks[i] == other);
                assert(i != n);
                assert(counts.stacks[i] == other);
            }
        }
    }
}

/// Every sample is counted: from nothing, the count of a call-chain is how
/// often it was recorded, up to the largest count there is. What was never
/// recorded has no count.
pub proof fn law_every_sample_counts(chains: Seq<Seq<u64>>, ips: Seq<u64>)
    ensures
        CountsView::empty().recorded_all(chains).sound(),
        CountsView::empty().recorded_all(chains).tally(ips) == saturated(
            occurrences(chains, ips) as int,
        ),
        CountsView::empty().recorded_all(chains).stacks.contains(ips) <==> occurrences(chains, ips)
            > 0,
    decreases chains.len(),
{
    let counts = CountsView::empty().recorded_all(chains);
    if chains.len() > 0 {
        let before = CountsView::empty().recorded_all(chains.drop_last());
        law_every_sample_counts(chains.drop_last(), ips);
        law_every_sample_counts(chains.drop_last(), chains.last());
        lemma_recorded(before, chains.last());
        if chains.last() == ips {
            if !before.stacks.contains(ips) {
                assert(counts.stacks[before.stacks.len() as int] == ips);
            }
        } else {
            if before.stacks.contains(ips) {
                assert(counts.stacks[place(before.stacks, ips)] == ips);
            }
            if counts.stacks.contains(ips) {
                let i = place(counts.stacks, ips);
                assert(counts.stacks[i] == ips);
                assert(before.stacks[i] == ips);
            }
        }
    }
}

fn copy_words(words: &[u64]) -> (r: Vec<u64>)
    ensures
        r@ == words@,
{
    let mut out: Vec<u64> = Vec::new();
    for i in 0..words.len()
        invariant
            out@ == words@.take(i as int),
    {
        out.push(words[i]);
        assert(words@.take(i + 1) =~= words@.take(i as int).push(words@[i as int]));
    }
    assert(words@.take(words.len() as int) =~= words@);
    out
}

impl Counts {
    #[verifier::type_invariant]
    closed spec fn wf(&self) -> bool {
        self.stacks.wf() && self.tallies.len() == self.stacks@.len() && self@.sound()
    }

    /// No samples.
    pub fn new() -> (r: Self)
        ensures
            r@ == CountsView::empty(),
    {
        let r = Counts { stacks: Interner::new(), tallies: Vec::new() };
        r
    }

    /// The number of distinct call-chains.
    pub fn len(&self) -> (r: usize)
        ensures
            r == self@.stacks.len(),
    {
        self.stacks.len()
    }
}

/// Accumulates one leaf-first call-chain into the aggregated sample counts.
pub fn record_sample(counts: Counts, ips: &[u64]) -> (r: Counts)
    ensures
        r@ == counts@.recorded(ips@),
{
    proof {
        use_type_invariant(&counts);
        lemma_recorded(counts@, ips@);
    }
    let ghost before = counts@;
    let Counts { stacks, tallies } = counts;
    let mut stacks: Interner<Vec<u64>> = stacks;
    let mut tallies: Vec<i64> = tallies;
    let key = copy_words(ips);
    match stacks.find(&key) {
        Some(at) => {
            let tally: i64 = add_saturating(tallies[at], 1);
            tallies.set(at, tally);
            let r = Counts { stacks, tallies };
            assert(r@ =~= before.recorded(ips@));
            r
        },
        None => {
            stacks.intern(key);
            tallies.push(1);
            let r = Counts { stacks, tallies };
            assert(r@ =~= before.recorded(ips@));
            r
        },
    }
}

/// Accumulates a number of leaf-first call-chains.
pub fn record_samples(counts: Counts, chains: &Vec<Vec<u64>>) -> (r: Counts)
    ensures
        r@ == counts@.recorded_all(views(chains@)),
{
    let ghost start = counts@;
    let ghost all = views(chains@);
    let mut out: Counts = counts;
    let mut i: usize = 0;
    assert(all.take(0) =~= Seq::empty());
    while i < chains.len()
        invariant
            i <= chains.len(),
            all == views(chains@),
            out@ == start.recorded_all(all.take(i as int)),
        decreases chains.len() - i,
    {
        assert(all.take(i + 1).drop_last() =~= all.take(i as int));
        assert(all.take(i + 1).last() == chains@[i as int]@);
        out = record_sample(out, chains[i].as_slice());
        i = i + 1;
    }
    assert(all.take(i as int) =~= all);
    out
}

/// The addresses of all call-chains, one chain after the other, each from its
/// root to its leaf.
pub open spec fn walk(stacks: Seq<Seq<u64>>) -> Seq<u64>
    decreases stacks.len(),
{
    if stacks.len() == 0 {
        Seq::empty()
    } else {
        walk(stacks.drop_last()) + stacks.last().reverse()
    }
}

impl CountsView {
    /// The distinct addresses of all call-chains, in the order in which a
    /// profile interns them.
    pub open spec fn addresses(self) -> Seq<u64> {
        grown_all(Seq::empty(), walk(self.stacks))
    }

    /// The sample of one call-chain: its frames from root to leaf, and its
    /// count.
    pub open spec fn sample(self, index: int) -> SampleView {
        SampleView {
            stack: ids(self.addresses(), self.stacks[index].reverse()),
            values: seq![self.tallies[index]],
        }
    }

    /// The profile of the samples, with a frame for each distinct address.
    pub open spec fn profile(self, frames: Seq<FrameView>) -> std::result::Result<
        ProfileView,
        ErrorView,
    > {
        if self.addresses().len() > 0x1_0000_0000 {
            Err(ErrorView::Capture("too many distinct frames"@))
        } else {
            Ok(
                ProfileView {
                    frames,
                    samples: Seq::new(self.stacks.len(), |i: int| self.sample(i)),
                    value_kinds: seq![ValueKindView { kind: "samples"@, unit: "count"@ }],
                },
            )
        }
    }
}

/// The frames of the distinct addresses of all call-chains.
pub open spec fn frames_at(maps: Seq<MapView>, modules: Seq<LoadedView>, addresses: Seq<u64>) -> Seq<
    FrameView,
> {
    Seq::new(addresses.len(), |i: int| frame_at(maps, modules, addresses[i]))
}

proof fn lemma_grown_step(table: Seq<u64>, done: Seq<u64>, value: u64)
    ensures
        grown_all(table, done.push(value)) == grown(grown_all(table, done), value),
{
    assert(done.push(value).drop_last() =~= done);
}

fn address_table(counts: &Counts) -> (r: Interner<u64>)
    ensures
        r.wf(),
        r@ == counts@.addresses(),
{
    proof {
        use_type_invariant(counts);
    }
    let stacks = counts.stacks.items();
    let ghost all = counts@.stacks;
    let mut table: Interner<u64> = Interner::new();
    let mut i: usize = 0;
    assert(all.take(0) =~= Seq::empty());
    while i < stacks.len()
        invariant
            i <= stacks.len(),
            all == views(stacks@),
            table.wf(),
            table@ == grown_all(Seq::empty(), walk(all.take(i as int))),
        decreases stacks.len() - i,
    {
        let leaf_first = &stacks[i];
        let ghost done = walk(all.take(i as int));
        let ghost root_first = leaf_first@.reverse();
        assert(all.take(i + 1).drop_last() =~= all.take(i as int));
        assert(all.take(i + 1).last() == leaf_first@);
        let mut k: usize = 0;
        assert(done + root_first.take(0) =~= done);
        while k < leaf_first.len()
            invariant
                k <= leaf_first.len(),
                root_first == leaf_first@.reverse(),
                table.wf(),
                table@ == grown_all(Seq::empty(), done + root_first.take(k as int)),
            decreases leaf_first.len() - k,
        {
            let ip: u64 = leaf_first[leaf_first.len() - 1 - k];
            proof {
                assert(root_first[k as int] == ip);
                assert(done + root_first.take(k + 1) =~= (done + root_first.take(k as int)).push(
                    ip,
                ));
                lemma_grown_step(Seq::empty(), done + root_first.take(k as int), ip);
            }
            table.intern(ip);
            k = k + 1;
        }
        assert(done + root_first.take(k as int) =~= done + root_first);
        i = i + 1;
    }
    assert(all.take(i as int) =~= all);
    table
}

proof fn lemma_walk_holds(stacks: Seq<Seq<u64>>, i: int, k: int)
    requires
        0 <= i < stacks.len(),
        0 <= k < stacks[i].len(),
    ensures
        walk(stacks).contains(stacks[i][k]),
    decreases stacks.len(),
{
    let ip = stacks[i][k];
    let rest = walk(stacks.drop_last());
    let last = stacks.last().reverse();
    if i == stacks.len() - 1 {
        let p = last.len() - 1 - k;
        assert(last[p] == ip);
        assert((rest + last)[rest.len() + p] == ip);
    } else {
        assert(stacks.drop_last()[i] == stacks[i]);
        lemma_walk_holds(stacks.drop_last(), i, k);
        let p = rest.index_of(ip);
        assert((rest + last)[p] == ip);
    }
}

/// Every address of a call-chain is among the distinct addresses.
proof fn lemma_addresses_hold(counts: CountsView, i: int, k: int)
    requires
        0 <= i < counts.stacks.len(),
        0 <= k < counts.stacks[i].len(),
    ensures
        counts.addresses().contains(counts.stacks[i][k]),
{
    lemma_walk_holds(counts.stacks, i, k);
    let path = walk(counts.stacks);
    law_grown_all_keeps_places(Seq::<u64>::empty(), path);
    let p = path.index_of(counts.stacks[i][k]);
    assert(path[p] == counts.stacks[i][k]);
}

impl Counts {
    /// The distinct addresses of all call-chains, each of which needs a frame.
    pub fn addresses(&self) -> (r: Vec<u64>)
        ensures
            r@ == self@.addresses(),
    {
        let table = address_table(self);
        let r = table.into_items();
        assert(r@ =~= views(r@));
        r
    }
}

/// A profile of samples is valid, whatever its frames are: each call-chain has
/// one count, and points only at frames that are there.
pub proof fn law_sampled_profiles_are_valid(counts: CountsView, frames: Seq<FrameView>)
    requires
        frames.len() == counts.addresses().len(),
    ensures
        counts.profile(frames) matches Ok(p) ==> p.valid(),
{
    if let Ok(p) = counts.profile(frames) {
        let table = counts.addresses();
        assert forall|i: int| 0 <= i < p.samples.len() implies (#[trigger] p.samples[i]).fits(
            p.frames.len(),
            p.value_kinds.len(),
        ) by {
            let root_first = counts.stacks[i].reverse();
            assert forall|k: int| 0 <= k < root_first.len() implies (
            #[trigger] ids(table, root_first)[k]).0 < frames.len() by {
                let back = counts.stacks[i].len() - 1 - k;
                lemma_addresses_hold(counts, i, back);
                assert(root_first[k] == counts.stacks[i][back]);
                let at = place(table, root_first[k]);
                assert(0 <= at < table.len());
            }
        }
    }
}

/// Two frames of a call-chain are the same frame exactly where they have the
/// same address.
pub proof fn law_frames_stand_for_addresses(counts: CountsView, i: int, j: int, k: int, l: int)
    requires
        counts.addresses().len() <= 0x1_0000_0000,
        0 <= i < counts.stacks.len(),
        0 <= j < counts.stacks.len(),
        0 <= k < counts.stacks[i].len(),
        0 <= l < counts.stacks[j].len(),
    ensures
        counts.sample(i).stack[k] == counts.sample(j).stack[l]
            <==> counts.stacks[i].reverse()[k] == counts.stacks[j].reverse()[l],
        counts.addresses()[counts.sample(i).stack[k].0 as int] == counts.stacks[i].reverse()[k],
{
    let table = counts.addresses();
    lemma_addresses_hold(counts, i, counts.stacks[i].len() - 1 - k);
    lemma_addresses_hold(counts, j, counts.stacks[j].len() - 1 - l);
    let a = counts.stacks[i].reverse()[k];
    let b = counts.stacks[j].reverse()[l];
    assert(table[place(table, a)] == a);
    assert(table[place(table, b)] == b);
}

/// Folds aggregated, leaf-first call-chains into a [`Profile`], with the frames
/// of their [`Counts::addresses`]. Stacks are reversed to the model's
/// root-first order.
pub fn build_profile(counts: &Counts, frames: Vec<Frame>) -> (r: Result<Profile>)
    requires
        frames.len() == counts@.addresses().len(),
    ensures
        outcome(r) == counts@.profile(views(frames@)),
{
    proof {
        use_type_invariant(counts);
        law_sampled_profiles_are_valid(counts@, views(frames@));
    }
    let table = address_table(counts);
    if table.len() as u64 > 0x1_0000_0000 {
        return Err(ProfcastError::Capture("too many distinct frames".to_owned()));
    }
    let stacks = counts.stacks.items();
    let ghost all = counts@.stacks;
    let mut samples: Vec<Sample> = Vec::new();
    let mut i: usize = 0;
    while i < stacks.len()
        invariant
            i <= stacks.len(),
            all == views(stacks@),
            all == counts@.stacks,
            counts@.tallies == counts.tallies@,
            counts.tallies.len() == all.len(),
            table.wf(),
            table@ == counts@.addresses(),
            samples.len() == i,
            forall|j: int| 0 <= j < i ==> (#[trigger] samples@[j])@ == counts@.sample(j),
        decreases stacks.len() - i,
    {
        let leaf_first = &stacks[i];
        assert(all[i as int] == leaf_first@);
        let ghost root_first = leaf_first@.reverse();
        let mut stack: Vec<FrameId> = Vec::new();
        let mut k: usize = 0;
        while k < leaf_first.len()
            invariant
                i < all.len(),
                k <= leaf_first.len(),
                all == counts@.stacks,
                all[i as int] == leaf_first@,
                root_first == leaf_first@.reverse(),
                table.wf(),
                table@ == counts@.addresses(),
                stack.len() == k,
                forall|j: int|
                    0 <= j < k ==> #[trigger] stack@[j] == ids(table@, root_first)[j],
            decreases leaf_first.len() - k,
        {
            let back: usize = leaf_first.len() - 1 - k;
            let ip: u64 = leaf_first[back];
            proof {
                lemma_addresses_hold(counts@, i as int, back as int);
                assert(root_first[k as int] == ip);
            }
            let at: usize = match table.find(&ip) {
                Some(at) => at,
                None => 0,
            };
            stack.push(frame_id(at));
            k = k + 1;
        }
        assert(stack@ =~= ids(table@, root_first));
        let mut values: Vec<i64> = Vec::new();
        values.push(counts.tallies[i]);
        assert(values@ =~= seq![counts@.tallies[i as int]]);
        samples.push(Sample { stack, values });
        i = i + 1;
    }
    let mut value_kinds: Vec<ValueKind> = Vec::new();
    value_kinds.push(ValueKind { kind: "samples".to_owned(), unit: "count".to_owned() });
    let profile = Profile { frame_intern: frames, samples, value_kinds };
    proof {
        let goal = counts@.profile(views(frames@))->Ok_0;
        assert(profile@.samples =~= goal.samples);
        assert(profile@.value_kinds =~= goal.value_kinds);
        assert(profile@ == goal);
    }
    match profile.validate() {
        Ok(_) => Ok(profile),
        Err(error) => Err(error),
    }
}

/// Folds aggregated, leaf-first call-chains into a [`Profile`], symbolizing and
/// interning frames.
pub fn symbolized_profile(counts: &Counts, symbolizer: &Symbolizer) -> (r: Result<Profile>)
    ensures
        outcome(r) == counts@.profile(
            frames_at(symbolizer.regions(), symbolizer.binaries(), counts@.addresses()),
        ),
{
    let addresses = counts.addresses();
    let mut frames: Vec<Frame> = Vec::new();
    let mut i: usize = 0;
    while i < addresses.len()
        invariant
            i <= addresses.len(),
            frames.len() == i,
            forall|j: int|
                0 <= j < i ==> (#[trigger] frames@[j])@ == frame_at(
                    symbolizer.regions(),
                    symbolizer.binaries(),
                    addresses@[j],
                ),
        decreases addresses.len() - i,
    {
        frames.push(symbolizer.resolve(addresses[i]));
        i = i + 1;
    }
    assert(views(frames@) =~= frames_at(
        symbolizer.regions(),
        symbolizer.binaries(),
        counts@.addresses(),
    ));
    build_profile(counts, frames)
}

} // verus!
