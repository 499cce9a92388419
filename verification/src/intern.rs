//! Interning: a table of distinct values in the order in which they were first
//! seen, with a fast way back from a value to its place.

use std::collections::HashMap;

use vstd::prelude::*;

use crate::model::{opt_text, views, Frame, FrameId, FrameView};

verus! {

broadcast use vstd::std_specs::hash::group_hash_axioms;

/// What can be interned: values that can be told apart, and that have a digest
/// by which they are grouped.
pub trait Key: View + Sized {
    /// The digest of a value.
    spec fn digest(value: Self::V) -> u64;

    /// Computes the digest.
    fn hashed(&self) -> (h: u64)
        ensures
            h == Self::digest(self@),
    ;

    /// Whether two values are the same.
    fn same(&self, other: &Self) -> (r: bool)
        ensures
            r == (self@ == other@),
    ;
}

/// `table` with `value` in it: at the end, unless it is there already.
pub open spec fn grown<V>(table: Seq<V>, value: V) -> Seq<V> {
    if table.contains(value) {
        table
    } else {
        table.push(value)
    }
}

/// `table` with all of `values` added in order.
pub open spec fn grown_all<V>(table: Seq<V>, values: Seq<V>) -> Seq<V>
    decreases values.len(),
{
    if values.len() == 0 {
        table
    } else {
        grown(grown_all(table, values.drop_last()), values.last())
    }
}

/// The place of `value` in `table`.
pub open spec fn place<V>(table: Seq<V>, value: V) -> int {
    table.index_of(value)
}

/// The frame id for a place in a table; places past the range of ids share
/// the last one.
pub open spec fn id_at(place: int) -> FrameId {
    if 0 <= place < u32::MAX {
        FrameId(place as u32)
    } else {
        FrameId(u32::MAX)
    }
}

/// The frame ids of `values` in `table`.
pub open spec fn ids<V>(table: Seq<V>, values: Seq<V>) -> Seq<FrameId> {
    Seq::new(values.len(), |i: int| id_at(place(table, values[i])))
}

/// The frame id for a place in a table.
pub fn frame_id(place: usize) -> (r: FrameId)
    ensures
        r == id_at(place as int),
{
    if place < u32::MAX as usize {
        FrameId(place as u32)
    } else {
        FrameId(u32::MAX)
    }
}

/// In a table without duplicates the place of an entry is its index.
pub proof fn lemma_place<V>(table: Seq<V>, i: int)
    requires
        table.no_duplicates(),
        0 <= i < table.len(),
    ensures
        place(table, table[i]) == i,
{
    let j = place(table, table[i]);
    assert(table[i] == table[i]);
    assert(0 <= j < table.len() && table[j] == table[i]);
}

/// Adding keeps a table free of duplicates, holds the new value, and moves
/// nothing that was there.
pub proof fn law_grown_keeps_places<V>(table: Seq<V>, value: V)
    requires
        table.no_duplicates(),
    ensures
        grown(table, value).no_duplicates(),
        grown(table, value).contains(value),
        table.is_prefix_of(grown(table, value)),
        forall|v: V| #[trigger]
            table.contains(v) ==> grown(table, value).contains(v) && place(grown(table, value), v)
                == place(table, v),
{
    let after = grown(table, value);
    if !table.contains(value) {
        assert(after[table.len() as int] == value);
    }
    assert(after.take(table.len() as int) =~= table);
    assert forall|v: V| #[trigger] table.contains(v) implies after.contains(v) && place(after, v)
        == place(table, v) by {
        let i = place(table, v);
        assert(after[i] == v);
        lemma_place(after, i);
    }
}

/// Adding a list of values keeps a table free of duplicates, holds them all,
/// and moves nothing that was there.
pub proof fn law_grown_all_keeps_places<V>(table: Seq<V>, values: Seq<V>)
    requires
        table.no_duplicates(),
    ensures
        grown_all(table, values).no_duplicates(),
        table.is_prefix_of(grown_all(table, values)),
        forall|i: int|
            0 <= i < values.len() ==> grown_all(table, values).contains(#[trigger] values[i]),
        forall|v: V| #[trigger]
            table.contains(v) ==> grown_all(table, values).contains(v) && place(
                grown_all(table, values),
                v,
            ) == place(table, v),
    decreases values.len(),
{
    if values.len() == 0 {
        assert(table.take(table.len() as int) =~= table);
    } else {
        let mid = grown_all(table, values.drop_last());
        law_grown_all_keeps_places(table, values.drop_last());
        law_grown_keeps_places(mid, values.last());
        let after = grown_all(table, values);
        assert(after.take(table.len() as int) =~= mid.take(table.len() as int));
        assert forall|i: int| 0 <= i < values.len() implies after.contains(#[trigger] values[i]) by {
            if i < values.len() - 1 {
                assert(values.drop_last()[i] == values[i]);
                assert(mid.contains(values.drop_last()[i]));
            }
        }
        assert forall|v: V| #[trigger] table.contains(v) implies after.contains(v) && place(
            after,
            v,
        ) == place(table, v) by {
            assert(mid.contains(v));
        }
    }
}

/// Adding one list behind another is adding the two in a row.
pub proof fn lemma_grown_all_concat<V>(table: Seq<V>, a: Seq<V>, b: Seq<V>)
    ensures
        grown_all(table, a + b) == grown_all(grown_all(table, a), b),
    decreases b.len(),
{
    if b.len() == 0 {
        assert(a + b =~= a);
    } else {
        assert((a + b).drop_last() =~= a + b.drop_last());
        lemma_grown_all_concat(table, a, b.drop_last());
    }
}

/// A growing table of distinct values.
pub struct Interner<K: Key> {
    items: Vec<K>,
    buckets: HashMap<u64, Vec<usize>>,
}

impl<K: Key> View for Interner<K> {
    type V = Seq<K::V>;

    closed spec fn view(&self) -> Seq<K::V> {
        views(self.items@)
    }
}

impl<K: Key> Interner<K> {
    /// The values are distinct, and each is filed under its digest.
    pub closed spec fn wf(&self) -> bool {
        &&& self@.no_duplicates()
        &&& forall|i: int|
            0 <= i < self.items@.len() ==> self.buckets@.contains_key(
                #[trigger] K::digest(self.items@[i]@),
            ) && self.buckets@[K::digest(self.items@[i]@)]@.contains(i as usize)
        &&& forall|h: u64, j: int|
            self.buckets@.contains_key(h) && 0 <= j < self.buckets@[h]@.len() ==> (
            #[trigger] self.buckets@[h]@[j]) < self.items@.len()
    }

    /// An empty table.
    pub fn new() -> (r: Self)
        ensures
            r.wf(),
            r@ == Seq::<K::V>::empty(),
    {
        let r = Interner { items: Vec::new(), buckets: HashMap::new() };
        assert(r@ =~= Seq::<K::V>::empty());
        r
    }

    /// The number of distinct values.
    pub fn len(&self) -> (r: usize)
        ensures
            r == self@.len(),
    {
        self.items.len()
    }

    /// The place of a value, where it is in the table.
    pub fn find(&self, value: &K) -> (r: Option<usize>)
        requires
            self.wf(),
        ensures
            match r {
                Some(i) => self@.contains(value@) && i == place(self@, value@) && i < self@.len(),
                None => !self@.contains(value@),
            },
    {
        let digest: u64 = value.hashed();
        let count: usize = self.items.len();
        match self.buckets.get(&digest) {
            None => {
                proof {
                    if self@.contains(value@) {
                        let i = place(self@, value@);
                        assert(self.items@[i]@ == value@);
                        assert(self.buckets@.contains_key(K::digest(self.items@[i]@)));
                    }
                }
                None
            },
            Some(bucket) => {
                let mut j: usize = 0;
                while j < bucket.len()
                    invariant
                        self.wf(),
                        count == self.items@.len(),
                        digest == K::digest(value@),
                        self.buckets@.contains_key(digest),
                        *bucket == self.buckets@[digest],
                        j <= bucket.len(),
                        forall|k: int|
                            0 <= k < j ==> self.items@[(#[trigger] bucket@[k]) as int]@ != value@,
                    decreases bucket.len() - j,
                {
                    let i: usize = bucket[j];
                    assert(self.buckets@[digest]@[j as int] < self.items@.len());
                    if self.items[i].same(value) {
                        proof {
                            assert(self@[i as int] == value@);
                            lemma_place(self@, i as int);
                        }
                        return Some(i);
                    }
                    j = j + 1;
                }
                proof {
                    if self@.contains(value@) {
                        let i = place(self@, value@);
                        assert(self.items@[i]@ == value@);
                        assert(self.buckets@[K::digest(self.items@[i]@)]@.contains(i as usize));
                        let k = bucket@.index_of(i as usize);
                        assert(bucket@[k] as int == i);
                    }
                }
                None
            },
        }
    }

    /// Returns the place of a value, adding it on first sight.
    pub fn intern(&mut self, value: K) -> (r: usize)
        requires
            old(self).wf(),
        ensures
            final(self).wf(),
            final(self)@ == grown(old(self)@, value@),
            r == place(final(self)@, value@),
            r < final(self)@.len(),
    {
        if let Some(i) = self.find(&value) {
            return i;
        }
        let i: usize = self.items.len();
        let digest: u64 = value.hashed();
        let ghost key = value@;
        let mut bucket: Vec<usize> = match self.buckets.remove(&digest) {
            Some(bucket) => bucket,
            None => Vec::new(),
        };
        let ghost before = bucket@;
        bucket.push(i);
        self.buckets.insert(digest, bucket);
        self.items.push(value);
        proof {
            assert(self@ =~= old(self)@.push(key));
            law_grown_keeps_places(old(self)@, key);
            assert(self@[i as int] == key);
            lemma_place(self@, i as int);
            assert forall|k: int| 0 <= k < self.items@.len() implies self.buckets@.contains_key(
                #[trigger] K::digest(self.items@[k]@),
            ) && self.buckets@[K::digest(self.items@[k]@)]@.contains(k as usize) by {
                let h = K::digest(self.items@[k]@);
                if k < i {
                    assert(self.items@[k] == old(self).items@[k]);
                    assert(old(self).buckets@.contains_key(K::digest(old(self).items@[k]@)));
                    if h == digest {
                        let q = before.index_of(k as usize);
                        assert(before.contains(k as usize));
                        assert(bucket@[q] == k as usize);
                    }
                } else {
                    assert(bucket@[before.len() as int] == i);
                }
            }
            assert forall|h: u64, j: int|
                self.buckets@.contains_key(h) && 0 <= j < self.buckets@[h]@.len() implies (
            #[trigger] self.buckets@[h]@[j]) < self.items@.len() by {
                if h == digest {
                    if j < before.len() {
                        assert(old(self).buckets@[h]@[j] < old(self).items@.len());
                    }
                } else {
                    assert(old(self).buckets@[h]@[j] < old(self).items@.len());
                }
            }
        }
        i
    }

    /// Hands out the values in their order.
    pub fn into_items(self) -> (r: Vec<K>)
        ensures
            views(r@) == self@,
    {
        self.items
    }

    /// The values in their order.
    pub fn items(&self) -> (r: &Vec<K>)
        ensures
            views(r@) == self@,
    {
        &self.items
    }
}

/// Mixes one more word into a digest.
pub open spec fn mix(h: u64, word: u64) -> u64 {
    (h ^ word).wrapping_mul(0x100_0000_01b3)
}

/// Mixes a text into a digest.
pub open spec fn mix_text(h: u64, text: Seq<char>) -> u64
    decreases text.len(),
{
    if text.len() == 0 {
        mix(h, 0x11_0000)
    } else {
        mix(mix_text(h, text.drop_last()), text.last() as u32 as u64)
    }
}

/// Mixes an optional text into a digest.
pub open spec fn mix_opt(h: u64, text: Option<Seq<char>>) -> u64 {
    match text {
        Some(text) => mix_text(h, text),
        None => mix(h, 0x11_0001),
    }
}

/// Mixes one more word into a digest.
pub fn mixed(h: u64, word: u64) -> (r: u64)
    ensures
        r == mix(h, word),
{
    (h ^ word).wrapping_mul(0x100_0000_01b3)
}

fn mixed_text(h: u64, text: &str) -> (r: u64)
    ensures
        r == mix_text(h, text@),
{
    let mut out: u64 = mixed(h, 0x11_0000);
    assert(text@.take(0) =~= Seq::empty());
    for c in it: text.chars()
        invariant
            it.seq() == text@,
            out == mix_text(h, text@.take(it.index() as int)),
    {
        let ghost n = it.index() as int;
        assert(text@.take(n + 1).drop_last() =~= text@.take(n));
        out = mixed(out, c as u32 as u64);
    }
    assert(text@.take(text@.len() as int) =~= text@);
    out
}

fn mixed_opt(h: u64, text: &Option<String>) -> (r: u64)
    ensures
        r == mix_opt(h, opt_text(*text)),
{
    match text {
        Some(text) => mixed_text(h, text.as_str()),
        None => mixed(h, 0x11_0001),
    }
}

/// Whether two optional strings hold the same.
pub fn same_opt(a: &Option<String>, b: &Option<String>) -> (r: bool)
    ensures
        r == (opt_text(*a) == opt_text(*b)),
{
    match (a, b) {
        (Some(x), Some(y)) => *x == *y,
        (None, None) => true,
        _ => false,
    }
}

impl Key for String {
    open spec fn digest(value: Seq<char>) -> u64 {
        mix_text(0xcbf2_9ce4_8422_2325, value)
    }

    fn hashed(&self) -> (h: u64) {
        mixed_text(0xcbf2_9ce4_8422_2325, self.as_str())
    }

    fn same(&self, other: &Self) -> (r: bool) {
        *self == *other
    }
}

impl Key for Frame {
    open spec fn digest(value: FrameView) -> u64 {
        let h = mix_text(0xcbf2_9ce4_8422_2325, value.raw);
        let h = mix_opt(mix_opt(mix_opt(h, value.function), value.file), value.module);
        let h = mix(h, match value.line {
            Some(line) => line as u64,
            None => 0x1_0000_0000,
        });
        mix(h, match value.address {
            Some(address) => address,
            None => 1,
        })
    }

    fn hashed(&self) -> (h: u64) {
        let h: u64 = mixed_text(0xcbf2_9ce4_8422_2325, self.raw.as_str());
        let h: u64 = mixed_opt(h, &self.function);
        let h: u64 = mixed_opt(h, &self.file);
        let h: u64 = mixed_opt(h, &self.module);
        let line: u64 = match self.line {
            Some(line) => line as u64,
            None => 0x1_0000_0000,
        };
        let address: u64 = match self.address {
            Some(address) => address,
            None => 1,
        };
        mixed(mixed(h, line), address)
    }

    fn same(&self, other: &Self) -> (r: bool) {
        let line = match (self.line, other.line) {
            (Some(a), Some(b)) => a == b,
            (None, None) => true,
            _ => false,
        };
        let address = match (self.address, other.address) {
            (Some(a), Some(b)) => a == b,
            (None, None) => true,
            _ => false,
        };
        self.raw == other.raw && same_opt(&self.function, &other.function) && same_opt(
            &self.file,
            &other.file,
        ) && same_opt(&self.module, &other.module) && line && address
    }
}

impl Key for Vec<u64> {
    open spec fn digest(value: Seq<u64>) -> u64 {
        mix_words(value)
    }

    fn hashed(&self) -> (h: u64) {
        let mut out: u64 = 0xcbf2_9ce4_8422_2325;
        let mut i: usize = 0;
        assert(self@.take(0) =~= Seq::empty());
        while i < self.len()
            invariant
                i <= self.len(),
                out == mix_words(self@.take(i as int)),
            decreases self.len() - i,
        {
            assert(self@.take(i + 1).drop_last() =~= self@.take(i as int));
            out = mixed(out, self[i]);
            i = i + 1;
        }
        assert(self@.take(i as int) =~= self@);
        out
    }

    fn same(&self, other: &Self) -> (r: bool) {
        if self.len() != other.len() {
            return false;
        }
        let mut i: usize = 0;
        while i < self.len()
            invariant
                i <= self.len(),
                self.len() == other.len(),
                self@.take(i as int) =~= other@.take(i as int),
            decreases self.len() - i,
        {
            if self[i] != other[i] {
                return false;
            }
            assert(self@.take(i + 1) =~= self@.take(i as int).push(self@[i as int]));
            assert(other@.take(i + 1) =~= other@.take(i as int).push(other@[i as int]));
            i = i + 1;
        }
        assert(self@.take(i as int) =~= self@);
        assert(other@.take(i as int) =~= other@);
        true
    }
}

/// The digest of a list of words.
pub open spec fn mix_words(words: Seq<u64>) -> u64
    decreases words.len(),
{
    if words.len() == 0 {
        0xcbf2_9ce4_8422_2325
    } else {
        mix(mix_words(words.drop_last()), words.last())
    }
}

} // verus!
