//! What is read from a ring buffer, told of the bytes that a writer put there.

use vstd::prelude::*;

use crate::ring::{
    chain, chain_at, chain_length, chains, number, record_size, record_type, ring_bytes,
    ring_number,
};

verus! {

/// The bytes of a number, the most significant one first.
pub open spec fn number_bytes(n: nat, count: nat) -> Seq<u8>
    decreases count,
{
    if count == 0 {
        Seq::empty()
    } else {
        number_bytes(n / 256, (count - 1) as nat).push((n % 256) as u8)
    }
}

/// The bytes of a number in the byte order of a machine.
pub open spec fn stored(n: nat, count: nat, little: bool) -> Seq<u8> {
    if little {
        number_bytes(n, count).reverse()
    } else {
        number_bytes(n, count)
    }
}

/// Whether a ring holds bytes from a position on, which wrap around its end.
pub open spec fn holds(ring: Seq<u8>, pos: int, bytes: Seq<u8>) -> bool {
    forall|i: int|
        0 <= i < bytes.len() ==> ring[(pos + i) % (ring.len() as int)] == #[trigger] bytes[i]
}

/// Whether a number fits in a number of bytes.
pub open spec fn fits(n: nat, count: nat) -> bool
    decreases count,
{
    if count == 0 {
        n == 0
    } else {
        fits(n / 256, (count - 1) as nat)
    }
}

proof fn lemma_number_bytes(n: nat, count: nat)
    requires
        fits(n, count),
    ensures
        number_bytes(n, count).len() == count,
        number(number_bytes(n, count)) == n,
    decreases count,
{
    if count > 0 {
        let rest = number_bytes(n / 256, (count - 1) as nat);
        lemma_number_bytes(n / 256, (count - 1) as nat);
        assert(number_bytes(n, count).drop_last() =~= rest);
    }
}

/// A number is read back from the ring in the byte order in which it was
/// written, also where it wraps around the end.
pub proof fn law_numbers_are_read_back(ring: Seq<u8>, pos: int, n: nat, count: nat, little: bool)
    requires
        fits(n, count),
        holds(ring, pos, stored(n, count, little)),
    ensures
        ring_number(ring, pos, count, little) == n,
{
    lemma_number_bytes(n, count);
    let bytes = number_bytes(n, count);
    let kept = stored(n, count, little);
    let read = ring_bytes(ring, pos, count);
    assert(read =~= kept) by {
        assert forall|i: int| 0 <= i < count implies read[i] == kept[i] by {
            assert(kept[i] == kept[i]);
        }
    }
    if little {
        assert(read.reverse() =~= bytes);
    }
}

proof fn lemma_word_fits(n: u64)
    ensures
        fits(n as nat, 8),
{
    reveal_with_fuel(fits, 9);
    let a = n as nat / 256;
    let b = a / 256;
    let c = b / 256;
    let d = c / 256;
    let e = d / 256;
    let f = e / 256;
    let g = f / 256;
    let h = g / 256;
    assert(a < 0x100_0000_0000_0000);
    assert(b < 0x1_0000_0000_0000);
    assert(c < 0x100_0000_0000);
    assert(d < 0x1_0000_0000);
    assert(e < 0x100_0000);
    assert(f < 0x1_0000);
    assert(g < 0x100);
    assert(h == 0);
}

/// Whether a ring holds the record of a sample: a record type of nine, its size,
/// and a count and that many instruction pointers, or as many as the size has
/// room for.
pub open spec fn holds_sample(
    ring: Seq<u8>,
    pos: int,
    size: u16,
    said: u64,
    ips: Seq<u64>,
    little: bool,
) -> bool {
    &&& holds(ring, pos, stored(9, 4, little))
    &&& holds(ring, pos + 6, stored(size as nat, 2, little))
    &&& holds(ring, pos + 8, stored(said as nat, 8, little))
    &&& size >= 16
    &&& ips.len() <= said
    &&& 16 + 8 * ips.len() <= size
    &&& ips.len() == said || size < 16 + 8 * (ips.len() + 1)
    &&& forall|i: int|
        0 <= i < ips.len() ==> holds(
            ring,
            pos + 16 + 8 * i,
            stored((#[trigger] ips[i]) as nat, 8, little),
        )
}

/// Whether an instruction pointer is an address and no marker.
pub open spec fn is_address() -> spec_fn(u64) -> bool {
    |ip: u64| ip < 0xffff_ffff_ffff_f000
}

proof fn lemma_header(ring: Seq<u8>, pos: int, kind: u32, size: u16, little: bool)
    requires
        holds(ring, pos, stored(kind as nat, 4, little)),
        holds(ring, pos + 6, stored(size as nat, 2, little)),
    ensures
        record_type(ring, pos, little) == kind,
        record_size(ring, pos, little) == size,
{
    assert(fits(kind as nat, 4)) by {
        reveal_with_fuel(fits, 5);
        let a = kind as nat / 256;
        let b = a / 256;
        let c = b / 256;
        assert(a < 0x100_0000);
        assert(b < 0x1_0000);
        assert(c < 0x100);
    }
    assert(fits(size as nat, 2)) by {
        reveal_with_fuel(fits, 3);
        let a = size as nat / 256;
        assert(a < 0x100);
    }
    law_numbers_are_read_back(ring, pos, kind as nat, 4, little);
    law_numbers_are_read_back(ring, pos + 6, size as nat, 2, little);
}

proof fn lemma_chain(ring: Seq<u8>, pos: int, ips: Seq<u64>, count: nat, little: bool)
    requires
        count <= ips.len(),
        forall|i: int|
            0 <= i < ips.len() ==> holds(
                ring,
                pos + 16 + 8 * i,
                stored((#[trigger] ips[i]) as nat, 8, little),
            ),
    ensures
        chain(ring, pos, count, little) == ips.take(count as int).filter(is_address()),
    decreases count,
{
    reveal(Seq::filter);
    let taken = ips.take(count as int);
    if count > 0 {
        let k = count - 1;
        lemma_chain(ring, pos, ips, k as nat, little);
        assert(taken.drop_last() =~= ips.take(k));
        assert(taken.last() == ips[k]);
        lemma_word_fits(ips[k]);
        assert(holds(ring, pos + 16 + 8 * k, stored(ips[k] as nat, 8, little)));
        law_numbers_are_read_back(ring, pos + 16 + 8 * k, ips[k] as nat, 8, little);
        assert(pos + 16 + (count - 1) * 8 == pos + 16 + 8 * k);
    } else {
        assert(taken =~= Seq::empty());
    }
}

/// A sample that a writer put into the ring is read with its instruction
/// pointers in their order, without the markers among them. It is passed over
/// where nothing is left of it.
pub proof fn law_samples_are_read_as_written(
    ring: Seq<u8>,
    pos: int,
    size: u16,
    said: u64,
    ips: Seq<u64>,
    little: bool,
)
    requires
        holds_sample(ring, pos, size, said, ips, little),
    ensures
        record_size(ring, pos, little) == size,
        ips.filter(is_address()).len() > 0 ==> chain_at(ring, pos, little) == seq![
            ips.filter(is_address()),
        ],
        ips.filter(is_address()).len() == 0 ==> chain_at(ring, pos, little).len() == 0,
{
    lemma_header(ring, pos, 9, size, little);
    lemma_word_fits(said);
    law_numbers_are_read_back(ring, pos + 8, said as nat, 8, little);
    let room = (size - 16) / 8;
    assert(chain_length(ring, pos, little) == ips.len());
    lemma_chain(ring, pos, ips, ips.len(), little);
    assert(ips.take(ips.len() as int) =~= ips);
}

/// A record of another type holds no call-chain.
pub proof fn law_other_records_are_passed_over(
    ring: Seq<u8>,
    pos: int,
    kind: u32,
    size: u16,
    little: bool,
)
    requires
        holds(ring, pos, stored(kind as nat, 4, little)),
        holds(ring, pos + 6, stored(size as nat, 2, little)),
        kind != 9,
    ensures
        record_size(ring, pos, little) == size,
        chain_at(ring, pos, little).len() == 0,
{
    lemma_header(ring, pos, kind, size, little);
}

/// Whether records stand one behind the other: each but the last place is that
/// of a record that lies before the head and has a size, and the next place is
/// behind it.
pub open spec fn in_a_row(ring: Seq<u8>, head: int, places: Seq<int>, little: bool) -> bool {
    &&& places.len() > 0
    &&& places.last() >= head
    &&& forall|k: int|
        0 <= k < places.len() - 1 ==> {
            &&& #[trigger] places[k] < head
            &&& record_size(ring, places[k], little) > 0
            &&& places[k + 1] == places[k] + record_size(ring, places[k], little)
        }
}

/// Records are read one behind the other up to the head: the call-chains come in
/// the order of the records, and reading ends behind the last one.
pub proof fn law_records_are_read_in_a_row(
    ring: Seq<u8>,
    head: int,
    places: Seq<int>,
    little: bool,
)
    requires
        in_a_row(ring, head, places, little),
    ensures
        chains(ring, head, places[0], little).0 == Seq::new(
            (places.len() - 1) as nat,
            |k: int| chain_at(ring, places[k], little),
        ).flatten(),
        chains(ring, head, places[0], little).1 == places.last(),
    decreases places.len(),
{
    let found = Seq::new(
        (places.len() - 1) as nat,
        |k: int| chain_at(ring, places[k], little),
    );
    if places.len() > 1 {
        let rest = places.skip(1);
        assert(places[0] < head);
        assert(places[0int + 1] == places[0] + record_size(ring, places[0], little));
        assert(in_a_row(ring, head, rest, little)) by {
            assert forall|k: int| 0 <= k < rest.len() - 1 implies {
                &&& #[trigger] rest[k] < head
                &&& record_size(ring, rest[k], little) > 0
                &&& rest[k + 1] == rest[k] + record_size(ring, rest[k], little)
            } by {
                assert(rest[k] == places[k + 1]);
                assert(places[k + 1] < head);
                assert(places[k + 1 + 1] == places[k + 1] + record_size(
                    ring,
                    places[k + 1],
                    little,
                ));
            }
        }
        law_records_are_read_in_a_row(ring, head, rest, little);
        let later = Seq::new(
            (rest.len() - 1) as nat,
            |k: int| chain_at(ring, rest[k], little),
        );
        assert(found.drop_first() =~= later);
        assert(found.first() == chain_at(ring, places[0], little));
    } else {
        assert(found =~= Seq::empty());
        assert(found.flatten() =~= Seq::empty());
    }
}

/// A record without a size ends the reading, and stays.
pub proof fn law_a_record_without_a_size_ends_the_reading(
    ring: Seq<u8>,
    head: int,
    tail: int,
    little: bool,
)
    requires
        holds(ring, tail + 6, stored(0, 2, little)),
    ensures
        chains(ring, head, tail, little).0.len() == 0,
        chains(ring, head, tail, little).1 == tail,
{
    assert(fits(0, 2)) by {
        reveal_with_fuel(fits, 3);
    }
    law_numbers_are_read_back(ring, tail + 6, 0, 2, little);
}

} // verus!
