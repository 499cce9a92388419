//! Sampling events and the ring buffers that their records are read from.
//!
//! A ring buffer is a power-of-two area of bytes with a writer's position and a
//! reader's position, both counted without wrapping. It holds records one after
//! the other, each with an eight-byte header: its type in the first four bytes,
//! its size in the last two. The body of a sample is a count and that many
//! instruction pointers, eight bytes each.

use vstd::prelude::*;

use crate::error::{ErrorView, ProfcastError};
use crate::number::{decimal, push_decimal};

verus! {

/// The event starts disabled.
pub const ATTR_DISABLED: u64 = 0x1;

/// The event does not count what happens in the kernel.
pub const ATTR_EXCLUDE_KERNEL: u64 = 0x20;

/// The event does not count what happens in a hypervisor.
pub const ATTR_EXCLUDE_HV: u64 = 0x40;

/// The sampling period of the event is given as a frequency.
pub const ATTR_FREQ: u64 = 0x400;

/// The event is enabled when the target executes a program.
pub const ATTR_ENABLE_ON_EXEC: u64 = 0x1000;

/// The record type of a sample.
pub const RECORD_SAMPLE: u64 = 9;

/// Instruction pointers at or above this value are markers (e.g. of the
/// boundary between user and kernel), not real addresses, and are skipped.
pub const CONTEXT_MAX: u64 = 0xffff_ffff_ffff_f000;

/// Number of data pages in each ring buffer (must be a power of two). Larger
/// buffers tolerate longer gaps between drains before samples are dropped.
pub const DATA_PAGES: usize = 64;

/// The flags of a sampling event. The flags stand for single bits, each there
/// once, so that their sum is their union.
pub fn event_flags(enable_on_exec: bool) -> (r: u64)
    ensures
        r == ATTR_DISABLED + ATTR_EXCLUDE_KERNEL + ATTR_EXCLUDE_HV + ATTR_FREQ + (
        if enable_on_exec {
            ATTR_ENABLE_ON_EXEC as int
        } else {
            0
        }),
{
    let base: u64 = ATTR_DISABLED + ATTR_EXCLUDE_KERNEL + ATTR_EXCLUDE_HV + ATTR_FREQ;
    if enable_on_exec {
        base + ATTR_ENABLE_ON_EXEC
    } else {
        base
    }
}

/// What is said of an operation that failed for a thread, with a hint where the
/// system denied it.
pub open spec fn thread_failure(
    op: Seq<char>,
    tid: nat,
    error: Seq<char>,
    denied: bool,
) -> Seq<char> {
    op + " failed for thread "@ + decimal(tid) + ": "@ + error + (if denied {
        " (try lowering /proc/sys/kernel/perf_event_paranoid, or run with more privileges)"@
    } else {
        Seq::empty()
    })
}

/// Builds the error for an operation that failed for a thread.
pub fn thread_error(op: &str, tid: u32, error: &str, denied: bool) -> (r: ProfcastError)
    ensures
        r@ == ErrorView::Capture(thread_failure(op@, tid as nat, error@, denied)),
{
    let mut text: String = op.to_owned();
    text.push_str(" failed for thread ");
    push_decimal(&mut text, tid as u64);
    text.push_str(": ");
    text.push_str(error);
    if denied {
        text.push_str(
            " (try lowering /proc/sys/kernel/perf_event_paranoid, or run with more privileges)",
        );
    }
    assert(text@ =~= thread_failure(op@, tid as nat, error@, denied));
    ProfcastError::Capture(text)
}

/// The bytes of a ring from position `pos` on, wrapping around its end.
pub open spec fn ring_bytes(ring: Seq<u8>, pos: int, count: nat) -> Seq<u8> {
    Seq::new(count, |i: int| ring[(pos + i) % (ring.len() as int)])
}

/// The number that bytes stand for, the most significant one first.
pub open spec fn number(bytes: Seq<u8>) -> nat
    decreases bytes.len(),
{
    if bytes.len() == 0 {
        0
    } else {
        number(bytes.drop_last()) * 256 + bytes.last() as nat
    }
}

/// The number in the bytes of a ring from position `pos` on, in the byte order
/// of the machine.
pub open spec fn ring_number(ring: Seq<u8>, pos: int, count: nat, little: bool) -> nat {
    let bytes = ring_bytes(ring, pos, count);
    number(
        if little {
            bytes.reverse()
        } else {
            bytes
        },
    )
}

/// Copies `count` bytes out of the ring starting at logical position `pos`,
/// wrapping around its end as needed.
pub fn copy_from_ring(ring: &[u8], pos: u64, count: usize) -> (r: Vec<u8>)
    requires
        ring.len() > 0,
    ensures
        r@ == ring_bytes(ring@, pos as int, count as nat),
{
    let size: u64 = ring.len() as u64;
    let mut p: u64 = pos % size;
    let mut out: Vec<u8> = Vec::new();
    while out.len() < count
        invariant
            size == ring.len(),
            0 < size,
            out.len() <= count,
            p == (pos + out.len()) % (size as int),
            forall|i: int|
                0 <= i < out.len() ==> out@[i] == ring_bytes(
                    ring@,
                    pos as int,
                    count as nat,
                )[i],
        decreases count - out.len(),
    {
        let ghost x = pos + out.len();
        let ghost n = size as int;
        proof {
            vstd::arithmetic::div_mod::lemma_mod_bound(x, n);
            lemma_next_place(x, n);
        }
        out.push(ring[p as usize]);
        p = p + 1;
        if p == size {
            p = 0;
        }
    }
    assert(out@ =~= ring_bytes(ring@, pos as int, count as nat));
    out
}

proof fn lemma_next_place(x: int, n: int)
    requires
        0 < n,
    ensures
        (x + 1) % n == (if x % n + 1 == n {
            0
        } else {
            x % n + 1
        }),
{
    let r = x % n;
    let q = x / n;
    vstd::arithmetic::div_mod::lemma_fundamental_div_mod(x, n);
    vstd::arithmetic::div_mod::lemma_mod_bound(x, n);
    if r + 1 == n {
        assert(x + 1 == (q + 1) * n) by (nonlinear_arith)
            requires
                x == n * q + r,
                r + 1 == n,
        ;
        vstd::arithmetic::div_mod::lemma_mod_multiples_basic(q + 1, n);
    } else {
        assert(x + 1 == q * n + (r + 1)) by (nonlinear_arith)
            requires
                x == n * q + r,
        ;
        vstd::arithmetic::div_mod::lemma_fundamental_div_mod_converse(x + 1, n, q, r + 1);
    }
}

/// 256 to the power of `n`.
pub open spec fn span(n: nat) -> nat
    decreases n,
{
    if n == 0 {
        1
    } else {
        256 * span((n - 1) as nat)
    }
}

proof fn lemma_span_grows(a: nat, b: nat)
    requires
        a <= b,
    ensures
        0 < span(a) <= span(b),
    decreases b,
{
    if a < b {
        lemma_span_grows(a, (b - 1) as nat);
    } else if a > 0 {
        lemma_span_grows((a - 1) as nat, (b - 1) as nat);
    }
}

proof fn lemma_number_fits(bytes: Seq<u8>)
    ensures
        number(bytes) < span(bytes.len()),
    decreases bytes.len(),
{
    if bytes.len() > 0 {
        lemma_number_fits(bytes.drop_last());
    }
}

fn read_number(bytes: &Vec<u8>, little: bool) -> (r: u64)
    requires
        bytes.len() <= 8,
    ensures
        r == number(
            if little {
                bytes@.reverse()
            } else {
                bytes@
            },
        ),
{
    let ghost order = if little {
        bytes@.reverse()
    } else {
        bytes@
    };
    let mut value: u64 = 0;
    let mut k: usize = 0;
    assert(order.take(0) =~= Seq::empty());
    while k < bytes.len()
        invariant
            k <= bytes.len(),
            bytes.len() <= 8,
            order == (if little {
                bytes@.reverse()
            } else {
                bytes@
            }),
            value == number(order.take(k as int)),
        decreases bytes.len() - k,
    {
        let b: u8 = if little {
            bytes[bytes.len() - 1 - k]
        } else {
            bytes[k]
        };
        proof {
            assert(order.take(k + 1).drop_last() =~= order.take(k as int));
            assert(order.take(k + 1).last() == b);
            lemma_number_fits(order.take(k + 1));
            lemma_span_grows((k + 1) as nat, 8);
            assert(span(8) == 0x1_0000_0000_0000_0000) by {
                reveal_with_fuel(span, 9);
            }
        }
        value = value * 256 + b as u64;
        k = k + 1;
    }
    assert(order.take(k as int) =~= order);
    value
}

/// Reads a number out of the ring.
pub fn number_from_ring(ring: &[u8], pos: u64, count: usize, little: bool) -> (r: u64)
    requires
        ring.len() > 0,
        count <= 8,
    ensures
        r == ring_number(ring@, pos as int, count as nat, little),
{
    let bytes = copy_from_ring(ring, pos, count);
    read_number(&bytes, little)
}

/// The type of the record at `pos`.
pub open spec fn record_type(ring: Seq<u8>, pos: int, little: bool) -> nat {
    ring_number(ring, pos, 4, little)
}

/// The size of the record at `pos`.
pub open spec fn record_size(ring: Seq<u8>, pos: int, little: bool) -> nat {
    ring_number(ring, pos + 6, 2, little)
}

/// How many instruction pointers the sample at `pos` holds: as many as it says,
/// but no more than fit in a record of its size.
pub open spec fn chain_length(ring: Seq<u8>, pos: int, little: bool) -> nat {
    let said = ring_number(ring, pos + 8, 8, little);
    let size = record_size(ring, pos, little);
    let room = if size < 16 {
        0
    } else {
        ((size - 16) / 8) as nat
    };
    if said < room {
        said
    } else {
        room
    }
}

/// The first `count` instruction pointers of the sample at `pos`, without
/// markers.
pub open spec fn chain(ring: Seq<u8>, pos: int, count: nat, little: bool) -> Seq<u64>
    decreases count,
{
    if count == 0 {
        Seq::empty()
    } else {
        let rest = chain(ring, pos, (count - 1) as nat, little);
        let ip = ring_number(ring, pos + 16 + (count - 1) * 8, 8, little);
        if ip < CONTEXT_MAX {
            rest.push(ip as u64)
        } else {
            rest
        }
    }
}

/// The call-chain of the record at `pos`, where it is a sample with an address
/// in it.
pub open spec fn chain_at(ring: Seq<u8>, pos: int, little: bool) -> Seq<Seq<u64>> {
    let ips = chain(ring, pos, chain_length(ring, pos, little), little);
    if record_type(ring, pos, little) == RECORD_SAMPLE && ips.len() > 0 {
        seq![ips]
    } else {
        Seq::empty()
    }
}

/// How far it is from `tail` to `head`.
pub open spec fn ahead(tail: int, head: int) -> int {
    if tail < head {
        head - tail
    } else {
        0
    }
}

/// The call-chains in the records from `tail` to `head`, and the position
/// behind the last record. A record of no size ends the reading.
pub open spec fn chains(ring: Seq<u8>, head: int, tail: int, little: bool) -> (Seq<Seq<u64>>, int)
    decreases ahead(tail, head),
{
    let size = record_size(ring, tail, little);
    if tail >= head || size == 0 {
        (Seq::empty(), tail)
    } else {
        let rest = chains(ring, head, tail + size, little);
        (chain_at(ring, tail, little) + rest.0, rest.1)
    }
}

/// The contents of a list of call-chains.
pub open spec fn chain_list(list: Seq<Vec<u64>>) -> Seq<Seq<u64>> {
    Seq::new(list.len(), |i: int| list[i]@)
}

fn read_chain(ring: &[u8], pos: u64, count: u64, little: bool) -> (r: Vec<u64>)
    requires
        ring.len() > 0,
        pos + 16 + count * 8 <= u64::MAX,
    ensures
        r@ == chain(ring@, pos as int, count as nat, little),
{
    let mut ips: Vec<u64> = Vec::new();
    let mut i: u64 = 0;
    while i < count
        invariant
            i <= count,
            ring.len() > 0,
            pos + 16 + count * 8 <= u64::MAX,
            ips@ == chain(ring@, pos as int, i as nat, little),
        decreases count - i,
    {
        let ip: u64 = number_from_ring(ring, pos + 16 + i * 8, 8, little);
        if ip < CONTEXT_MAX {
            ips.push(ip);
        }
        i = i + 1;
    }
    ips
}

/// Takes every complete sample out of a ring buffer.
///
/// `head` is how far the records go and `tail` how far they have been read;
/// `little` is whether the machine keeps the least significant byte first.
/// Returns the call-chains, instruction pointers leaf-first and without
/// markers, and how far has been read now.
pub fn drain(ring: &[u8], head: u64, tail: u64, little: bool) -> (r: (Vec<Vec<u64>>, u64))
    requires
        ring.len() > 0,
        head <= u64::MAX - 0xffff,
    ensures
        chain_list((r.0)@) == chains(ring@, head as int, tail as int, little).0,
        r.1 == chains(ring@, head as int, tail as int, little).1,
{
    let mut out: Vec<Vec<u64>> = Vec::new();
    let mut at: u64 = tail;
    let mut open: bool = true;
    let ghost goal = chains(ring@, head as int, tail as int, little);
    assert(chain_list(out@) =~= Seq::empty());
    assert(chain_list(out@) + goal.0 =~= goal.0);
    while open && at < head
        invariant
            ring.len() > 0,
            head <= u64::MAX - 0xffff,
            goal == chains(ring@, head as int, tail as int, little),
            goal.0 == chain_list(out@) + chains(ring@, head as int, at as int, little).0,
            goal.1 == chains(ring@, head as int, at as int, little).1,
            !open ==> chains(ring@, head as int, at as int, little) == (
                Seq::<Seq<u64>>::empty(),
                at as int,
            ),
        decreases (if open { 1int } else { 0int }), ahead(at as int, head as int),
    {
        let ghost rest = chains(ring@, head as int, at as int, little);
        let kind: u64 = number_from_ring(ring, at, 4, little);
        let size: u64 = number_from_ring(ring, at + 6, 2, little);
        proof {
            let order = if little {
                ring_bytes(ring@, at + 6, 2).reverse()
            } else {
                ring_bytes(ring@, at + 6, 2)
            };
            lemma_number_fits(order);
            assert(span(2) == 0x1_0000) by {
                reveal_with_fuel(span, 3);
            }
        }
        if size == 0 {
            // A zero-length record would go on forever.
            open = false;
        } else {
            let ghost before = chain_list(out@);
            if kind == RECORD_SAMPLE {
                let said: u64 = number_from_ring(ring, at + 8, 8, little);
                // Clamped against the record's own size in case of corruption.
                let room: u64 = if size < 16 {
                    0
                } else {
                    (size - 16) / 8
                };
                let count: u64 = if said < room {
                    said
                } else {
                    room
                };
                let ips = read_chain(ring, at, count, little);
                if ips.len() > 0 {
                    out.push(ips);
                }
            }
            assert(chain_list(out@) =~= before + chain_at(ring@, at as int, little));
            assert(before + rest.0 =~= chain_list(out@) + chains(
                ring@,
                head as int,
                at + size,
                little,
            ).0);
            at = at + size;
        }
    }
    assert(chains(ring@, head as int, at as int, little).0 =~= Seq::empty());
    (out, at)
}

proof fn lemma_chains_reach(ring: Seq<u8>, head: int, tail: int, little: bool)
    ensures
        tail <= chains(ring, head, tail, little).1,
        tail < head ==> record_size(ring, tail, little) > 0 ==> chains(ring, head, tail, little).1
            > tail,
    decreases ahead(tail, head),
{
    let size = record_size(ring, tail, little);
    if tail < head && size != 0 {
        lemma_chains_reach(ring, head, tail + size, little);
    }
}

proof fn lemma_chain_clean(ring: Seq<u8>, pos: int, count: nat, little: bool)
    ensures
        chain(ring, pos, count, little).len() <= count,
        forall|i: int|
            0 <= i < chain(ring, pos, count, little).len() ==> #[trigger] chain(
                ring,
                pos,
                count,
                little,
            )[i] < CONTEXT_MAX,
    decreases count,
{
    if count > 0 {
        lemma_chain_clean(ring, pos, (count - 1) as nat, little);
    }
}

/// Reading never goes back; and whatever bytes a ring holds, no call-chain that
/// comes out of it is empty or holds a marker.
pub proof fn law_drained_chains_are_clean(ring: Seq<u8>, head: int, tail: int, little: bool)
    ensures
        chains(ring, head, tail, little).1 >= tail,
        forall|i: int|
            0 <= i < chains(ring, head, tail, little).0.len() ==> {
                let ips = #[trigger] chains(ring, head, tail, little).0[i];
                &&& ips.len() > 0
                &&& forall|k: int| 0 <= k < ips.len() ==> #[trigger] ips[k] < CONTEXT_MAX
            },
    decreases ahead(tail, head),
{
    lemma_chains_reach(ring, head, tail, little);
    let size = record_size(ring, tail, little);
    if tail < head && size != 0 {
        law_drained_chains_are_clean(ring, head, tail + size, little);
        lemma_chain_clean(ring, tail, chain_length(ring, tail, little), little);
        let first = chain_at(ring, tail, little);
        let rest = chains(ring, head, tail + size, little).0;
        let all = chains(ring, head, tail, little).0;
        assert forall|i: int| 0 <= i < all.len() implies ({
            let ips = #[trigger] all[i];
            &&& ips.len() > 0
            &&& forall|k: int| 0 <= k < ips.len() ==> #[trigger] ips[k] < CONTEXT_MAX
        }) by {
            if i < first.len() {
                assert(all[i] == first[i]);
            } else {
                assert(all[i] == rest[i - first.len()]);
            }
        }
    }
}

} // verus!
