//! Integers as text: how they are read and how they are rendered.

use vstd::prelude::*;
use vstd::slice::slice_subrange;

verus! {

/// What a character counts in base ten, or in base sixteen where `hex` is set.
pub open spec fn digit(c: char, hex: bool) -> Option<nat> {
    if '0' <= c && c <= '9' {
        Some((c as int - '0' as int) as nat)
    } else if hex && 'a' <= c && c <= 'f' {
        Some((c as int - 'a' as int + 10) as nat)
    } else if hex && 'A' <= c && c <= 'F' {
        Some((c as int - 'A' as int + 10) as nat)
    } else {
        None
    }
}

/// Whether `s` consists of digits only.
pub open spec fn all_digits(s: Seq<char>, hex: bool) -> bool {
    forall|i: int| 0 <= i < s.len() ==> (#[trigger] digit(s[i], hex)) is Some
}

/// The number that the digits `s` stand for.
pub open spec fn digits_value(s: Seq<char>, hex: bool) -> nat
    decreases s.len(),
{
    if s.len() == 0 {
        0
    } else {
        let high = digits_value(s.drop_last(), hex);
        let low = digit(s.last(), hex)->0;
        if hex {
            16 * high + low
        } else {
            10 * high + low
        }
    }
}

/// The number that `s` stands for, where `s` is one or more digits and the
/// number is at most `max`.
pub open spec fn magnitude(s: Seq<char>, hex: bool, max: nat) -> Option<nat> {
    if s.len() > 0 && all_digits(s, hex) && digits_value(s, hex) <= max {
        Some(digits_value(s, hex))
    } else {
        None
    }
}

/// How an unsigned integer of at most `max` is read: digits, with or without
/// a plus sign before them.
pub open spec fn read_unsigned(s: Seq<char>, hex: bool, max: nat) -> Option<nat> {
    if s.len() > 0 && s[0] == '+' {
        magnitude(s.skip(1), hex, max)
    } else {
        magnitude(s, hex, max)
    }
}

/// How an `i64` is read: decimal digits, with or without a sign before them.
pub open spec fn read_i64(s: Seq<char>) -> Option<int> {
    if s.len() > 0 && s[0] == '-' {
        match magnitude(s.skip(1), false, 0x8000_0000_0000_0000) {
            Some(n) => Some(-(n as int)),
            None => None,
        }
    } else {
        match read_unsigned(s, false, 0x7fff_ffff_ffff_ffff) {
            Some(n) => Some(n as int),
            None => None,
        }
    }
}

proof fn lemma_prefix_value(s: Seq<char>, hex: bool, k: int)
    requires
        0 <= k <= s.len(),
        all_digits(s, hex),
    ensures
        digits_value(s.take(k), hex) <= digits_value(s, hex),
    decreases s.len(),
{
    if k == s.len() {
        assert(s.take(k) =~= s);
    } else {
        assert forall|i: int| 0 <= i < s.drop_last().len() implies (#[trigger] digit(
            s.drop_last()[i],
            hex,
        )) is Some by {
            assert(digit(s[i], hex) is Some);
        }
        lemma_prefix_value(s.drop_last(), hex, k);
        assert(s.drop_last().take(k) =~= s.take(k));
    }
}

/// What `c` counts.
pub fn digit_of(c: char, hex: bool) -> (r: Option<u64>)
    ensures
        match r {
            Some(d) => digit(c, hex) == Some(d as nat) && d < 16 && (!hex ==> d < 10),
            None => digit(c, hex) is None,
        },
{
    let n: u32 = c as u32;
    if '0' <= c && c <= '9' {
        Some((n - 48) as u64)
    } else if hex && 'a' <= c && c <= 'f' {
        Some((n - 97 + 10) as u64)
    } else if hex && 'A' <= c && c <= 'F' {
        Some((n - 65 + 10) as u64)
    } else {
        None
    }
}

/// Reads digits whose number is at most `max`.
pub fn parse_magnitude(s: &[char], hex: bool, max: u64) -> (r: Option<u64>)
    ensures
        match r {
            Some(n) => magnitude(s@, hex, max as nat) == Some(n as nat),
            None => magnitude(s@, hex, max as nat) is None,
        },
{
    if s.len() == 0 {
        return None;
    }
    let mut value: u64 = 0;
    let mut i: usize = 0;
    while i < s.len()
        invariant
            i <= s.len(),
            s.len() > 0,
            all_digits(s@.take(i as int), hex),
            value == digits_value(s@.take(i as int), hex),
            value <= max,
        decreases s.len() - i,
    {
        let ghost next = s@.take(i + 1);
        assert(next.drop_last() =~= s@.take(i as int));
        assert(next.last() == s@[i as int]);
        let d: u64 = match digit_of(s[i], hex) {
            Some(d) => d,
            None => {
                assert(digit(s@[i as int], hex) is None);
                return None;
            },
        };
        let base: u128 = if hex {
            16
        } else {
            10
        };
        let wide: u128 = (value as u128) * base + (d as u128);
        assert(wide == digits_value(next, hex));
        if wide > max as u128 {
            proof {
                if all_digits(s@, hex) {
                    lemma_prefix_value(s@, hex, i + 1);
                }
            }
            return None;
        }
        proof {
            assert forall|j: int| 0 <= j < next.len() implies (#[trigger] digit(
                next[j],
                hex,
            )) is Some by {
                if j < i {
                    assert(s@.take(i as int)[j] == next[j]);
                    assert(digit(s@.take(i as int)[j], hex) is Some);
                }
            }
        }
        value = wide as u64;
        i = i + 1;
    }
    assert(s@.take(i as int) =~= s@);
    Some(value)
}

/// Reads an unsigned integer of at most `max`.
pub fn parse_unsigned(s: &[char], hex: bool, max: u64) -> (r: Option<u64>)
    ensures
        match r {
            Some(n) => read_unsigned(s@, hex, max as nat) == Some(n as nat) && n <= max,
            None => read_unsigned(s@, hex, max as nat) is None,
        },
{
    if s.len() > 0 && s[0] == '+' {
        assert(s@.subrange(1, s.len() as int) =~= s@.skip(1));
        parse_magnitude(slice_subrange(s, 1, s.len()), hex, max)
    } else {
        parse_magnitude(s, hex, max)
    }
}

/// Reads an `i64`.
pub fn parse_i64(s: &[char]) -> (r: Option<i64>)
    ensures
        match r {
            Some(n) => read_i64(s@) == Some(n as int),
            None => read_i64(s@) is None,
        },
{
    if s.len() > 0 && s[0] == '-' {
        assert(s@.subrange(1, s.len() as int) =~= s@.skip(1));
        match parse_magnitude(slice_subrange(s, 1, s.len()), false, 0x8000_0000_0000_0000) {
            Some(n) => Some((-(n as i128)) as i64),
            None => None,
        }
    } else {
        match parse_unsigned(s, false, 0x7fff_ffff_ffff_ffff) {
            Some(n) => Some(n as i64),
            None => None,
        }
    }
}

/// The digit for a number below sixteen.
pub open spec fn digit_char(d: nat) -> char {
    if d < 10 {
        (d + '0' as int) as char
    } else {
        (d - 10 + 'a' as int) as char
    }
}

/// `n` in decimal.
pub open spec fn decimal(n: nat) -> Seq<char>
    decreases n,
{
    if n < 10 {
        seq![digit_char(n)]
    } else {
        decimal(n / 10).push(digit_char(n % 10))
    }
}

/// `n` in hexadecimal, in lower case.
pub open spec fn hexadecimal(n: nat) -> Seq<char>
    decreases n,
{
    if n < 16 {
        seq![digit_char(n)]
    } else {
        hexadecimal(n / 16).push(digit_char(n % 16))
    }
}

/// `n` in decimal, with a minus sign where it is negative.
pub open spec fn decimal_int(n: int) -> Seq<char> {
    if n < 0 {
        seq!['-'] + decimal((-n) as nat)
    } else {
        decimal(n as nat)
    }
}

fn push_digit(out: &mut String, d: u64)
    requires
        d < 16,
    ensures
        final(out)@ == old(out)@.push(digit_char(d as nat)),
{
    let c: char = match d {
        0 => '0',
        1 => '1',
        2 => '2',
        3 => '3',
        4 => '4',
        5 => '5',
        6 => '6',
        7 => '7',
        8 => '8',
        9 => '9',
        10 => 'a',
        11 => 'b',
        12 => 'c',
        13 => 'd',
        14 => 'e',
        _ => 'f',
    };
    out.push(c);
}

/// Appends `n` in decimal.
pub fn push_decimal(out: &mut String, n: u64)
    ensures
        final(out)@ == old(out)@ + decimal(n as nat),
    decreases n,
{
    if n >= 10 {
        push_decimal(out, n / 10);
    }
    push_digit(out, n % 10);
    assert(out@ =~= old(out)@ + decimal(n as nat));
}

/// Appends `n` in hexadecimal.
pub fn push_hexadecimal(out: &mut String, n: u64)
    ensures
        final(out)@ == old(out)@ + hexadecimal(n as nat),
    decreases n,
{
    if n >= 16 {
        push_hexadecimal(out, n / 16);
    }
    push_digit(out, n % 16);
    assert(out@ =~= old(out)@ + hexadecimal(n as nat));
}

/// Appends `n` in decimal, sign and all.
pub fn push_i64(out: &mut String, n: i64)
    ensures
        final(out)@ == old(out)@ + decimal_int(n as int),
{
    if n < 0 {
        out.push('-');
        push_decimal(out, (-(n as i128)) as u64);
        assert(out@ =~= old(out)@ + decimal_int(n as int));
    } else {
        push_decimal(out, n as u64);
    }
}

/// What is rendered in decimal is digits only, and reads back as itself.
pub proof fn law_decimal_reads_back(n: nat)
    ensures
        decimal(n).len() > 0,
        all_digits(decimal(n), false),
        digits_value(decimal(n), false) == n,
    decreases n,
{
    if n < 10 {
        assert(decimal(n).drop_last() =~= Seq::empty());
        reveal_with_fuel(digits_value, 2);
    } else {
        law_decimal_reads_back(n / 10);
        let s = decimal(n);
        assert(s.drop_last() =~= decimal(n / 10));
        assert forall|i: int| 0 <= i < s.len() implies (#[trigger] digit(s[i], false)) is Some by {
            if i < s.len() - 1 {
                assert(digit(s.drop_last()[i], false) is Some);
            }
        }
    }
}

/// What is rendered in hexadecimal is digits only, and reads back as itself.
pub proof fn law_hexadecimal_reads_back(n: nat)
    ensures
        hexadecimal(n).len() > 0,
        all_digits(hexadecimal(n), true),
        digits_value(hexadecimal(n), true) == n,
    decreases n,
{
    if n < 16 {
        assert(hexadecimal(n).drop_last() =~= Seq::empty());
        reveal_with_fuel(digits_value, 2);
    } else {
        law_hexadecimal_reads_back(n / 16);
        let s = hexadecimal(n);
        assert(s.drop_last() =~= hexadecimal(n / 16));
        assert forall|i: int| 0 <= i < s.len() implies (#[trigger] digit(s[i], true)) is Some by {
            if i < s.len() - 1 {
                assert(digit(s.drop_last()[i], true) is Some);
            }
        }
    }
}

/// An `i64` that was rendered reads back as itself.
pub proof fn law_i64_reads_back(n: i64)
    ensures
        read_i64(decimal_int(n as int)) == Some(n as int),
{
    if n < 0 {
        let m = (-(n as int)) as nat;
        law_decimal_reads_back(m);
        assert(decimal_int(n as int).skip(1) =~= decimal(m));
    } else {
        law_decimal_reads_back(n as nat);
        assert(digit(decimal(n as nat)[0], false) is Some);
    }
}

/// The `i64` nearest to `n`.
pub open spec fn saturated(n: int) -> i64 {
    if n > i64::MAX {
        i64::MAX
    } else if n < i64::MIN {
        i64::MIN
    } else {
        n as i64
    }
}

/// The sum of two integers, held within the range.
pub fn add_saturating(a: i64, b: i64) -> (r: i64)
    ensures
        r == saturated(a + b),
{
    let sum: i128 = a as i128 + b as i128;
    if sum > i64::MAX as i128 {
        i64::MAX
    } else if sum < i64::MIN as i128 {
        i64::MIN
    } else {
        sum as i64
    }
}

} // verus!
