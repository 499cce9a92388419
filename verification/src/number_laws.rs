//! What numbers in text mean, and which texts are none.

use vstd::prelude::*;

use crate::number::{
    all_digits, decimal, decimal_int, digit, digits_value, hexadecimal, law_decimal_reads_back,
    law_hexadecimal_reads_back, magnitude, read_i64, read_unsigned, saturated,
};

verus! {

/// Decimal digits count from zero to nine. In base sixteen the letters from `a`
/// to `f` go on to fifteen, in either case. Nothing else is a digit.
pub proof fn law_digits_count(c: char, hex: bool)
    ensures
        '0' <= c <= '9' ==> digit(c, hex) == Some((c as int - 48) as nat),
        'a' <= c <= 'f' ==> digit(c, true) == Some((c as int - 87) as nat) && digit(c, false) is None,
        'A' <= c <= 'F' ==> digit(c, true) == Some((c as int - 55) as nat) && digit(c, false) is None,
        digit(c, hex) is Some ==> '0' <= c <= '9' || 'a' <= c <= 'f' || 'A' <= c <= 'F',
{
}

/// Whether the value of digits is what their places make it: each digit counts
/// the base to the power of the digits behind it.
pub proof fn law_places_count(s: Seq<char>, c: char, hex: bool)
    requires
        all_digits(s, hex),
        digit(c, hex) is Some,
    ensures
        hex ==> digits_value(s.push(c), true) == 16 * digits_value(s, true) + digit(c, true)->0,
        !hex ==> digits_value(s.push(c), false) == 10 * digits_value(s, false) + digit(
            c,
            false,
        )->0,
        digits_value(Seq::empty(), hex) == 0,
{
    assert(s.push(c).drop_last() =~= s);
}

proof fn lemma_leading_zero(s: Seq<char>, hex: bool)
    requires
        all_digits(s, hex),
    ensures
        digits_value(seq!['0'] + s, hex) == digits_value(s, hex),
    decreases s.len(),
{
    let all = seq!['0'] + s;
    if s.len() > 0 {
        assert(all.drop_last() =~= seq!['0'] + s.drop_last());
        assert(all_digits(s.drop_last(), hex)) by {
            assert forall|i: int| 0 <= i < s.drop_last().len() implies (#[trigger] digit(
                s.drop_last()[i],
                hex,
            )) is Some by {
                assert(digit(s[i], hex) is Some);
            }
        }
        lemma_leading_zero(s.drop_last(), hex);
    } else {
        assert(all.drop_last() =~= Seq::empty());
        reveal_with_fuel(digits_value, 2);
    }
}

/// A zero before a number changes nothing.
pub proof fn law_leading_zeros_change_nothing(s: Seq<char>, hex: bool, max: nat)
    requires
        s.len() > 0,
        all_digits(s, hex),
    ensures
        magnitude(seq!['0'] + s, hex, max) == magnitude(s, hex, max),
{
    lemma_leading_zero(s, hex);
    let all = seq!['0'] + s;
    assert forall|i: int| 0 <= i < all.len() implies (#[trigger] digit(all[i], hex)) is Some by {
        if i > 0 {
            assert(digit(s[i - 1], hex) is Some);
        }
    }
}

/// A number of up to the limit is read from its digits, with or without a plus
/// sign, and a larger one is not.
pub proof fn law_unsigned_numbers_are_read(n: nat, max: nat)
    ensures
        n <= max ==> read_unsigned(decimal(n), false, max) == Some(n),
        n <= max ==> read_unsigned(seq!['+'] + decimal(n), false, max) == Some(n),
        n > max ==> read_unsigned(decimal(n), false, max) is None,
        n > max ==> read_unsigned(seq!['+'] + decimal(n), false, max) is None,
        n <= max ==> read_unsigned(hexadecimal(n), true, max) == Some(n),
        n > max ==> read_unsigned(hexadecimal(n), true, max) is None,
{
    law_decimal_reads_back(n);
    law_hexadecimal_reads_back(n);
    assert(digit(decimal(n)[0], false) is Some);
    assert(digit(hexadecimal(n)[0], true) is Some);
    assert((seq!['+'] + decimal(n)).skip(1) =~= decimal(n));
}

/// An integer is read from its text, with or without a plus sign where it is not
/// negative, and one that is out of range is not.
pub proof fn law_integers_are_read(n: int)
    ensures
        i64::MIN <= n <= i64::MAX ==> read_i64(decimal_int(n)) == Some(n),
        0 <= n <= i64::MAX ==> read_i64(seq!['+'] + decimal_int(n)) == Some(n),
        n > i64::MAX ==> read_i64(decimal_int(n)) is None,
        n < i64::MIN ==> read_i64(decimal_int(n)) is None,
{
    if n < 0 {
        let m = (-n) as nat;
        law_decimal_reads_back(m);
        assert(decimal_int(n).skip(1) =~= decimal(m));
    } else {
        law_decimal_reads_back(n as nat);
        assert(digit(decimal(n as nat)[0], false) is Some);
        assert((seq!['+'] + decimal_int(n)).skip(1) =~= decimal(n as nat));
    }
}

/// A text is no number where it is empty or a bare sign, or where a character
/// that is not its sign is no digit.
pub proof fn law_other_texts_are_no_numbers(s: Seq<char>, i: int, max: nat)
    ensures
        read_i64(Seq::empty()) is None,
        read_i64(seq!['-']) is None,
        read_i64(seq!['+']) is None,
        0 < i < s.len() && !('0' <= s[i] <= '9') ==> read_i64(s) is None,
        s.len() > 0 && !('0' <= s[0] <= '9') && s[0] != '-' && s[0] != '+' ==> read_i64(s) is None,
        0 < i < s.len() && !('0' <= s[i] <= '9') ==> read_unsigned(s, false, max) is None,
        s.len() > 0 && !('0' <= s[0] <= '9') && s[0] != '+' ==> read_unsigned(
            s,
            false,
            max,
        ) is None,
{
    assert(seq!['-'].skip(1) =~= Seq::empty());
    assert(seq!['+'].skip(1) =~= Seq::empty());
    if 0 < i < s.len() && !('0' <= s[i] <= '9') {
        assert(digit(s[i], false) is None);
        assert(s.skip(1)[i - 1] == s[i]);
        assert(digit(s.skip(1)[i - 1], false) is None);
        assert(!all_digits(s, false));
        assert(!all_digits(s.skip(1), false));
    }
    if s.len() > 0 && !('0' <= s[0] <= '9') {
        assert(digit(s[0], false) is None);
        assert(!all_digits(s, false));
    }
}

/// Saturation changes nothing in range, and goes to the nearest end beyond it.
pub proof fn law_saturation_stays_near(n: int)
    ensures
        i64::MIN <= n <= i64::MAX ==> saturated(n) == n,
        n > i64::MAX ==> saturated(n) == i64::MAX,
        n < i64::MIN ==> saturated(n) == i64::MIN,
{
}

/// A decimal text is digits without a zero before them: zero is one digit, and
/// any other number starts with another. A negative one has a minus sign before
/// the digits of its size.
pub proof fn law_decimals_have_no_leading_zeros(n: nat)
    ensures
        decimal(0) == seq!['0'],
        n > 0 ==> decimal(n)[0] != '0',
        forall|i: int| 0 <= i < decimal(n).len() ==> '0' <= #[trigger] decimal(n)[i] <= '9',
        decimal_int(n as int) == decimal(n),
        n > 0 ==> decimal_int(-(n as int)) == seq!['-'] + decimal(n),
    decreases n,
{
    law_decimal_reads_back(n);
    assert forall|i: int| 0 <= i < decimal(n).len() implies '0' <= #[trigger] decimal(n)[i]
        <= '9' by {
        assert(digit(decimal(n)[i], false) is Some);
    }
    if n >= 10 {
        law_decimals_have_no_leading_zeros(n / 10);
        law_decimal_reads_back(n / 10);
        assert(decimal(n)[0] == decimal(n / 10)[0]);
    }
}

/// A hexadecimal text is digits in lower case without a zero before them.
pub proof fn law_hexadecimals_are_in_lower_case(n: nat)
    ensures
        hexadecimal(0) == seq!['0'],
        n > 0 ==> hexadecimal(n)[0] != '0',
        forall|i: int|
            0 <= i < hexadecimal(n).len() ==> '0' <= #[trigger] hexadecimal(n)[i] <= '9' || 'a'
                <= hexadecimal(n)[i] <= 'f',
    decreases n,
{
    law_hexadecimal_reads_back(n);
    if n >= 16 {
        law_hexadecimals_are_in_lower_case(n / 16);
        law_hexadecimal_reads_back(n / 16);
        assert(hexadecimal(n)[0] == hexadecimal(n / 16)[0]);
        assert forall|i: int| 0 <= i < hexadecimal(n).len() implies '0'
            <= #[trigger] hexadecimal(n)[i] <= '9' || 'a' <= hexadecimal(n)[i] <= 'f' by {
            if i < hexadecimal(n / 16).len() {
                assert(hexadecimal(n)[i] == hexadecimal(n / 16)[i]);
            }
        }
    }
}

} // verus!
