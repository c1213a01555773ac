//! Decimal numbers of any length, as the digits they are written with.

use vstd::prelude::*;
use vstd::arithmetic::mul::*;
use vstd::arithmetic::power2::*;
use crate::binary::{lemma_order_above, lemma_pow2_increases, round_bits, Binary, Dyadic};
use crate::render::power_of_ten;
use crate::rounding::{lemma_nearest_down, lemma_nearest_up};

verus! {

/// Whether every byte is an ASCII digit.
pub open spec fn all_digits(digits: Seq<u8>) -> bool {
    forall|i: int| 0 <= i < digits.len() ==> 0x30 <= #[trigger] digits[i] <= 0x39
}

/// The number that a run of ASCII digits writes; zero for none.
pub open spec fn digits_value(digits: Seq<u8>) -> nat
    decreases digits.len(),
{
    if digits.len() == 0 {
        0
    } else {
        digits_value(digits.drop_last()) * 10 + (digits.last() - 0x30) as nat
    }
}

/// Every power of ten is one at least.
pub proof fn lemma_power_of_ten_positive(p: nat)
    ensures
        power_of_ten(p) >= 1,
    decreases p,
{
    if p > 0 {
        lemma_power_of_ten_positive((p - 1) as nat);
    }
}

/// Digits written one run behind another: the first run counts for as many
/// powers of ten more as the second is long.
pub proof fn lemma_value_concat(a: Seq<u8>, b: Seq<u8>)
    ensures
        digits_value(a + b) == digits_value(a) * power_of_ten(b.len()) + digits_value(b),
    decreases b.len(),
{
    if b.len() == 0 {
        assert(a + b =~= a);
        assert(digits_value(a) * 1 == digits_value(a));
    } else {
        lemma_value_concat(a, b.drop_last());
        assert((a + b).drop_last() =~= a + b.drop_last());
        assert((a + b).last() == b.last());
        let x = digits_value(a);
        let p = power_of_ten((b.len() - 1) as nat);
        let y = digits_value(b.drop_last());
        assert((x * p + y) * 10 == x * (10 * p) + y * 10) by (nonlinear_arith);
    }
}

/// One digit writes itself.
pub proof fn lemma_value_single(d: u8)
    requires
        0x30 <= d <= 0x39,
    ensures
        digits_value(seq![d]) == d - 0x30,
{
    assert(seq![d].drop_last() =~= Seq::<u8>::empty());
    assert(digits_value(seq![d].drop_last()) == 0);
    assert(seq![d].last() == d);
}

/// A run of digits writes a number below ten to the power of its length.
pub proof fn lemma_value_bound(digits: Seq<u8>)
    requires
        all_digits(digits),
    ensures
        digits_value(digits) < power_of_ten(digits.len()),
    decreases digits.len(),
{
    if digits.len() > 0 {
        lemma_value_bound(digits.drop_last());
    }
}

/// A run of digits writes zero just where all of them are zeros.
pub proof fn lemma_value_zero(digits: Seq<u8>)
    requires
        all_digits(digits),
    ensures
        digits_value(digits) == 0 <==> (forall|i: int|
            0 <= i < digits.len() ==> #[trigger] digits[i] == 0x30),
    decreases digits.len(),
{
    if digits.len() > 0 {
        lemma_value_zero(digits.drop_last());
        let front = digits.drop_last();
        if digits_value(digits) == 0 {
            assert forall|i: int| 0 <= i < digits.len() implies #[trigger] digits[i] == 0x30 by {
                if i < front.len() {
                    assert(front[i] == digits[i]);
                }
            }
        } else if forall|i: int| 0 <= i < digits.len() ==> #[trigger] digits[i] == 0x30 {
            assert forall|i: int| 0 <= i < front.len() implies #[trigger] front[i] == 0x30 by {
                assert(front[i] == digits[i]);
            }
        }
    }
}

/// The largest number that `small` hands out, and one more.
pub const SMALL: u64 = 100_000_000_000_000_000;

/// The number that the digits write, where it is below ten to the power 17.
pub fn small(digits: &Vec<u8>) -> (r: Option<u64>)
    requires
        all_digits(digits@),
    ensures
        digits_value(digits@) < SMALL ==> r == Some(digits_value(digits@) as u64),
        digits_value(digits@) >= SMALL ==> r is None,
{
    let mut sum: u64 = 0;
    let mut i: usize = 0;
    while i < digits.len()
        invariant
            i <= digits.len(),
            all_digits(digits@),
            sum == digits_value(digits@.take(i as int)),
            sum < SMALL,
        decreases digits.len() - i,
    {
        let next = sum * 10 + (digits[i] - 0x30) as u64;
        proof {
            let front = digits@.take(i + 1);
            assert(front.drop_last() =~= digits@.take(i as int));
            assert(front.last() == digits@[i as int]);
            lemma_value_concat(front, digits@.skip(i + 1));
            assert(front + digits@.skip(i + 1) =~= digits@);
            lemma_power_of_ten_positive((digits.len() - i - 1) as nat);
            lemma_mul_inequality(
                1,
                power_of_ten((digits.len() - i - 1) as nat) as int,
                digits_value(front) as int,
            );
            lemma_mul_is_commutative(
                power_of_ten((digits.len() - i - 1) as nat) as int,
                digits_value(front) as int,
            );
        }
        if next >= SMALL {
            return None;
        }
        sum = next;
        i = i + 1;
    }
    assert(digits@.take(i as int) =~= digits@);
    Some(sum)
}

/// Halves the number that the digits write, and hands out what is left over.
pub fn halve(digits: &mut Vec<u8>) -> (bit: u8)
    requires
        all_digits(old(digits)@),
    ensures
        all_digits(final(digits)@),
        final(digits)@.len() == old(digits)@.len(),
        digits_value(old(digits)@) == 2 * digits_value(final(digits)@) + bit,
        bit <= 1,
{
    let ghost before = digits@;
    let mut carry: u8 = 0;
    let mut i: usize = 0;
    while i < digits.len()
        invariant
            i <= digits.len(),
            digits@.len() == before.len(),
            all_digits(before),
            all_digits(digits@),
            carry <= 1,
            digits@.skip(i as int) =~= before.skip(i as int),
            digits_value(before.take(i as int)) == 2 * digits_value(digits@.take(i as int))
                + carry,
        decreases digits.len() - i,
    {
        let ghost prior = digits@;
        let current = carry * 10 + (digits[i] - 0x30);
        assert(prior[i as int] == prior.skip(i as int)[0]);
        assert(before[i as int] == before.skip(i as int)[0]);
        digits.set(i, 0x30 + current / 2);
        carry = current % 2;
        proof {
            assert(before.take(i + 1).drop_last() =~= before.take(i as int));
            assert(digits@.take(i + 1).drop_last() =~= prior.take(i as int));
            assert(digits@.take(i + 1).last() == 0x30 + current / 2);
            assert(digits@.skip(i + 1) =~= before.skip(i + 1)) by {
                assert forall|j: int| 0 <= j < before.len() - i - 1 implies #[trigger] digits@.skip(
                    i + 1,
                )[j] == before.skip(i + 1)[j] by {
                    assert(prior.skip(i as int)[j + 1] == before.skip(i as int)[j + 1]);
                }
            }
        }
        i = i + 1;
    }
    assert(digits@.take(i as int) =~= digits@);
    assert(before.take(i as int) =~= before);
    carry
}

/// Doubles the fraction that the digits write behind a point, and hands out
/// what goes before the point.
pub fn double(digits: &mut Vec<u8>) -> (carry: u8)
    requires
        all_digits(old(digits)@),
    ensures
        all_digits(final(digits)@),
        final(digits)@.len() == old(digits)@.len(),
        2 * digits_value(old(digits)@) == carry * power_of_ten(old(digits)@.len())
            + digits_value(final(digits)@),
        carry <= 1,
{
    let ghost before = digits@;
    let mut carry: u8 = 0;
    let mut i: usize = digits.len();
    assert(before.skip(i as int) =~= Seq::<u8>::empty());
    while i > 0
        invariant
            i <= digits.len(),
            digits@.len() == before.len(),
            all_digits(before),
            all_digits(digits@),
            carry <= 1,
            digits@.take(i as int) =~= before.take(i as int),
            2 * digits_value(before.skip(i as int)) == carry * power_of_ten(
                (before.len() - i) as nat,
            ) + digits_value(digits@.skip(i as int)),
        decreases i,
    {
        let ghost prior = digits@;
        i = i - 1;
        assert(prior[i as int] == prior.take(i + 1)[i as int]);
        assert(before[i as int] == before.take(i + 1)[i as int]);
        let current = 2 * (digits[i] - 0x30) + carry;
        digits.set(i, 0x30 + current % 10);
        let ghost incoming = carry;
        carry = current / 10;
        proof {
            let width = (before.len() - i - 1) as nat;
            let x = (before[i as int] - 0x30) as nat;
            let y = (current % 10) as nat;
            lemma_value_concat(seq![before[i as int]], before.skip(i + 1));
            assert(seq![before[i as int]] + before.skip(i + 1) =~= before.skip(i as int));
            lemma_value_concat(seq![digits@[i as int]], digits@.skip(i + 1));
            assert(seq![digits@[i as int]] + digits@.skip(i + 1) =~= digits@.skip(i as int));
            assert(digits@.skip(i + 1) =~= prior.skip(i + 1));
            lemma_value_single(before[i as int]);
            lemma_value_single(digits@[i as int]);
            let p = power_of_ten(width);
            assert(power_of_ten(width + 1) == 10 * p);
            assert(2 * (x * p) + incoming * p == carry * (10 * p) + y * p) by (nonlinear_arith)
                requires
                    2 * x + incoming == 10 * carry + y,
            ;
            assert(digits@.take(i as int) =~= before.take(i as int)) by {
                assert forall|j: int| 0 <= j < i implies #[trigger] digits@.take(i as int)[j]
                    == before.take(i as int)[j] by {
                    assert(prior.take(i + 1)[j] == before.take(i + 1)[j]);
                }
            }
        }
    }
    assert(digits@.skip(0) =~= digits@);
    assert(before.skip(0) =~= before);
    carry
}

fn duplicate(digits: &Vec<u8>) -> (r: Vec<u8>)
    ensures
        r@ == digits@,
{
    let mut out: Vec<u8> = Vec::new();
    let mut i: usize = 0;
    while i < digits.len()
        invariant
            i <= digits.len(),
            out@ == digits@.take(i as int),
        decreases digits.len() - i,
    {
        out.push(digits[i]);
        i = i + 1;
        assert(out@ =~= digits@.take(i as int));
    }
    assert(digits@.take(i as int) =~= digits@);
    out
}

/// Whether the digits write anything but zero.
pub fn any_nonzero(digits: &Vec<u8>) -> (r: bool)
    requires
        all_digits(digits@),
    ensures
        r == (digits_value(digits@) > 0),
{
    let mut i: usize = 0;
    while i < digits.len()
        invariant
            i <= digits.len(),
            all_digits(digits@),
            forall|j: int| 0 <= j < i ==> #[trigger] digits@[j] == 0x30,
        decreases digits.len() - i,
    {
        if digits[i] != 0x30 {
            proof {
                lemma_value_zero(digits@);
            }
            return true;
        }
        i = i + 1;
    }
    proof {
        lemma_value_zero(digits@);
    }
    false
}

/// The double nearest to the number that `whole` writes before a point and
/// `fraction` behind it.
pub fn nearest(whole: &Vec<u8>, fraction: &Vec<u8>) -> (r: Binary)
    requires
        all_digits(whole@),
        all_digits(fraction@),
    ensures
        r@ == Dyadic::nearest_double(
            digits_value(whole@ + fraction@),
            power_of_ten(fraction@.len()),
        ),
        r.mantissa <= 0x20_0000_0000_0000,
        -1074 <= r.exponent <= 972,
{
    let ghost n = digits_value(whole@ + fraction@);
    let ghost d = power_of_ten(fraction@.len());
    let ghost int_part = digits_value(whole@);
    let ghost frac = digits_value(fraction@);
    proof {
        lemma_value_concat(whole@, fraction@);
        lemma_value_bound(fraction@);
        lemma_power_of_ten_positive(fraction@.len());
        lemma2_to64();
        lemma2_to64_rest();
    }
    // the integer part, halved until 17 digits are left
    let mut w = duplicate(whole);
    let mut j: u32 = 0;
    let mut sticky = false;
    let ghost mut low: nat = 0;
    let mut found = small(&w);
    while found.is_none() && j < 1100
        invariant
            all_digits(w@),
            j <= 1100,
            int_part == digits_value(w@) * pow2(j as nat) + low,
            low < pow2(j as nat),
            sticky <==> low > 0,
            found is Some ==> found == Some(digits_value(w@) as u64) && digits_value(w@) < SMALL,
            found is None ==> digits_value(w@) >= SMALL,
            j > 0 ==> 2 * digits_value(w@) + 1 >= SMALL,
        decreases 1100 - j,
    {
        let bit = halve(&mut w);
        proof {
            lemma_pow2_unfold((j + 1) as nat);
            lemma_pow2_pos(j as nat);
            let p = pow2(j as nat);
            let v = digits_value(w@);
            assert((2 * v + bit) * p + low == v * (2 * p) + (bit * p + low)) by (nonlinear_arith);
            assert(bit * p + low < 2 * p) by (nonlinear_arith)
                requires
                    bit <= 1,
                    low < p,
            ;
            assert((bit * p + low > 0) <==> (bit == 1 || low > 0)) by (nonlinear_arith)
                requires
                    bit <= 1,
                    p > 0,
            ;
            low = (bit * p + low) as nat;
        }
        sticky = sticky || bit == 1;
        j = j + 1;
        found = small(&w);
    }
    let mut r: u64 = match found {
        Some(v) => v,
        None => {
            proof {
                // the number is 2^1100 at least: beyond every double
                let p = pow2(1100);
                lemma_pow2_pos(1100);
                assert(d * p <= n) by (nonlinear_arith)
                    requires
                        n == int_part * d + frac,
                        int_part == digits_value(w@) * p + low,
                        digits_value(w@) >= 1,
                        d > 0,
                        p > 0,
                ;
                assert(n > 0) by (nonlinear_arith)
                    requires
                        d * p <= n,
                        d > 0,
                        p > 0,
                ;
                lemma_order_above(n, d, 1100);
            }
            return Binary { mantissa: 0x10_0000_0000_0000, exponent: 972 };
        },
    };
    // then, as a machine integer, until 54 bits are left
    let mut steps: u32 = 0;
    while steps < 3
        invariant
            steps <= 3,
            j <= 1100 + steps,
            int_part == r * pow2(j as nat) + low,
            low < pow2(j as nat),
            sticky <==> low > 0,
            j > 0 ==> r >= 0x20_0000_0000_0000,
            r < pow2((57 - steps) as nat),
        decreases 3 - steps,
    {
        if r >= 0x40_0000_0000_0000 {
            let bit = r % 2;
            proof {
                lemma_pow2_unfold((j + 1) as nat);
                lemma_pow2_pos(j as nat);
                let p = pow2(j as nat);
                let v = (r / 2) as nat;
                assert((2 * v + bit) * p + low == v * (2 * p) + (bit * p + low))
                    by (nonlinear_arith);
                assert(bit * p + low < 2 * p) by (nonlinear_arith)
                    requires
                        bit <= 1,
                        low < p,
                ;
                assert((bit * p + low > 0) <==> (bit == 1 || low > 0)) by (nonlinear_arith)
                    requires
                        bit <= 1,
                        p > 0,
                ;
                low = (bit * p + low) as nat;
            }
            r = r / 2;
            sticky = sticky || bit == 1;
            j = j + 1;
        }
        proof {
            lemma2_to64_rest();
            lemma_pow2_unfold((57 - steps) as nat);
            lemma_pow2_increases(54, (56 - steps) as nat);
        }
        steps = steps + 1;
    }
    let tail = any_nonzero(fraction);
    if r == 0 && !tail {
        proof {
            assert(int_part == 0) by (nonlinear_arith)
                requires
                    int_part == r * pow2(j as nat) + low,
                    r == 0,
                    j == 0,
                    low < pow2(0),
                    pow2(0) == 1,
            ;
            assert(n == 0) by (nonlinear_arith)
                requires
                    n == int_part * d + frac,
                    int_part == 0,
                    frac == 0,
            ;
        }
        return Binary { mantissa: 0, exponent: 0 };
    }
    proof {
        lemma_pow2_pos(j as nat);
        assert(n > 0) by (nonlinear_arith)
            requires
                n == int_part * d + frac,
                int_part == r * pow2(j as nat) + low,
                r > 0 || frac > 0,
                d > 0,
                pow2(j as nat) > 0,
        ;
    }
    // the fraction, doubled until 54 bits are there or the exponents end
    let mut k: u32 = 0;
    let mut rest_nonzero = tail;
    let ghost mut rest: nat = frac;
    if j == 0 && r < 0x20_0000_0000_0000 {
        let mut f = duplicate(fraction);
        proof {
            assert(n * pow2(0) == r * d + digits_value(f@)) by (nonlinear_arith)
                requires
                    n == int_part * d + frac,
                    int_part == r * pow2(0) + low,
                    low < pow2(0),
                    pow2(0) == 1,
                    frac == digits_value(f@),
            ;
        }
        let ghost start = r;
        while r < 0x20_0000_0000_0000 && k < 1075
            invariant
                k == 0 ==> r == start,
                start < 0x20_0000_0000_0000,
                all_digits(f@),
                f@.len() == fraction@.len(),
                d == power_of_ten(fraction@.len()),
                k <= 1075,
                n * pow2(k as nat) == r * d + digits_value(f@),
                r < 0x40_0000_0000_0000,
            decreases 1075 - k,
        {
            let ghost before = digits_value(f@);
            let ghost r0 = r;
            let carry = double(&mut f);
            r = 2 * r + carry as u64;
            proof {
                lemma_pow2_unfold((k + 1) as nat);
                assert(n * (2 * pow2(k as nat)) == (2 * r0 + carry) * d + digits_value(f@))
                    by (nonlinear_arith)
                    requires
                        n * pow2(k as nat) == r0 * d + before,
                        2 * before == carry * d + digits_value(f@),
                ;
            }
            k = k + 1;
        }
        rest_nonzero = any_nonzero(&f);
        proof {
            lemma_value_bound(f@);
            rest = digits_value(f@);
        }
    }
    let q = r / 2;
    let up = r % 2 == 1 && (sticky || rest_nonzero || q % 2 == 1);
    let m = if up {
        q + 1
    } else {
        q
    };
    let e: i32 = j as i32 - k as i32 + 1;
    proof {
        if k == 0 {
            lemma_nearest_up(n, d, r as nat, j as nat, low, frac);
            assert(m == round_bits(r as nat, low > 0 || frac > 0));
        } else {
            assert(low == 0);
            lemma_nearest_down(n, d, r as nat, k as nat, rest);
            assert(m == round_bits(r as nat, rest > 0));
        }
    }
    if e > 971 || (e == 971 && m >= 0x20_0000_0000_0000) {
        Binary { mantissa: 0x10_0000_0000_0000, exponent: 972 }
    } else {
        Binary { mantissa: m, exponent: e }
    }
}

} // verus!
