//! Binary floating point over the integers: a number is a mantissa times a
//! power of two, and every operation rounds to 53 significant bits, to the
//! nearest value and on a tie to the even one, as IEEE 754 doubles do.

use vstd::prelude::*;
use vstd::arithmetic::power2::*;
use vstd::arithmetic::div_mod::*;
use vstd::arithmetic::mul::*;

verus! {

/// The number of significant bits that a double keeps.
pub const PRECISION: u32 = 53;

/// The exponent of the last bit of the smallest doubles.
pub const LEAST_EXPONENT: i32 = -1074;

/// The exponent of the last bit of the largest doubles.
pub const GREATEST_EXPONENT: i32 = 971;

/// The number of bits that writing `n` in binary takes; none for zero.
pub open spec fn bit_length(n: nat) -> nat
    decreases n,
{
    if n == 0 {
        0
    } else {
        1 + bit_length(n / 2)
    }
}

/// The integer nearest to `n / d`; halfway between two, the even one.
pub open spec fn round_half_even(n: nat, d: nat) -> nat
    recommends
        d > 0,
{
    let q = n / d;
    let r = n % d;
    if 2 * r < d || (2 * r == d && q % 2 == 0) {
        q
    } else {
        q + 1
    }
}

/// A byte count cannot exceed 64 bits: what lies beyond becomes the maximum.
pub open spec fn saturated(n: nat) -> u64 {
    if n > u64::MAX {
        u64::MAX
    } else {
        n as u64
    }
}

/// A larger exponent gives no smaller power of two.
pub proof fn lemma_pow2_increases(a: nat, b: nat)
    requires
        a <= b,
    ensures
        pow2(a) <= pow2(b),
{
    if a < b {
        lemma_pow2_strictly_increases(a, b);
    }
}

/// The powers of two at the ends of 64 and of 128 bits.
pub proof fn lemma_pow2_wide()
    ensures
        pow2(64) == 0x1_0000_0000_0000_0000,
        pow2(127) == 0x8000_0000_0000_0000_0000_0000_0000_0000,
        pow2(128) == 0x1_0000_0000_0000_0000_0000_0000_0000_0000,
{
    lemma2_to64();
    lemma2_to64_rest();
    lemma_pow2_adds(64, 63);
    lemma_pow2_adds(64, 64);
}

/// A positive number lies between the two powers of two that its length names.
pub proof fn lemma_bit_length_bounds(n: nat)
    requires
        n > 0,
    ensures
        bit_length(n) >= 1,
        pow2((bit_length(n) - 1) as nat) <= n < pow2(bit_length(n)),
    decreases n,
{
    if n == 1 {
        assert(bit_length(0) == 0);
        assert(bit_length(1) == 1 + bit_length(0));
        lemma2_to64();
    } else {
        lemma_bit_length_bounds(n / 2);
        let k = bit_length(n / 2);
        assert(bit_length(n) == k + 1);
        lemma_pow2_unfold(k);
        lemma_pow2_unfold(k + 1);
    }
}

/// The length is the only exponent with those bounds.
pub proof fn lemma_bit_length_is(n: nat, k: nat)
    requires
        k >= 1,
        pow2((k - 1) as nat) <= n < pow2(k),
    ensures
        bit_length(n) == k,
{
    lemma_pow2_pos((k - 1) as nat);
    lemma_bit_length_bounds(n);
    let b = bit_length(n);
    if b < k {
        lemma_pow2_increases(b, (k - 1) as nat);
    } else if b > k {
        lemma_pow2_increases(k, (b - 1) as nat);
    }
}

/// A number below `2^k` has `k` bits at most.
pub proof fn lemma_bit_length_below(n: nat, k: nat)
    requires
        n < pow2(k),
    ensures
        bit_length(n) <= k,
{
    if n > 0 {
        lemma_bit_length_bounds(n);
        let b = bit_length(n);
        if b > k {
            lemma_pow2_increases(k, (b - 1) as nat);
        }
    }
}

/// The length of a number in bits.
pub fn bits(n: u128) -> (r: u32)
    ensures
        r == bit_length(n as nat),
        r <= 128,
{
    proof {
        lemma_pow2_wide();
        lemma_bit_length_below(n as nat, 128);
    }
    let mut x: u128 = n;
    let mut r: u32 = 0;
    while x > 0
        invariant
            bit_length(n as nat) == r + bit_length(x as nat),
            bit_length(n as nat) <= 128,
        decreases x,
    {
        x = x / 2;
        r = r + 1;
    }
    r
}

/// Two to the power `k`.
pub fn power_of_two(k: u32) -> (r: u128)
    requires
        k < 128,
    ensures
        r == pow2(k as nat),
        r >= 1,
{
    let mut r: u128 = 1;
    let mut i: u32 = 0;
    proof {
        lemma2_to64();
    }
    while i < k
        invariant
            i <= k,
            k < 128,
            r == pow2(i as nat),
            r >= 1,
        decreases k - i,
    {
        proof {
            lemma_pow2_unfold((i + 1) as nat);
            lemma_pow2_increases((i + 1) as nat, 127);
            lemma_pow2_wide();
        }
        r = r * 2;
        i = i + 1;
    }
    r
}

/// Division that rounds to the nearest integer, and a tie to the even one.
pub fn divide_round(n: u128, d: u128) -> (r: u128)
    requires
        d > 0,
        n / d < u128::MAX,
    ensures
        r == round_half_even(n as nat, d as nat),
        n / d <= r <= n / d + 1,
{
    let q = n / d;
    let r = n % d;
    let rest = d - r;
    if r < rest || (r == rest && q % 2 == 0) {
        q
    } else {
        q + 1
    }
}

/// Whether `d * 2^k <= n`, for a `k` of either sign.
pub open spec fn scaled_le(d: nat, k: int, n: nat) -> bool {
    if k >= 0 {
        d * pow2(k as nat) <= n
    } else {
        d <= n * pow2((-k) as nat)
    }
}

/// The exponent of the largest power of two that is at most `n / d`.
pub open spec fn order(n: nat, d: nat) -> int
    recommends
        n > 0,
        d > 0,
{
    let k = bit_length(n) - bit_length(d);
    if scaled_le(d, k, n) {
        k
    } else {
        k - 1
    }
}

/// `order` is what its name says: `2^order <= n / d < 2^(order + 1)`.
pub proof fn lemma_order(n: nat, d: nat)
    requires
        n > 0,
        d > 0,
    ensures
        scaled_le(d, order(n, d), n),
        !scaled_le(d, order(n, d) + 1, n),
        bit_length(n) - bit_length(d) - 1 <= order(n, d) <= bit_length(n) - bit_length(d),
{
    lemma_bit_length_bounds(n);
    lemma_bit_length_bounds(d);
    let ln = bit_length(n);
    let ld = bit_length(d);
    let k = ln - ld;
    if scaled_le(d, k, n) {
        if k + 1 >= 0 {
            // d * 2^(k+1) >= 2^(ld-1) * 2^(k+1) = 2^ln > n
            lemma_pow2_adds((ld - 1) as nat, (k + 1) as nat);
            lemma_mul_inequality(
                pow2((ld - 1) as nat) as int,
                d as int,
                pow2((k + 1) as nat) as int,
            );
        } else {
            // n * 2^(-k-1) < 2^ln * 2^(-k-1) = 2^(ld-1) <= d
            lemma_pow2_adds(ln, (-k - 1) as nat);
            lemma_pow2_pos((-k - 1) as nat);
            lemma_mul_strict_inequality(
                n as int,
                pow2(ln) as int,
                pow2((-k - 1) as nat) as int,
            );
        }
    } else {
        if k - 1 >= 0 {
            // d * 2^(k-1) < 2^ld * 2^(k-1) = 2^(ln-1) <= n
            lemma_pow2_adds(ld, (k - 1) as nat);
            lemma_pow2_pos((k - 1) as nat);
            lemma_mul_strict_inequality(
                d as int,
                pow2(ld) as int,
                pow2((k - 1) as nat) as int,
            );
        } else {
            // d < 2^ld = 2^(ln-1) * 2^(1-k) <= n * 2^(1-k)
            lemma_pow2_adds((ln - 1) as nat, (1 - k) as nat);
            lemma_mul_inequality(
                pow2((ln - 1) as nat) as int,
                n as int,
                pow2((1 - k) as nat) as int,
            );
        }
    }
}

/// Where `d * 2^k` is at most `n`, so is `d` times any smaller power of two.
pub proof fn lemma_scaled_le_below(d: nat, a: int, b: int, n: nat)
    requires
        a <= b,
        scaled_le(d, b, n),
    ensures
        scaled_le(d, a, n),
{
    if b >= 0 {
        if a >= 0 {
            lemma_pow2_increases(a as nat, b as nat);
            lemma_mul_inequality(pow2(a as nat) as int, pow2(b as nat) as int, d as int);
            lemma_mul_is_commutative(pow2(a as nat) as int, d as int);
            lemma_mul_is_commutative(pow2(b as nat) as int, d as int);
        } else {
            lemma_pow2_pos(b as nat);
            lemma_pow2_pos((-a) as nat);
            lemma_mul_inequality(1, pow2(b as nat) as int, d as int);
            lemma_mul_inequality(1, pow2((-a) as nat) as int, n as int);
        }
    } else {
        lemma_pow2_increases((-b) as nat, (-a) as nat);
        lemma_mul_inequality(pow2((-b) as nat) as int, pow2((-a) as nat) as int, n as int);
        lemma_mul_is_commutative(pow2((-a) as nat) as int, n as int);
        lemma_mul_is_commutative(pow2((-b) as nat) as int, n as int);
    }
}

/// The order is the only exponent with `d * 2^o <= n < d * 2^(o + 1)`.
pub proof fn lemma_order_is(n: nat, d: nat, o: int)
    requires
        n > 0,
        d > 0,
        scaled_le(d, o, n),
        !scaled_le(d, o + 1, n),
    ensures
        order(n, d) == o,
{
    lemma_order(n, d);
    let p = order(n, d);
    if p < o {
        lemma_scaled_le_below(d, p + 1, o, n);
    } else if p > o {
        lemma_scaled_le_below(d, o + 1, p, n);
    }
}

/// Where `d * 2^t` is at most `n`, the order is at least `t`.
pub proof fn lemma_order_above(n: nat, d: nat, t: int)
    requires
        n > 0,
        d > 0,
        scaled_le(d, t, n),
    ensures
        order(n, d) >= t,
{
    lemma_order(n, d);
    if order(n, d) < t {
        lemma_scaled_le_below(d, order(n, d) + 1, t, n);
    }
}

/// Where `d * 2^t` is above `n`, the order is below `t`.
pub proof fn lemma_order_below(n: nat, d: nat, t: int)
    requires
        n > 0,
        d > 0,
        !scaled_le(d, t, n),
    ensures
        order(n, d) < t,
{
    lemma_order(n, d);
    if order(n, d) >= t {
        lemma_scaled_le_below(d, t, order(n, d), n);
    }
}

/// Rounding a number of which one bit more than wanted is known: `r` holds
/// the bits wanted and, last, the bit behind them, and `sticky` says whether
/// anything but zeros follows that bit.
pub open spec fn round_bits(r: nat, sticky: bool) -> nat {
    if r % 2 == 1 && (sticky || (r / 2) % 2 == 1) {
        r / 2 + 1
    } else {
        r / 2
    }
}

/// Scaled up to the precision, the ratio stays below `2^53`, and the scaled
/// numerator below `2^117`.
pub proof fn lemma_ratio_fits(n: nat, d: nat, o: int)
    requires
        n > 0,
        d > 0,
        n < pow2(64),
        d < pow2(64),
        o == order(n, d),
        o < 52,
    ensures
        n * pow2((52 - o) as nat) < d * pow2(53),
        n * pow2((52 - o) as nat) < pow2(117),
        52 - o <= 116,
{
    lemma_order(n, d);
    lemma_bit_length_bounds(n);
    lemma_bit_length_bounds(d);
    lemma_bit_length_below(n, 64);
    lemma_bit_length_below(d, 64);
    let s = (52 - o) as nat;
    lemma_pow2_pos(s);
    if o + 1 >= 0 {
        // n < d * 2^(o+1), so n * 2^s < d * 2^(o+1) * 2^s = d * 2^53
        lemma_pow2_adds((o + 1) as nat, s);
        lemma_mul_strict_inequality(n as int, (d * pow2((o + 1) as nat)) as int, pow2(s) as int);
        lemma_mul_is_associative(d as int, pow2((o + 1) as nat) as int, pow2(s) as int);
    } else {
        // n * 2^(-o-1) < d, so n * 2^(-o-1) * 2^53 < d * 2^53
        lemma_pow2_adds((-o - 1) as nat, 53);
        lemma_pow2_pos(53);
        lemma_mul_strict_inequality((n * pow2((-o - 1) as nat)) as int, d as int, pow2(53) as int);
        lemma_mul_is_associative(n as int, pow2((-o - 1) as nat) as int, pow2(53) as int);
    }
    lemma_pow2_adds(64, 53);
    lemma_pow2_pos(53);
    lemma_mul_strict_inequality(d as int, pow2(64) as int, pow2(53) as int);
}

/// The mantissa and the exponent of a binary floating-point number, as
/// mathematical integers: the number is `mantissa * 2^exponent`.
pub struct Dyadic {
    pub mantissa: nat,
    pub exponent: int,
}

impl Dyadic {
    /// How many low bits the mantissa has beyond the precision.
    pub open spec fn excess(self) -> nat {
        if bit_length(self.mantissa) > PRECISION {
            (bit_length(self.mantissa) - PRECISION) as nat
        } else {
            0
        }
    }

    /// The same number at 53 significant bits.
    pub open spec fn rounded(self) -> Dyadic {
        Dyadic {
            mantissa: round_half_even(self.mantissa, pow2(self.excess())),
            exponent: self.exponent + self.excess(),
        }
    }

    /// The integer part.
    pub open spec fn floor(self) -> nat {
        if self.exponent >= 0 {
            self.mantissa * pow2(self.exponent as nat)
        } else {
            self.mantissa / pow2((-self.exponent) as nat)
        }
    }

    /// The nearest integer, and on a tie the even one.
    pub open spec fn nearest(self) -> nat {
        if self.exponent >= 0 {
            self.mantissa * pow2(self.exponent as nat)
        } else {
            round_half_even(self.mantissa, pow2((-self.exponent) as nat))
        }
    }

    /// The integer `n` as a floating-point number.
    pub open spec fn of(n: nat) -> Dyadic {
        (Dyadic { mantissa: n, exponent: 0 }).rounded()
    }

    /// The floating-point product.
    pub open spec fn product(self, other: Dyadic) -> Dyadic {
        (Dyadic {
            mantissa: self.mantissa * other.mantissa,
            exponent: self.exponent + other.exponent,
        }).rounded()
    }

    /// The multiple of `2^exponent` nearest to `n / d`.
    pub open spec fn ratio_at(n: nat, d: nat, exponent: int) -> Dyadic
        recommends
            d > 0,
    {
        if exponent >= 0 {
            Dyadic { mantissa: round_half_even(n, d * pow2(exponent as nat)), exponent }
        } else {
            Dyadic { mantissa: round_half_even(n * pow2((-exponent) as nat), d), exponent }
        }
    }

    /// The floating-point number nearest to `n / d`.
    pub open spec fn ratio(n: nat, d: nat) -> Dyadic
        recommends
            n > 0,
            d > 0,
    {
        Dyadic::ratio_at(n, d, order(n, d) - (PRECISION - 1))
    }

    /// The double nearest to `n / d`. Doubles have 53 bits, and fewer near
    /// zero, where their exponents end at -1074; what is beyond the largest
    /// of them becomes infinity, which is written as `2^52 * 2^972`.
    pub open spec fn nearest_double(n: nat, d: nat) -> Dyadic
        recommends
            d > 0,
    {
        if n == 0 {
            Dyadic { mantissa: 0, exponent: 0 }
        } else {
            let e = if order(n, d) - (PRECISION - 1) < LEAST_EXPONENT {
                LEAST_EXPONENT as int
            } else {
                order(n, d) - (PRECISION - 1)
            };
            let r = Dyadic::ratio_at(n, d, e);
            if e > GREATEST_EXPONENT || (e == GREATEST_EXPONENT && r.mantissa >= pow2(53)) {
                Dyadic { mantissa: pow2(52), exponent: GREATEST_EXPONENT + 1 }
            } else {
                r
            }
        }
    }

    /// The floating-point quotient.
    pub open spec fn quotient(self, other: Dyadic) -> Dyadic
        recommends
            self.mantissa > 0,
            other.mantissa > 0,
    {
        let q = Dyadic::ratio(self.mantissa, other.mantissa);
        Dyadic { mantissa: q.mantissa, exponent: q.exponent + self.exponent - other.exponent }
    }

    /// The same number times the integer `k`, exactly.
    pub open spec fn times(self, k: nat) -> Dyadic {
        Dyadic { mantissa: self.mantissa * k, exponent: self.exponent }
    }
}

/// A binary floating-point number in machine integers.
#[derive(Debug, Clone, Copy)]
pub struct Binary {
    pub mantissa: u64,
    pub exponent: i32,
}

impl View for Binary {
    type V = Dyadic;

    open spec fn view(&self) -> Dyadic {
        Dyadic { mantissa: self.mantissa as nat, exponent: self.exponent as int }
    }
}

/// The bound within which the exponents of this module stay clear of overflow.
pub const EXPONENT_LIMIT: i32 = 1_000_000;

impl Binary {
    /// `mantissa * 2^exponent` at 53 significant bits.
    pub fn round(mantissa: u128, exponent: i32) -> (r: Binary)
        requires
            -EXPONENT_LIMIT <= exponent <= EXPONENT_LIMIT,
        ensures
            r@ == (Dyadic { mantissa: mantissa as nat, exponent: exponent as int }).rounded(),
            r.mantissa <= 0x20_0000_0000_0000,
            mantissa > 0 ==> r.mantissa > 0,
            exponent <= r.exponent <= exponent + 75,
    {
        let ghost d = Dyadic { mantissa: mantissa as nat, exponent: exponent as int };
        let length = bits(mantissa);
        proof {
            lemma2_to64();
            lemma2_to64_rest();
        }
        if length <= PRECISION {
            proof {
                assert(pow2(0) == 1);
                assert(d.excess() == 0);
                if mantissa > 0 {
                    lemma_bit_length_bounds(mantissa as nat);
                    lemma_pow2_increases(length as nat, 53);
                }
                assert(mantissa as nat / 1 == mantissa as nat);
                assert(mantissa as nat % 1 == 0);
            }
            Binary { mantissa: mantissa as u64, exponent }
        } else {
            let shift = length - PRECISION;
            let unit = power_of_two(shift);
            proof {
                assert(d.excess() == shift);
                lemma_bit_length_bounds(mantissa as nat);
                lemma_pow2_adds(53, shift as nat);
                lemma_multiply_divide_lt(mantissa as int, unit as int, pow2(53) as int);
                // the quotient is at least 2^52
                lemma_pow2_adds(52, shift as nat);
                lemma_div_is_ordered(
                    (pow2(52) * pow2(shift as nat)) as int,
                    mantissa as int,
                    unit as int,
                );
                lemma_div_by_multiple(pow2(52) as int, unit as int);
            }
            let m = divide_round(mantissa, unit);
            Binary { mantissa: m as u64, exponent: exponent + shift as i32 }
        }
    }
    /// The integer `n` as a floating-point number.
    pub fn of(n: u64) -> (r: Binary)
        ensures
            r@ == Dyadic::of(n as nat),
            r.mantissa <= 0x20_0000_0000_0000,
            n > 0 ==> r.mantissa > 0,
            0 <= r.exponent <= 11,
    {
        let r = Binary::round(n as u128, 0);
        proof {
            lemma_pow2_wide();
            lemma_bit_length_below(n as nat, 64);
        }
        r
    }

    /// The floating-point number nearest to `n / d`.
    pub fn ratio(n: u64, d: u64) -> (r: Binary)
        requires
            n > 0,
            d > 0,
        ensures
            r@ == Dyadic::ratio(n as nat, d as nat),
            r.mantissa <= 0x20_0000_0000_0000,
            -116 <= r.exponent <= 11,
    {
        let ln = bits(n as u128);
        let ld = bits(d as u128);
        proof {
            lemma_pow2_wide();
            lemma2_to64();
            lemma2_to64_rest();
            lemma_bit_length_below(n as nat, 64);
            lemma_bit_length_below(d as nat, 64);
            lemma_bit_length_bounds(n as nat);
            lemma_bit_length_bounds(d as nat);
            lemma_order(n as nat, d as nat);
        }
        let k: i32 = ln as i32 - ld as i32;
        let fits: bool = if k >= 0 {
            let p = power_of_two(k as u32);
            proof {
                // d * 2^k < 2^ld * 2^k = 2^ln <= 2^64
                lemma_pow2_adds(ld as nat, k as nat);
                lemma_mul_strict_inequality(d as int, pow2(ld as nat) as int, p as int);
                lemma_pow2_increases(ln as nat, 64);
            }
            (d as u128) * p <= n as u128
        } else {
            let p = power_of_two((-k) as u32);
            proof {
                // n * 2^(-k) < 2^ln * 2^(-k) = 2^ld <= 2^64
                lemma_pow2_adds(ln as nat, (-k) as nat);
                lemma_mul_strict_inequality(n as int, pow2(ln as nat) as int, p as int);
                lemma_pow2_increases(ld as nat, 64);
            }
            d as u128 <= (n as u128) * p
        };
        let o: i32 = if fits { k } else { k - 1 };
        assert(o == order(n as nat, d as nat));
        let e: i32 = o - 52;
        if e >= 0 {
            let p = power_of_two(e as u32);
            proof {
                // d * 2^e <= d * 2^11 < 2^75
                lemma_pow2_increases(e as nat, 11);
                lemma_mul_inequality(p as int, pow2(11) as int, d as int);
                lemma_mul_is_commutative(p as int, d as int);
                lemma_mul_is_commutative(pow2(11) as int, d as int);
                assert(d * pow2(11) < 0x800_0000_0000_0000_0000) by (nonlinear_arith)
                    requires
                        d < 0x1_0000_0000_0000_0000,
                        pow2(11) == 0x800,
                ;
                lemma_pow2_pos(e as nat);
                lemma_mul_strictly_positive(d as int, p as int);
            }
            let den = (d as u128) * p;
            proof {
                // n < d * 2^(o+1) = den * 2^53
                lemma_pow2_adds(e as nat, 53);
                lemma_mul_is_associative(d as int, p as int, pow2(53) as int);
                lemma_multiply_divide_lt(n as int, den as int, pow2(53) as int);
            }
            let m = divide_round(n as u128, den);
            Binary { mantissa: m as u64, exponent: e }
        } else {
            let p = power_of_two((-e) as u32);
            proof {
                // n < d * 2^(o+1), and 2^(o+1) * 2^(-e) = 2^53 where both signs of o+1 occur
                lemma_ratio_fits(n as nat, d as nat, o as int);
            }
            let num = (n as u128) * p;
            proof {
                lemma_multiply_divide_lt(num as int, d as int, pow2(53) as int);
            }
            let m = divide_round(num, d as u128);
            Binary { mantissa: m as u64, exponent: e }
        }
    }

    /// The integer part, at most the largest byte count.
    pub fn floor(&self) -> (r: u64)
        ensures
            r == saturated(self@.floor()),
    {
        match self.checked_floor() {
            Some(v) => v,
            None => u64::MAX,
        }
    }

    /// The integer part, where it is at most the largest byte count.
    pub fn checked_floor(&self) -> (r: Option<u64>)
        ensures
            self@.floor() <= u64::MAX ==> r == Some(self@.floor() as u64),
            self@.floor() > u64::MAX ==> r is None,
    {
        proof {
            lemma_pow2_wide();
        }
        if self.mantissa == 0 {
            proof {
                if self.exponent >= 0 {
                    lemma_mul_by_zero_is_zero(pow2(self.exponent as nat) as int);
                } else {
                    lemma_pow2_pos((-self.exponent) as nat);
                    lemma_div_of0(pow2((-self.exponent) as nat) as int);
                }
            }
            Some(0)
        } else if self.exponent >= 64 {
            proof {
                lemma_pow2_increases(64, self.exponent as nat);
                lemma_mul_inequality(1, self.mantissa as int, pow2(self.exponent as nat) as int);
            }
            None
        } else if self.exponent >= 0 {
            let p = power_of_two(self.exponent as u32);
            proof {
                lemma_pow2_increases(self.exponent as nat, 63);
                lemma2_to64_rest();
                assert(self.mantissa * p < 0x1_0000_0000_0000_0000_0000_0000_0000_0000)
                    by (nonlinear_arith)
                    requires
                        self.mantissa < 0x1_0000_0000_0000_0000,
                        p <= 0x8000_0000_0000_0000,
                ;
            }
            let v: u128 = (self.mantissa as u128) * p;
            if v > u64::MAX as u128 {
                None
            } else {
                Some(v as u64)
            }
        } else if self.exponent <= -64 {
            proof {
                lemma_pow2_increases(64, (-self.exponent) as nat);
                lemma_basic_div(self.mantissa as int, pow2((-self.exponent) as nat) as int);
            }
            Some(0)
        } else {
            let p = power_of_two((-self.exponent) as u32);
            proof {
                lemma_div_is_ordered_by_denominator(self.mantissa as int, 1, p as int);
            }
            Some(((self.mantissa as u128) / p) as u64)
        }
    }

    /// The integer nearest to this number times `k`.
    pub fn nearest_times(&self, k: u64) -> (r: u128)
        requires
            self.mantissa <= 0x20_0000_0000_0000,
            -127 <= self.exponent <= 32,
            k <= 1_000,
        ensures
            r == self@.times(k as nat).nearest(),
    {
        proof {
            lemma_pow2_wide();
            lemma2_to64();
            assert(self.mantissa * k <= 0x20_0000_0000_0000 * 1_000) by (nonlinear_arith)
                requires
                    self.mantissa <= 0x20_0000_0000_0000,
                    k <= 1_000,
            ;
        }
        let n: u128 = (self.mantissa as u128) * (k as u128);
        if self.exponent >= 0 {
            let p = power_of_two(self.exponent as u32);
            proof {
                lemma_pow2_increases(self.exponent as nat, 32);
                assert(n * p <= 0x20_0000_0000_0000 * 1_000 * 0x1_0000_0000) by (nonlinear_arith)
                    requires
                        n <= 0x20_0000_0000_0000 * 1_000,
                        p <= 0x1_0000_0000,
                ;
            }
            n * p
        } else {
            let p = power_of_two((-self.exponent) as u32);
            proof {
                lemma_div_is_ordered_by_denominator(n as int, 1, p as int);
            }
            divide_round(n, p)
        }
    }
}

} // verus!
