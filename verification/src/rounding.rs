//! What holds of rounding to the nearest double: how the last bit and what
//! follows it decide, that scaling both numbers of a quotient changes
//! nothing, and which numbers are doubles as they stand.

use vstd::prelude::*;
use vstd::arithmetic::div_mod::*;
use vstd::arithmetic::mul::*;
use vstd::arithmetic::power2::*;
use crate::binary::{
    bit_length, lemma_bit_length_below, lemma_bit_length_bounds, lemma_bit_length_is, lemma_order,
    lemma_order_below, lemma_order_is, lemma_pow2_increases, order, round_bits, round_half_even,
    scaled_le, Dyadic, LEAST_EXPONENT, PRECISION,
};

verus! {

/// Rounding by the last bit and what follows it is rounding to the nearest,
/// and a tie to the even.
pub proof fn lemma_round_bits(n: nat, d: nat, r: nat, rest: nat)
    requires
        d > 0,
        n == r * d + rest,
        rest < d,
    ensures
        round_half_even(n, 2 * d) == round_bits(r, rest > 0),
{
    let q = r / 2;
    let b = r % 2;
    assert(n == q * (2 * d) + (b * d + rest)) by (nonlinear_arith)
        requires
            n == r * d + rest,
            r == 2 * q + b,
    ;
    assert(b * d + rest < 2 * d) by (nonlinear_arith)
        requires
            b <= 1,
            rest < d,
    ;
    lemma_fundamental_div_mod_converse(n as int, (2 * d) as int, q as int, (b * d + rest) as int);
    if b == 0 {
        assert(b * d == 0) by (nonlinear_arith)
            requires
                b == 0,
        ;
    } else {
        assert(b * d == d) by (nonlinear_arith)
            requires
                b == 1,
        ;
    }
}

/// Rounding a quotient is the same with both of its numbers doubled.
pub proof fn lemma_round_doubled(n: nat, d: nat)
    requires
        d > 0,
    ensures
        round_half_even(2 * n, 2 * d) == round_half_even(n, d),
{
    let q = n / d;
    let r = n % d;
    lemma_fundamental_div_mod(n as int, d as int);
    assert(2 * n == q * (2 * d) + 2 * r) by (nonlinear_arith)
        requires
            n == d * q + r,
    ;
    lemma_fundamental_div_mod_converse((2 * n) as int, (2 * d) as int, q as int, (2 * r) as int);
}

/// Rounding where the integer part of a number has been halved `j` times and
/// 54 bits are left of it: `n / d` is `int_part + frac / d`, and `int_part`
/// is `r * 2^j + low`.
pub proof fn lemma_nearest_up(n: nat, d: nat, r: nat, j: nat, low: nat, frac: nat)
    requires
        d > 0,
        n == (r * pow2(j) + low) * d + frac,
        frac < d,
        low < pow2(j),
        pow2(53) <= r < pow2(54),
    ensures
        order(n, d) == 53 + j,
        Dyadic::ratio_at(n, d, (j + 1) as int).mantissa == round_bits(r, low > 0 || frac > 0),
{
    let p = pow2(j);
    lemma_pow2_pos(j);
    lemma_pow2_pos(53);
    lemma_pow2_adds(53, j);
    lemma_pow2_adds(54, j);
    lemma_pow2_unfold(j + 1);
    let wide = d * p;
    let rest = low * d + frac;
    assert(n == r * wide + rest) by (nonlinear_arith)
        requires
            n == (r * p + low) * d + frac,
            wide == d * p,
            rest == low * d + frac,
    ;
    assert(rest < wide) by (nonlinear_arith)
        requires
            rest == low * d + frac,
            wide == d * p,
            low < p,
            frac < d,
    ;
    assert(wide > 0) by (nonlinear_arith)
        requires
            wide == d * p,
            d > 0,
            p > 0,
    ;
    // the order
    assert(d * pow2(53 + j) <= n) by (nonlinear_arith)
        requires
            n == r * wide + rest,
            wide == d * p,
            pow2(53 + j) == pow2(53) * p,
            pow2(53) <= r,
    ;
    assert(n < d * pow2(54 + j)) by (nonlinear_arith)
        requires
            n == r * wide + rest,
            rest < wide,
            wide == d * p,
            pow2(54 + j) == pow2(54) * p,
            r < pow2(54),
    ;
    lemma_pow2_pos(53 + j);
    assert(n > 0) by (nonlinear_arith)
        requires
            d * pow2(53 + j) <= n,
            d > 0,
            pow2(53 + j) > 0,
    ;
    lemma_order_is(n, d, (53 + j) as int);
    // the mantissa
    lemma_round_bits(n, wide, r, rest);
    assert(2 * wide == d * pow2(j + 1)) by (nonlinear_arith)
        requires
            wide == d * p,
            pow2(j + 1) == 2 * p,
    ;
    assert(rest > 0 <==> (low > 0 || frac > 0)) by (nonlinear_arith)
        requires
            rest == low * d + frac,
            d > 0,
    ;
}

/// Rounding where a number has been doubled `k` times and its integer part
/// is then `r`: `n * 2^k` is `r * d + rest`.
pub proof fn lemma_nearest_down(n: nat, d: nat, r: nat, k: nat, rest: nat)
    requires
        n > 0,
        d > 0,
        k >= 1,
        n * pow2(k) == r * d + rest,
        rest < d,
        r < pow2(54),
    ensures
        Dyadic::ratio_at(n, d, 1 - k).mantissa == round_bits(r, rest > 0),
        r >= pow2(53) ==> order(n, d) == 53 - k,
        r < pow2(53) ==> order(n, d) < 53 - k,
{
    let p = pow2(k);
    lemma_pow2_pos(k);
    lemma_pow2_unfold(k);
    let half = pow2((k - 1) as nat);
    // the mantissa
    lemma_round_bits(n * p, d, r, rest);
    assert(n * p == 2 * (n * half)) by (nonlinear_arith)
        requires
            p == 2 * half,
    ;
    lemma_round_doubled(n * half, d);
    if k == 1 {
        assert(half == 1) by {
            lemma2_to64();
        }
        assert(n * half == n) by (nonlinear_arith)
            requires
                half == 1,
        ;
        assert(d * pow2(0) == d) by (nonlinear_arith)
            requires
                pow2(0) == 1,
        ;
    }
    // the order
    lemma_pow2_pos(53);
    lemma_pow2_pos(54);
    if r >= pow2(53) {
        assert(scaled_le(d, 53 - k, n)) by {
            if 53 - k >= 0 {
                lemma_pow2_adds((53 - k) as nat, k);
                assert(d * pow2((53 - k) as nat) * p <= n * p) by (nonlinear_arith)
                    requires
                        n * p == r * d + rest,
                        pow2((53 - k) as nat) * p <= r,
                        d > 0,
                ;
                lemma_mul_inequality_converse(
                    (d * pow2((53 - k) as nat)) as int,
                    n as int,
                    p as int,
                );
            } else {
                lemma_pow2_adds((k - 53) as nat, 53);
                assert(d * pow2(53) <= n * pow2((k - 53) as nat) * pow2(53)) by (nonlinear_arith)
                    requires
                        n * p == r * d + rest,
                        p == pow2((k - 53) as nat) * pow2(53),
                        pow2(53) <= r,
                ;
                lemma_mul_inequality_converse(
                    d as int,
                    (n * pow2((k - 53) as nat)) as int,
                    pow2(53) as int,
                );
            }
        }
        assert(!scaled_le(d, 54 - k, n)) by {
            lemma_above(n, d, r, k, rest, 54);
        }
        lemma_order_is(n, d, 53 - k);
    } else {
        assert(!scaled_le(d, 53 - k, n)) by {
            lemma_above(n, d, r, k, rest, 53);
        }
        lemma_order_below(n, d, 53 - k);
    }
}

proof fn lemma_above(n: nat, d: nat, r: nat, k: nat, rest: nat, t: nat)
    requires
        d > 0,
        n * pow2(k) == r * d + rest,
        rest < d,
        r < pow2(t),
    ensures
        !scaled_le(d, t - k, n),
{
    let p = pow2(k);
    lemma_pow2_pos(k);
    lemma_pow2_pos(t);
    if t - k >= 0 {
        lemma_pow2_adds((t - k) as nat, k);
        assert(n * p < d * pow2((t - k) as nat) * p) by (nonlinear_arith)
            requires
                n * p == r * d + rest,
                rest < d,
                r + 1 <= pow2((t - k) as nat) * p,
        ;
        lemma_mul_strict_inequality_converse(n as int, (d * pow2((t - k) as nat)) as int, p as int);
    } else {
        lemma_pow2_adds((k - t) as nat, t);
        assert(n * pow2((k - t) as nat) * pow2(t) < d * pow2(t)) by (nonlinear_arith)
            requires
                n * p == r * d + rest,
                rest < d,
                r + 1 <= pow2(t),
                p == pow2((k - t) as nat) * pow2(t),
        ;
        lemma_mul_strict_inequality_converse(
            (n * pow2((k - t) as nat)) as int,
            d as int,
            pow2(t) as int,
        );
    }
}

/// Rounding a quotient is the same with both of its numbers scaled alike.
pub proof fn lemma_round_scaled(n: nat, d: nat, c: nat)
    requires
        d > 0,
        c > 0,
    ensures
        round_half_even(c * n, c * d) == round_half_even(n, d),
{
    let q = n / d;
    let r = n % d;
    lemma_fundamental_div_mod(n as int, d as int);
    assert(c * n == q * (c * d) + c * r) by (nonlinear_arith)
        requires
            n == d * q + r,
    ;
    assert(c * r < c * d) by (nonlinear_arith)
        requires
            r < d,
            c > 0,
    ;
    lemma_fundamental_div_mod_converse((c * n) as int, (c * d) as int, q as int, (c * r) as int);
    assert((2 * (c * r) < c * d) == (2 * r < d)) by (nonlinear_arith)
        requires
            c > 0,
    ;
    assert((2 * (c * r) == c * d) == (2 * r == d)) by (nonlinear_arith)
        requires
            c > 0,
    ;
}

/// The order of a quotient is the same with both of its numbers scaled alike.
pub proof fn lemma_order_scaled(n: nat, d: nat, c: nat)
    requires
        n > 0,
        d > 0,
        c > 0,
    ensures
        order(c * n, c * d) == order(n, d),
{
    lemma_order(n, d);
    let o = order(n, d);
    lemma_scaled_le_scaled(n, d, c, o);
    lemma_scaled_le_scaled(n, d, c, o + 1);
    lemma_mul_strictly_positive(c as int, n as int);
    lemma_mul_strictly_positive(c as int, d as int);
    lemma_order_is(c * n, c * d, o);
}

proof fn lemma_scaled_le_scaled(n: nat, d: nat, c: nat, k: int)
    requires
        c > 0,
    ensures
        scaled_le(c * d, k, c * n) == scaled_le(d, k, n),
{
    if k >= 0 {
        let p = pow2(k as nat);
        assert((c * d * p <= c * n) == (d * p <= n)) by (nonlinear_arith)
            requires
                c > 0,
        ;
    } else {
        let p = pow2((-k) as nat);
        assert((c * d <= c * n * p) == (d <= n * p)) by (nonlinear_arith)
            requires
                c > 0,
        ;
    }
}

/// The double nearest to a quotient is the same with both of its numbers
/// scaled alike.
pub proof fn lemma_nearest_scaled(n: nat, d: nat, c: nat)
    requires
        d > 0,
        c > 0,
    ensures
        Dyadic::nearest_double(c * n, c * d) == Dyadic::nearest_double(n, d),
{
    if n == 0 {
        assert(c * n == 0) by (nonlinear_arith)
            requires
                n == 0,
        ;
    } else {
        lemma_mul_strictly_positive(c as int, n as int);
        lemma_order_scaled(n, d, c);
        let e = if order(n, d) - (PRECISION - 1) < LEAST_EXPONENT {
            LEAST_EXPONENT as int
        } else {
            order(n, d) - (PRECISION - 1)
        };
        if e >= 0 {
            let p = pow2(e as nat);
            lemma_pow2_pos(e as nat);
            lemma_mul_strictly_positive(d as int, p as int);
            lemma_round_scaled(n, d * p, c);
            lemma_mul_is_associative(c as int, d as int, p as int);
        } else {
            let p = pow2((-e) as nat);
            lemma_round_scaled(n * p, d, c);
            lemma_mul_is_associative(c as int, n as int, p as int);
        }
    }
}

/// A number times a power of two is longer by the exponent.
pub proof fn lemma_bit_length_shifted(n: nat, k: nat)
    requires
        n > 0,
    ensures
        bit_length(n * pow2(k)) == bit_length(n) + k,
{
    lemma_bit_length_bounds(n);
    let b = bit_length(n);
    let p = pow2(k);
    lemma_pow2_pos(k);
    lemma_pow2_adds((b - 1) as nat, k);
    lemma_pow2_adds(b, k);
    lemma_mul_inequality(pow2((b - 1) as nat) as int, n as int, p as int);
    lemma_mul_strict_inequality(n as int, pow2(b) as int, p as int);
    lemma_bit_length_is(n * p, b + k);
}

/// A number that is a multiple of a power of two rounds to itself over it.
pub proof fn lemma_round_multiple(n: nat, k: nat)
    ensures
        round_half_even(n * pow2(k), pow2(k)) == n,
{
    let p = pow2(k);
    lemma_pow2_pos(k);
    lemma_fundamental_div_mod_converse((n * p) as int, p as int, n as int, 0);
}

/// A whole number below `2^53` is a double as it stands.
pub proof fn lemma_small_is_exact(n: nat)
    requires
        n < pow2(53),
    ensures
        Dyadic::of(n) == (Dyadic { mantissa: n, exponent: 0 }),
{
    lemma_bit_length_below(n, 53);
    lemma2_to64();
    assert(n / 1 == n);
    assert(n % 1 == 0);
}

/// Below `2^53`, the division of doubles cut off toward zero is the division
/// of whole numbers.
pub proof fn lemma_divided_whole(b: nat, k: nat)
    requires
        0 < b < pow2(53),
        0 < k,
    ensures
        Dyadic::ratio(b, k).floor() == b / k,
{
    lemma_order(b, k);
    lemma2_to64();
    lemma2_to64_rest();
    let o = order(b, k);
    // the order is at most 52, for b / k is below 2^53
    if o >= 53 {
        lemma_pow2_increases_mul(k, 53, o as nat);
    }
    let s = (52 - o) as nat;
    let scale = pow2(s);
    lemma_pow2_pos(s);
    let n = b * scale;
    let q = b / k;
    let r = b % k;
    let m = round_half_even(n, k);
    assert(Dyadic::ratio(b, k) == (Dyadic { mantissa: m, exponent: o - 52 })) by {
        if o == 52 {
            assert(scale == 1);
            assert(k * 1 == k);
            assert(b * 1 == b);
        }
    }
    // k * 2^52 <= b * scale
    assert(k * pow2(52) <= b * scale) by {
        if o >= 0 {
            lemma_pow2_adds(o as nat, s);
            lemma_mul_inequality((k * pow2(o as nat)) as int, b as int, scale as int);
            lemma_mul_is_associative(k as int, pow2(o as nat) as int, scale as int);
        } else {
            lemma_pow2_adds((-o) as nat, 52);
            lemma_mul_inequality(k as int, (b * pow2((-o) as nat)) as int, pow2(52) as int);
            lemma_mul_is_associative(b as int, pow2((-o) as nat) as int, pow2(52) as int);
        }
    }
    lemma_fundamental_div_mod(b as int, k as int);
    lemma_fundamental_div_mod(n as int, k as int);
    let t = (r * scale) / k;
    let rest = (r * scale) % k;
    lemma_fundamental_div_mod((r * scale) as int, k as int);
    // n = (q * scale + t) * k + rest
    assert(n == (q * scale + t) * k + rest) by (nonlinear_arith)
        requires
            n == b * scale,
            b == k * q + r,
            r * scale == k * t + rest,
    ;
    lemma_mod_bound((r * scale) as int, k as int);
    lemma_fundamental_div_mod_converse(n as int, k as int, (q * scale + t) as int, rest as int);
    assert(n / k == q * scale + t);
    assert(n % k == rest);
    // t is below the scale
    assert(t < scale) by (nonlinear_arith)
        requires
            r * scale == k * t + rest,
            r < k,
            rest >= 0,
            k > 0,
            scale > 0,
    ;
    if m == n / k + 1 && t == scale - 1 {
        // rounding up from the last step below a whole number cannot be
        assert(2 * rest >= k);
        assert(2 * scale <= k) by (nonlinear_arith)
            requires
                r * scale == k * t + rest,
                t == scale - 1,
                2 * rest >= k,
                r < k,
                scale > 0,
        ;
        assert(b * scale >= pow2(53) * scale) by (nonlinear_arith)
            requires
                k * pow2(52) <= b * scale,
                2 * scale <= k,
                pow2(53) == 2 * pow2(52),
        ;
        lemma_mul_strict_inequality(b as int, pow2(53) as int, scale as int);
    }
    let up: nat = if m == n / k + 1 {
        1
    } else {
        0
    };
    assert(m == q * scale + (t + up));
    assert(t + up < scale);
    lemma_fundamental_div_mod_converse(m as int, scale as int, q as int, (t + up) as int);
    if o == 52 {
        assert(m * 1 == m);
        assert(scale == 1);
    }
}

proof fn lemma_pow2_increases_mul(k: nat, a: nat, b: nat)
    requires
        a <= b,
        k > 0,
    ensures
        pow2(a) <= k * pow2(b),
{
    lemma_pow2_increases(a, b);
    lemma_mul_inequality(1, k as int, pow2(b) as int);
}

/// The double nearest to a number of quarters below `2^53` is that number.
pub proof fn lemma_nearest_quarters(a: nat)
    requires
        0 < a < pow2(53),
    ensures
        1 <= bit_length(a) <= 53,
        Dyadic::nearest_double(a, 4) == (Dyadic {
            mantissa: a * pow2((53 - bit_length(a)) as nat),
            exponent: bit_length(a) - 55,
        }),
        a * pow2((53 - bit_length(a)) as nat) < pow2(53),
{
    lemma_bit_length_bounds(a);
    lemma_bit_length_below(a, 53);
    lemma2_to64();
    let l = bit_length(a);
    let t = pow2((53 - l) as nat);
    lemma_pow2_pos((53 - l) as nat);
    // the order is l - 3
    assert(scaled_le(4, l - 3, a)) by {
        if l - 3 >= 0 {
            lemma_pow2_adds(2, (l - 3) as nat);
        } else {
            lemma_pow2_adds((l - 1) as nat, (3 - l) as nat);
            lemma_mul_inequality(
                pow2((l - 1) as nat) as int,
                a as int,
                pow2((3 - l) as nat) as int,
            );
        }
    }
    assert(!scaled_le(4, l - 2, a)) by {
        if l - 2 >= 0 {
            lemma_pow2_adds(2, (l - 2) as nat);
        } else {
            lemma_pow2_adds(l, (2 - l) as nat);
            lemma_pow2_pos((2 - l) as nat);
            lemma_mul_strict_inequality(a as int, pow2(l) as int, pow2((2 - l) as nat) as int);
        }
    }
    lemma_order_is(a, 4, l - 3);
    // the mantissa is a * 2^(53 - l)
    lemma_pow2_adds((53 - l) as nat, 2);
    lemma_round_multiple(a * t, 2);
    lemma_mul_is_associative(a as int, t as int, pow2(2) as int);
    lemma_pow2_adds(l, (53 - l) as nat);
    lemma_mul_strict_inequality(a as int, pow2(l) as int, t as int);
}

/// Whether a whole number is a double as it stands: rounding it to 53 bits
/// leaves it as it is. Every number below `2^53` is.
pub open spec fn is_double(n: nat) -> bool {
    Dyadic::of(n).floor() == n
}

/// Whether `mantissa * 2^exponent` is the whole number `v`.
pub open spec fn amounts_to(d: Dyadic, v: nat) -> bool {
    if d.exponent >= 0 {
        d.mantissa * pow2(d.exponent as nat) == v
    } else {
        d.mantissa == v * pow2((-d.exponent) as nat)
    }
}

/// A number below `2^53` is a double.
pub proof fn lemma_small_is_double(n: nat)
    requires
        n < pow2(53),
    ensures
        is_double(n),
{
    lemma_small_is_exact(n);
    lemma2_to64();
    assert(n * 1 == n);
}

/// Rounding to 53 bits leaves a number that is a double as it is, however its
/// mantissa and its exponent are chosen.
pub proof fn lemma_rounded_exact(d: Dyadic, v: nat)
    requires
        v > 0,
        amounts_to(d, v),
        is_double(v),
    ensures
        d.rounded().floor() == v,
{
    let p = d.mantissa;
    let e = d.exponent;
    let x = d.excess();
    let whole = Dyadic { mantissa: v, exponent: 0 };
    let xb = whole.excess();
    let kb = round_half_even(v, pow2(xb));
    assert(kb * pow2(xb) == v);
    lemma2_to64();
    if e < 0 {
        let down = (-e) as nat;
        lemma_pow2_pos(down);
        lemma_bit_length_shifted(v, down);
        if x <= down {
            let keep = pow2((down - x) as nat);
            lemma_pow2_adds((down - x) as nat, x);
            lemma_pow2_pos((down - x) as nat);
            assert(p == (v * keep) * pow2(x)) by (nonlinear_arith)
                requires
                    p == v * pow2(down),
                    pow2(down) == keep * pow2(x),
            ;
            lemma_round_multiple(v * keep, x);
            if e + x < 0 {
                lemma_div_by_multiple(v as int, keep as int);
            } else {
                assert(v * keep * 1 == v) by (nonlinear_arith)
                    requires
                        keep == 1,
                ;
            }
        } else {
            assert(xb == x + e);
            lemma_pow2_adds(xb, down);
            assert(p == kb * pow2(x)) by (nonlinear_arith)
                requires
                    p == v * pow2(down),
                    v == kb * pow2(xb),
                    pow2(x) == pow2(xb) * pow2(down),
            ;
            lemma_round_multiple(kb, x);
        }
    } else {
        let up = e as nat;
        lemma_pow2_pos(up);
        assert(p > 0) by (nonlinear_arith)
            requires
                p * pow2(up) == v,
                v > 0,
        ;
        lemma_bit_length_shifted(p, up);
        if x == 0 {
            assert(p / 1 == p);
            assert(p % 1 == 0);
        } else {
            assert(xb == x + e);
            lemma_pow2_adds(x, up);
            assert(p * pow2(up) == (kb * pow2(x)) * pow2(up)) by (nonlinear_arith)
                requires
                    p * pow2(up) == v,
                    v == kb * pow2(xb),
                    pow2(xb) == pow2(x) * pow2(up),
            ;
            lemma_mul_is_commutative(pow2(up) as int, p as int);
            lemma_mul_is_commutative(pow2(up) as int, (kb * pow2(x)) as int);
            lemma_mul_equality_converse(pow2(up) as int, p as int, (kb * pow2(x)) as int);
            lemma_round_multiple(kb, x);
        }
    }
}

/// A number below `2^53` times a power of two is a double.
pub proof fn lemma_shifted_is_double(n: nat, k: nat)
    requires
        n < pow2(53),
    ensures
        is_double(n * pow2(k)),
{
    let v = n * pow2(k);
    lemma_pow2_pos(k);
    lemma2_to64();
    if n == 0 {
        assert(v == 0) by (nonlinear_arith)
            requires
                v == n * pow2(k),
                n == 0,
        ;
        lemma_small_is_double(0);
    } else {
        lemma_bit_length_shifted(n, k);
        lemma_bit_length_below(n, 53);
        let whole = Dyadic { mantissa: v, exponent: 0 };
        let x = whole.excess();
        assert(x <= k);
        let keep = pow2((k - x) as nat);
        lemma_pow2_adds((k - x) as nat, x);
        assert(v == (n * keep) * pow2(x)) by (nonlinear_arith)
            requires
                v == n * pow2(k),
                pow2(k) == keep * pow2(x),
        ;
        lemma_round_multiple(n * keep, x);
    }
}

} // verus!
