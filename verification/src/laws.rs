//! What holds of sizes whatever their values: how magnitudes count, the laws
//! of the arithmetic, the order of the tiers, and that a size written as text
//! is read back as it was written.

use vstd::prelude::*;
use vstd::arithmetic::div_mod::*;
use vstd::arithmetic::mul::*;
use vstd::arithmetic::power2::*;
use vstd::utf8::{encode_utf8, is_ascii_chars};
use crate::binary::{lemma_bit_length_below, lemma_pow2_wide};
use crate::double::Double;
use crate::magnitude::{whole_of, Magnitude};
use crate::ops::{divided, lemma_bytes_count, multiplied};
use crate::parse::{size_in, Numeral, ScanError};
use crate::render::{power_of_ten, rendered, shown};
use crate::rounding::{is_double, lemma_divided_whole, lemma_small_is_exact};
use crate::roundtrip::{
    lemma_binary_double, lemma_binary_quarters, lemma_round_trip, lemma_round_trip_bytes,
    read_bytes, shown_in_quarters, shown_numeral,
};
use crate::rule::{lemma_rules_ascend, lemma_tier, rule_at, tier, RULES};
use crate::size::{normalized, Size};
use crate::unit::{Base, Style, Unit};

verus! {

/// A whole number of units has that many times the bytes of the unit:
/// whatever its type, a magnitude that is a whole number and not negative
/// counts exactly.
pub proof fn law_whole_magnitude(n: int, multiplier: u64)
    requires
        0 <= n <= u64::MAX,
    ensures
        normalized(whole_of(n), Some(Double::of_int(n)), multiplier) == n * multiplier,
{
    lemma_pow2_wide();
    lemma_bit_length_below(n as nat, 64);
    assert(!Double::of_int(n).has_fraction());
}

/// A double that is a whole number counts as that number does: `2.0` of a unit
/// are as many bytes as `2` of it.
pub proof fn law_whole_double(double: Double, n: nat, multiplier: u64)
    requires
        double.sign >= 0,
        double.exponent <= 0,
        double.mantissa == n * pow2((-double.exponent) as nat),
    ensures
        normalized(double.whole(), Some(double), multiplier) == n * multiplier,
{
    let p = pow2((-double.exponent) as nat);
    lemma_pow2_pos((-double.exponent) as nat);
    lemma_fundamental_div_mod_converse(double.mantissa as int, p as int, n as int, 0);
    lemma_mul_inequality(1, p as int, n as int);
    if double.exponent == 0 {
        lemma2_to64();
        assert(double.magnitude().floor() == n) by (nonlinear_arith)
            requires
                double.magnitude().floor() == double.mantissa * p,
                double.mantissa == n * p,
                p == 1,
        ;
    }
    assert(0 * pow2(52) == 0);
}

/// Nothing of any unit is no bytes.
pub proof fn law_nothing(unit: Unit)
    ensures
        normalized(whole_of(0), Some(Double::of_int(0)), unit.multiplier()) == 0,
        normalized(
            (Double { mantissa: 0, exponent: 0, sign: 1 }).whole(),
            Some(Double { mantissa: 0, exponent: 0, sign: 1 }),
            unit.multiplier(),
        ) == 0,
{
    law_whole_magnitude(0, unit.multiplier());
    lemma2_to64();
    law_whole_double(Double { mantissa: 0, exponent: 0, sign: 1 }, 0, unit.multiplier());
}

/// The sum of two sizes has as many bytes as the two together.
pub proof fn law_sum<T: Magnitude, U: Magnitude>(a: Size<T>, b: Size<U>)
    requires
        a.fits(),
        b.fits(),
        a.byte_count() + b.byte_count() <= u64::MAX,
    ensures
        Size::Bytes((a.byte_count() + b.byte_count()) as u64).byte_count() == a.byte_count()
            + b.byte_count(),
{
    lemma_bytes_count((a.byte_count() + b.byte_count()) as u64);
}

/// A size times a whole number `k` that is not negative has `k` times its
/// bytes, whatever the type of the factor.
pub proof fn law_times<T: Magnitude, U: Magnitude>(a: Size<T>, factor: U, k: int)
    requires
        a.fits(),
        0 <= k <= u64::MAX,
        factor.as_whole() == whole_of(k),
        factor.as_double() == Some(Double::of_int(k)),
        a.byte_count() * k <= u64::MAX,
    ensures
        a.fits_times(&factor),
        multiplied(a.byte_count() as u64, factor.as_whole(), factor.as_double()) == a.byte_count()
            * k,
{
    law_whole_magnitude(k, a.byte_count() as u64);
    lemma_mul_is_commutative(a.byte_count() as int, k);
}

/// A size over a whole number `k` above zero has its bytes divided by `k` and
/// cut off toward zero, whatever the type of the divisor, where both numbers
/// are below `2^53`: so far doubles count exactly.
pub proof fn law_over<T: Magnitude, U: Magnitude>(a: Size<T>, divisor: U, k: int)
    requires
        a.fits(),
        a.byte_count() < 0x20_0000_0000_0000,
        0 < k < 0x20_0000_0000_0000,
        divisor.as_double() == Some(Double::of_int(k)),
    ensures
        divided(a.byte_count() as u64, divisor.as_double()->0) == a.byte_count() / (k as nat),
{
    lemma2_to64();
    lemma2_to64_rest();
    let b = a.byte_count();
    lemma_small_is_exact(b);
    lemma_small_is_exact(k as nat);
    if b == 0 {
        lemma_div_of0(k);
    } else {
        lemma_divided_whole(b, k as nat);
        lemma_div_is_ordered_by_denominator(b as int, 1, k);
    }
}

/// The tiers of a base ascend from zero to the largest byte count, and every
/// byte count has its tier between two bounds: the bound below is at most the
/// byte count, so a byte count that is a bound belongs to the tier above.
pub proof fn law_tiers(base: Base, bytes: u64)
    ensures
        rule_at(base, 0).less_than == 0,
        rule_at(base, RULES - 1).less_than == u64::MAX,
        forall|i: int, j: int|
            0 <= i < j < RULES ==> rule_at(base, i).less_than < rule_at(base, j).less_than,
        1 <= tier(base, bytes) < RULES,
        rule_at(base, tier(base, bytes) - 1).less_than <= bytes,
        tier(base, bytes) == RULES - 1 || bytes < rule_at(base, tier(base, bytes)).less_than,
{
    lemma_tier(base, bytes);
    lemma_rules_ascend(base, 0, 1);
    assert forall|i: int, j: int| 0 <= i < j < RULES implies rule_at(base, i).less_than < rule_at(
        base,
        j,
    ).less_than by {
        lemma_rules_ascend(base, i, j);
    }
}

/// A size written as text is read back as it was written: the text of a byte
/// count, in either base and in any style, is plain ASCII, and reading it
/// gives the digits of the number shown and the unit of the tier.
pub proof fn law_round_trip(bytes: u64, base: Base, style: Style)
    ensures
        is_ascii_chars(rendered(bytes, base, style)),
        size_in(encode_utf8(rendered(bytes, base, style))) == Ok::<(Numeral, Unit), ScanError>(
            (shown_numeral(bytes, base), rule_at(base, tier(base, bytes)).unit),
        ),
{
    lemma_round_trip(bytes, base, style);
}

/// A size written as text and read back comes to the bytes it was written
/// for, where the number shown is the size exactly, in quarters of its unit,
/// and the size is a double, as every size below `2^53` bytes is.
pub proof fn law_round_trip_bytes(bytes: u64, base: Base, style: Style)
    requires
        is_double(bytes as nat),
        shown_in_quarters(bytes, base),
    ensures
        size_in(encode_utf8(rendered(bytes, base, style))) == Ok::<(Numeral, Unit), ScanError>(
            (shown_numeral(bytes, base), rule_at(base, tier(base, bytes)).unit),
        ),
        read_bytes(shown_numeral(bytes, base), rule_at(base, tier(base, bytes)).unit) == bytes,
{
    lemma_round_trip(bytes, base, style);
    lemma_round_trip_bytes(bytes, base);
}

/// By the binary tiers, a size that is shown exactly comes back to the byte: a
/// hundredth of a power of two that is a whole number of bytes is a quarter
/// of it, and a size of three digits and a power of two is a double.
pub proof fn law_round_trip_binary(bytes: u64, style: Style)
    requires
        ({
            let r = rule_at(Base::Base2, tier(Base::Base2, bytes));
            shown(bytes, r.unit, r.precision as nat) * r.unit.multiplier() == bytes
                * power_of_ten(r.precision as nat)
        }),
    ensures
        size_in(encode_utf8(rendered(bytes, Base::Base2, style))) == Ok::<
            (Numeral, Unit),
            ScanError,
        >((shown_numeral(bytes, Base::Base2), rule_at(Base::Base2, tier(Base::Base2, bytes)).unit)),
        read_bytes(
            shown_numeral(bytes, Base::Base2),
            rule_at(Base::Base2, tier(Base::Base2, bytes)).unit,
        ) == bytes,
{
    lemma_binary_quarters(bytes);
    lemma_binary_double(bytes);
    law_round_trip_bytes(bytes, Base::Base2, style);
}

} // verus!
