//! Floating-point magnitudes, held as the integers that make them up.

use vstd::prelude::*;
use vstd::arithmetic::power2::*;
use vstd::arithmetic::div_mod::*;
use vstd::arithmetic::mul::*;
use crate::binary::{
    lemma_pow2_increases, lemma_pow2_wide, power_of_two, saturated, Binary, Dyadic,
};

verus! {

/// The integer without its sign.
pub open spec fn absolute(x: int) -> nat {
    if x < 0 {
        (-x) as nat
    } else {
        x as nat
    }
}

/// A double taken apart into its mantissa, its exponent of two and its sign:
/// the number is `sign * mantissa * 2^exponent`. A negative `sign` says that
/// the number is negative; any other says that it is not. Infinity is
/// `2^52 * 2^972`, one step beyond the largest double; any other mantissa at
/// that exponent is what doubles have for no number at all.
#[derive(Debug, Clone, Copy, PartialEq, Eq, Structural)]
pub struct Double {
    pub mantissa: u64,
    pub exponent: i16,
    pub sign: i8,
}

impl Double {
    /// The double with these parts.
    pub fn new(mantissa: u64, exponent: i16, sign: i8) -> (r: Double)
        ensures
            r == (Double { mantissa, exponent, sign }),
    {
        Double { mantissa, exponent, sign }
    }

    /// Whether the parts are those of no number.
    pub open spec fn spec_is_nan(&self) -> bool {
        self.exponent == 972 && self.mantissa != 0x10_0000_0000_0000
    }

    #[verifier::when_used_as_spec(spec_is_nan)]
    pub fn is_nan(&self) -> (r: bool)
        ensures
            r == self.spec_is_nan(),
    {
        self.exponent == 972 && self.mantissa != 0x10_0000_0000_0000
    }

    /// The number without its sign.
    pub open spec fn magnitude(&self) -> Dyadic {
        Dyadic { mantissa: self.mantissa as nat, exponent: self.exponent as int }
    }

    /// Whether what stands behind the binary point is more than the machine
    /// epsilon, `2^-52`. The fraction of a negative number counts as negative,
    /// so it never is.
    pub open spec fn spec_has_fraction(&self) -> bool {
        &&& self.sign >= 0
        &&& self.exponent < 0
        &&& (self.mantissa as nat % pow2((-self.exponent) as nat)) * pow2(52) > pow2(
            (-self.exponent) as nat,
        )
    }

    #[verifier::when_used_as_spec(spec_has_fraction)]
    pub fn has_fraction(&self) -> (r: bool)
        ensures
            r == self.spec_has_fraction(),
    {
        if self.sign < 0 || self.exponent >= 0 {
            return false;
        }
        let k: u32 = (-(self.exponent as i32)) as u32;
        proof {
            lemma_pow2_wide();
            lemma2_to64();
            lemma2_to64_rest();
            lemma_pow2_pos(k as nat);
        }
        if k >= 116 {
            proof {
                // what is left of the mantissa is below 2^64, and 2^64 * 2^52 = 2^116
                lemma_pow2_increases(116, k as nat);
                lemma_pow2_adds(64, 52);
                lemma_mod_bound(self.mantissa as int, pow2(k as nat) as int);
                lemma_mod_decreases(self.mantissa as nat, pow2(k as nat));
                lemma_mul_strict_inequality(
                    (self.mantissa as nat % pow2(k as nat)) as int,
                    pow2(64) as int,
                    pow2(52) as int,
                );
            }
            false
        } else {
            let p = power_of_two(k);
            let rest: u128 = (self.mantissa as u128) % p;
            proof {
                lemma_mod_decreases(self.mantissa as nat, p as nat);
                assert(rest * 0x10_0000_0000_0000 < 0x1_0000_0000_0000_0000 * 0x10_0000_0000_0000)
                    by (nonlinear_arith)
                    requires
                        rest < 0x1_0000_0000_0000_0000,
                ;
            }
            rest * 0x10_0000_0000_0000 > p
        }
    }

    /// The integer conversion: a number above -1 and below `2^64`, cut off
    /// toward zero; of any other number there is none.
    pub open spec fn whole(&self) -> Option<u64> {
        if self.sign < 0 {
            if self.magnitude().floor() == 0 {
                Some(0)
            } else {
                None
            }
        } else if self.magnitude().floor() <= u64::MAX {
            Some(self.magnitude().floor() as u64)
        } else {
            None
        }
    }

    /// The integer conversion.
    pub fn truncated(&self) -> (r: Option<u64>)
        ensures
            r == self.whole(),
    {
        let b = Binary { mantissa: self.mantissa, exponent: self.exponent as i32 };
        let cut = b.checked_floor();
        if self.sign < 0 {
            match cut {
                Some(0) => Some(0),
                _ => None,
            }
        } else {
            cut
        }
    }

    /// The floating-point product of the number without its sign and
    /// `multiplier`, cut off toward zero; what lies beyond 64 bits becomes the
    /// largest byte count, and no number becomes zero.
    pub open spec fn spec_scaled(&self, multiplier: u64) -> u64 {
        if self.is_nan() {
            0
        } else {
            saturated(self.magnitude().product(Dyadic::of(multiplier as nat)).floor())
        }
    }

    #[verifier::when_used_as_spec(spec_scaled)]
    pub fn scaled(&self, multiplier: u64) -> (r: u64)
        ensures
            r == self.spec_scaled(multiplier),
    {
        if self.is_nan() {
            return 0;
        }
        let m = Binary::of(multiplier);
        proof {
            assert(self.mantissa * m.mantissa < 0x1_0000_0000_0000_0000 * 0x20_0000_0000_0001)
                by (nonlinear_arith)
                requires
                    self.mantissa < 0x1_0000_0000_0000_0000,
                    m.mantissa < 0x20_0000_0000_0001,
            ;
        }
        let product = Binary::round(
            (self.mantissa as u128) * (m.mantissa as u128),
            self.exponent as i32 + m.exponent,
        );
        product.floor()
    }

    /// The integer `x` as a floating-point number: the nearest that there is.
    pub open spec fn of_int(x: int) -> Double {
        let d = Dyadic::of(absolute(x));
        Double {
            mantissa: d.mantissa as u64,
            exponent: d.exponent as i16,
            sign: if x < 0 {
                -1i8
            } else {
                1i8
            },
        }
    }

    /// The integer `x` as a floating-point number.
    pub fn nearest(x: i128) -> (r: Double)
        ensures
            r == Double::of_int(x as int),
            r.magnitude() == Dyadic::of(absolute(x as int)),
    {
        let size: u128 = if x < 0 {
            ((-(x + 1)) as u128) + 1
        } else {
            x as u128
        };
        let b = Binary::round(size, 0);
        Double {
            mantissa: b.mantissa,
            exponent: b.exponent as i16,
            sign: if x < 0 {
                -1
            } else {
                1
            },
        }
    }
}

} // verus!
