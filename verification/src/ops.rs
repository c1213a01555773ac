//! Arithmetic on sizes: the sum of two sizes, and a size times or over a number.

use core::ops::{Add, Div, Mul};
use vstd::prelude::*;
use vstd::std_specs::ops::{AddSpecImpl, DivSpecImpl, MulSpecImpl};
use crate::binary::{lemma_bit_length_below, lemma_pow2_wide, saturated, Binary, Dyadic};
use crate::double::Double;
use crate::magnitude::Magnitude;
use crate::size::{normalize, normalized, Size};

verus! {

/// `bytes` times a number with the two conversions `whole` and `double`: the
/// number is counted as a magnitude is, in units of `bytes`.
pub open spec fn multiplied(bytes: u64, whole: Option<u64>, double: Option<Double>) -> nat {
    normalized(whole, double, bytes)
}

/// `bytes` over the number `divisor` without its sign, divided as doubles are
/// and cut off toward zero. Over zero, nothing stays nothing and anything else
/// becomes the largest byte count.
pub open spec fn divided(bytes: u64, divisor: Double) -> u64 {
    if bytes == 0 {
        0
    } else if divisor.mantissa == 0 {
        u64::MAX
    } else {
        saturated(Dyadic::of(bytes as nat).quotient(divisor.magnitude()).floor())
    }
}

/// A byte count over a double.
pub fn quotient(bytes: u64, divisor: &Double) -> (r: u64)
    ensures
        r == divided(bytes, *divisor),
{
    if bytes == 0 {
        0
    } else if divisor.mantissa == 0 {
        u64::MAX
    } else {
        let b = Binary::of(bytes);
        let q = Binary::ratio(b.mantissa, divisor.mantissa);
        let q = Binary {
            mantissa: q.mantissa,
            exponent: q.exponent + b.exponent - divisor.exponent as i32,
        };
        q.floor()
    }
}

/// A number of bytes, as a size, comes to that number of bytes.
pub proof fn lemma_bytes_count(n: u64)
    ensures
        Size::Bytes(n).byte_count() == n,
        Size::Bytes(n).fits(),
{
    lemma_pow2_wide();
    lemma_bit_length_below(n as nat, 64);
    assert(!Double::of_int(n as int).has_fraction());
    assert(n * 1 == n);
}

impl<T: Magnitude> Size<T> {
    /// The sum of two sizes, in bytes.
    pub fn plus<U: Magnitude>(&self, other: &Size<U>) -> (r: Size<u64>)
        requires
            self.fits(),
            other.fits(),
            self.byte_count() + other.byte_count() <= u64::MAX,
        ensures
            r == Size::Bytes((self.byte_count() + other.byte_count()) as u64),
            r.byte_count() == self.byte_count() + other.byte_count(),
    {
        let total = self.bytes() + other.bytes();
        proof {
            lemma_bytes_count(total);
        }
        Size::Bytes(total)
    }

    /// The sum of two sizes, in bytes, where both and their sum fit 64 bits.
    pub fn checked_plus<U: Magnitude>(&self, other: &Size<U>) -> (r: Option<Size<u64>>)
        ensures
            self.fits() && other.fits() && self.byte_count() + other.byte_count() <= u64::MAX
                ==> r == Some(Size::Bytes((self.byte_count() + other.byte_count()) as u64)),
            !(self.fits() && other.fits() && self.byte_count() + other.byte_count() <= u64::MAX)
                ==> r is None,
    {
        match (self.checked_bytes(), other.checked_bytes()) {
            (Some(a), Some(b)) => match a.checked_add(b) {
                Some(total) => Some(Size::Bytes(total)),
                None => None,
            },
            _ => None,
        }
    }

    /// Whether this size times `factor` fits 64 bits.
    pub open spec fn fits_times<U: Magnitude>(&self, factor: &U) -> bool {
        &&& self.fits()
        &&& multiplied(self.byte_count() as u64, factor.as_whole(), factor.as_double())
            <= u64::MAX
    }

    /// This size times `factor`, in bytes.
    pub fn times<U: Magnitude>(&self, factor: &U) -> (r: Size<u64>)
        requires
            self.fits_times(factor),
        ensures
            r == Size::Bytes(
                multiplied(self.byte_count() as u64, factor.as_whole(), factor.as_double()) as u64,
            ),
            r.byte_count() == multiplied(
                self.byte_count() as u64,
                factor.as_whole(),
                factor.as_double(),
            ),
    {
        let product = match normalize(factor.to_u64(), factor.to_double(), self.bytes()) {
            Some(n) => n,
            None => 0,
        };
        proof {
            lemma_bytes_count(product);
        }
        Size::Bytes(product)
    }

    /// This size times `factor`, in bytes, where that fits 64 bits.
    pub fn checked_times<U: Magnitude>(&self, factor: &U) -> (r: Option<Size<u64>>)
        ensures
            self.fits_times(factor) ==> r == Some(
                Size::Bytes(
                    multiplied(self.byte_count() as u64, factor.as_whole(), factor.as_double())
                        as u64,
                ),
            ),
            !self.fits_times(factor) ==> r is None,
    {
        match self.checked_bytes() {
            Some(bytes) => match normalize(factor.to_u64(), factor.to_double(), bytes) {
                Some(product) => Some(Size::Bytes(product)),
                None => None,
            },
            None => None,
        }
    }

    /// This size over `divisor`, in bytes, where the size fits 64 bits and the
    /// divisor has a double.
    pub fn checked_over<U: Magnitude>(&self, divisor: &U) -> (r: Option<Size<u64>>)
        ensures
            self.fits() && divisor.as_double() is Some ==> r == Some(
                Size::Bytes(divided(self.byte_count() as u64, divisor.as_double()->0)),
            ),
            !(self.fits() && divisor.as_double() is Some) ==> r is None,
    {
        match (self.checked_bytes(), divisor.to_double()) {
            (Some(bytes), Some(by)) => Some(Size::Bytes(quotient(bytes, &by))),
            _ => None,
        }
    }

    /// This size over `divisor`, in bytes.
    pub fn over<U: Magnitude>(&self, divisor: &U) -> (r: Size<u64>)
        requires
            self.fits(),
            divisor.as_double() is Some,
        ensures
            r == Size::Bytes(divided(self.byte_count() as u64, divisor.as_double()->0)),
            r.byte_count() == divided(self.byte_count() as u64, divisor.as_double()->0),
    {
        let by = match divisor.to_double() {
            Some(f) => f,
            None => Double { mantissa: 0, exponent: 0, sign: 1 },
        };
        let over = quotient(self.bytes(), &by);
        proof {
            lemma_bytes_count(over);
        }
        Size::Bytes(over)
    }
}

/// `a + b`: the sum of two sizes, in bytes.
impl<T: Magnitude, U: Magnitude> Add<Size<U>> for Size<T> {
    type Output = Size<u64>;

    fn add(self, other: Size<U>) -> (r: Size<u64>) {
        self.plus(&other)
    }
}

impl<T: Magnitude, U: Magnitude> AddSpecImpl<Size<U>> for Size<T> {
    open spec fn obeys_add_spec() -> bool {
        true
    }

    open spec fn add_req(self, other: Size<U>) -> bool {
        self.fits() && other.fits() && self.byte_count() + other.byte_count() <= u64::MAX
    }

    open spec fn add_spec(self, other: Size<U>) -> Size<u64> {
        Size::Bytes((self.byte_count() + other.byte_count()) as u64)
    }
}

/// `&a + &b`: the sum of two sizes, in bytes.
impl<'a, 'b, T: Magnitude, U: Magnitude> Add<&'b Size<U>> for &'a Size<T> {
    type Output = Size<u64>;

    fn add(self, other: &'b Size<U>) -> (r: Size<u64>) {
        self.plus(other)
    }
}

impl<'a, 'b, T: Magnitude, U: Magnitude> AddSpecImpl<&'b Size<U>> for &'a Size<T> {
    open spec fn obeys_add_spec() -> bool {
        true
    }

    open spec fn add_req(self, other: &'b Size<U>) -> bool {
        self.fits() && other.fits() && self.byte_count() + other.byte_count() <= u64::MAX
    }

    open spec fn add_spec(self, other: &'b Size<U>) -> Size<u64> {
        Size::Bytes((self.byte_count() + other.byte_count()) as u64)
    }
}

/// `a * k`: a size times a number, in bytes.
impl<T: Magnitude, U: Magnitude> Mul<U> for Size<T> {
    type Output = Size<u64>;

    fn mul(self, factor: U) -> (r: Size<u64>) {
        self.times(&factor)
    }
}

impl<T: Magnitude, U: Magnitude> MulSpecImpl<U> for Size<T> {
    open spec fn obeys_mul_spec() -> bool {
        true
    }

    open spec fn mul_req(self, factor: U) -> bool {
        self.fits_times(&factor)
    }

    open spec fn mul_spec(self, factor: U) -> Size<u64> {
        Size::Bytes(
            multiplied(self.byte_count() as u64, factor.as_whole(), factor.as_double()) as u64,
        )
    }
}

/// `&a * k`: a size times a number, in bytes.
impl<'a, T: Magnitude, U: Magnitude> Mul<U> for &'a Size<T> {
    type Output = Size<u64>;

    fn mul(self, factor: U) -> (r: Size<u64>) {
        self.times(&factor)
    }
}

impl<'a, T: Magnitude, U: Magnitude> MulSpecImpl<U> for &'a Size<T> {
    open spec fn obeys_mul_spec() -> bool {
        true
    }

    open spec fn mul_req(self, factor: U) -> bool {
        self.fits_times(&factor)
    }

    open spec fn mul_spec(self, factor: U) -> Size<u64> {
        Size::Bytes(
            multiplied(self.byte_count() as u64, factor.as_whole(), factor.as_double()) as u64,
        )
    }
}

/// `a / k`: a size over a number, in bytes.
impl<T: Magnitude, U: Magnitude> Div<U> for Size<T> {
    type Output = Size<u64>;

    fn div(self, divisor: U) -> (r: Size<u64>) {
        self.over(&divisor)
    }
}

impl<T: Magnitude, U: Magnitude> DivSpecImpl<U> for Size<T> {
    open spec fn obeys_div_spec() -> bool {
        true
    }

    open spec fn div_req(self, divisor: U) -> bool {
        self.fits() && divisor.as_double() is Some
    }

    open spec fn div_spec(self, divisor: U) -> Size<u64> {
        Size::Bytes(divided(self.byte_count() as u64, divisor.as_double()->0))
    }
}

/// `&a / k`: a size over a number, in bytes.
impl<'a, T: Magnitude, U: Magnitude> Div<U> for &'a Size<T> {
    type Output = Size<u64>;

    fn div(self, divisor: U) -> (r: Size<u64>) {
        self.over(&divisor)
    }
}

impl<'a, T: Magnitude, U: Magnitude> DivSpecImpl<U> for &'a Size<T> {
    open spec fn obeys_div_spec() -> bool {
        true
    }

    open spec fn div_req(self, divisor: U) -> bool {
        self.fits() && divisor.as_double() is Some
    }

    open spec fn div_spec(self, divisor: U) -> Size<u64> {
        Size::Bytes(divided(self.byte_count() as u64, divisor.as_double()->0))
    }
}

/// `k * a`, for a whole number `k`.
impl<T: Magnitude> Mul<Size<T>> for i64 {
    type Output = Size<u64>;

    fn mul(self, size: Size<T>) -> (r: Size<u64>) {
        size.times(&self)
    }
}

impl<T: Magnitude> MulSpecImpl<Size<T>> for i64 {
    open spec fn obeys_mul_spec() -> bool {
        true
    }

    open spec fn mul_req(self, size: Size<T>) -> bool {
        size.fits_times(&self)
    }

    open spec fn mul_spec(self, size: Size<T>) -> Size<u64> {
        Size::Bytes(multiplied(size.byte_count() as u64, self.as_whole(), self.as_double()) as u64)
    }
}

/// `k * a`, for a double `k`.
impl<T: Magnitude> Mul<Size<T>> for Double {
    type Output = Size<u64>;

    fn mul(self, size: Size<T>) -> (r: Size<u64>) {
        size.times(&self)
    }
}

impl<T: Magnitude> MulSpecImpl<Size<T>> for Double {
    open spec fn obeys_mul_spec() -> bool {
        true
    }

    open spec fn mul_req(self, size: Size<T>) -> bool {
        size.fits_times(&self)
    }

    open spec fn mul_spec(self, size: Size<T>) -> Size<u64> {
        Size::Bytes(multiplied(size.byte_count() as u64, self.as_whole(), self.as_double()) as u64)
    }
}

} // verus!
