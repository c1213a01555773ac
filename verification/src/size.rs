//! A size: a magnitude and the unit it is counted in.

use vstd::prelude::*;
use crate::magnitude::Magnitude;
use crate::double::Double;
use crate::unit::Unit;

verus! {

/// A magnitude in one of the thirteen units.
#[derive(Debug)]
pub enum Size<T> {
    Bytes(T),
    Kibibytes(T),
    Kilobytes(T),
    Mebibytes(T),
    Megabytes(T),
    Gibibytes(T),
    Gigabytes(T),
    Tebibytes(T),
    Terabytes(T),
    Pebibytes(T),
    Petabytes(T),
    Exbibytes(T),
    Exabytes(T),
}

/// Whether a magnitude with these two conversions is counted as a
/// floating-point number: where its fraction is more than the machine epsilon,
/// and where it has no integer conversion.
pub open spec fn counts_as_double(whole: Option<u64>, double: Option<Double>) -> bool {
    match double {
        Some(f) => f.has_fraction() || whole is None,
        None => false,
    }
}

/// The number of bytes in `multiplier` times a magnitude with these two
/// conversions. A magnitude counted as a floating-point number is multiplied
/// without its sign and as doubles are, cut off toward zero, and stops at the
/// largest byte count; an integer is multiplied exactly. A magnitude with
/// neither conversion counts as nothing.
pub open spec fn normalized(whole: Option<u64>, double: Option<Double>, multiplier: u64) -> nat {
    if counts_as_double(whole, double) {
        double->0.scaled(multiplier) as nat
    } else {
        match whole {
            Some(i) => (i * multiplier) as nat,
            None => 0,
        }
    }
}

/// The number of bytes in `multiplier` times a magnitude with these two
/// conversions, where that fits 64 bits.
pub fn normalize(whole: Option<u64>, double: Option<Double>, multiplier: u64) -> (r: Option<u64>)
    ensures
        normalized(whole, double, multiplier) <= u64::MAX ==> r == Some(
            normalized(whole, double, multiplier) as u64,
        ),
        normalized(whole, double, multiplier) > u64::MAX ==> r is None,
{
    match double {
        Some(f) => {
            if f.has_fraction() || whole.is_none() {
                return Some(f.scaled(multiplier));
            }
        },
        None => {},
    }
    match whole {
        Some(i) => i.checked_mul(multiplier),
        None => Some(0),
    }
}

impl<T> Size<T> {
    /// The unit that the magnitude is counted in.
    pub open spec fn spec_unit(&self) -> Unit {
        match self {
            Size::Bytes(_) => Unit::Byte,
            Size::Kibibytes(_) => Unit::Kibibyte,
            Size::Kilobytes(_) => Unit::Kilobyte,
            Size::Mebibytes(_) => Unit::Mebibyte,
            Size::Megabytes(_) => Unit::Megabyte,
            Size::Gibibytes(_) => Unit::Gibibyte,
            Size::Gigabytes(_) => Unit::Gigabyte,
            Size::Tebibytes(_) => Unit::Tebibyte,
            Size::Terabytes(_) => Unit::Terabyte,
            Size::Pebibytes(_) => Unit::Pebibyte,
            Size::Petabytes(_) => Unit::Petabyte,
            Size::Exbibytes(_) => Unit::Exbibyte,
            Size::Exabytes(_) => Unit::Exabyte,
        }
    }

    #[verifier::when_used_as_spec(spec_unit)]
    pub fn unit(&self) -> (r: Unit)
        ensures
            r == self.spec_unit(),
    {
        match self {
            Size::Bytes(_) => Unit::Byte,
            Size::Kibibytes(_) => Unit::Kibibyte,
            Size::Kilobytes(_) => Unit::Kilobyte,
            Size::Mebibytes(_) => Unit::Mebibyte,
            Size::Megabytes(_) => Unit::Megabyte,
            Size::Gibibytes(_) => Unit::Gibibyte,
            Size::Gigabytes(_) => Unit::Gigabyte,
            Size::Tebibytes(_) => Unit::Tebibyte,
            Size::Terabytes(_) => Unit::Terabyte,
            Size::Pebibytes(_) => Unit::Pebibyte,
            Size::Petabytes(_) => Unit::Petabyte,
            Size::Exbibytes(_) => Unit::Exbibyte,
            Size::Exabytes(_) => Unit::Exabyte,
        }
    }

    /// The magnitude, whatever the unit.
    pub open spec fn spec_magnitude(&self) -> &T {
        match self {
            Size::Bytes(x) => x,
            Size::Kibibytes(x) => x,
            Size::Kilobytes(x) => x,
            Size::Mebibytes(x) => x,
            Size::Megabytes(x) => x,
            Size::Gibibytes(x) => x,
            Size::Gigabytes(x) => x,
            Size::Tebibytes(x) => x,
            Size::Terabytes(x) => x,
            Size::Pebibytes(x) => x,
            Size::Petabytes(x) => x,
            Size::Exbibytes(x) => x,
            Size::Exabytes(x) => x,
        }
    }

    #[verifier::when_used_as_spec(spec_magnitude)]
    pub fn magnitude(&self) -> (r: &T)
        ensures
            r == self.spec_magnitude(),
    {
        match self {
            Size::Bytes(x) => x,
            Size::Kibibytes(x) => x,
            Size::Kilobytes(x) => x,
            Size::Mebibytes(x) => x,
            Size::Megabytes(x) => x,
            Size::Gibibytes(x) => x,
            Size::Gigabytes(x) => x,
            Size::Tebibytes(x) => x,
            Size::Terabytes(x) => x,
            Size::Pebibytes(x) => x,
            Size::Petabytes(x) => x,
            Size::Exbibytes(x) => x,
            Size::Exabytes(x) => x,
        }
    }

    /// The size of `magnitude` times `unit`.
    pub fn from_unit(magnitude: T, unit: Unit) -> (r: Size<T>)
        ensures
            r.unit() == unit,
            *r.magnitude() == magnitude,
    {
        match unit {
            Unit::Byte => Size::Bytes(magnitude),
            Unit::Kibibyte => Size::Kibibytes(magnitude),
            Unit::Kilobyte => Size::Kilobytes(magnitude),
            Unit::Mebibyte => Size::Mebibytes(magnitude),
            Unit::Megabyte => Size::Megabytes(magnitude),
            Unit::Gibibyte => Size::Gibibytes(magnitude),
            Unit::Gigabyte => Size::Gigabytes(magnitude),
            Unit::Tebibyte => Size::Tebibytes(magnitude),
            Unit::Terabyte => Size::Terabytes(magnitude),
            Unit::Pebibyte => Size::Pebibytes(magnitude),
            Unit::Petabyte => Size::Petabytes(magnitude),
            Unit::Exbibyte => Size::Exbibytes(magnitude),
            Unit::Exabyte => Size::Exabytes(magnitude),
        }
    }
}

impl<T: Magnitude> Size<T> {
    /// The size in bytes, as a mathematical integer.
    pub open spec fn byte_count(&self) -> nat {
        normalized(
            self.magnitude().as_whole(),
            self.magnitude().as_double(),
            self.unit().multiplier(),
        )
    }

    /// Whether the size in bytes fits 64 bits. Only an integer magnitude can
    /// fail to.
    pub open spec fn fits(&self) -> bool {
        self.byte_count() <= u64::MAX
    }

    /// The size in bytes, where it fits 64 bits.
    pub fn checked_bytes(&self) -> (r: Option<u64>)
        ensures
            self.fits() ==> r == Some(self.byte_count() as u64),
            !self.fits() ==> r is None,
    {
        normalize(
            self.magnitude().to_u64(),
            self.magnitude().to_double(),
            self.unit().multiplier(),
        )
    }

    /// The size in bytes.
    pub fn bytes(&self) -> (r: u64)
        requires
            self.fits(),
        ensures
            r == self.byte_count(),
    {
        match self.checked_bytes() {
            Some(n) => n,
            None => 0,
        }
    }
}

/// `a == b`: two sizes are equal where both fit 64 bits and come to the same
/// number of bytes, whatever their units and the types of their magnitudes.
impl<T: Magnitude, U: Magnitude> PartialEq<Size<U>> for Size<T> {
    fn eq(&self, other: &Size<U>) -> (r: bool) {
        match (self.checked_bytes(), other.checked_bytes()) {
            (Some(a), Some(b)) => a == b,
            _ => false,
        }
    }
}

impl<T: Magnitude, U: Magnitude> vstd::std_specs::cmp::PartialEqSpecImpl<Size<U>> for Size<T> {
    open spec fn obeys_eq_spec() -> bool {
        true
    }

    /// Two sizes are equal where both fit 64 bits and come to the same number
    /// of bytes.
    open spec fn eq_spec(&self, other: &Size<U>) -> bool {
        self.fits() && other.fits() && self.byte_count() == other.byte_count()
    }
}

} // verus!
