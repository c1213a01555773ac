//! The numbers that a size can be made of.

use vstd::prelude::*;
use crate::double::Double;

verus! {

/// A number that can stand as the magnitude of a size. It is read through two
/// conversions, either of which may be missing: to an unsigned integer and to
/// a floating-point number.
pub trait Magnitude {
    /// The number as an unsigned 64-bit integer, where it is one.
    spec fn as_whole(&self) -> Option<u64>;

    /// The number as a floating-point number.
    spec fn as_double(&self) -> Option<Double>;

    fn to_u64(&self) -> (r: Option<u64>)
        ensures
            r == self.as_whole(),
    ;

    fn to_double(&self) -> (r: Option<Double>)
        ensures
            r == self.as_double(),
    ;
}

/// The integer `x` as an unsigned 64-bit integer, where it is in range.
pub open spec fn whole_of(x: int) -> Option<u64> {
    if 0 <= x <= u64::MAX {
        Some(x as u64)
    } else {
        None
    }
}

/// `num_traits::ToPrimitive::to_u64` on a 128-bit integer: the same number
/// where it is neither negative nor above `u64::MAX`, and nothing otherwise.
#[verifier::external_body]
fn unsigned(x: i128) -> (r: Option<u64>)
    ensures
        r == whole_of(x as int),
{
    num_traits::ToPrimitive::to_u64(&x)
}

impl Magnitude for u8 {
    open spec fn as_whole(&self) -> Option<u64> {
        whole_of(*self as int)
    }

    open spec fn as_double(&self) -> Option<Double> {
        Some(Double::of_int(*self as int))
    }

    fn to_u64(&self) -> (r: Option<u64>) {
        unsigned(*self as i128)
    }

    fn to_double(&self) -> (r: Option<Double>) {
        Some(Double::nearest(*self as i128))
    }
}

impl Magnitude for u16 {
    open spec fn as_whole(&self) -> Option<u64> {
        whole_of(*self as int)
    }

    open spec fn as_double(&self) -> Option<Double> {
        Some(Double::of_int(*self as int))
    }

    fn to_u64(&self) -> (r: Option<u64>) {
        unsigned(*self as i128)
    }

    fn to_double(&self) -> (r: Option<Double>) {
        Some(Double::nearest(*self as i128))
    }
}

impl Magnitude for u32 {
    open spec fn as_whole(&self) -> Option<u64> {
        whole_of(*self as int)
    }

    open spec fn as_double(&self) -> Option<Double> {
        Some(Double::of_int(*self as int))
    }

    fn to_u64(&self) -> (r: Option<u64>) {
        unsigned(*self as i128)
    }

    fn to_double(&self) -> (r: Option<Double>) {
        Some(Double::nearest(*self as i128))
    }
}

impl Magnitude for u64 {
    open spec fn as_whole(&self) -> Option<u64> {
        whole_of(*self as int)
    }

    open spec fn as_double(&self) -> Option<Double> {
        Some(Double::of_int(*self as int))
    }

    fn to_u64(&self) -> (r: Option<u64>) {
        unsigned(*self as i128)
    }

    fn to_double(&self) -> (r: Option<Double>) {
        Some(Double::nearest(*self as i128))
    }
}

impl Magnitude for usize {
    open spec fn as_whole(&self) -> Option<u64> {
        whole_of(*self as int)
    }

    open spec fn as_double(&self) -> Option<Double> {
        Some(Double::of_int(*self as int))
    }

    fn to_u64(&self) -> (r: Option<u64>) {
        unsigned(*self as i128)
    }

    fn to_double(&self) -> (r: Option<Double>) {
        Some(Double::nearest(*self as i128))
    }
}

impl Magnitude for i8 {
    open spec fn as_whole(&self) -> Option<u64> {
        whole_of(*self as int)
    }

    open spec fn as_double(&self) -> Option<Double> {
        Some(Double::of_int(*self as int))
    }

    fn to_u64(&self) -> (r: Option<u64>) {
        unsigned(*self as i128)
    }

    fn to_double(&self) -> (r: Option<Double>) {
        Some(Double::nearest(*self as i128))
    }
}

impl Magnitude for i16 {
    open spec fn as_whole(&self) -> Option<u64> {
        whole_of(*self as int)
    }

    open spec fn as_double(&self) -> Option<Double> {
        Some(Double::of_int(*self as int))
    }

    fn to_u64(&self) -> (r: Option<u64>) {
        unsigned(*self as i128)
    }

    fn to_double(&self) -> (r: Option<Double>) {
        Some(Double::nearest(*self as i128))
    }
}

impl Magnitude for i32 {
    open spec fn as_whole(&self) -> Option<u64> {
        whole_of(*self as int)
    }

    open spec fn as_double(&self) -> Option<Double> {
        Some(Double::of_int(*self as int))
    }

    fn to_u64(&self) -> (r: Option<u64>) {
        unsigned(*self as i128)
    }

    fn to_double(&self) -> (r: Option<Double>) {
        Some(Double::nearest(*self as i128))
    }
}

impl Magnitude for i64 {
    open spec fn as_whole(&self) -> Option<u64> {
        whole_of(*self as int)
    }

    open spec fn as_double(&self) -> Option<Double> {
        Some(Double::of_int(*self as int))
    }

    fn to_u64(&self) -> (r: Option<u64>) {
        unsigned(*self as i128)
    }

    fn to_double(&self) -> (r: Option<Double>) {
        Some(Double::nearest(*self as i128))
    }
}

impl Magnitude for isize {
    open spec fn as_whole(&self) -> Option<u64> {
        whole_of(*self as int)
    }

    open spec fn as_double(&self) -> Option<Double> {
        Some(Double::of_int(*self as int))
    }

    fn to_u64(&self) -> (r: Option<u64>) {
        unsigned(*self as i128)
    }

    fn to_double(&self) -> (r: Option<Double>) {
        Some(Double::nearest(*self as i128))
    }
}

impl Magnitude for Double {
    open spec fn as_whole(&self) -> Option<u64> {
        self.whole()
    }

    open spec fn as_double(&self) -> Option<Double> {
        Some(*self)
    }

    fn to_u64(&self) -> (r: Option<u64>) {
        self.truncated()
    }

    fn to_double(&self) -> (r: Option<Double>) {
        Some(*self)
    }
}

} // verus!
