//! Sizes as text: the number at its tier's precision, then the unit.

use vstd::prelude::*;
use vstd::string::*;
use crate::binary::{Binary, Dyadic};
use crate::magnitude::Magnitude;
use crate::rule::{lemma_rule_shape, rule, rule_at, select, tier};
use crate::size::Size;
use crate::unit::{Base, Style, Unit};

verus! {

/// The digit that stands for a number below ten.
pub open spec fn digit(d: nat) -> char {
    if d == 0 {
        '0'
    } else if d == 1 {
        '1'
    } else if d == 2 {
        '2'
    } else if d == 3 {
        '3'
    } else if d == 4 {
        '4'
    } else if d == 5 {
        '5'
    } else if d == 6 {
        '6'
    } else if d == 7 {
        '7'
    } else if d == 8 {
        '8'
    } else {
        '9'
    }
}

/// A number in decimal digits, without leading zeros.
pub open spec fn decimal(n: nat) -> Seq<char>
    decreases n,
{
    if n < 10 {
        seq![digit(n)]
    } else {
        decimal(n / 10).push(digit(n % 10))
    }
}

/// The last `width` decimal digits of a number, zeros included.
pub open spec fn padded(n: nat, width: nat) -> Seq<char>
    decreases width,
{
    if width == 0 {
        Seq::<char>::empty()
    } else {
        padded(n / 10, (width - 1) as nat).push(digit(n % 10))
    }
}

/// Ten to the power `p`.
pub open spec fn power_of_ten(p: nat) -> nat
    decreases p,
{
    if p == 0 {
        1
    } else {
        10 * power_of_ten((p - 1) as nat)
    }
}

/// The number that is shown for `bytes` in `unit`, counted in steps of
/// `10^-precision`. Bytes are counted exactly. Any other unit divides as
/// doubles do: the byte count and the quotient are each rounded to 53 bits,
/// and the quotient is then rounded to the precision, a tie to the even digit.
pub open spec fn shown(bytes: u64, unit: Unit, precision: nat) -> nat {
    if unit == Unit::Byte {
        bytes as nat * power_of_ten(precision)
    } else if bytes == 0 {
        0
    } else {
        Dyadic::of(bytes as nat).quotient(
            Dyadic { mantissa: unit.multiplier() as nat, exponent: 0 },
        ).times(power_of_ten(precision)).nearest()
    }
}

/// A number counted in steps of `10^-precision`, written with a point and
/// `precision` digits behind it, and with neither where `precision` is zero.
pub open spec fn numeral(steps: nat, precision: nat) -> Seq<char> {
    if precision == 0 {
        decimal(steps)
    } else {
        decimal(steps / power_of_ten(precision)) + seq!['.'] + padded(
            steps % power_of_ten(precision),
            precision,
        )
    }
}

/// A byte count as text: the number that its tier shows, and the unit in the
/// given style, in the singular where the number shown is exactly one.
pub open spec fn rendered(bytes: u64, base: Base, style: Style) -> Seq<char> {
    let r = rule_at(base, tier(base, bytes));
    let steps = shown(bytes, r.unit, r.precision as nat);
    numeral(steps, r.precision as nat) + r.unit.suffix(
        steps == power_of_ten(r.precision as nat),
        style,
    )
}

fn digit_text(d: u8) -> (r: &'static str)
    requires
        d < 10,
    ensures
        r@ == seq![digit(d as nat)],
{
    proof {
        reveal_strlit("0");
        reveal_strlit("1");
        reveal_strlit("2");
        reveal_strlit("3");
        reveal_strlit("4");
        reveal_strlit("5");
        reveal_strlit("6");
        reveal_strlit("7");
        reveal_strlit("8");
        reveal_strlit("9");
    }
    let r = match d {
        0 => "0",
        1 => "1",
        2 => "2",
        3 => "3",
        4 => "4",
        5 => "5",
        6 => "6",
        7 => "7",
        8 => "8",
        _ => "9",
    };
    assert(r@ =~= seq![digit(d as nat)]);
    r
}

/// Appends a number in decimal digits.
pub fn write_decimal(out: &mut String, n: u128)
    ensures
        final(out)@ == old(out)@ + decimal(n as nat),
    decreases n,
{
    if n >= 10 {
        write_decimal(out, n / 10);
    }
    out.append(digit_text((n % 10) as u8));
    assert(final(out)@ =~= old(out)@ + decimal(n as nat));
}

/// Appends the last `width` digits of a number.
pub fn write_padded(out: &mut String, n: u128, width: u32)
    ensures
        final(out)@ == old(out)@ + padded(n as nat, width as nat),
    decreases width,
{
    if width > 0 {
        write_padded(out, n / 10, width - 1);
        out.append(digit_text((n % 10) as u8));
    }
    assert(final(out)@ =~= old(out)@ + padded(n as nat, width as nat));
}

/// Ten to a power of at most two.
pub fn ten_to(precision: u32) -> (r: u64)
    requires
        precision <= 2,
    ensures
        r == power_of_ten(precision as nat),
        1 <= r <= 100,
{
    reveal_with_fuel(power_of_ten, 4);
    match precision {
        0 => 1,
        1 => 10,
        _ => 100,
    }
}

/// The number shown for `bytes` in `unit`, in steps of `10^-precision`.
pub fn quantity(bytes: u64, unit: &Unit, precision: u32) -> (r: u128)
    requires
        precision <= 2,
    ensures
        r == shown(bytes, *unit, precision as nat),
{
    let scale = ten_to(precision);
    match unit {
        Unit::Byte => {
            assert(bytes * scale <= u64::MAX * 100) by (nonlinear_arith)
                requires
                    scale <= 100,
            ;
            (bytes as u128) * (scale as u128)
        },
        _ => {
            if bytes == 0 {
                0
            } else {
                let b = Binary::of(bytes);
                let q = Binary::ratio(b.mantissa, unit.multiplier());
                let q = Binary { mantissa: q.mantissa, exponent: q.exponent + b.exponent };
                q.nearest_times(scale)
            }
        },
    }
}

/// Appends a number counted in steps of `10^-precision`.
pub fn write_numeral(out: &mut String, steps: u128, precision: u32)
    requires
        precision <= 2,
    ensures
        final(out)@ == old(out)@ + numeral(steps as nat, precision as nat),
{
    if precision == 0 {
        write_decimal(out, steps);
    } else {
        let scale = ten_to(precision) as u128;
        write_decimal(out, steps / scale);
        proof {
            reveal_strlit(".");
        }
        out.append(".");
        write_padded(out, steps % scale, precision);
        assert(final(out)@ =~= old(out)@ + numeral(steps as nat, precision as nat));
    }
}

/// A byte count as text.
pub fn render(bytes: u64, base: &Base, style: &Style) -> (r: String)
    ensures
        r@ == rendered(bytes, *base, *style),
{
    let index = select(bytes, base);
    let found = rule(base, index);
    proof {
        lemma_rule_shape(*base, index as int);
    }
    let steps = quantity(bytes, &found.unit, found.precision);
    let mut out = String::new();
    write_numeral(&mut out, steps, found.precision);
    let singular = steps == ten_to(found.precision) as u128;
    let unit = found.unit.format(singular, style);
    out.append(unit.as_str());
    assert(out@ =~= rendered(bytes, *base, *style));
    out
}

impl<T: Magnitude> Size<T> {
    /// The size as text, by the tiers of `base` and in the given style.
    pub fn format(&self, base: &Base, style: &Style) -> (r: String)
        requires
            self.fits(),
        ensures
            r@ == rendered(self.byte_count() as u64, *base, *style),
    {
        render(self.bytes(), base, style)
    }

    /// The size as text, by the tiers of `base` and in the given style.
    pub fn to_string(&self, base: Base, style: Style) -> (r: String)
        requires
            self.fits(),
        ensures
            r@ == rendered(self.byte_count() as u64, base, style),
    {
        self.format(&base, &style)
    }

    /// The size as text, where its bytes fit 64 bits.
    pub fn checked_to_string(&self, base: Base, style: Style) -> (r: Option<String>)
        ensures
            self.fits() ==> r is Some && r->0@ == rendered(
                self.byte_count() as u64,
                base,
                style,
            ),
            !self.fits() ==> r is None,
    {
        match self.checked_bytes() {
            Some(bytes) => Some(render(bytes, &base, &style)),
            None => None,
        }
    }

    /// The size as text, by the binary tiers and with the unit abbreviated.
    pub fn display(&self) -> (r: String)
        requires
            self.fits(),
        ensures
            r@ == rendered(self.byte_count() as u64, Base::Base2, Style::Smart),
    {
        self.format(&Base::Base2, &Style::Smart)
    }
}

} // verus!
