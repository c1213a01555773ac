//! The scale rules: which unit and how many fractional digits a byte count is
//! shown with.

use vstd::prelude::*;
use crate::unit::{
    Base, Unit, EXABYTE, EXBIBYTE, GIBIBYTE, GIGABYTE, KIBIBYTE, KILOBYTE, MEBIBYTE, MEGABYTE,
    PEBIBYTE, PETABYTE, TEBIBYTE, TERABYTE,
};

verus! {

/// The number of rules in the table of a base.
pub const RULES: usize = 19;

/// One tier of the scale: byte counts below `less_than`, and not below the
/// bound of the rule before, are shown in `unit` with `precision` digits
/// behind the point.
#[derive(Debug, Clone, Copy, PartialEq, Eq, Structural)]
pub struct FormatRule {
    pub less_than: u64,
    pub precision: u32,
    pub unit: Unit,
}

impl Base {
    /// The unit of the given rank in this family: the byte at rank 0, then
    /// kilo or kibi, up to exa or exbi at rank 6.
    pub open spec fn spec_unit(&self, rank: int) -> Unit {
        match self {
            Base::Base2 => if rank <= 0 {
                Unit::Byte
            } else if rank == 1 {
                Unit::Kibibyte
            } else if rank == 2 {
                Unit::Mebibyte
            } else if rank == 3 {
                Unit::Gibibyte
            } else if rank == 4 {
                Unit::Tebibyte
            } else if rank == 5 {
                Unit::Pebibyte
            } else {
                Unit::Exbibyte
            },
            Base::Base10 => if rank <= 0 {
                Unit::Byte
            } else if rank == 1 {
                Unit::Kilobyte
            } else if rank == 2 {
                Unit::Megabyte
            } else if rank == 3 {
                Unit::Gigabyte
            } else if rank == 4 {
                Unit::Terabyte
            } else if rank == 5 {
                Unit::Petabyte
            } else {
                Unit::Exabyte
            },
        }
    }
}

/// The rule at `index` in the table of `base`. The table opens with a rule
/// that no byte count falls under, and the rule for plain bytes. Each unit
/// then has three tiers: below ten of it with two fractional digits, below a
/// hundred with one, and below one of the next unit with none. The largest
/// unit has no third tier, and its second is open at the top.
pub open spec fn rule_at(base: Base, index: int) -> FormatRule {
    let rank = (index + 1) / 3;
    let unit = base.spec_unit(rank);
    if index <= 0 {
        FormatRule { less_than: 0, precision: 0, unit: Unit::Byte }
    } else if index == 1 {
        FormatRule { less_than: base.spec_unit(1).multiplier(), precision: 0, unit: Unit::Byte }
    } else if index >= RULES - 1 {
        FormatRule { less_than: u64::MAX, precision: 1, unit: base.spec_unit(6) }
    } else if index % 3 == 2 {
        FormatRule { less_than: (10 * unit.multiplier()) as u64, precision: 2, unit }
    } else if index % 3 == 0 {
        FormatRule { less_than: (100 * unit.multiplier()) as u64, precision: 1, unit }
    } else {
        FormatRule { less_than: base.spec_unit(rank + 1).multiplier(), precision: 0, unit }
    }
}

/// The bounds of a table ascend strictly, from zero to the largest byte count.
pub proof fn lemma_rules_ascend(base: Base, i: int, j: int)
    requires
        0 <= i < j < RULES,
    ensures
        rule_at(base, i).less_than < rule_at(base, j).less_than,
        rule_at(base, 0).less_than == 0,
        rule_at(base, RULES - 1).less_than == u64::MAX,
    decreases j - i,
{
    if i + 1 < j {
        lemma_rules_ascend(base, i + 1, j);
    }
    lemma_rules_step(base, i);
}

proof fn lemma_rules_step(base: Base, i: int)
    requires
        0 <= i < RULES - 1,
    ensures
        rule_at(base, i).less_than < rule_at(base, i + 1).less_than,
{
}

/// A rule's unit is at least one byte, and its precision at most two digits.
pub proof fn lemma_rule_shape(base: Base, index: int)
    ensures
        rule_at(base, index).precision <= 2,
        rule_at(base, index).unit == Unit::Byte ==> rule_at(base, index).precision == 0,
        index >= 2 ==> rule_at(base, index).unit != Unit::Byte,
{
}

/// The table of the binary or of the decimal family.
pub fn rule(base: &Base, index: usize) -> (r: FormatRule)
    requires
        index < RULES,
    ensures
        r == rule_at(*base, index as int),
{
    match base {
        Base::Base10 => match index {
            0 => FormatRule { less_than: 0, precision: 0, unit: Unit::Byte },
            1 => FormatRule { less_than: 1 * KILOBYTE, precision: 0, unit: Unit::Byte },
            2 => FormatRule { less_than: 10 * KILOBYTE, precision: 2, unit: Unit::Kilobyte },
            3 => FormatRule { less_than: 100 * KILOBYTE, precision: 1, unit: Unit::Kilobyte },
            4 => FormatRule { less_than: 1 * MEGABYTE, precision: 0, unit: Unit::Kilobyte },
            5 => FormatRule { less_than: 10 * MEGABYTE, precision: 2, unit: Unit::Megabyte },
            6 => FormatRule { less_than: 100 * MEGABYTE, precision: 1, unit: Unit::Megabyte },
            7 => FormatRule { less_than: 1 * GIGABYTE, precision: 0, unit: Unit::Megabyte },
            8 => FormatRule { less_than: 10 * GIGABYTE, precision: 2, unit: Unit::Gigabyte },
            9 => FormatRule { less_than: 100 * GIGABYTE, precision: 1, unit: Unit::Gigabyte },
            10 => FormatRule { less_than: 1 * TERABYTE, precision: 0, unit: Unit::Gigabyte },
            11 => FormatRule { less_than: 10 * TERABYTE, precision: 2, unit: Unit::Terabyte },
            12 => FormatRule { less_than: 100 * TERABYTE, precision: 1, unit: Unit::Terabyte },
            13 => FormatRule { less_than: 1 * PETABYTE, precision: 0, unit: Unit::Terabyte },
            14 => FormatRule { less_than: 10 * PETABYTE, precision: 2, unit: Unit::Petabyte },
            15 => FormatRule { less_than: 100 * PETABYTE, precision: 1, unit: Unit::Petabyte },
            16 => FormatRule { less_than: 1 * EXABYTE, precision: 0, unit: Unit::Petabyte },
            17 => FormatRule { less_than: 10 * EXABYTE, precision: 2, unit: Unit::Exabyte },
            _ => FormatRule { less_than: u64::MAX, precision: 1, unit: Unit::Exabyte },
        },
        Base::Base2 => match index {
            0 => FormatRule { less_than: 0, precision: 0, unit: Unit::Byte },
            1 => FormatRule { less_than: 1 * KIBIBYTE, precision: 0, unit: Unit::Byte },
            2 => FormatRule { less_than: 10 * KIBIBYTE, precision: 2, unit: Unit::Kibibyte },
            3 => FormatRule { less_than: 100 * KIBIBYTE, precision: 1, unit: Unit::Kibibyte },
            4 => FormatRule { less_than: 1 * MEBIBYTE, precision: 0, unit: Unit::Kibibyte },
            5 => FormatRule { less_than: 10 * MEBIBYTE, precision: 2, unit: Unit::Mebibyte },
            6 => FormatRule { less_than: 100 * MEBIBYTE, precision: 1, unit: Unit::Mebibyte },
            7 => FormatRule { less_than: 1 * GIBIBYTE, precision: 0, unit: Unit::Mebibyte },
            8 => FormatRule { less_than: 10 * GIBIBYTE, precision: 2, unit: Unit::Gibibyte },
            9 => FormatRule { less_than: 100 * GIBIBYTE, precision: 1, unit: Unit::Gibibyte },
            10 => FormatRule { less_than: 1 * TEBIBYTE, precision: 0, unit: Unit::Gibibyte },
            11 => FormatRule { less_than: 10 * TEBIBYTE, precision: 2, unit: Unit::Tebibyte },
            12 => FormatRule { less_than: 100 * TEBIBYTE, precision: 1, unit: Unit::Tebibyte },
            13 => FormatRule { less_than: 1 * PEBIBYTE, precision: 0, unit: Unit::Tebibyte },
            14 => FormatRule { less_than: 10 * PEBIBYTE, precision: 2, unit: Unit::Pebibyte },
            15 => FormatRule { less_than: 100 * PEBIBYTE, precision: 1, unit: Unit::Pebibyte },
            16 => FormatRule { less_than: 1 * EXBIBYTE, precision: 0, unit: Unit::Pebibyte },
            17 => FormatRule { less_than: 10 * EXBIBYTE, precision: 2, unit: Unit::Exbibyte },
            _ => FormatRule { less_than: u64::MAX, precision: 1, unit: Unit::Exbibyte },
        },
    }
}

/// The first index from `from` on whose bound is above `bytes`, and the last
/// index of the table where there is none.
pub open spec fn first_above(base: Base, bytes: u64, from: int) -> int
    decreases RULES - from,
{
    if from >= RULES - 1 {
        RULES - 1
    } else if bytes < rule_at(base, from).less_than {
        from
    } else {
        first_above(base, bytes, from + 1)
    }
}

/// The index of the rule that `bytes` falls under: the first rule whose bound
/// is above it. A byte count that is a bound belongs to the rule above; the
/// largest byte count of all belongs to the last rule.
pub open spec fn tier(base: Base, bytes: u64) -> int {
    first_above(base, bytes, 1)
}

/// Between two bounds there is one tier: the index `t` with the bound before
/// it at most `bytes`, and its own bound above `bytes` unless it is the last.
pub proof fn lemma_tier_is(base: Base, bytes: u64, t: int)
    requires
        1 <= t < RULES,
        rule_at(base, t - 1).less_than <= bytes,
        t == RULES - 1 || bytes < rule_at(base, t).less_than,
    ensures
        tier(base, bytes) == t,
{
    lemma_first_above(base, bytes, 1, t);
}

proof fn lemma_first_above(base: Base, bytes: u64, from: int, t: int)
    requires
        1 <= from <= t < RULES,
        rule_at(base, t - 1).less_than <= bytes,
        t == RULES - 1 || bytes < rule_at(base, t).less_than,
    ensures
        first_above(base, bytes, from) == t,
    decreases t - from,
{
    if from < t {
        if from < t - 1 {
            lemma_rules_ascend(base, from, t - 1);
        }
        lemma_first_above(base, bytes, from + 1, t);
    }
}

/// The tier of a byte count lies between its two bounds.
pub proof fn lemma_tier(base: Base, bytes: u64)
    ensures
        1 <= tier(base, bytes) < RULES,
        rule_at(base, tier(base, bytes) - 1).less_than <= bytes,
        tier(base, bytes) == RULES - 1 || bytes < rule_at(base, tier(base, bytes)).less_than,
{
    lemma_tier_from(base, bytes, 1);
}

proof fn lemma_tier_from(base: Base, bytes: u64, from: int)
    requires
        1 <= from < RULES,
        rule_at(base, from - 1).less_than <= bytes,
    ensures
        from <= first_above(base, bytes, from) < RULES,
        rule_at(base, first_above(base, bytes, from) - 1).less_than <= bytes,
        first_above(base, bytes, from) == RULES - 1 || bytes < rule_at(
            base,
            first_above(base, bytes, from),
        ).less_than,
    decreases RULES - from,
{
    if from < RULES - 1 && bytes >= rule_at(base, from).less_than {
        lemma_tier_from(base, bytes, from + 1);
    }
}

/// Finds the rule that `bytes` falls under, by halving the table.
pub fn select(bytes: u64, base: &Base) -> (r: usize)
    ensures
        r == tier(*base, bytes),
        1 <= r < RULES,
{
    let mut low: usize = 1;
    let mut high: usize = RULES - 1;
    while low < high
        invariant
            1 <= low <= high < RULES,
            rule_at(*base, low - 1).less_than <= bytes,
            high == RULES - 1 || bytes < rule_at(*base, high as int).less_than,
        decreases high - low,
    {
        let middle = low + (high - low) / 2;
        if rule(base, middle).less_than <= bytes {
            low = middle + 1;
        } else {
            high = middle;
        }
    }
    proof {
        lemma_tier_is(*base, bytes, low as int);
    }
    low
}

} // verus!
