//! The catalogue of units: their multipliers and their spellings.

use vstd::prelude::*;
use vstd::string::*;

verus! {

pub const BYTE: u64 = 1;
pub const KILOBYTE: u64 = 1_000;
pub const MEGABYTE: u64 = 1_000_000;
pub const GIGABYTE: u64 = 1_000_000_000;
pub const TERABYTE: u64 = 1_000_000_000_000;
pub const PETABYTE: u64 = 1_000_000_000_000_000;
pub const EXABYTE: u64 = 1_000_000_000_000_000_000;

pub const B: u64 = BYTE;
pub const KB: u64 = KILOBYTE;
pub const MB: u64 = MEGABYTE;
pub const GB: u64 = GIGABYTE;
pub const TB: u64 = TERABYTE;
pub const PB: u64 = PETABYTE;
pub const EB: u64 = EXABYTE;

pub const KIBIBYTE: u64 = 1_024;
pub const MEBIBYTE: u64 = 1_048_576;
pub const GIBIBYTE: u64 = 1_073_741_824;
pub const TEBIBYTE: u64 = 1_099_511_627_776;
pub const PEBIBYTE: u64 = 1_125_899_906_842_624;
pub const EXBIBYTE: u64 = 1_152_921_504_606_846_976;

#[allow(non_upper_case_globals)]
pub const KiB: u64 = KIBIBYTE;
#[allow(non_upper_case_globals)]
pub const MiB: u64 = MEBIBYTE;
#[allow(non_upper_case_globals)]
pub const GiB: u64 = GIBIBYTE;
#[allow(non_upper_case_globals)]
pub const TiB: u64 = TEBIBYTE;
#[allow(non_upper_case_globals)]
pub const PiB: u64 = PEBIBYTE;
#[allow(non_upper_case_globals)]
pub const EiB: u64 = EXBIBYTE;

/// The family of thresholds by which a byte count is given its display unit.
#[derive(Debug, Clone, Copy, PartialEq, Eq, Structural)]
pub enum Base {
    Base2,
    Base10,
}

/// How a unit is spelled behind the number.
#[derive(Debug, Clone, Copy, PartialEq, Eq, Structural)]
pub enum Style {
    Abbreviated,
    AbbreviatedLowerCase,
    Full,
    Smart,
    FullLowerCase,
}

#[derive(Debug, Clone, Copy, PartialEq, Eq, Structural)]
pub enum Unit {
    Byte,
    Kibibyte,
    Kilobyte,
    Mebibyte,
    Megabyte,
    Gibibyte,
    Gigabyte,
    Tebibyte,
    Terabyte,
    Pebibyte,
    Petabyte,
    Exbibyte,
    Exabyte,
}

/// The four spellings of a unit: the full word in lower case, the full word
/// capitalised, the abbreviation in lower case, the abbreviation.
pub struct Spelling {
    pub word: Seq<char>,
    pub capitalised: Seq<char>,
    pub short: Seq<char>,
    pub abbreviation: Seq<char>,
}

/// The spellings of a unit, from its four texts.
pub open spec fn spelled(word: &str, capitalised: &str, short: &str, abbreviation: &str) -> Spelling {
    Spelling { word: word@, capitalised: capitalised@, short: short@, abbreviation: abbreviation@ }
}

impl Unit {
    /// The number of bytes in one of this unit.
    pub open spec fn spec_multiplier(&self) -> u64 {
        match self {
            Unit::Byte => BYTE,
            Unit::Kilobyte => KILOBYTE,
            Unit::Megabyte => MEGABYTE,
            Unit::Gigabyte => GIGABYTE,
            Unit::Terabyte => TERABYTE,
            Unit::Petabyte => PETABYTE,
            Unit::Exabyte => EXABYTE,
            Unit::Kibibyte => KIBIBYTE,
            Unit::Mebibyte => MEBIBYTE,
            Unit::Gibibyte => GIBIBYTE,
            Unit::Tebibyte => TEBIBYTE,
            Unit::Pebibyte => PEBIBYTE,
            Unit::Exbibyte => EXBIBYTE,
        }
    }

    #[verifier::when_used_as_spec(spec_multiplier)]
    pub fn multiplier(&self) -> (r: u64)
        ensures
            r == self.spec_multiplier(),
            r >= 1,
    {
        match self {
            Unit::Byte => BYTE,
            Unit::Kilobyte => KILOBYTE,
            Unit::Megabyte => MEGABYTE,
            Unit::Gigabyte => GIGABYTE,
            Unit::Terabyte => TERABYTE,
            Unit::Petabyte => PETABYTE,
            Unit::Exabyte => EXABYTE,
            Unit::Kibibyte => KIBIBYTE,
            Unit::Mebibyte => MEBIBYTE,
            Unit::Gibibyte => GIBIBYTE,
            Unit::Tebibyte => TEBIBYTE,
            Unit::Pebibyte => PEBIBYTE,
            Unit::Exbibyte => EXBIBYTE,
        }
    }

    /// The spellings of this unit.
    pub open spec fn spelling(&self) -> Spelling {
        match self {
            Unit::Byte => spelled("byte", "Byte", "b", "B"),
            Unit::Kilobyte => spelled("kilobyte", "Kilobyte", "kb", "KB"),
            Unit::Megabyte => spelled("megabyte", "Megabyte", "mb", "MB"),
            Unit::Gigabyte => spelled("gigabyte", "Gigabyte", "gb", "GB"),
            Unit::Terabyte => spelled("terabyte", "Terabyte", "tb", "TB"),
            Unit::Petabyte => spelled("petabyte", "Petabyte", "pb", "PB"),
            Unit::Exabyte => spelled("exabyte", "Exabyte", "eb", "EB"),
            Unit::Kibibyte => spelled("kibibyte", "Kibibyte", "kib", "KiB"),
            Unit::Mebibyte => spelled("mebibyte", "Mebibyte", "mib", "MiB"),
            Unit::Gibibyte => spelled("gibibyte", "Gibibyte", "gib", "GiB"),
            Unit::Pebibyte => spelled("pebibyte", "Pebibyte", "pib", "PiB"),
            Unit::Tebibyte => spelled("tebibyte", "Tebibyte", "tib", "TiB"),
            Unit::Exbibyte => spelled("exbibyte", "Exbibyte", "eib", "EiB"),
        }
    }

    /// The four spellings, in the order of `Spelling`'s fields.
    pub fn text(&self) -> (r: (&'static str, &'static str, &'static str, &'static str))
        ensures
            r.0@ == self.spelling().word,
            r.1@ == self.spelling().capitalised,
            r.2@ == self.spelling().short,
            r.3@ == self.spelling().abbreviation,
    {
        match self {
            Unit::Byte => ("byte", "Byte", "b", "B"),
            Unit::Kilobyte => ("kilobyte", "Kilobyte", "kb", "KB"),
            Unit::Megabyte => ("megabyte", "Megabyte", "mb", "MB"),
            Unit::Gigabyte => ("gigabyte", "Gigabyte", "gb", "GB"),
            Unit::Terabyte => ("terabyte", "Terabyte", "tb", "TB"),
            Unit::Petabyte => ("petabyte", "Petabyte", "pb", "PB"),
            Unit::Exabyte => ("exabyte", "Exabyte", "eb", "EB"),
            Unit::Kibibyte => ("kibibyte", "Kibibyte", "kib", "KiB"),
            Unit::Mebibyte => ("mebibyte", "Mebibyte", "mib", "MiB"),
            Unit::Gibibyte => ("gibibyte", "Gibibyte", "gib", "GiB"),
            Unit::Pebibyte => ("pebibyte", "Pebibyte", "pib", "PiB"),
            Unit::Tebibyte => ("tebibyte", "Tebibyte", "tib", "TiB"),
            Unit::Exbibyte => ("exbibyte", "Exbibyte", "eib", "EiB"),
        }
    }

    /// What stands behind the number: a space, then the unit as `style` spells
    /// it. The full words take an `s` unless the number shown is exactly one;
    /// the abbreviations never do. `Smart` writes the byte as a lower-case
    /// word and every other unit as its abbreviation.
    pub open spec fn suffix(&self, singular: bool, style: Style) -> Seq<char> {
        let plural = if singular { Seq::<char>::empty() } else { seq!['s'] };
        match style {
            Style::Smart => if *self == Unit::Byte {
                seq![' '] + self.spelling().word + plural
            } else {
                seq![' '] + self.spelling().abbreviation
            },
            Style::FullLowerCase => seq![' '] + self.spelling().word + plural,
            Style::Full => seq![' '] + self.spelling().capitalised + plural,
            Style::AbbreviatedLowerCase => seq![' '] + self.spelling().short,
            Style::Abbreviated => seq![' '] + self.spelling().abbreviation,
        }
    }

    /// Writes the unit behind a number; `singular` says that the number shown
    /// is exactly one.
    pub fn format(&self, singular: bool, style: &Style) -> (r: String)
        ensures
            r@ == self.suffix(singular, *style),
    {
        proof {
            reveal_strlit(" ");
            reveal_strlit("s");
        }
        let names = self.text();
        let mut out = String::from_str(" ");
        match style {
            Style::Smart => match self {
                Unit::Byte => {
                    out.append(names.0);
                    if !singular {
                        out.append("s");
                    }
                },
                _ => {
                    out.append(names.3);
                },
            },
            Style::FullLowerCase => {
                out.append(names.0);
                if !singular {
                    out.append("s");
                }
            },
            Style::Full => {
                out.append(names.1);
                if !singular {
                    out.append("s");
                }
            },
            Style::AbbreviatedLowerCase => {
                out.append(names.2);
            },
            Style::Abbreviated => {
                out.append(names.3);
            },
        }
        assert(out@ =~= self.suffix(singular, *style));
        out
    }
}

} // verus!
