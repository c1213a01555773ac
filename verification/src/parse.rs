//! Reading a size from text: a number, a unit behind it, and nothing else.

use vstd::prelude::*;
use vstd::utf8::{encode_utf8, is_ascii_chars, is_ascii_chars_encode_utf8};
use crate::binary::Dyadic;
use crate::decimal::{all_digits, digits_value, nearest};
use crate::double::Double;
use crate::magnitude::Magnitude;
use crate::render::power_of_ten;
use crate::size::Size;
use crate::unit::Unit;

verus! {

/// Why no token was read.
#[derive(Debug, Clone, Copy, PartialEq, Eq, Structural)]
pub enum Error {
    /// The text ends where the token should begin.
    EOF,
    /// What stands there is no token: neither a number nor the name of a
    /// unit.
    Unmatch,
}

/// Why a text is not a size.
#[derive(Debug, Clone, Copy, PartialEq, Eq, Structural)]
pub enum ScanError {
    /// No token stands where the number or the unit was looked for.
    TokenError(Error),
    /// What stands where the number should is not a number: a sign or a point
    /// that lacks its digits, or the name of a unit.
    NumberError,
    /// Something other than white space follows the size.
    TrailingError,
}

/// The classes of bytes that tokens are made of.
#[derive(Debug, Clone, Copy, PartialEq, Eq, Structural)]
pub enum Class {
    Space,
    Digit,
    Letter,
}

impl Class {
    /// Whether a byte belongs to the class. White space is the space and the
    /// five control characters from the tab to the carriage return.
    pub open spec fn spec_holds(&self, b: u8) -> bool {
        match self {
            Class::Space => b == 0x20 || (0x09 <= b <= 0x0d),
            Class::Digit => 0x30 <= b <= 0x39,
            Class::Letter => (0x41 <= b <= 0x5a) || (0x61 <= b <= 0x7a),
        }
    }

    #[verifier::when_used_as_spec(spec_holds)]
    pub fn holds(&self, b: u8) -> (r: bool)
        ensures
            r == self.spec_holds(b),
    {
        match self {
            Class::Space => b == 0x20 || (0x09 <= b && b <= 0x0d),
            Class::Digit => 0x30 <= b && b <= 0x39,
            Class::Letter => (0x41 <= b && b <= 0x5a) || (0x61 <= b && b <= 0x7a),
        }
    }
}

/// Where the longest run of bytes of a class that begins at `from` ends.
pub open spec fn run_end(input: Seq<u8>, from: int, class: Class) -> int
    decreases input.len() - from,
{
    if 0 <= from < input.len() && class.holds(input[from]) {
        run_end(input, from + 1, class)
    } else {
        from
    }
}

/// A run ends inside the text or at its end, holds bytes of its class only,
/// and ends before a byte of another class.
pub proof fn lemma_run_end(input: Seq<u8>, from: int, class: Class)
    requires
        0 <= from <= input.len(),
    ensures
        from <= run_end(input, from, class) <= input.len(),
        forall|i: int| from <= i < run_end(input, from, class) ==> class.holds(#[trigger] input[i]),
        run_end(input, from, class) < input.len() ==> !class.holds(
            input[run_end(input, from, class)],
        ),
    decreases input.len() - from,
{
    if from < input.len() && class.holds(input[from]) {
        lemma_run_end(input, from + 1, class);
    }
}

/// The run that begins at `from` ends at `to` where every byte up to `to` is
/// of the class and the byte at `to`, if there is one, is not.
pub proof fn lemma_run_end_is(input: Seq<u8>, from: int, to: int, class: Class)
    requires
        0 <= from <= to <= input.len(),
        forall|i: int| from <= i < to ==> class.holds(#[trigger] input[i]),
        to < input.len() ==> !class.holds(input[to]),
    ensures
        run_end(input, from, class) == to,
    decreases to - from,
{
    if from < to {
        lemma_run_end_is(input, from + 1, to, class);
    }
}

/// The bytes of a text in the ASCII range.
pub open spec fn ascii(text: Seq<char>) -> Seq<u8> {
    Seq::new(text.len(), |i: int| text[i] as u8)
}

/// A byte with a capital letter made small.
pub open spec fn spec_lower(b: u8) -> u8 {
    if 0x41 <= b <= 0x5a {
        (b + 0x20) as u8
    } else {
        b
    }
}

#[verifier::when_used_as_spec(spec_lower)]
pub fn lower(b: u8) -> (r: u8)
    ensures
        r == spec_lower(b),
{
    if 0x41 <= b && b <= 0x5a {
        b + 0x20
    } else {
        b
    }
}

/// A word with its capital letters made small.
pub open spec fn lowered(word: Seq<u8>) -> Seq<u8> {
    Seq::new(word.len(), |i: int| lower(word[i]))
}

impl Unit {
    /// Whether the unit is a power of a thousand bytes.
    pub open spec fn spec_is_decimal(&self) -> bool {
        match self {
            Unit::Kilobyte
            | Unit::Megabyte
            | Unit::Gigabyte
            | Unit::Terabyte
            | Unit::Petabyte
            | Unit::Exabyte => true,
            _ => false,
        }
    }

    #[verifier::when_used_as_spec(spec_is_decimal)]
    pub fn is_decimal(&self) -> (r: bool)
        ensures
            r == self.spec_is_decimal(),
    {
        match self {
            Unit::Kilobyte
            | Unit::Megabyte
            | Unit::Gigabyte
            | Unit::Terabyte
            | Unit::Petabyte
            | Unit::Exabyte => true,
            _ => false,
        }
    }

    /// The units in the order in which a word is held against them.
    pub open spec fn spec_at(index: int) -> Unit {
        if index <= 0 {
            Unit::Byte
        } else if index == 1 {
            Unit::Kibibyte
        } else if index == 2 {
            Unit::Kilobyte
        } else if index == 3 {
            Unit::Mebibyte
        } else if index == 4 {
            Unit::Megabyte
        } else if index == 5 {
            Unit::Gibibyte
        } else if index == 6 {
            Unit::Gigabyte
        } else if index == 7 {
            Unit::Tebibyte
        } else if index == 8 {
            Unit::Terabyte
        } else if index == 9 {
            Unit::Pebibyte
        } else if index == 10 {
            Unit::Petabyte
        } else if index == 11 {
            Unit::Exbibyte
        } else {
            Unit::Exabyte
        }
    }

    pub fn at(index: usize) -> (r: Unit)
        ensures
            r == Unit::spec_at(index as int),
    {
        match index {
            0 => Unit::Byte,
            1 => Unit::Kibibyte,
            2 => Unit::Kilobyte,
            3 => Unit::Mebibyte,
            4 => Unit::Megabyte,
            5 => Unit::Gibibyte,
            6 => Unit::Gigabyte,
            7 => Unit::Tebibyte,
            8 => Unit::Terabyte,
            9 => Unit::Pebibyte,
            10 => Unit::Petabyte,
            11 => Unit::Exbibyte,
            _ => Unit::Exabyte,
        }
    }

    /// Whether a word names the unit. Capitals count as small letters. A unit
    /// is named by its full word, with or without an `s` behind it, and by its
    /// abbreviation; a power of a thousand also by its first letter alone.
    pub open spec fn named_by(&self, word: Seq<u8>) -> bool {
        ||| lowered(word) == ascii(self.spelling().word)
        ||| lowered(word) == ascii(self.spelling().word).push(0x73)
        ||| lowered(word) == ascii(self.spelling().short)
        ||| self.is_decimal() && lowered(word) == ascii(self.spelling().short).take(1)
    }

    /// The first letter of every spelling of the unit, as a small letter.
    pub open spec fn initial(&self) -> u8 {
        match self {
            Unit::Byte => 0x62,
            Unit::Kilobyte | Unit::Kibibyte => 0x6b,
            Unit::Megabyte | Unit::Mebibyte => 0x6d,
            Unit::Gigabyte | Unit::Gibibyte => 0x67,
            Unit::Terabyte | Unit::Tebibyte => 0x74,
            Unit::Petabyte | Unit::Pebibyte => 0x70,
            Unit::Exabyte | Unit::Exbibyte => 0x65,
        }
    }

    /// The third letter of the full word.
    pub open spec fn third(&self) -> u8 {
        match self {
            Unit::Byte => 0x74,
            Unit::Kilobyte => 0x6c,
            Unit::Megabyte | Unit::Gigabyte => 0x67,
            Unit::Terabyte => 0x72,
            Unit::Petabyte => 0x74,
            Unit::Exabyte => 0x61,
            _ => 0x62,
        }
    }

    /// The length of the full word.
    pub open spec fn word_length(&self) -> nat {
        match self {
            Unit::Byte => 4,
            Unit::Exabyte => 7,
            _ => 8,
        }
    }

    /// The length of the abbreviation.
    pub open spec fn short_length(&self) -> nat {
        if *self == Unit::Byte {
            1
        } else if self.is_decimal() {
            2
        } else {
            3
        }
    }

    /// What the spellings of a unit are made of: plain letters; the two full
    /// words are the same but for their capitals, and so are the two
    /// abbreviations.
    pub proof fn lemma_spelling_ascii(&self)
        ensures
            is_ascii_chars(self.spelling().word),
            is_ascii_chars(self.spelling().capitalised),
            is_ascii_chars(self.spelling().short),
            is_ascii_chars(self.spelling().abbreviation),
            self.spelling().word.len() == self.word_length(),
            self.spelling().capitalised.len() == self.word_length(),
            self.spelling().short.len() == self.short_length(),
            self.spelling().abbreviation.len() == self.short_length(),
            ascii(self.spelling().word)[0] == self.initial(),
            ascii(self.spelling().word)[2] == self.third(),
            ascii(self.spelling().short)[0] == self.initial(),
            forall|i: int|
                0 <= i < self.word_length() ==> Class::Letter.holds(
                    #[trigger] ascii(self.spelling().word)[i],
                ) && spec_lower(ascii(self.spelling().word)[i]) == ascii(self.spelling().word)[i],
            forall|i: int|
                0 <= i < self.word_length() ==> Class::Letter.holds(
                    #[trigger] ascii(self.spelling().capitalised)[i],
                ) && spec_lower(ascii(self.spelling().capitalised)[i]) == ascii(
                    self.spelling().word,
                )[i],
            forall|i: int|
                0 <= i < self.short_length() ==> Class::Letter.holds(
                    #[trigger] ascii(self.spelling().short)[i],
                ) && spec_lower(ascii(self.spelling().short)[i]) == ascii(self.spelling().short)[i],
            forall|i: int|
                0 <= i < self.short_length() ==> Class::Letter.holds(
                    #[trigger] ascii(self.spelling().abbreviation)[i],
                ) && spec_lower(ascii(self.spelling().abbreviation)[i]) == ascii(
                    self.spelling().short,
                )[i],
    {
        match self {
            Unit::Byte => {
                reveal_strlit("byte");
                reveal_strlit("Byte");
                reveal_strlit("b");
                reveal_strlit("B");
            },
            Unit::Kilobyte => {
                reveal_strlit("kilobyte");
                reveal_strlit("Kilobyte");
                reveal_strlit("kb");
                reveal_strlit("KB");
            },
            Unit::Megabyte => {
                reveal_strlit("megabyte");
                reveal_strlit("Megabyte");
                reveal_strlit("mb");
                reveal_strlit("MB");
            },
            Unit::Gigabyte => {
                reveal_strlit("gigabyte");
                reveal_strlit("Gigabyte");
                reveal_strlit("gb");
                reveal_strlit("GB");
            },
            Unit::Terabyte => {
                reveal_strlit("terabyte");
                reveal_strlit("Terabyte");
                reveal_strlit("tb");
                reveal_strlit("TB");
            },
            Unit::Petabyte => {
                reveal_strlit("petabyte");
                reveal_strlit("Petabyte");
                reveal_strlit("pb");
                reveal_strlit("PB");
            },
            Unit::Exabyte => {
                reveal_strlit("exabyte");
                reveal_strlit("Exabyte");
                reveal_strlit("eb");
                reveal_strlit("EB");
            },
            Unit::Kibibyte => {
                reveal_strlit("kibibyte");
                reveal_strlit("Kibibyte");
                reveal_strlit("kib");
                reveal_strlit("KiB");
            },
            Unit::Mebibyte => {
                reveal_strlit("mebibyte");
                reveal_strlit("Mebibyte");
                reveal_strlit("mib");
                reveal_strlit("MiB");
            },
            Unit::Gibibyte => {
                reveal_strlit("gibibyte");
                reveal_strlit("Gibibyte");
                reveal_strlit("gib");
                reveal_strlit("GiB");
            },
            Unit::Pebibyte => {
                reveal_strlit("pebibyte");
                reveal_strlit("Pebibyte");
                reveal_strlit("pib");
                reveal_strlit("PiB");
            },
            Unit::Tebibyte => {
                reveal_strlit("tebibyte");
                reveal_strlit("Tebibyte");
                reveal_strlit("tib");
                reveal_strlit("TiB");
            },
            Unit::Exbibyte => {
                reveal_strlit("exbibyte");
                reveal_strlit("Exbibyte");
                reveal_strlit("eib");
                reveal_strlit("EiB");
            },
        }
    }
}

/// The first unit from `index` on that `word` names.
pub open spec fn unit_from(word: Seq<u8>, index: int) -> Option<Unit>
    decreases 13 - index,
{
    if index >= 13 {
        None
    } else if Unit::spec_at(index).named_by(word) {
        Some(Unit::spec_at(index))
    } else {
        unit_from(word, index + 1)
    }
}

/// The unit that a word names, if it names one.
pub open spec fn unit_named(word: Seq<u8>) -> Option<Unit> {
    unit_from(word, 0)
}

/// No word names two units.
pub proof fn lemma_named_once(word: Seq<u8>, u: Unit, v: Unit)
    requires
        u.named_by(word),
        v.named_by(word),
    ensures
        u == v,
{
    u.lemma_spelling_ascii();
    v.lemma_spelling_ascii();
    let w = lowered(word);
    let uw = ascii(u.spelling().word);
    let vw = ascii(v.spelling().word);
    let us = ascii(u.spelling().short);
    let vs = ascii(v.spelling().short);
    assert(uw.push(0x73)[0] == uw[0] && uw.push(0x73)[2] == uw[2]);
    assert(vw.push(0x73)[0] == vw[0] && vw.push(0x73)[2] == vw[2]);
    assert(us.take(1)[0] == us[0]);
    assert(vs.take(1)[0] == vs[0]);
    assert(w[0] == u.initial());
    assert(w[0] == v.initial());
    if w.len() >= 4 {
        assert(w[2] == u.third());
        assert(w[2] == v.third());
    }
}

/// A word that names a unit is found to name it.
pub proof fn lemma_unit_named(word: Seq<u8>, unit: Unit)
    requires
        unit.named_by(word),
    ensures
        unit_named(word) == Some(unit),
{
    lemma_unit_from(word, unit, 0);
}

/// Where a unit stands in the order in which words are held against units.
pub open spec fn place(unit: Unit) -> int {
    match unit {
        Unit::Byte => 0,
        Unit::Kibibyte => 1,
        Unit::Kilobyte => 2,
        Unit::Mebibyte => 3,
        Unit::Megabyte => 4,
        Unit::Gibibyte => 5,
        Unit::Gigabyte => 6,
        Unit::Tebibyte => 7,
        Unit::Terabyte => 8,
        Unit::Pebibyte => 9,
        Unit::Petabyte => 10,
        Unit::Exbibyte => 11,
        Unit::Exabyte => 12,
    }
}

proof fn lemma_unit_from(word: Seq<u8>, unit: Unit, index: int)
    requires
        unit.named_by(word),
        0 <= index <= place(unit),
    ensures
        unit_from(word, index) == Some(unit),
    decreases 13 - index,
{
    if Unit::spec_at(index).named_by(word) {
        lemma_named_once(word, Unit::spec_at(index), unit);
    } else {
        lemma_unit_from(word, unit, index + 1);
    }
}

/// A number as it stands in the text: its sign, the digits before the point
/// and those behind it, each an ASCII digit.
pub struct Numeral {
    pub negative: bool,
    pub whole: Seq<u8>,
    pub fraction: Seq<u8>,
}

impl Numeral {
    /// Digits, and one at least before the point.
    pub open spec fn well_formed(self) -> bool {
        all_digits(self.whole) && all_digits(self.fraction) && self.whole.len() > 0
    }

    /// The number without its point and its sign.
    pub open spec fn numerator(self) -> nat {
        digits_value(self.whole + self.fraction)
    }

    /// The power of ten that the point divides by.
    pub open spec fn denominator(self) -> nat {
        power_of_ten(self.fraction.len())
    }

    /// The double nearest to the number.
    pub open spec fn double(self) -> Double {
        let nearest = Dyadic::nearest_double(self.numerator(), self.denominator());
        Double {
            mantissa: nearest.mantissa as u64,
            exponent: nearest.exponent as i16,
            sign: if self.negative {
                -1i8
            } else {
                1i8
            },
        }
    }
}

/// A number read from text. As a magnitude it counts as the double nearest to
/// it does.
#[derive(Debug)]
pub struct Number {
    negative: bool,
    whole: Vec<u8>,
    fraction: Vec<u8>,
}

impl View for Number {
    type V = Numeral;

    closed spec fn view(&self) -> Numeral {
        Numeral { negative: self.negative, whole: self.whole@, fraction: self.fraction@ }
    }
}

impl Number {
    #[verifier::type_invariant]
    spec fn digits_only(&self) -> bool {
        self@.well_formed()
    }

    /// Whether a minus stands before the number.
    pub fn is_negative(&self) -> (r: bool)
        ensures
            r == self@.negative,
    {
        self.negative
    }

    /// The double nearest to the number.
    pub fn nearest(&self) -> (r: Double)
        ensures
            r == self@.double(),
            self@.well_formed(),
    {
        proof {
            use_type_invariant(self);
            vstd::arithmetic::power2::lemma2_to64_rest();
        }
        let found = nearest(&self.whole, &self.fraction);
        Double {
            mantissa: found.mantissa,
            exponent: found.exponent as i16,
            sign: if self.negative {
                -1
            } else {
                1
            },
        }
    }
}

impl Magnitude for Number {
    open spec fn as_whole(&self) -> Option<u64> {
        self@.double().whole()
    }

    open spec fn as_double(&self) -> Option<Double> {
        Some(self@.double())
    }

    fn to_u64(&self) -> (r: Option<u64>) {
        self.nearest().truncated()
    }

    fn to_double(&self) -> (r: Option<Double>) {
        Some(self.nearest())
    }
}

/// What reading a token gives: the token or the reason why there is none, and
/// the position at which reading goes on.
pub struct Step<T> {
    pub token: Result<T, ScanError>,
    pub next: int,
}

/// Reads a number at or behind `from`: white space, then an optional sign, one
/// digit or more and, optionally, a point with one digit or more behind it.
/// What begins with neither a sign, a digit nor a point is no number: the name
/// of a unit there is a token in the wrong place, anything else no token.
pub open spec fn number_at(input: Seq<u8>, from: int) -> Step<Numeral> {
    let start = run_end(input, from, Class::Space);
    if start >= input.len() {
        Step { token: Err(ScanError::TokenError(Error::EOF)), next: start }
    } else {
        let signed = input[start] == 0x2b || input[start] == 0x2d;
        let first = if signed {
            start + 1
        } else {
            start
        };
        let point = run_end(input, first, Class::Digit);
        let last = run_end(input, point + 1, Class::Digit);
        let word = input.subrange(start, run_end(input, start, Class::Letter));
        if !signed && !Class::Digit.holds(input[start]) && input[start] != 0x2e {
            if unit_named(word) is Some {
                Step { token: Err(ScanError::NumberError), next: start }
            } else {
                Step { token: Err(ScanError::TokenError(Error::Unmatch)), next: start }
            }
        } else if point == first {
            Step { token: Err(ScanError::NumberError), next: start }
        } else if point < input.len() && input[point] == 0x2e {
            if last == point + 1 {
                Step { token: Err(ScanError::NumberError), next: start }
            } else {
                Step {
                    token: Ok(
                        Numeral {
                            negative: input[start] == 0x2d,
                            whole: input.subrange(first, point),
                            fraction: input.subrange(point + 1, last),
                        },
                    ),
                    next: last,
                }
            }
        } else {
            Step {
                token: Ok(
                    Numeral {
                        negative: input[start] == 0x2d,
                        whole: input.subrange(first, point),
                        fraction: Seq::<u8>::empty(),
                    },
                ),
                next: point,
            }
        }
    }
}

/// Reads a unit at or behind `from`: white space, then the longest run of
/// letters, which has to name a unit.
pub open spec fn unit_at(input: Seq<u8>, from: int) -> Step<Unit> {
    let start = run_end(input, from, Class::Space);
    let end = run_end(input, start, Class::Letter);
    if start >= input.len() {
        Step { token: Err(ScanError::TokenError(Error::EOF)), next: start }
    } else {
        match unit_named(input.subrange(start, end)) {
            Some(unit) => Step { token: Ok(unit), next: end },
            None => Step { token: Err(ScanError::TokenError(Error::Unmatch)), next: start },
        }
    }
}

/// Reads the end of the text at or behind `from`: nothing but white space.
pub open spec fn end_at(input: Seq<u8>, from: int) -> Step<()> {
    let start = run_end(input, from, Class::Space);
    if start >= input.len() {
        Step { token: Ok(()), next: start }
    } else {
        Step { token: Err(ScanError::TrailingError), next: start }
    }
}

/// A size in text: a number, then a unit or none, which means bytes, then the
/// end. The first of the three that fails gives the error.
pub open spec fn size_in(input: Seq<u8>) -> Result<(Numeral, Unit), ScanError> {
    let number = number_at(input, 0);
    let unit = unit_at(input, number.next);
    match number.token {
        Err(e) => Err(e),
        Ok(n) => match unit.token {
            Err(ScanError::TokenError(Error::EOF)) => Ok((n, Unit::Byte)),
            Err(e) => Err(e),
            Ok(u) => match end_at(input, unit.next).token {
                Err(e) => Err(e),
                Ok(_) => Ok((n, u)),
            },
        },
    }
}

/// A cursor over the bytes of a text.
pub struct Lexer {
    input: Vec<u8>,
    position: usize,
}

impl Lexer {
    /// The bytes of the text.
    pub closed spec fn input(&self) -> Seq<u8> {
        self.input@
    }

    /// How many bytes have been read.
    pub closed spec fn position(&self) -> int {
        self.position as int
    }

    #[verifier::type_invariant]
    spec fn inside(&self) -> bool {
        self.position <= self.input.len()
    }

    /// A cursor at the start of `text`.
    pub fn new(text: &str) -> (r: Lexer)
        ensures
            r.input() == encode_utf8(text@),
            r.position() == 0,
    {
        Lexer { input: text.as_bytes_vec(), position: 0 }
    }

    fn skip(&self, from: usize, class: Class) -> (r: usize)
        requires
            from <= self.input.len(),
        ensures
            r == run_end(self.input@, from as int, class),
            from <= r <= self.input.len(),
    {
        let mut at = from;
        while at < self.input.len() && class.holds(self.input[at])
            invariant
                from <= at <= self.input.len(),
                run_end(self.input@, from as int, class) == run_end(self.input@, at as int, class),
            decreases self.input.len() - at,
        {
            at = at + 1;
        }
        at
    }

    fn copy(&self, from: usize, to: usize) -> (r: Vec<u8>)
        requires
            from <= to <= self.input.len(),
        ensures
            r@ == self.input@.subrange(from as int, to as int),
    {
        let mut out: Vec<u8> = Vec::new();
        let mut at = from;
        while at < to
            invariant
                from <= at <= to <= self.input.len(),
                out@ == self.input@.subrange(from as int, at as int),
            decreases to - at,
        {
            out.push(self.input[at]);
            at = at + 1;
            assert(out@ =~= self.input@.subrange(from as int, at as int));
        }
        out
    }

    /// Reads a number and moves behind it; where there is none, moves to
    /// where it was looked for.
    pub fn read_number(&mut self) -> (r: Result<Number, ScanError>)
        ensures
            final(self).input() == old(self).input(),
            final(self).position() == number_at(old(self).input(), old(self).position()).next,
            match r {
                Ok(n) => n@.well_formed() && number_at(
                    old(self).input(),
                    old(self).position(),
                ).token == Ok::<Numeral, ScanError>(n@),
                Err(e) => number_at(old(self).input(), old(self).position()).token == Err::<
                    Numeral,
                    ScanError,
                >(e),
            },
    {
        proof {
            use_type_invariant(&*self);
        }
        let start = self.skip(self.position, Class::Space);
        self.position = start;
        if start >= self.input.len() {
            return Err(ScanError::TokenError(Error::EOF));
        }
        let b = self.input[start];
        let signed = b == 0x2b || b == 0x2d;
        if !signed && !Class::Digit.holds(b) && b != 0x2e {
            let end = self.skip(start, Class::Letter);
            return match self.find(start, end) {
                Some(_) => Err(ScanError::NumberError),
                None => Err(ScanError::TokenError(Error::Unmatch)),
            };
        }
        let first = if signed {
            start + 1
        } else {
            start
        };
        let point = self.skip(first, Class::Digit);
        if point == first {
            return Err(ScanError::NumberError);
        }
        proof {
            lemma_run_end(self.input@, first as int, Class::Digit);
        }
        if point < self.input.len() && self.input[point] == 0x2e {
            let last = self.skip(point + 1, Class::Digit);
            if last == point + 1 {
                return Err(ScanError::NumberError);
            }
            proof {
                lemma_run_end(self.input@, point + 1, Class::Digit);
            }
            let whole = self.copy(first, point);
            let fraction = self.copy(point + 1, last);
            self.position = last;
            Ok(Number { negative: b == 0x2d, whole, fraction })
        } else {
            let whole = self.copy(first, point);
            self.position = point;
            Ok(Number { negative: b == 0x2d, whole, fraction: Vec::new() })
        }
    }

    /// Whether the bytes from `from` up to `to`, capitals made small, are
    /// those of `name`, with an `s` behind them if `plural` says so.
    fn spells(&self, from: usize, to: usize, name: &str, plural: bool) -> (r: bool)
        requires
            from <= to <= self.input.len(),
            is_ascii_chars(name@),
        ensures
            r == (lowered(self.input@.subrange(from as int, to as int)) == if plural {
                ascii(name@).push(0x73)
            } else {
                ascii(name@)
            }),
    {
        let letters = name.as_bytes();
        let ghost word = self.input@.subrange(from as int, to as int);
        let ghost wanted = if plural {
            ascii(name@).push(0x73)
        } else {
            ascii(name@)
        };
        proof {
            is_ascii_chars_encode_utf8(name@);
        }
        let extra: usize = if plural {
            1
        } else {
            0
        };
        if letters.len() > to - from || to - from - letters.len() != extra {
            assert(lowered(word).len() != wanted.len());
            return false;
        }
        let mut i: usize = 0;
        while i < letters.len()
            invariant
                from <= to <= self.input.len(),
                to - from == letters.len() + extra,
                i <= letters.len(),
                letters@ == encode_utf8(name@),
                letters@.len() == name@.len(),
                forall|j: int|
                    0 <= j < name@.len() ==> name@[j] as u8 == #[trigger] encode_utf8(name@)[j],
                word == self.input@.subrange(from as int, to as int),
                wanted == if plural {
                    ascii(name@).push(0x73)
                } else {
                    ascii(name@)
                },
                forall|j: int| 0 <= j < i ==> lowered(word)[j] == wanted[j],
            decreases letters.len() - i,
        {
            if lower(self.input[from + i]) != letters[i] {
                assert(lowered(word)[i as int] != wanted[i as int]);
                return false;
            }
            i = i + 1;
        }
        if plural && lower(self.input[to - 1]) != 0x73 {
            assert(lowered(word)[to - 1 - from] != wanted[to - 1 - from]);
            return false;
        }
        assert(lowered(word) =~= wanted);
        true
    }

    /// Whether the bytes from `from` up to `to` name `unit`.
    fn names(&self, from: usize, to: usize, unit: &Unit) -> (r: bool)
        requires
            from <= to <= self.input.len(),
        ensures
            r == unit.named_by(self.input@.subrange(from as int, to as int)),
    {
        let text = unit.text();
        let ghost word = self.input@.subrange(from as int, to as int);
        proof {
            unit.lemma_spelling_ascii();
            is_ascii_chars_encode_utf8(text.2@);
        }
        if self.spells(from, to, text.0, false) || self.spells(from, to, text.0, true)
            || self.spells(from, to, text.2, false) {
            return true;
        }
        let initial = unit.is_decimal() && to - from == 1 && lower(self.input[from])
            == text.2.as_bytes()[0];
        proof {
            let short = ascii(unit.spelling().short);
            assert(short.take(1).len() == 1);
            assert(short.take(1)[0] == short[0]);
            if initial {
                assert(lowered(word) =~= short.take(1));
            } else if unit.is_decimal() && to - from == 1 {
                assert(lowered(word)[0] != short.take(1)[0]);
            } else {
                assert(!unit.is_decimal() || lowered(word).len() != short.take(1).len());
            }
        }
        initial
    }

    /// The unit that the bytes from `from` up to `to` name.
    fn find(&self, from: usize, to: usize) -> (r: Option<Unit>)
        requires
            from <= to <= self.input.len(),
        ensures
            r == unit_named(self.input@.subrange(from as int, to as int)),
    {
        let ghost word = self.input@.subrange(from as int, to as int);
        let mut index: usize = 0;
        while index < 13
            invariant
                index <= 13,
                from <= to <= self.input.len(),
                word == self.input@.subrange(from as int, to as int),
                unit_named(word) == unit_from(word, index as int),
            decreases 13 - index,
        {
            let unit = Unit::at(index);
            if self.names(from, to, &unit) {
                return Some(unit);
            }
            index = index + 1;
        }
        None
    }

    /// Reads a unit and moves behind it; where there is none, moves to where
    /// it was looked for.
    pub fn read_unit(&mut self) -> (r: Result<Unit, ScanError>)
        ensures
            final(self).input() == old(self).input(),
            final(self).position() == unit_at(old(self).input(), old(self).position()).next,
            r == unit_at(old(self).input(), old(self).position()).token,
    {
        proof {
            use_type_invariant(&*self);
        }
        let start = self.skip(self.position, Class::Space);
        self.position = start;
        if start >= self.input.len() {
            return Err(ScanError::TokenError(Error::EOF));
        }
        let end = self.skip(start, Class::Letter);
        match self.find(start, end) {
            Some(unit) => {
                self.position = end;
                Ok(unit)
            },
            None => Err(ScanError::TokenError(Error::Unmatch)),
        }
    }

    /// Reads the end of the text: moves behind the white space, and fails
    /// where anything stands there.
    pub fn read_eof(&mut self) -> (r: Result<(), ScanError>)
        ensures
            final(self).input() == old(self).input(),
            final(self).position() == end_at(old(self).input(), old(self).position()).next,
            r == end_at(old(self).input(), old(self).position()).token,
    {
        proof {
            use_type_invariant(&*self);
        }
        let start = self.skip(self.position, Class::Space);
        self.position = start;
        if start >= self.input.len() {
            Ok(())
        } else {
            Err(ScanError::TrailingError)
        }
    }
}

/// Reads a size from text: the number as it stands there, in the unit that
/// follows it, and in bytes where none does.
pub fn parse(text: &str) -> (r: Result<Size<Number>, ScanError>)
    ensures
        match r {
            Ok(size) => size.magnitude()@.well_formed() && size_in(encode_utf8(text@)) == Ok::<
                (Numeral, Unit),
                ScanError,
            >((size.magnitude()@, size.unit())),
            Err(e) => size_in(encode_utf8(text@)) == Err::<(Numeral, Unit), ScanError>(e),
        },
{
    let mut lexer = Lexer::new(text);
    let number = match lexer.read_number() {
        Ok(n) => n,
        Err(e) => {
            return Err(e);
        },
    };
    let unit = match lexer.read_unit() {
        Ok(u) => u,
        Err(ScanError::TokenError(Error::EOF)) => {
            return Ok(Size::from_unit(number, Unit::Byte));
        },
        Err(e) => {
            return Err(e);
        },
    };
    match lexer.read_eof() {
        Ok(_) => Ok(Size::from_unit(number, unit)),
        Err(e) => Err(e),
    }
}

impl Size<Double> {
    /// Reads a size from text, with the double nearest to the number that
    /// stands there as its magnitude.
    pub fn from_str(text: &str) -> (r: Result<Size<Double>, ScanError>)
        ensures
            match r {
                Ok(size) => size_in(encode_utf8(text@)) matches Ok((number, unit))
                    && number.well_formed() && size.unit() == unit && *size.magnitude()
                    == number.double(),
                Err(e) => size_in(encode_utf8(text@)) == Err::<(Numeral, Unit), ScanError>(e),
            },
    {
        match parse(text) {
            Ok(size) => {
                let unit = size.unit();
                let double = size.magnitude().nearest();
                Ok(Size::from_unit(double, unit))
            },
            Err(e) => Err(e),
        }
    }
}

} // verus!
