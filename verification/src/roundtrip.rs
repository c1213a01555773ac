//! From a byte count to its text and back: what the text is made of, and what
//! reading it gives.

use vstd::prelude::*;
use vstd::arithmetic::div_mod::*;
use vstd::arithmetic::mul::*;
use vstd::arithmetic::power2::*;
use vstd::utf8::{encode_utf8, is_ascii_chars, is_ascii_chars_encode_utf8};
use crate::binary::{bit_length, lemma_bit_length_is, Dyadic};
use crate::decimal::{
    digits_value, lemma_power_of_ten_positive, lemma_value_concat, lemma_value_single,
};
use crate::double::Double;
use crate::parse::{
    ascii, end_at, lemma_run_end_is, lemma_unit_named, lowered, number_at, run_end, size_in,
    unit_at, Class, Numeral, ScanError,
};
use crate::render::{decimal, digit, numeral, padded, power_of_ten, rendered, shown};
use crate::rounding::{
    amounts_to, is_double, lemma_nearest_quarters, lemma_nearest_scaled, lemma_rounded_exact,
    lemma_shifted_is_double, lemma_small_is_double,
};
use crate::rule::{lemma_rule_shape, lemma_tier, rule_at, tier};
use crate::size::normalized;
use crate::unit::{Base, Style, Unit};

verus! {

/// A number, a space and a unit, as bytes: the digits before the point, the
/// point and the digits behind it where there are any, a space, and the word
/// for the unit.
pub open spec fn written(whole: Seq<u8>, fraction: Seq<u8>, word: Seq<u8>) -> Seq<u8> {
    if fraction.len() > 0 {
        whole + seq![0x2eu8] + fraction + seq![0x20u8] + word
    } else {
        whole + seq![0x20u8] + word
    }
}

/// A text of that shape is read as it is written: the digits as they stand,
/// and the unit that the word names.
pub proof fn lemma_reads(whole: Seq<u8>, fraction: Seq<u8>, word: Seq<u8>, unit: Unit)
    requires
        whole.len() > 0,
        forall|i: int| 0 <= i < whole.len() ==> Class::Digit.holds(#[trigger] whole[i]),
        forall|i: int| 0 <= i < fraction.len() ==> Class::Digit.holds(#[trigger] fraction[i]),
        word.len() > 0,
        forall|i: int| 0 <= i < word.len() ==> Class::Letter.holds(#[trigger] word[i]),
        unit.named_by(word),
    ensures
        size_in(written(whole, fraction, word)) == Ok::<(Numeral, Unit), ScanError>(
            (Numeral { negative: false, whole, fraction }, unit),
        ),
{
    let input = written(whole, fraction, word);
    let a = whole.len() as int;
    let f = fraction.len() as int;
    let next = if f > 0 {
        a + 1 + f
    } else {
        a
    };
    let n = input.len() as int;
    assert(n == next + 1 + word.len());
    assert forall|i: int| 0 <= i < a implies input[i] == whole[i] by {}
    assert forall|i: int| 0 <= i < word.len() implies input[next + 1 + i] == word[i] by {}
    assert(input[next] == 0x20);
    assert(input[0] == whole[0]);
    // the number
    assert(run_end(input, 0, Class::Space) == 0);
    assert(Class::Digit.holds(input[0]));
    if f > 0 {
        assert(input[a] == 0x2e);
        assert forall|i: int| 0 <= i < f implies input[a + 1 + i] == fraction[i] by {}
        lemma_run_end_is(input, 0, a, Class::Digit);
        assert forall|i: int| a + 1 <= i < a + 1 + f implies Class::Digit.holds(
            #[trigger] input[i],
        ) by {
            assert(input[i] == fraction[i - a - 1]);
        }
        lemma_run_end_is(input, a + 1, a + 1 + f, Class::Digit);
        assert(input.subrange(0, a) =~= whole);
        assert(input.subrange(a + 1, a + 1 + f) =~= fraction);
    } else {
        lemma_run_end_is(input, 0, a, Class::Digit);
        assert(input.subrange(0, a) =~= whole);
        assert(fraction =~= Seq::<u8>::empty());
    }
    assert(number_at(input, 0).token == Ok::<Numeral, ScanError>(
        Numeral { negative: false, whole, fraction },
    ));
    assert(number_at(input, 0).next == next);
    // the unit
    lemma_run_end_is(input, next, next + 1, Class::Space);
    assert forall|i: int| next + 1 <= i < n implies Class::Letter.holds(#[trigger] input[i]) by {
        assert(input[i] == word[i - next - 1]);
    }
    lemma_run_end_is(input, next + 1, n, Class::Letter);
    assert(input.subrange(next + 1, n) =~= word);
    lemma_unit_named(word, unit);
    assert(unit_at(input, next).token == Ok::<Unit, ScanError>(unit));
    assert(unit_at(input, next).next == n);
    // the end
    assert(run_end(input, n, Class::Space) == n);
    assert(end_at(input, n).token == Ok::<(), ScanError>(()));
}

/// A number in decimal is made of digits, and of one at least.
pub proof fn lemma_decimal_digits(n: nat)
    ensures
        decimal(n).len() >= 1,
        forall|i: int|
            0 <= i < decimal(n).len() ==> Class::Digit.holds(#[trigger] ascii(decimal(n))[i]),
        is_ascii_chars(decimal(n)),
    decreases n,
{
    if n >= 10 {
        lemma_decimal_digits(n / 10);
        assert forall|i: int| 0 <= i < decimal(n).len() implies Class::Digit.holds(
            #[trigger] ascii(decimal(n))[i],
        ) by {
            if i < decimal(n / 10).len() {
                assert(ascii(decimal(n))[i] == ascii(decimal(n / 10))[i]);
            }
        }
        assert forall|i: int| 0 <= i < decimal(n).len() implies '\0' <= #[trigger] decimal(n)[i]
            <= '\u{7f}' by {
            if i < decimal(n / 10).len() {
                assert(decimal(n)[i] == decimal(n / 10)[i]);
            }
        }
    }
}

/// A number padded to a width is made of that many digits.
pub proof fn lemma_padded_digits(n: nat, width: nat)
    ensures
        padded(n, width).len() == width,
        forall|i: int|
            0 <= i < width ==> Class::Digit.holds(#[trigger] ascii(padded(n, width))[i]),
        is_ascii_chars(padded(n, width)),
    decreases width,
{
    if width > 0 {
        lemma_padded_digits(n / 10, (width - 1) as nat);
        let shorter = padded(n / 10, (width - 1) as nat);
        assert forall|i: int| 0 <= i < width implies Class::Digit.holds(
            #[trigger] ascii(padded(n, width))[i],
        ) by {
            if i < width - 1 {
                assert(ascii(padded(n, width))[i] == ascii(shorter)[i]);
            }
        }
        assert forall|i: int| 0 <= i < width implies '\0' <= #[trigger] padded(n, width)[i]
            <= '\u{7f}' by {
            if i < width - 1 {
                assert(padded(n, width)[i] == shorter[i]);
            }
        }
    }
}

/// The word for a unit that a style writes names that unit.
pub proof fn lemma_suffix_names(unit: Unit, singular: bool, style: Style)
    ensures
        unit.suffix(singular, style).len() >= 2,
        unit.suffix(singular, style)[0] == ' ',
        is_ascii_chars(unit.suffix(singular, style)),
        unit.named_by(ascii(unit.suffix(singular, style).skip(1))),
        forall|i: int|
            1 <= i < unit.suffix(singular, style).len() ==> Class::Letter.holds(
                #[trigger] ascii(unit.suffix(singular, style))[i],
            ),
{
    unit.lemma_spelling_ascii();
    let s = unit.spelling();
    let text = unit.suffix(singular, style);
    let word = ascii(text.skip(1));
    let plain = match style {
        Style::Smart => if unit == Unit::Byte {
            s.word
        } else {
            s.abbreviation
        },
        Style::FullLowerCase => s.word,
        Style::Full => s.capitalised,
        Style::AbbreviatedLowerCase => s.short,
        Style::Abbreviated => s.abbreviation,
    };
    let full = match style {
        Style::Smart => unit == Unit::Byte,
        Style::FullLowerCase | Style::Full => true,
        _ => false,
    };
    let plural = full && !singular;
    assert(text =~= if plural {
        seq![' '] + plain + seq!['s']
    } else {
        seq![' '] + plain
    });
    assert forall|i: int| 0 <= i < plain.len() implies word[i] == ascii(plain)[i] by {
        assert(text[i + 1] == plain[i]);
    }
    assert forall|i: int| 0 <= i < text.len() implies '\0' <= #[trigger] text[i] <= '\u{7f}' by {
        if 1 <= i <= plain.len() {
            assert(text[i] == plain[i - 1]);
            assert(ascii(plain)[i - 1] == plain[i - 1] as u8);
        }
    }
    assert forall|i: int| 1 <= i < text.len() implies Class::Letter.holds(
        #[trigger] ascii(text)[i],
    ) by {
        if i <= plain.len() {
            assert(text[i] == plain[i - 1]);
            assert(ascii(text)[i] == ascii(plain)[i - 1]);
        }
    }
    if full {
        let lower_word = ascii(s.word);
        if plural {
            assert(lowered(word) =~= lower_word.push(0x73)) by {
                assert forall|i: int| 0 <= i < word.len() implies lowered(word)[i]
                    == lower_word.push(0x73)[i] by {
                    if i < plain.len() {
                        assert(word[i] == ascii(plain)[i]);
                    }
                }
            }
        } else {
            assert(lowered(word) =~= lower_word) by {
                assert forall|i: int| 0 <= i < word.len() implies lowered(word)[i]
                    == lower_word[i] by {
                    assert(word[i] == ascii(plain)[i]);
                }
            }
        }
    } else {
        let lower_short = ascii(s.short);
        assert(lowered(word) =~= lower_short) by {
            assert forall|i: int| 0 <= i < word.len() implies lowered(word)[i] == lower_short[i] by {
                assert(word[i] == ascii(plain)[i]);
            }
        }
    }
}

/// What the text of a byte count holds: the digits of the number shown.
pub open spec fn shown_numeral(bytes: u64, base: Base) -> Numeral {
    let r = rule_at(base, tier(base, bytes));
    let steps = shown(bytes, r.unit, r.precision as nat);
    if r.precision == 0 {
        Numeral { negative: false, whole: ascii(decimal(steps)), fraction: Seq::<u8>::empty() }
    } else {
        Numeral {
            negative: false,
            whole: ascii(decimal(steps / power_of_ten(r.precision as nat))),
            fraction: ascii(
                padded(steps % power_of_ten(r.precision as nat), r.precision as nat),
            ),
        }
    }
}

/// The text of a byte count is plain ASCII, and reading it gives the digits
/// of the number shown and the unit of the tier.
pub proof fn lemma_round_trip(bytes: u64, base: Base, style: Style)
    ensures
        is_ascii_chars(rendered(bytes, base, style)),
        size_in(encode_utf8(rendered(bytes, base, style))) == Ok::<(Numeral, Unit), ScanError>(
            (shown_numeral(bytes, base), rule_at(base, tier(base, bytes)).unit),
        ),
{
    let r = rule_at(base, tier(base, bytes));
    let p = r.precision as nat;
    let steps = shown(bytes, r.unit, p);
    let singular = steps == power_of_ten(p);
    let text = rendered(bytes, base, style);
    let tail = r.unit.suffix(singular, style);
    let number = numeral(steps, p);
    let read = shown_numeral(bytes, base);
    let word = ascii(tail.skip(1));
    lemma_suffix_names(r.unit, singular, style);
    lemma_decimal_digits(steps);
    lemma_decimal_digits(steps / power_of_ten(p));
    lemma_padded_digits(steps % power_of_ten(p), p);
    assert(text == number + tail);
    assert forall|i: int| 0 <= i < text.len() implies '\0' <= #[trigger] text[i] <= '\u{7f}' by {
        if i >= number.len() {
            assert(text[i] == tail[i - number.len()]);
        } else if p == 0 {
            assert(text[i] == decimal(steps)[i]);
        } else {
            let w = decimal(steps / power_of_ten(p));
            let f = padded(steps % power_of_ten(p), p);
            if i < w.len() {
                assert(text[i] == w[i]);
            } else if i > w.len() {
                assert(text[i] == f[i - w.len() - 1]);
            }
        }
    }
    is_ascii_chars_encode_utf8(text);
    assert(encode_utf8(text) =~= ascii(text));
    assert(ascii(text) =~= written(read.whole, read.fraction, word)) by {
        let w = written(read.whole, read.fraction, word);
        assert(ascii(text).len() == w.len());
        assert forall|i: int| 0 <= i < w.len() implies ascii(text)[i] == w[i] by {
            if i >= number.len() {
                assert(text[i] == tail[i - number.len()]);
                if i > number.len() {
                    assert(word[i - number.len() - 1] == tail.skip(1)[i - number.len() - 1] as u8);
                }
            } else if p == 0 {
                assert(text[i] == decimal(steps)[i]);
            } else {
                let wh = decimal(steps / power_of_ten(p));
                let f = padded(steps % power_of_ten(p), p);
                if i < wh.len() {
                    assert(text[i] == wh[i]);
                } else if i > wh.len() {
                    assert(text[i] == f[i - wh.len() - 1]);
                }
            }
        }
    }
    assert forall|i: int| 0 <= i < word.len() implies Class::Letter.holds(#[trigger] word[i]) by {
        assert(word[i] == ascii(tail)[i + 1]);
    }
    lemma_reads(read.whole, read.fraction, word, r.unit);
}

/// The number of bytes that a number read from text comes to in a unit: as a
/// magnitude, the number counts as the double nearest to it does.
pub open spec fn read_bytes(number: Numeral, unit: Unit) -> nat {
    normalized(number.double().whole(), Some(number.double()), unit.multiplier())
}

/// A number of quarters, read from text, comes to a quarter of its number of
/// units exactly.
pub proof fn lemma_quarters(number: Numeral, a: nat, multiplier: u64, bytes: u64)
    requires
        !number.negative,
        4 * number.numerator() == a * number.denominator(),
        a * multiplier == 4 * bytes,
        a < pow2(53),
        multiplier >= 1,
        is_double(bytes as nat),
        is_double(multiplier as nat),
    ensures
        normalized(number.double().whole(), Some(number.double()), multiplier) == bytes,
{
    let n = number.numerator();
    let d = number.denominator();
    lemma_power_of_ten_positive(number.fraction.len());
    lemma2_to64();
    lemma2_to64_rest();
    if a == 0 {
        assert(n == 0) by (nonlinear_arith)
            requires
                4 * n == a * d,
                a == 0,
        ;
        assert(bytes == 0) by (nonlinear_arith)
            requires
                a * multiplier == 4 * bytes,
                a == 0,
        ;
        assert(number.double() == (Double { mantissa: 0, exponent: 0, sign: 1 }));
        assert(0 * pow2(0) == 0);
        assert(0 * multiplier == 0);
    } else {
        lemma_nearest_scaled(n, d, 4);
        lemma_nearest_scaled(a, 4, d);
        lemma_mul_is_commutative(a as int, d as int);
        lemma_mul_is_commutative(4, d as int);
        lemma_nearest_quarters(a);
        let l = bit_length(a);
        let t = pow2((53 - l) as nat);
        let s = pow2((55 - l) as nat);
        let m = a * t;
        lemma_pow2_pos((53 - l) as nat);
        lemma_pow2_adds(2, (53 - l) as nat);
        assert(s == 4 * t);
        assert(number.double() == (Double {
            mantissa: m as u64,
            exponent: (l - 55) as i16,
            sign: 1,
        }));
        let q = a / 4;
        let r = a % 4;
        assert(m == q * s + r * t) by (nonlinear_arith)
            requires
                m == a * t,
                a == 4 * q + r,
                s == 4 * t,
        ;
        assert(r * t < s) by (nonlinear_arith)
            requires
                r < 4,
                s == 4 * t,
                t > 0,
        ;
        lemma_fundamental_div_mod_converse(m as int, s as int, q as int, (r * t) as int);
        assert((r * t) * pow2(52) > s <==> r >= 1) by (nonlinear_arith)
            requires
                s == 4 * t,
                t > 0,
                r < 4,
                pow2(52) == 0x10_0000_0000_0000,
        ;
        assert(number.double().has_fraction() == (r >= 1));
        assert(number.double().magnitude().floor() == q);
        if r == 0 {
            assert(q * multiplier == bytes) by (nonlinear_arith)
                requires
                    a * multiplier == 4 * bytes,
                    a == 4 * q,
            ;
        } else {
            assert(bytes > 0) by (nonlinear_arith)
                requires
                    a * multiplier == 4 * bytes,
                    a >= 1,
                    multiplier >= 1,
            ;
            let unit = Dyadic::of(multiplier as nat);
            let em = unit.exponent as nat;
            let up = pow2(em);
            let product = Dyadic {
                mantissa: m * unit.mantissa,
                exponent: l - 55 + unit.exponent,
            };
            assert(unit.mantissa * up == multiplier);
            lemma_pow2_pos(em);
            lemma_pow2_pos((55 - l) as nat);
            assert(product.mantissa * up == bytes * s) by (nonlinear_arith)
                requires
                    product.mantissa == m * unit.mantissa,
                    unit.mantissa * up == multiplier,
                    m == a * t,
                    a * multiplier == 4 * bytes,
                    s == 4 * t,
            ;
            assert(amounts_to(product, bytes as nat)) by {
                if product.exponent >= 0 {
                    let over = pow2((em - (55 - l)) as nat);
                    lemma_pow2_adds((em - (55 - l)) as nat, (55 - l) as nat);
                    assert((product.mantissa * over) * s == bytes * s) by (nonlinear_arith)
                        requires
                            product.mantissa * up == bytes * s,
                            up == over * s,
                    ;
                    lemma_mul_is_commutative(s as int, (product.mantissa * over) as int);
                    lemma_mul_is_commutative(s as int, bytes as int);
                    lemma_mul_equality_converse(
                        s as int,
                        (product.mantissa * over) as int,
                        bytes as int,
                    );
                } else {
                    let under = pow2((55 - l - em) as nat);
                    lemma_pow2_adds((55 - l - em) as nat, em);
                    assert(product.mantissa * up == (bytes * under) * up) by (nonlinear_arith)
                        requires
                            product.mantissa * up == bytes * s,
                            s == under * up,
                    ;
                    lemma_mul_is_commutative(up as int, product.mantissa as int);
                    lemma_mul_is_commutative(up as int, (bytes * under) as int);
                    lemma_mul_equality_converse(
                        up as int,
                        product.mantissa as int,
                        (bytes * under) as int,
                    );
                }
            }
            lemma_rounded_exact(product, bytes as nat);
            assert(number.double().magnitude().product(Dyadic::of(multiplier as nat))
                == product.rounded());
        }
    }
}

/// The bytes of a unit are a double: none has more than 53 bits between its
/// first and its last.
pub proof fn lemma_unit_is_double(unit: Unit)
    ensures
        is_double(unit.multiplier() as nat),
{
    lemma2_to64();
    lemma2_to64_rest();
    match unit {
        Unit::Exabyte => {
            lemma_bit_length_is(1_000_000_000_000_000_000, 60);
            assert(1_000_000_000_000_000_000nat / 128 == 7_812_500_000_000_000);
            assert(1_000_000_000_000_000_000nat % 128 == 0);
            assert(7_812_500_000_000_000nat * 128 == 1_000_000_000_000_000_000);
        },
        Unit::Exbibyte => {
            lemma_bit_length_is(0x1000_0000_0000_0000, 61);
            assert(0x1000_0000_0000_0000nat / 256 == 0x10_0000_0000_0000);
            assert(0x1000_0000_0000_0000nat % 256 == 0);
            assert(0x10_0000_0000_0000nat * 256 == 0x1000_0000_0000_0000);
        },
        _ => {
            lemma_small_is_double(unit.multiplier() as nat);
        },
    }
}

/// The number that a number in decimal writes is that number.
pub proof fn lemma_decimal_value(n: nat)
    ensures
        digits_value(ascii(decimal(n))) == n,
    decreases n,
{
    if n < 10 {
        assert(ascii(decimal(n)) =~= seq![digit(n) as u8]);
        lemma_value_single(digit(n) as u8);
    } else {
        lemma_decimal_value(n / 10);
        let front = ascii(decimal(n / 10));
        assert(ascii(decimal(n)) =~= front.push(digit(n % 10) as u8));
        assert(front.push(digit(n % 10) as u8).drop_last() =~= front);
    }
}

/// The number that a number padded to a width writes is what is left of the
/// number over ten to the power of the width.
pub proof fn lemma_padded_value(n: nat, width: nat)
    ensures
        digits_value(ascii(padded(n, width))) == n % power_of_ten(width),
    decreases width,
{
    lemma_power_of_ten_positive(width);
    if width == 0 {
        assert(ascii(padded(n, width)) =~= Seq::<u8>::empty());
        assert(n % 1 == 0);
    } else {
        lemma_padded_value(n / 10, (width - 1) as nat);
        let front = ascii(padded(n / 10, (width - 1) as nat));
        assert(ascii(padded(n, width)) =~= front.push(digit(n % 10) as u8));
        assert(front.push(digit(n % 10) as u8).drop_last() =~= front);
        let p = power_of_ten((width - 1) as nat);
        lemma_power_of_ten_positive((width - 1) as nat);
        // n % (10 p) == (n / 10 % p) * 10 + n % 10
        lemma_fundamental_div_mod(n as int, 10);
        lemma_fundamental_div_mod((n / 10) as int, p as int);
        let inner = (n / 10) % p;
        let outer = (n / 10) / p;
        lemma_mod_bound((n / 10) as int, p as int);
        assert(n == outer * (10 * p) + (inner * 10 + n % 10)) by (nonlinear_arith)
            requires
                n == 10 * (n / 10) + n % 10,
                n / 10 == p * outer + inner,
        ;
        assert(inner * 10 + n % 10 < 10 * p) by (nonlinear_arith)
            requires
                inner < p,
                n % 10 < 10,
        ;
        lemma_fundamental_div_mod_converse(
            n as int,
            (10 * p) as int,
            outer as int,
            (inner * 10 + n % 10) as int,
        );
    }
}

/// The digits of the number shown write that number, counted in steps of the
/// precision.
pub proof fn lemma_shown_value(bytes: u64, base: Base)
    ensures
        shown_numeral(bytes, base).numerator() == shown(
            bytes,
            rule_at(base, tier(base, bytes)).unit,
            rule_at(base, tier(base, bytes)).precision as nat,
        ),
        shown_numeral(bytes, base).denominator() == power_of_ten(
            rule_at(base, tier(base, bytes)).precision as nat,
        ),
        !shown_numeral(bytes, base).negative,
{
    let r = rule_at(base, tier(base, bytes));
    let p = r.precision as nat;
    let steps = shown(bytes, r.unit, p);
    let read = shown_numeral(bytes, base);
    lemma_power_of_ten_positive(p);
    if p == 0 {
        assert(read.whole + read.fraction =~= read.whole);
        lemma_decimal_value(steps);
    } else {
        let scale = power_of_ten(p);
        lemma_value_concat(read.whole, read.fraction);
        lemma_decimal_value(steps / scale);
        lemma_padded_value(steps % scale, p);
        lemma_padded_digits(steps % scale, p);
        lemma_mod_bound(steps as int, scale as int);
        lemma_small_mod(steps % scale, scale);
        lemma_fundamental_div_mod(steps as int, scale as int);
        assert(steps / scale * scale == scale * (steps / scale)) by (nonlinear_arith);
    }
}

/// Whether the number shown for a byte count is that byte count exactly and
/// a whole number of quarters of its unit: the numbers with two digits behind
/// the point that are doubles themselves.
pub open spec fn shown_in_quarters(bytes: u64, base: Base) -> bool {
    let r = rule_at(base, tier(base, bytes));
    let scale = power_of_ten(r.precision as nat);
    let steps = shown(bytes, r.unit, r.precision as nat);
    steps * r.unit.multiplier() == bytes * scale && (4 * steps) % scale == 0
}

/// Read back, the number shown for a size comes to the bytes of that size,
/// where it shows the size exactly, in quarters of its unit, and the size is a
/// double.
pub proof fn lemma_round_trip_bytes(bytes: u64, base: Base)
    requires
        is_double(bytes as nat),
        shown_in_quarters(bytes, base),
    ensures
        read_bytes(shown_numeral(bytes, base), rule_at(base, tier(base, bytes)).unit) == bytes,
{
    lemma_shown_value(bytes, base);
    lemma_tier(base, bytes);
    lemma2_to64_rest();
    let t = tier(base, bytes);
    let r = rule_at(base, t);
    let p = r.precision as nat;
    let scale = power_of_ten(p);
    let steps = shown(bytes, r.unit, p);
    let multiplier = r.unit.multiplier();
    lemma_power_of_ten_positive(p);
    let a: nat = (4 * steps) / scale;
    lemma_fundamental_div_mod((4 * steps) as int, scale as int);
    assert(4 * steps == a * scale) by (nonlinear_arith)
        requires
            4 * steps == scale * a + 0,
    ;
    assert(a * multiplier == 4 * bytes) by (nonlinear_arith)
        requires
            4 * steps == a * scale,
            steps * multiplier == bytes * scale,
            scale > 0,
    ;
    // the size is below 1024 of the unit
    assert(bytes < 1024 * multiplier);
    lemma_unit_is_double(r.unit);
    assert(a < 4096) by (nonlinear_arith)
        requires
            a * multiplier == 4 * bytes,
            bytes < 1024 * multiplier,
            multiplier >= 1,
    ;
    lemma_quarters(shown_numeral(bytes, base), a, multiplier, bytes);
}

proof fn lemma_five(s: nat, j: nat)
    requires
        (s * pow2(j)) % 25 == 0,
    ensures
        s % 25 == 0,
    decreases j,
{
    if j == 0 {
        lemma2_to64();
        assert(s * 1 == s);
    } else {
        lemma_pow2_unfold(j);
        let half = s * pow2((j - 1) as nat);
        assert(s * pow2(j) == 2 * half) by (nonlinear_arith)
            requires
                pow2(j) == 2 * pow2((j - 1) as nat),
                half == s * pow2((j - 1) as nat),
        ;
        assert(half % 25 == 0);
        lemma_five(s, (j - 1) as nat);
    }
}

/// By the binary tiers, a number that shows its size exactly shows it in
/// quarters: a unit is a power of two, so a hundredth of it that is a whole
/// number of bytes is a quarter.
pub proof fn lemma_binary_quarters(bytes: u64)
    requires
        ({
            let r = rule_at(Base::Base2, tier(Base::Base2, bytes));
            shown(bytes, r.unit, r.precision as nat) * r.unit.multiplier() == bytes
                * power_of_ten(r.precision as nat)
        }),
    ensures
        shown_in_quarters(bytes, Base::Base2),
{
    let r = rule_at(Base::Base2, tier(Base::Base2, bytes));
    let p = r.precision as nat;
    let scale = power_of_ten(p);
    let steps = shown(bytes, r.unit, p);
    lemma_rule_shape(Base::Base2, tier(Base::Base2, bytes));
    lemma_tier(Base::Base2, bytes);
    lemma2_to64();
    lemma2_to64_rest();
    reveal_with_fuel(power_of_ten, 4);
    let j: nat = match r.unit {
        Unit::Kibibyte => 10,
        Unit::Mebibyte => 20,
        Unit::Gibibyte => 30,
        Unit::Tebibyte => 40,
        Unit::Pebibyte => 50,
        Unit::Exbibyte => 60,
        _ => 0,
    };
    assert(r.unit.multiplier() == pow2(j));
    let factor: nat = if scale == 1 {
        100
    } else if scale == 10 {
        10
    } else {
        1
    };
    assert(scale * factor == 100);
    assert((steps * factor) * pow2(j) == bytes * 100) by (nonlinear_arith)
        requires
            steps * pow2(j) == bytes * scale,
            scale * factor == 100,
    ;
    lemma_five(steps * factor, j);
    assert((4 * steps) % scale == 0) by {
        if scale == 10 {
            assert((steps * 10) % 25 == 0);
        } else if scale == 100 {
            assert((steps * 1) % 25 == 0);
        }
    }
}

/// By the binary tiers, a size that is shown exactly is a double: it is a
/// number of quarters below 4096 times a power of two.
pub proof fn lemma_binary_double(bytes: u64)
    requires
        ({
            let r = rule_at(Base::Base2, tier(Base::Base2, bytes));
            shown(bytes, r.unit, r.precision as nat) * r.unit.multiplier() == bytes
                * power_of_ten(r.precision as nat)
        }),
    ensures
        is_double(bytes as nat),
{
    lemma_binary_quarters(bytes);
    let r = rule_at(Base::Base2, tier(Base::Base2, bytes));
    let p = r.precision as nat;
    let scale = power_of_ten(p);
    let steps = shown(bytes, r.unit, p);
    let multiplier = r.unit.multiplier();
    lemma_tier(Base::Base2, bytes);
    lemma_power_of_ten_positive(p);
    lemma2_to64();
    lemma2_to64_rest();
    if r.unit == Unit::Byte {
        lemma_small_is_double(bytes as nat);
    } else {
        let a: nat = (4 * steps) / scale;
        lemma_fundamental_div_mod((4 * steps) as int, scale as int);
        assert(4 * steps == a * scale) by (nonlinear_arith)
            requires
                4 * steps == scale * a + 0,
        ;
        assert(a * multiplier == 4 * bytes) by (nonlinear_arith)
            requires
                4 * steps == a * scale,
                steps * multiplier == bytes * scale,
                scale > 0,
        ;
        assert(bytes < 1024 * multiplier);
        assert(a < 4096) by (nonlinear_arith)
            requires
                a * multiplier == 4 * bytes,
                bytes < 1024 * multiplier,
                multiplier >= 1,
        ;
        let j: nat = match r.unit {
            Unit::Kibibyte => 10,
            Unit::Mebibyte => 20,
            Unit::Gibibyte => 30,
            Unit::Tebibyte => 40,
            Unit::Pebibyte => 50,
            _ => 60,
        };
        assert(multiplier == pow2(j));
        lemma_pow2_adds(2, (j - 2) as nat);
        assert(bytes == a * pow2((j - 2) as nat)) by (nonlinear_arith)
            requires
                a * multiplier == 4 * bytes,
                multiplier == 4 * pow2((j - 2) as nat),
        ;
        lemma_shifted_is_double(a, (j - 2) as nat);
    }
}

} // verus!
