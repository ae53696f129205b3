use vstd::prelude::*;
use crate::decimal::{
    decimal_text, lemma_decimal_text_ends_in_digit, lemma_decimal_text_round_trip,
    parse_number_range, same_value, spec_parse_number, Decimal, DecimalError,
};
use crate::text::{chars_of, string_of};

verus! {

/// A decimal multiplier named by a single letter, from yotta (10^24) down to yocto (10^-24).
#[derive(Debug, Clone, Copy, PartialEq, Eq, Structural)]
pub enum SiPrefix {
    Yotta,
    Zetta,
    Exa,
    Peta,
    Tera,
    Giga,
    Mega,
    Kilo,
    Hecto,
    Deca,
    Deci,
    Centi,
    Milli,
    Micro,
    Nano,
    Pico,
    Femto,
    Atto,
    Zepto,
    Yocto,
}

/// The power of ten that a prefix stands for.
pub open spec fn spec_exponent(p: SiPrefix) -> int {
    match p {
        SiPrefix::Yotta => 24,
        SiPrefix::Zetta => 21,
        SiPrefix::Exa => 18,
        SiPrefix::Peta => 15,
        SiPrefix::Tera => 12,
        SiPrefix::Giga => 9,
        SiPrefix::Mega => 6,
        SiPrefix::Kilo => 3,
        SiPrefix::Hecto => 2,
        SiPrefix::Deca => 1,
        SiPrefix::Deci => -1,
        SiPrefix::Centi => -2,
        SiPrefix::Milli => -3,
        SiPrefix::Micro => -6,
        SiPrefix::Nano => -9,
        SiPrefix::Pico => -12,
        SiPrefix::Femto => -15,
        SiPrefix::Atto => -18,
        SiPrefix::Zepto => -21,
        SiPrefix::Yocto => -24,
    }
}

/// The letter written for a prefix. Deca and deci share the letter `d`.
pub open spec fn spec_letter(p: SiPrefix) -> char {
    match p {
        SiPrefix::Yotta => 'Y',
        SiPrefix::Zetta => 'Z',
        SiPrefix::Exa => 'E',
        SiPrefix::Peta => 'P',
        SiPrefix::Tera => 'T',
        SiPrefix::Giga => 'G',
        SiPrefix::Mega => 'M',
        SiPrefix::Kilo => 'k',
        SiPrefix::Hecto => 'h',
        SiPrefix::Deca => 'd',
        SiPrefix::Deci => 'd',
        SiPrefix::Centi => 'c',
        SiPrefix::Milli => 'm',
        SiPrefix::Micro => 'u',
        SiPrefix::Nano => 'n',
        SiPrefix::Pico => 'p',
        SiPrefix::Femto => 'f',
        SiPrefix::Atto => 'a',
        SiPrefix::Zepto => 'z',
        SiPrefix::Yocto => 'y',
    }
}

/// The prefix that a letter names when read; `d` reads as deca.
pub open spec fn spec_from_letter(c: char) -> Option<SiPrefix> {
    if c == 'Y' {
        Some(SiPrefix::Yotta)
    } else if c == 'Z' {
        Some(SiPrefix::Zetta)
    } else if c == 'E' {
        Some(SiPrefix::Exa)
    } else if c == 'P' {
        Some(SiPrefix::Peta)
    } else if c == 'T' {
        Some(SiPrefix::Tera)
    } else if c == 'G' {
        Some(SiPrefix::Giga)
    } else if c == 'M' {
        Some(SiPrefix::Mega)
    } else if c == 'k' {
        Some(SiPrefix::Kilo)
    } else if c == 'h' {
        Some(SiPrefix::Hecto)
    } else if c == 'd' {
        Some(SiPrefix::Deca)
    } else if c == 'c' {
        Some(SiPrefix::Centi)
    } else if c == 'm' {
        Some(SiPrefix::Milli)
    } else if c == 'u' {
        Some(SiPrefix::Micro)
    } else if c == 'n' {
        Some(SiPrefix::Nano)
    } else if c == 'p' {
        Some(SiPrefix::Pico)
    } else if c == 'f' {
        Some(SiPrefix::Femto)
    } else if c == 'a' {
        Some(SiPrefix::Atto)
    } else if c == 'z' {
        Some(SiPrefix::Zepto)
    } else if c == 'y' {
        Some(SiPrefix::Yocto)
    } else {
        None
    }
}

impl SiPrefix {
    /// Reads a prefix letter.
    pub fn from_char(c: char) -> (r: Option<SiPrefix>)
        ensures
            r == spec_from_letter(c),
    {
        match c {
            'Y' => Some(SiPrefix::Yotta),
            'Z' => Some(SiPrefix::Zetta),
            'E' => Some(SiPrefix::Exa),
            'P' => Some(SiPrefix::Peta),
            'T' => Some(SiPrefix::Tera),
            'G' => Some(SiPrefix::Giga),
            'M' => Some(SiPrefix::Mega),
            'k' => Some(SiPrefix::Kilo),
            'h' => Some(SiPrefix::Hecto),
            'd' => Some(SiPrefix::Deca),
            'c' => Some(SiPrefix::Centi),
            'm' => Some(SiPrefix::Milli),
            'u' => Some(SiPrefix::Micro),
            'n' => Some(SiPrefix::Nano),
            'p' => Some(SiPrefix::Pico),
            'f' => Some(SiPrefix::Femto),
            'a' => Some(SiPrefix::Atto),
            'z' => Some(SiPrefix::Zepto),
            'y' => Some(SiPrefix::Yocto),
            _ => None,
        }
    }

    /// The letter that names this prefix.
    pub fn as_char(&self) -> (c: char)
        ensures
            c == spec_letter(*self),
    {
        match self {
            SiPrefix::Yotta => 'Y',
            SiPrefix::Zetta => 'Z',
            SiPrefix::Exa => 'E',
            SiPrefix::Peta => 'P',
            SiPrefix::Tera => 'T',
            SiPrefix::Giga => 'G',
            SiPrefix::Mega => 'M',
            SiPrefix::Kilo => 'k',
            SiPrefix::Hecto => 'h',
            SiPrefix::Deca => 'd',
            SiPrefix::Deci => 'd',
            SiPrefix::Centi => 'c',
            SiPrefix::Milli => 'm',
            SiPrefix::Micro => 'u',
            SiPrefix::Nano => 'n',
            SiPrefix::Pico => 'p',
            SiPrefix::Femto => 'f',
            SiPrefix::Atto => 'a',
            SiPrefix::Zepto => 'z',
            SiPrefix::Yocto => 'y',
        }
    }

    /// The power of ten that this prefix multiplies by.
    pub fn exponent(&self) -> (e: i32)
        ensures
            e == spec_exponent(*self),
    {
        match self {
            SiPrefix::Yotta => 24,
            SiPrefix::Zetta => 21,
            SiPrefix::Exa => 18,
            SiPrefix::Peta => 15,
            SiPrefix::Tera => 12,
            SiPrefix::Giga => 9,
            SiPrefix::Mega => 6,
            SiPrefix::Kilo => 3,
            SiPrefix::Hecto => 2,
            SiPrefix::Deca => 1,
            SiPrefix::Deci => -1,
            SiPrefix::Centi => -2,
            SiPrefix::Milli => -3,
            SiPrefix::Micro => -6,
            SiPrefix::Nano => -9,
            SiPrefix::Pico => -12,
            SiPrefix::Femto => -15,
            SiPrefix::Atto => -18,
            SiPrefix::Zepto => -21,
            SiPrefix::Yocto => -24,
        }
    }
}

impl SiPrefix {
    /// Reads the prefix named by the first character of `s`.
    pub fn from_text(s: &str) -> (r: Result<SiPrefix, ()>)
        ensures
            r is Ok <==> s@.len() > 0 && spec_from_letter(s@[0]) is Some,
            r is Ok ==> r->Ok_0 == spec_from_letter(s@[0])->Some_0,
    {
        let chars = chars_of(s);
        if chars.len() == 0 {
            return Err(());
        }
        match SiPrefix::from_char(chars[0]) {
            Some(p) => Ok(p),
            None => Err(()),
        }
    }
}

impl std::str::FromStr for SiPrefix {
    type Err = ();

    fn from_str(s: &str) -> (r: Result<SiPrefix, ()>)
        ensures
            r is Ok <==> s@.len() > 0 && spec_from_letter(s@[0]) is Some,
            r is Ok ==> r->Ok_0 == spec_from_letter(s@[0])->Some_0,
    {
        SiPrefix::from_text(s)
    }
}

/// Writing a prefix's letter and reading it back gives the prefix again, for every prefix
/// but deci, whose letter reads as deca.
pub proof fn lemma_letter_round_trip(p: SiPrefix)
    requires
        p != SiPrefix::Deci,
    ensures
        spec_from_letter(spec_letter(p)) == Some(p),
{
}

/// A number with an optional SI prefix, as written in configuration: `1.23k` is 1.23 kilo.
/// Two are equal when they have the same prefix and stand for the same number.
#[derive(Debug, Clone, Copy)]
pub struct SiPrefixed {
    pub value: Decimal,
    pub prefix: Option<SiPrefix>,
}

/// What reading `s` as a prefixed number gives: a last character that names a prefix is the
/// prefix, and what stands before it is the number, in decimal or exponent notation.
pub open spec fn spec_parse_prefixed(s: Seq<char>) -> Result<SiPrefixed, DecimalError> {
    if s.len() > 0 && spec_from_letter(s.last()) is Some {
        match spec_parse_number(s.drop_last()) {
            Ok(value) => Ok(SiPrefixed { value, prefix: spec_from_letter(s.last()) }),
            Err(e) => Err(e),
        }
    } else {
        match spec_parse_number(s) {
            Ok(value) => Ok(SiPrefixed { value, prefix: None }),
            Err(e) => Err(e),
        }
    }
}

/// How a prefixed number is written: the number, then the prefix's letter.
pub open spec fn prefixed_text(p: SiPrefixed) -> Seq<char> {
    match p.prefix {
        Some(q) => decimal_text(p.value).push(spec_letter(q)),
        None => decimal_text(p.value),
    }
}

/// The power of ten that the prefix adds to the value's exponent; none without a prefix.
pub open spec fn prefix_shift(p: Option<SiPrefix>) -> int {
    match p {
        Some(q) => spec_exponent(q),
        None => 0,
    }
}

impl SiPrefixed {
    /// Zero, without a prefix.
    pub fn zero() -> (r: SiPrefixed)
        ensures
            r.value.mantissa == 0,
            r.value.exponent == 0,
            r.prefix is None,
    {
        SiPrefixed { value: Decimal::new(0, 0), prefix: None }
    }

    /// A number in base units, without a prefix.
    pub fn from_base(value: Decimal) -> (r: SiPrefixed)
        ensures
            r.value == value,
            r.prefix is None,
    {
        SiPrefixed { value, prefix: None }
    }

    /// Reads a number with an optional prefix letter at its end.
    pub fn parse(s: &str) -> (r: Result<SiPrefixed, DecimalError>)
        ensures
            r == spec_parse_prefixed(s@),
    {
        let chars = chars_of(s);
        let n = chars.len();
        if n > 0 {
            if let Some(prefix) = SiPrefix::from_char(chars[n - 1]) {
                assert(chars@.subrange(0, n - 1) =~= s@.drop_last());
                return match parse_number_range(&chars, 0, n - 1) {
                    Ok(value) => Ok(SiPrefixed { value, prefix: Some(prefix) }),
                    Err(e) => Err(e),
                };
            }
        }
        assert(chars@.subrange(0, n as int) =~= s@);
        match parse_number_range(&chars, 0, n) {
            Ok(value) => Ok(SiPrefixed { value, prefix: None }),
            Err(e) => Err(e),
        }
    }

    /// How this number is written: the number, then the prefix's letter.
    pub fn to_string(&self) -> (r: String)
        ensures
            r@ == prefixed_text(*self),
    {
        let mut out: Vec<char> = Vec::new();
        self.value.write_to(&mut out);
        if let Some(prefix) = self.prefix {
            out.push(prefix.as_char());
        }
        assert(out@ =~= prefixed_text(*self));
        string_of(&out)
    }

    /// The number in base units: the prefix's power of ten moves into the exponent.
    pub fn as_base_value(&self) -> (r: Decimal)
        requires
            i32::MIN <= self.value.exponent + prefix_shift(self.prefix) <= i32::MAX,
        ensures
            r.mantissa == self.value.mantissa,
            r.exponent == self.value.exponent + prefix_shift(self.prefix),
    {
        match self.prefix {
            Some(prefix) => Decimal::new(self.value.mantissa, self.value.exponent + prefix.exponent()),
            None => self.value,
        }
    }
}

impl std::str::FromStr for SiPrefixed {
    type Err = DecimalError;

    fn from_str(s: &str) -> (r: Result<SiPrefixed, DecimalError>)
        ensures
            r == spec_parse_prefixed(s@),
    {
        SiPrefixed::parse(s)
    }
}

impl SiPrefixed {
    /// The number in base units, where the prefix's power of ten leaves the exponent within
    /// `i32`; `None` otherwise.
    pub fn checked_base_value(&self) -> (r: Option<Decimal>)
        ensures
            r is Some <==> i32::MIN <= self.value.exponent + prefix_shift(self.prefix) <= i32::MAX,
            r is Some ==> r->Some_0.mantissa == self.value.mantissa && r->Some_0.exponent
                == self.value.exponent + prefix_shift(self.prefix),
    {
        let shift: i64 = match self.prefix {
            Some(prefix) => prefix.exponent() as i64,
            None => 0,
        };
        let e = self.value.exponent as i64 + shift;
        if e < i32::MIN as i64 || e > i32::MAX as i64 {
            None
        } else {
            Some(self.as_base_value())
        }
    }
}

impl PartialEq for SiPrefixed {
    fn eq(&self, other: &SiPrefixed) -> (r: bool) {
        let same_prefix = match (self.prefix, other.prefix) {
            (Some(a), Some(b)) => a == b,
            (None, None) => true,
            _ => false,
        };
        same_prefix && self.value == other.value
    }
}

impl vstd::std_specs::cmp::PartialEqSpecImpl for SiPrefixed {
    open spec fn obeys_eq_spec() -> bool {
        true
    }

    open spec fn eq_spec(&self, other: &SiPrefixed) -> bool {
        self.prefix == other.prefix && same_value(self.value, other.value)
    }
}

impl Default for SiPrefixed {
    fn default() -> (r: SiPrefixed)
        ensures
            r.value.mantissa == 0,
            r.value.exponent == 0,
            r.prefix is None,
    {
        SiPrefixed::zero()
    }
}

/// Writing a prefixed number and reading the text back gives the same prefix and the same
/// number, for every prefix but deci (whose letter reads as deca).
pub proof fn lemma_prefixed_text_round_trip(p: SiPrefixed)
    requires
        p.prefix != Some(SiPrefix::Deci),
    ensures
        spec_parse_prefixed(prefixed_text(p)) is Ok,
        spec_parse_prefixed(prefixed_text(p))->Ok_0.prefix == p.prefix,
        same_value(spec_parse_prefixed(prefixed_text(p))->Ok_0.value, p.value),
{
    lemma_decimal_text_round_trip(p.value);
    lemma_decimal_text_ends_in_digit(p.value);
    let t = decimal_text(p.value);
    match p.prefix {
        Some(q) => {
            lemma_letter_round_trip(q);
            assert(t.push(spec_letter(q)).drop_last() =~= t);
        },
        None => {
            assert(spec_from_letter(t.last()) is None);
        },
    }
}

} // verus!
