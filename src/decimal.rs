use vstd::prelude::*;
use crate::text::{
    chars_of, digit_char, digits_text, push_digits, push_range, push_zeros, string_of, zeros,
};

verus! {

/// An exact decimal number `mantissa * 10^exponent`. Two decimals are equal when they stand
/// for the same number: `1.5 == 1.50`.
#[derive(Debug, Clone, Copy)]
pub struct Decimal {
    pub mantissa: i128,
    pub exponent: i32,
}

/// Why a text is not a decimal number.
#[derive(Debug, Clone, Copy, PartialEq, Eq, Structural)]
pub enum DecimalError {
    /// The text is empty.
    Empty,
    /// The text is not an optional sign followed by digits with at most one point.
    Invalid,
    /// The number is well formed but its digits do not fit the mantissa.
    OutOfRange,
}

/// `10^n`.
pub open spec fn pow10(n: nat) -> int
    decreases n,
{
    if n == 0 {
        1
    } else {
        10 * pow10((n - 1) as nat)
    }
}

/// An ASCII decimal digit.
pub open spec fn is_digit(c: char) -> bool {
    '0' <= c && c <= '9'
}

/// The value of a decimal digit.
pub open spec fn digit_value(c: char) -> int {
    c as int - '0' as int
}

/// The number that a string of decimal digits spells.
pub open spec fn digits_value(s: Seq<char>) -> int
    decreases s.len(),
{
    if s.len() == 0 {
        0
    } else {
        digits_value(s.drop_last()) * 10 + digit_value(s.last())
    }
}

/// The characters of `s` without its decimal points.
pub open spec fn without_points(s: Seq<char>) -> Seq<char>
    decreases s.len(),
{
    if s.len() == 0 {
        s
    } else if s.last() == '.' {
        without_points(s.drop_last())
    } else {
        without_points(s.drop_last()).push(s.last())
    }
}

/// How many characters follow the last point of `s` (all of them if it has none).
pub open spec fn after_point(s: Seq<char>) -> nat
    decreases s.len(),
{
    if s.len() == 0 || s.last() == '.' {
        0
    } else {
        after_point(s.drop_last()) + 1
    }
}

/// How many digits stand after the decimal point of `s`; none where it has no point.
pub open spec fn fraction_digits(s: Seq<char>) -> nat {
    if s.contains('.') {
        after_point(s)
    } else {
        0
    }
}

/// Digits with at most one point among them, and at least one digit.
pub open spec fn is_unsigned_literal(s: Seq<char>) -> bool {
    &&& forall|i: int| 0 <= i < s.len() ==> is_digit(#[trigger] s[i]) || s[i] == '.'
    &&& forall|i: int, j: int|
        0 <= i < s.len() && 0 <= j < s.len() && #[trigger] s[i] == '.' && #[trigger] s[j] == '.'
            ==> i == j
    &&& without_points(s).len() > 0
}

/// How many characters a leading sign takes: one or none.
pub open spec fn sign_length(s: Seq<char>) -> int {
    if s.len() > 0 && (s[0] == '+' || s[0] == '-') {
        1
    } else {
        0
    }
}

/// Whether `s` starts with a minus sign.
pub open spec fn is_negative_literal(s: Seq<char>) -> bool {
    s.len() > 0 && s[0] == '-'
}

/// `s` without its leading sign.
pub open spec fn unsigned_part(s: Seq<char>) -> Seq<char> {
    s.subrange(sign_length(s), s.len() as int)
}

/// An optional sign, then digits with at most one decimal point.
pub open spec fn is_literal(s: Seq<char>) -> bool {
    is_unsigned_literal(unsigned_part(s))
}

/// The magnitude of the mantissa that a literal spells.
pub open spec fn literal_magnitude(s: Seq<char>) -> int {
    digits_value(without_points(unsigned_part(s)))
}

/// The largest magnitude a mantissa holds with the given sign.
pub open spec fn magnitude_bound(negative: bool) -> int {
    if negative {
        0x8000_0000_0000_0000_0000_0000_0000_0000
    } else {
        i128::MAX as int
    }
}

/// A literal whose digits fit the mantissa and whose fraction fits the exponent.
pub open spec fn literal_fits(s: Seq<char>) -> bool {
    &&& literal_magnitude(s) <= magnitude_bound(is_negative_literal(s))
    &&& fraction_digits(unsigned_part(s)) <= i32::MAX
}

/// The decimal that a literal spells, digit for digit.
pub open spec fn literal_decimal(s: Seq<char>) -> Decimal {
    let m = literal_magnitude(s);
    Decimal {
        mantissa: (if is_negative_literal(s) {
            -m
        } else {
            m
        }) as i128,
        exponent: (-fraction_digits(unsigned_part(s))) as i32,
    }
}

/// What reading `s` as a decimal number gives.
pub open spec fn spec_parse(s: Seq<char>) -> Result<Decimal, DecimalError> {
    if s.len() == 0 {
        Err(DecimalError::Empty)
    } else if !is_literal(s) {
        Err(DecimalError::Invalid)
    } else if !literal_fits(s) {
        Err(DecimalError::OutOfRange)
    } else {
        Ok(literal_decimal(s))
    }
}

/// Every power of ten is at least one.
pub proof fn lemma_pow10_positive(n: nat)
    ensures
        pow10(n) >= 1,
    decreases n,
{
    if n > 0 {
        lemma_pow10_positive((n - 1) as nat);
    }
}

proof fn lemma_digits_value_nonneg(s: Seq<char>)
    requires
        forall|i: int| 0 <= i < s.len() ==> is_digit(#[trigger] s[i]),
    ensures
        digits_value(s) >= 0,
    decreases s.len(),
{
    if s.len() > 0 {
        assert(is_digit(s[s.len() - 1]));
        lemma_digits_value_nonneg(s.drop_last());
    }
}

proof fn lemma_without_points_digits(s: Seq<char>)
    requires
        forall|i: int| 0 <= i < s.len() ==> is_digit(#[trigger] s[i]) || s[i] == '.',
    ensures
        forall|i: int|
            0 <= i < without_points(s).len() ==> is_digit(#[trigger] without_points(s)[i]),
        without_points(s).len() <= s.len(),
    decreases s.len(),
{
    if s.len() > 0 {
        assert(is_digit(s[s.len() - 1]) || s[s.len() - 1] == '.');
        lemma_without_points_digits(s.drop_last());
    }
}

/// Reads `s[start..end]` as a decimal number.
pub fn parse_range(s: &Vec<char>, start: usize, end: usize) -> (r: Result<Decimal, DecimalError>)
    requires
        start <= end <= s.len(),
    ensures
        r == spec_parse(s@.subrange(start as int, end as int)),
{
    let ghost t = s@.subrange(start as int, end as int);
    if start == end {
        return Err(DecimalError::Empty);
    }
    let negative = s[start] == '-';
    let body_start: usize = if s[start] == '-' || s[start] == '+' {
        start + 1
    } else {
        start
    };
    let ghost u = s@.subrange(body_start as int, end as int);
    assert(t[0] == s@[start as int]);
    assert(u =~= unsigned_part(t));
    let bound: u128 = if negative {
        0x8000_0000_0000_0000_0000_0000_0000_0000
    } else {
        0x7fff_ffff_ffff_ffff_ffff_ffff_ffff_ffff
    };
    assert(negative == is_negative_literal(t));
    let mut magnitude: u128 = 0;
    let mut points: usize = 0;
    let mut after: u64 = 0;
    let mut fits = true;
    let mut digits: usize = 0;
    let mut i: usize = body_start;
    while i < end
        invariant
            start < body_start <= end || start == body_start,
            t == s@.subrange(start as int, end as int),
            t.len() > 0,
            u == unsigned_part(t),
            body_start <= i <= end <= s.len(),
            u == s@.subrange(body_start as int, end as int),
            points <= 1,
            points == 0 <==> !u.take(i - body_start).contains('.'),
            forall|k: int|
                0 <= k < i - body_start ==> is_digit(#[trigger] u[k]) || u[k] == '.',
            forall|k: int, j: int|
                0 <= k < i - body_start && 0 <= j < i - body_start && #[trigger] u[k] == '.'
                    && #[trigger] u[j] == '.' ==> k == j,
            bound == magnitude_bound(negative),
            negative == is_negative_literal(t),
            fits <==> digits_value(without_points(u.take(i - body_start))) <= bound,
            fits ==> magnitude == digits_value(without_points(u.take(i - body_start))),
            0 <= magnitude,
            after == after_point(u.take(i - body_start)),
            after <= i - body_start,
            digits == without_points(u.take(i - body_start)).len(),
            digits <= i - body_start,
        decreases end - i,
    {
        let c = s[i];
        let ghost pre = u.take(i - body_start);
        assert(u.take(i - body_start + 1) =~= pre.push(c));
        assert(pre.push(c).drop_last() =~= pre);
        if c == '.' {
            if points == 1 {
                assert(pre.contains('.'));
                let ghost k = choose|k: int| 0 <= k < pre.len() && pre[k] == '.';
                assert(u[k] == '.' && u[i - body_start] == '.');
                assert(!is_unsigned_literal(u));
                return Err(DecimalError::Invalid);
            }
            assert(forall|k: int| 0 <= k < pre.len() ==> pre[k] != '.');
            assert(forall|k: int| 0 <= k < pre.len() ==> u[k] == pre[k]);
            points = 1;
            after = 0;
            assert(pre.push(c)[pre.len() as int] == '.');
        } else if '0' <= c && c <= '9' {
            proof {
                lemma_without_points_digits(pre);
                lemma_digits_value_nonneg(without_points(pre));
            }
            let d = (c as u32 - '0' as u32) as u128;
            let ghost w = without_points(pre);
            assert(without_points(pre.push(c)) == w.push(c));
            assert(w.push(c).drop_last() =~= w);
            assert(digits_value(w.push(c)) == digits_value(w) * 10 + d);
            if fits && magnitude <= (bound - d) / 10 {
                magnitude = magnitude * 10 + d;
            } else {
                if fits {
                    assert(magnitude * 10 + d > bound) by (nonlinear_arith)
                        requires
                            magnitude > (bound - d) / 10,
                            0 <= d <= 9,
                    ;
                }
                fits = false;
            }
            after = after + 1;
            digits = digits + 1;
            if points == 0 {
                assert(!pre.push(c).contains('.')) by {
                    if pre.push(c).contains('.') {
                        let k = choose|k: int| 0 <= k < pre.push(c).len() && pre.push(c)[k] == '.';
                        assert(pre[k] == '.');
                    }
                }
            } else {
                assert(pre.contains('.'));
                let ghost k = choose|k: int| 0 <= k < pre.len() && pre[k] == '.';
                assert(pre.push(c)[k] == '.');
            }
        } else {
            assert(!is_unsigned_literal(u)) by {
                assert(!(is_digit(u[i - body_start]) || u[i - body_start] == '.'));
            }
            return Err(DecimalError::Invalid);
        }
        i = i + 1;
    }
    assert(u.take(i - body_start) =~= u);
    proof {
        lemma_without_points_digits(u);
    }
    assert(points == 1 <==> u.contains('.'));
    if digits == 0 {
        return Err(DecimalError::Invalid);
    }
    if !fits || (points == 1 && after > i32::MAX as u64) {
        return Err(DecimalError::OutOfRange);
    }
    let exponent: i32 = if points == 1 { -(after as i32) } else { 0 };
    let mantissa: i128 = if !negative {
        magnitude as i128
    } else if magnitude == bound {
        i128::MIN
    } else {
        -(magnitude as i128)
    };
    Ok(Decimal { mantissa, exponent })
}

/// The magnitude of an integer.
pub open spec fn abs(m: int) -> nat {
    if m < 0 {
        (-m) as nat
    } else {
        m as nat
    }
}

/// `n * 10^e` with the trailing zeros of `n` moved into the exponent.
pub open spec fn trimmed(n: nat, e: int) -> (nat, int)
    decreases n,
{
    if n != 0 && n % 10 == 0 {
        trimmed(n / 10, e + 1)
    } else {
        (n, e)
    }
}

/// `n * 10^e` written out in plain positional notation, with no exponent, no leading zeros
/// before the point but one, and no trailing zeros after it.
pub open spec fn positional_text(n: nat, e: int) -> Seq<char> {
    let ds = digits_text(n);
    let k = -e;
    if e >= 0 {
        ds + zeros(e as nat)
    } else if ds.len() > k {
        ds.take(ds.len() - k) + seq!['.'] + ds.skip(ds.len() - k)
    } else {
        seq!['0', '.'] + zeros((k - ds.len()) as nat) + ds
    }
}

/// How a decimal is written: `-` first where it is negative, then its shortest plain
/// positional form where that is short (see `is_plain`), its exponent notation otherwise, and
/// `0` for zero. Reading the text back gives the same number (`lemma_decimal_text_round_trip`).
pub open spec fn decimal_text(d: Decimal) -> Seq<char> {
    let n = abs(d.mantissa as int);
    if n == 0 {
        seq!['0']
    } else {
        let t = trimmed(n, d.exponent as int);
        (if d.mantissa < 0 {
            seq!['-']
        } else {
            Seq::<char>::empty()
        }) + (if is_plain(t.0, t.1) {
            positional_text(t.0, t.1)
        } else {
            exponent_text(t.0, t.1)
        })
    }
}

/// Whether `n * 10^e` is written in positional form: at most forty places after the point,
/// and a whole number within `i128`.
pub open spec fn is_plain(n: nat, e: int) -> bool {
    e >= -40 && (e <= 0 || n * pow10(e as nat) <= i128::MAX)
}

/// `n * 10^e` in exponent notation: the digits of `n`, `e`, and the exponent. An exponent
/// beyond `i32::MAX` is brought back to it by writing zeros after the digits.
pub open spec fn exponent_text(n: nat, e: int) -> Seq<char> {
    let shift: int = if e > i32::MAX {
        e - i32::MAX
    } else {
        0
    };
    digits_text(n) + zeros(shift as nat) + seq!['e'] + (if e - shift < 0 {
        seq!['-']
    } else {
        Seq::<char>::empty()
    }) + digits_text(abs(e - shift))
}

/// Powers of ten grow with the exponent.
pub proof fn lemma_pow10_monotone(a: nat, b: nat)
    requires
        a <= b,
    ensures
        pow10(a) <= pow10(b),
    decreases b,
{
    if a < b {
        lemma_pow10_monotone(a, (b - 1) as nat);
        lemma_pow10_positive((b - 1) as nat);
    }
}

/// `10^18`, written out.
pub proof fn lemma_pow10_18()
    ensures
        pow10(18) == 1_000_000_000_000_000_000,
{
    reveal_with_fuel(pow10, 19);
}

/// `10^38`, written out.
pub proof fn lemma_pow10_38()
    ensures
        pow10(38) == 100000000000000000000000000000000000000,
{
    reveal_with_fuel(pow10, 39);
}

/// `10^39`, written out.
pub proof fn lemma_pow10_39()
    ensures
        pow10(39) == 1000000000000000000000000000000000000000,
{
    reveal_with_fuel(pow10, 40);
}

proof fn lemma_digits_text_len(n: nat, k: nat)
    requires
        n < pow10(k),
        k >= 1,
    ensures
        1 <= digits_text(n).len() <= k,
    decreases n,
{
    if n >= 10 {
        assert(k >= 2) by {
            if k == 1 {
                reveal_with_fuel(pow10, 2);
            }
        }
        assert(pow10(k) == 10 * pow10((k - 1) as nat));
        lemma_digits_text_len(n / 10, (k - 1) as nat);
    }
}

/// Appends `n * 10^e` in positional form.
fn push_positional(out: &mut Vec<char>, ds: &Vec<char>, n: u128, e: i64)
    requires
        ds@ == digits_text(n as nat),
        ds.len() <= 39,
        -0x1_0000_0000 <= e <= 0x1_0000_0000,
    ensures
        final(out)@ == old(out)@ + positional_text(n as nat, e as int),
{
    let len = ds.len();
    let ghost pos = positional_text(n as nat, e as int);
    if e >= 0 {
        push_range(out, ds, 0, len);
        push_zeros(out, e as u64);
        assert(ds@.subrange(0, len as int) =~= ds@);
    } else if (len as i64) > -e {
        let cut = (len as i64 + e) as usize;
        push_range(out, ds, 0, cut);
        out.push('.');
        push_range(out, ds, cut, len);
    } else {
        out.push('0');
        out.push('.');
        push_zeros(out, (-e - len as i64) as u64);
        push_range(out, ds, 0, len);
        assert(ds@.subrange(0, len as int) =~= ds@);
    }
    assert(final(out)@ =~= old(out)@ + pos);
}

/// Appends `n * 10^e` in exponent notation.
fn push_exponent_form(out: &mut Vec<char>, ds: &Vec<char>, n: u128, e: i64)
    requires
        ds@ == digits_text(n as nat),
        -0x1_0000_0000 <= e <= i32::MAX + 39,
    ensures
        final(out)@ == old(out)@ + exponent_text(n as nat, e as int),
{
    let len = ds.len();
    let shift: i64 = if e > i32::MAX as i64 {
        e - i32::MAX as i64
    } else {
        0
    };
    let ee: i64 = e - shift;
    push_range(out, ds, 0, len);
    push_zeros(out, shift as u64);
    out.push('e');
    if ee < 0 {
        out.push('-');
    }
    let mag: u128 = if ee < 0 {
        (-ee) as u128
    } else {
        ee as u128
    };
    push_digits(out, mag);
    assert(ds@.subrange(0, len as int) =~= ds@);
    assert(final(out)@ =~= old(out)@ + exponent_text(n as nat, e as int));
}

impl Decimal {
    /// The number `mantissa * 10^exponent`.
    pub fn new(mantissa: i128, exponent: i32) -> (d: Decimal)
        ensures
            d.mantissa == mantissa,
            d.exponent == exponent,
    {
        Decimal { mantissa, exponent }
    }

    /// Reads a number: an optional sign, then digits with at most one point, then optionally
    /// `e` or `E` and a signed power of ten.
    pub fn parse(s: &str) -> (r: Result<Decimal, DecimalError>)
        ensures
            r == spec_parse_number(s@),
    {
        let chars = chars_of(s);
        let r = parse_number_range(&chars, 0, chars.len());
        assert(chars@.subrange(0, chars@.len() as int) =~= s@);
        r
    }

    /// Appends how this number is written.
    pub fn write_to(&self, out: &mut Vec<char>)
        ensures
            final(out)@ == old(out)@ + decimal_text(*self),
    {
        let m = self.mantissa;
        let mut n: u128 = if m < 0 {
            ((-(m + 1)) as u128) + 1
        } else {
            m as u128
        };
        assert(n == abs(m as int));
        if n == 0 {
            out.push('0');
            assert(final(out)@ =~= old(out)@ + decimal_text(*self));
            return;
        }
        if m < 0 {
            out.push('-');
        }
        let ghost signed = out@;
        let mut e: i64 = self.exponent as i64;
        proof {
            lemma_pow10_39();
        }
        while n % 10 == 0
            invariant
                n != 0,
                trimmed(n as nat, e as int) == trimmed(abs(m as int), self.exponent as int),
                self.exponent <= e,
                n * pow10((e - self.exponent) as nat) == abs(m as int),
                abs(m as int) <= 0x8000_0000_0000_0000_0000_0000_0000_0000,
                pow10(39) > 0x8000_0000_0000_0000_0000_0000_0000_0000,
            decreases n,
        {
            let ghost k = (e - self.exponent) as nat;
            proof {
                lemma_pow10_positive(k);
                assert(n as int >= 10);
                assert(pow10(k + 1) == 10 * pow10(k));
                assert(n * pow10(k) >= 10 * pow10(k)) by (nonlinear_arith)
                    requires
                        n >= 10,
                        pow10(k) >= 1,
                ;
                if k + 1 >= 39 {
                    lemma_pow10_monotone(39, k + 1);
                }
                assert((n / 10) * pow10(k + 1) == n * pow10(k)) by (nonlinear_arith)
                    requires
                        n % 10 == 0,
                        pow10(k + 1) == 10 * pow10(k),
                ;
            }
            n = n / 10;
            e = e + 1;
            assert((e - self.exponent) as nat == k + 1);
        }
        let mut ds: Vec<char> = Vec::new();
        push_digits(&mut ds, n);
        assert(ds@ =~= digits_text(n as nat));
        proof {
            lemma_pow10_positive((e - self.exponent) as nat);
            assert(n <= n * pow10((e - self.exponent) as nat)) by (nonlinear_arith)
                requires
                    pow10((e - self.exponent) as nat) >= 1,
            ;
            lemma_digits_text_len(n as nat, 39);
            assert(trimmed(n as nat, e as int) == (n as nat, e as int));
        }
        let len = ds.len();
        let ghost k = (e - self.exponent) as nat;
        proof {
            lemma_pow10_39();
            if k >= 39 {
                lemma_pow10_monotone(39, k);
                assert(n * pow10(k) >= pow10(k)) by (nonlinear_arith)
                    requires
                        n >= 1,
                        pow10(k) >= 1,
                ;
            }
        }
        let plain: bool = if e < -40 {
            false
        } else if e <= 0 {
            true
        } else if e > 38 {
            proof {
                lemma_pow10_monotone(39, e as nat);
                assert(n * pow10(e as nat) >= pow10(e as nat)) by (nonlinear_arith)
                    requires
                        n >= 1,
                        pow10(e as nat) >= 1,
                ;
            }
            false
        } else {
            let p = pow10_exec(e as u32);
            proof {
                assert((n <= (i128::MAX as u128) / p) == (n * p <= i128::MAX)) by (nonlinear_arith)
                    requires
                        p >= 1,
                ;
            }
            n <= (i128::MAX as u128) / p
        };
        assert(plain == is_plain(n as nat, e as int));
        if plain {
            push_positional(out, &ds, n, e);
        } else {
            push_exponent_form(out, &ds, n, e);
        }
        assert(final(out)@ =~= old(out)@ + decimal_text(*self));
    }

    /// How this number is written.
    pub fn to_string(&self) -> (r: String)
        ensures
            r@ == decimal_text(*self),
    {
        let mut out: Vec<char> = Vec::new();
        self.write_to(&mut out);
        assert(out@ =~= decimal_text(*self));
        string_of(&out)
    }
}

/// The character of a digit is a digit of that value.
pub proof fn lemma_digit_char(d: int)
    requires
        0 <= d <= 9,
    ensures
        is_digit(digit_char(d)),
        digit_value(digit_char(d)) == d,
{
}

/// The written form of a count holds only digits.
pub proof fn lemma_digits_text_all_digits(n: nat)
    ensures
        forall|i: int| 0 <= i < digits_text(n).len() ==> is_digit(#[trigger] digits_text(n)[i]),
    decreases n,
{
    lemma_digit_char((n % 10) as int);
    if n >= 10 {
        lemma_digits_text_all_digits(n / 10);
        let t = digits_text(n);
        assert forall|i: int| 0 <= i < t.len() implies is_digit(#[trigger] t[i]) by {
            if i < t.len() - 1 {
                assert(t[i] == digits_text(n / 10)[i]);
            }
        }
    }
}

proof fn lemma_digits_text_value(n: nat)
    ensures
        digits_value(digits_text(n)) == n,
    decreases n,
{
    lemma_digit_char((n % 10) as int);
    if n >= 10 {
        lemma_digits_text_value(n / 10);
        assert(digits_text(n).drop_last() =~= digits_text(n / 10));
        assert(digits_text(n).last() == digit_char((n % 10) as int));
        assert(digits_value(digits_text(n)) == digits_value(digits_text(n / 10)) * 10
            + digit_value(digit_char((n % 10) as int)));
        assert(n == (n / 10) * 10 + n % 10);
    } else {
        assert(digits_text(n).drop_last() =~= Seq::<char>::empty());
        assert(digits_text(n).last() == digit_char(n as int));
        assert(n % 10 == n);
        assert(digits_value(digits_text(n)) == digits_value(Seq::<char>::empty()) * 10
            + digit_value(digit_char(n as int)));
    }
}

proof fn lemma_without_points_of_digits(s: Seq<char>)
    requires
        forall|i: int| 0 <= i < s.len() ==> is_digit(#[trigger] s[i]),
    ensures
        without_points(s) == s,
        !s.contains('.'),
    decreases s.len(),
{
    if s.len() > 0 {
        assert(is_digit(s[s.len() - 1]));
        lemma_without_points_of_digits(s.drop_last());
        assert(s.drop_last().push(s.last()) =~= s);
    }
    if s.contains('.') {
        let k = choose|k: int| 0 <= k < s.len() && s[k] == '.';
        assert(is_digit(s[k]));
    }
}

/// Reading the digits of `n` gives `n`.
pub proof fn lemma_parse_digits(n: nat)
    requires
        n <= i128::MAX,
    ensures
        spec_parse(digits_text(n)) == Ok::<Decimal, DecimalError>(
            Decimal { mantissa: n as i128, exponent: 0 },
        ),
{
    let t = digits_text(n);
    lemma_digits_text_all_digits(n);
    lemma_pow10_exceeds(n);
    lemma_digits_text_len(n, (n + 1) as nat);
    assert(is_digit(t[0]));
    assert(unsigned_part(t) =~= t);
    lemma_without_points_of_digits(t);
    lemma_digits_text_value(n);
}

proof fn lemma_pow10_exceeds(n: nat)
    ensures
        n < pow10(n + 1),
        n + 1 >= 1,
    decreases n,
{
    assert(pow10(n + 1) == 10 * pow10(n));
    lemma_pow10_positive(n);
    if n > 0 {
        lemma_pow10_exceeds((n - 1) as nat);
    }
}

/// Reading `n / 10`, a point, and the last digit of `n` gives `n` tenths.
pub proof fn lemma_parse_tenths(n: nat)
    requires
        n <= i128::MAX,
    ensures
        spec_parse(digits_text(n / 10) + seq!['.', digit_char((n % 10) as int)]) == Ok::<
            Decimal,
            DecimalError,
        >(Decimal { mantissa: n as i128, exponent: -1i32 }),
{
    let a = digits_text(n / 10);
    let c = digit_char((n % 10) as int);
    lemma_digit_char((n % 10) as int);
    let t = a + seq!['.', c];
    lemma_digits_text_all_digits(n / 10);
    lemma_pow10_exceeds(n / 10);
    lemma_digits_text_len(n / 10, (n / 10 + 1) as nat);
    assert(is_digit(t[0]));
    assert(unsigned_part(t) =~= t);
    lemma_without_points_of_digits(a);
    let tp = a.push('.');
    assert(t.drop_last() =~= tp);
    assert(tp.drop_last() =~= a);
    assert(without_points(tp) == a);
    assert(without_points(t) == a.push(c));
    assert(a.push(c).drop_last() =~= a);
    lemma_digits_text_value(n / 10);
    assert(digits_value(a.push(c)) == (n / 10) * 10 + n % 10);
    assert(t.contains('.')) by {
        assert(t[a.len() as int] == '.');
    }
    assert(after_point(tp) == 0);
    assert(after_point(t) == 1);
    assert forall|i: int| 0 <= i < t.len() implies is_digit(#[trigger] t[i]) || t[i] == '.' by {
        if i < a.len() {
            assert(t[i] == a[i]);
        }
    }
    assert forall|i: int, j: int|
        0 <= i < t.len() && 0 <= j < t.len() && #[trigger] t[i] == '.' && #[trigger] t[j] == '.'
            implies i == j by {
        if i < a.len() {
            assert(t[i] == a[i]);
            assert(is_digit(a[i]));
        }
        if j < a.len() {
            assert(t[j] == a[j]);
            assert(is_digit(a[j]));
        }
    }
}

/// `10^k`, for the powers that fit in 128 bits.
pub(crate) fn pow10_exec(k: u32) -> (r: u128)
    requires
        k <= 38,
    ensures
        r == pow10(k as nat),
        r >= 1,
{
    let mut r: u128 = 1;
    let mut i: u32 = 0;
    while i < k
        invariant
            i <= k <= 38,
            r == pow10(i as nat),
            r >= 1,
        decreases k - i,
    {
        proof {
            lemma_pow10_monotone((i + 1) as nat, 38);
            lemma_pow10_38();
        }
        r = r * 10;
        i = i + 1;
    }
    r
}

/// Whether two decimals stand for the same number.
pub open spec fn same_value(a: Decimal, b: Decimal) -> bool {
    let e = if a.exponent < b.exponent {
        a.exponent
    } else {
        b.exponent
    };
    a.mantissa * pow10((a.exponent - e) as nat) == b.mantissa * pow10((b.exponent - e) as nat)
}

/// `10^(a + b) == 10^a * 10^b`.
pub proof fn lemma_pow10_add(a: nat, b: nat)
    ensures
        pow10(a + b) == pow10(a) * pow10(b),
    decreases b,
{
    if b > 0 {
        lemma_pow10_add(a, (b - 1) as nat);
        assert(pow10(a + b) == 10 * pow10((a + b - 1) as nat));
        assert(pow10(b) == 10 * pow10((b - 1) as nat));
        assert(pow10(a) * (10 * pow10((b - 1) as nat)) == 10 * (pow10(a) * pow10((b - 1) as nat)))
            by (nonlinear_arith);
    }
}

proof fn lemma_digits_value_concat(a: Seq<char>, b: Seq<char>)
    ensures
        digits_value(a + b) == digits_value(a) * pow10(b.len()) + digits_value(b),
    decreases b.len(),
{
    if b.len() == 0 {
        assert(a + b =~= a);
        assert(pow10(0) == 1);
    } else {
        let b1 = b.drop_last();
        lemma_digits_value_concat(a, b1);
        assert((a + b).drop_last() =~= a + b1);
        assert((a + b).last() == b.last());
        assert(pow10(b.len()) == 10 * pow10(b1.len()));
        let x = digits_value(a);
        let y = digits_value(b1);
        let p = pow10(b1.len());
        assert((x * p + y) * 10 == x * (10 * p) + y * 10) by (nonlinear_arith);
    }
}

proof fn lemma_without_points_concat(a: Seq<char>, b: Seq<char>)
    ensures
        without_points(a + b) == without_points(a) + without_points(b),
    decreases b.len(),
{
    if b.len() == 0 {
        assert(a + b =~= a);
        assert(without_points(a) + without_points(b) =~= without_points(a));
    } else {
        let b1 = b.drop_last();
        lemma_without_points_concat(a, b1);
        assert((a + b).drop_last() =~= a + b1);
        assert((a + b).last() == b.last());
        if b.last() != '.' {
            assert(without_points(a) + without_points(b1).push(b.last()) =~= (without_points(a)
                + without_points(b1)).push(b.last()));
        }
    }
}

proof fn lemma_zeros_digits(k: nat)
    ensures
        digits_value(zeros(k)) == 0,
        forall|i: int| 0 <= i < zeros(k).len() ==> is_digit(#[trigger] zeros(k)[i]),
    decreases k,
{
    if k > 0 {
        lemma_zeros_digits((k - 1) as nat);
        assert(zeros(k).drop_last() =~= zeros((k - 1) as nat));
    }
}

proof fn lemma_after_point_digits(x: Seq<char>, y: Seq<char>)
    requires
        forall|i: int| 0 <= i < y.len() ==> is_digit(#[trigger] y[i]),
    ensures
        after_point(x.push('.') + y) == y.len(),
        (x.push('.') + y).contains('.'),
    decreases y.len(),
{
    let t = x.push('.') + y;
    assert(t[x.len() as int] == '.');
    if y.len() == 0 {
        assert(t =~= x.push('.'));
    } else {
        let y1 = y.drop_last();
        assert forall|i: int| 0 <= i < y1.len() implies is_digit(#[trigger] y1[i]) by {
            assert(y1[i] == y[i]);
        }
        lemma_after_point_digits(x, y1);
        assert(t.drop_last() =~= x.push('.') + y1);
        assert(is_digit(y[y.len() - 1]));
    }
}

/// `n * 10^e` and its trimmed form stand for the same number.
proof fn lemma_trimmed(n: nat, e: int)
    ensures
        trimmed(n, e).1 >= e,
        n == trimmed(n, e).0 * pow10((trimmed(n, e).1 - e) as nat),
        n != 0 ==> trimmed(n, e).0 != 0,
        trimmed(n, e).0 <= n,
    decreases n,
{
    if n != 0 && n % 10 == 0 {
        lemma_trimmed(n / 10, e + 1);
        let t = trimmed(n / 10, e + 1);
        assert(pow10((t.1 - e) as nat) == 10 * pow10((t.1 - e - 1) as nat));
        assert(n == 10 * (n / 10));
        assert(n / 10 == t.0 * pow10((t.1 - e - 1) as nat));
        assert(n == t.0 * pow10((t.1 - e) as nat)) by (nonlinear_arith)
            requires
                n == 10 * (n / 10),
                n / 10 == t.0 * pow10((t.1 - e - 1) as nat),
                pow10((t.1 - e) as nat) == 10 * pow10((t.1 - e - 1) as nat),
        ;
    } else {
        assert(pow10(0) == 1);
    }
}

proof fn lemma_parse_unsigned(p: Seq<char>, mag: int, frac: int)
    requires
        is_unsigned_literal(p),
        is_digit(p[0]),
        digits_value(without_points(p)) == mag,
        0 <= mag <= 0x8000_0000_0000_0000_0000_0000_0000_0000,
        fraction_digits(p) == frac,
        frac <= i32::MAX,
    ensures
        mag <= i128::MAX ==> spec_parse(p) == Ok::<Decimal, DecimalError>(
            Decimal { mantissa: mag as i128, exponent: (-frac) as i32 },
        ),
        spec_parse(seq!['-'] + p) == Ok::<Decimal, DecimalError>(
            Decimal { mantissa: (-mag) as i128, exponent: (-frac) as i32 },
        ),
{
    assert(unsigned_part(p) =~= p);
    let q = seq!['-'] + p;
    assert(q[0] == '-');
    assert(unsigned_part(q) =~= p);
}

/// Digits with one point between them: the point at `x.len()`.
proof fn lemma_point_literal(x: Seq<char>, y: Seq<char>)
    requires
        x.len() > 0,
        forall|i: int| 0 <= i < x.len() ==> is_digit(#[trigger] x[i]),
        forall|i: int| 0 <= i < y.len() ==> is_digit(#[trigger] y[i]),
    ensures
        is_unsigned_literal(x.push('.') + y),
        without_points(x.push('.') + y) == x + y,
        fraction_digits(x.push('.') + y) == y.len(),
        is_digit((x.push('.') + y)[0]),
{
    let t = x.push('.') + y;
    lemma_after_point_digits(x, y);
    lemma_without_points_concat(x.push('.'), y);
    lemma_without_points_of_digits(x);
    lemma_without_points_of_digits(y);
    assert(x.push('.').drop_last() =~= x);
    assert(without_points(x.push('.')) == x);
    assert forall|i: int| 0 <= i < t.len() && i != x.len() implies is_digit(#[trigger] t[i]) by {
        if i < x.len() {
            assert(t[i] == x[i]);
        } else {
            assert(t[i] == y[i - x.len() - 1]);
        }
    }
    assert(t[x.len() as int] == '.');
    assert forall|i: int| 0 <= i < t.len() implies is_digit(#[trigger] t[i]) || t[i] == '.' by {
        if i != x.len() {
        }
    }
    assert forall|i: int, j: int|
        0 <= i < t.len() && 0 <= j < t.len() && #[trigger] t[i] == '.' && #[trigger] t[j] == '.'
            implies i == j by {
        if i != x.len() {
            assert(is_digit(t[i]));
        }
        if j != x.len() {
            assert(is_digit(t[j]));
        }
    }
    assert(t[0] == x[0]);
}

proof fn lemma_concat_digits(a: Seq<char>, b: Seq<char>)
    requires
        forall|i: int| 0 <= i < a.len() ==> is_digit(#[trigger] a[i]),
        forall|i: int| 0 <= i < b.len() ==> is_digit(#[trigger] b[i]),
    ensures
        forall|i: int| 0 <= i < (a + b).len() ==> is_digit(#[trigger] (a + b)[i]),
{
    assert forall|i: int| 0 <= i < (a + b).len() implies is_digit(#[trigger] (a + b)[i]) by {
        if i < a.len() {
            assert((a + b)[i] == a[i]);
        } else {
            assert((a + b)[i] == b[i - a.len()]);
        }
    }
}

/// What reading the positional form of `n * 10^e` gives, for `n` without trailing zeros.
proof fn lemma_parse_positional(n: nat, e: int)
    requires
        n > 0,
        e >= 0 ==> n * pow10(e as nat) <= 0x8000_0000_0000_0000_0000_0000_0000_0000,
        n <= 0x8000_0000_0000_0000_0000_0000_0000_0000,
        -e <= i32::MAX,
    ensures
        e >= 0 && n * pow10(e as nat) <= i128::MAX ==> spec_parse(positional_text(n, e)) == Ok::<Decimal, DecimalError>(
            Decimal { mantissa: (n * pow10(e as nat)) as i128, exponent: 0 },
        ),
        e >= 0 ==> spec_parse(seq!['-'] + positional_text(n, e)) == Ok::<Decimal, DecimalError>(
            Decimal { mantissa: (-(n * pow10(e as nat))) as i128, exponent: 0 },
        ),
        e < 0 && n <= i128::MAX ==> spec_parse(positional_text(n, e)) == Ok::<
            Decimal,
            DecimalError,
        >(Decimal { mantissa: n as i128, exponent: e as i32 }),
        e < 0 ==> spec_parse(seq!['-'] + positional_text(n, e)) == Ok::<Decimal, DecimalError>(
            Decimal { mantissa: (-n) as i128, exponent: e as i32 },
        ),
{
    let ds = digits_text(n);
    let p = positional_text(n, e);
    lemma_digits_text_all_digits(n);
    lemma_digits_text_value(n);
    lemma_pow10_exceeds(n);
    lemma_digits_text_len(n, (n + 1) as nat);
    let k = -e;
    if e >= 0 {
        let z = zeros(e as nat);
        lemma_zeros_digits(e as nat);
        lemma_concat_digits(ds, z);
        lemma_without_points_of_digits(p);
        lemma_digits_value_concat(ds, z);
        assert(is_digit(p[0]));
        assert(p[0] == ds[0]);
        lemma_pow10_positive(e as nat);
        assert(n * pow10(e as nat) >= 0) by (nonlinear_arith)
            requires
                pow10(e as nat) >= 1,
        ;
        lemma_parse_unsigned(p, n * pow10(e as nat), 0);
    } else if ds.len() > k {
        let x = ds.take(ds.len() - k);
        let y = ds.skip(ds.len() - k);
        assert forall|i: int| 0 <= i < x.len() implies is_digit(#[trigger] x[i]) by {
            assert(x[i] == ds[i]);
        }
        assert forall|i: int| 0 <= i < y.len() implies is_digit(#[trigger] y[i]) by {
            assert(y[i] == ds[i + ds.len() - k]);
        }
        assert(p =~= x.push('.') + y);
        lemma_point_literal(x, y);
        assert(x + y =~= ds);
        lemma_parse_unsigned(p, n as int, k);
    } else {
        let z = zeros((k - ds.len()) as nat);
        let zero = seq!['0'];
        let y = z + ds;
        lemma_zeros_digits((k - ds.len()) as nat);
        lemma_concat_digits(z, ds);
        assert(is_digit(zero[0]));
        assert(p =~= zero.push('.') + y);
        lemma_point_literal(zero, y);
        lemma_digits_value_concat(zero + z, ds);
        lemma_digits_value_concat(zero, z);
        assert(zero + y =~= (zero + z) + ds);
        assert(zero.drop_last() =~= Seq::<char>::empty());
        assert(zero.last() == '0');
        assert(digit_value('0') == 0);
        assert(digits_value(zero) == digits_value(Seq::<char>::empty()) * 10 + digit_value('0'));
        assert(digits_value(zero) == 0);
        assert(0 * pow10(z.len()) == 0);
        assert(digits_value(zero + z) == 0);
        assert(0 * pow10(ds.len()) == 0);
        lemma_parse_unsigned(p, n as int, k);
    }
}

proof fn lemma_decimal_text_plain_round_trip(d: Decimal)
    requires
        abs(d.mantissa as int) != 0 ==> is_plain(
            trimmed(abs(d.mantissa as int), d.exponent as int).0,
            trimmed(abs(d.mantissa as int), d.exponent as int).1,
        ),
    ensures
        spec_parse(decimal_text(d)) is Ok,
        same_value(spec_parse(decimal_text(d))->Ok_0, d),
{
    let m = d.mantissa as int;
    let e = d.exponent as int;
    let n = abs(m);
    if n == 0 {
        lemma_parse_digits(0);
        assert(digits_text(0) =~= seq!['0']);
        let emin = if e < 0 { e } else { 0 };
        assert(0 * pow10((0 - emin) as nat) == 0);
        assert(m * pow10((e - emin) as nat) == 0);
    } else {
        let t = trimmed(n, e);
        let (n1, e1) = t;
        lemma_trimmed(n, e);
        lemma_pow10_positive((e1 - e) as nat);
        if e1 >= 0 {
            lemma_pow10_positive(e1 as nat);
        }
        if e1 >= 0 {
            if e >= 0 {
                lemma_pow10_add((e1 - e) as nat, e as nat);
                assert(n1 * pow10(e1 as nat) == n * pow10(e as nat)) by (nonlinear_arith)
                    requires
                        n == n1 * pow10((e1 - e) as nat),
                        pow10(e1 as nat) == pow10((e1 - e) as nat) * pow10(e as nat),
                ;
            } else {
                lemma_pow10_add(e1 as nat, (-e) as nat);
                lemma_pow10_positive((-e) as nat);
                assert(n1 * pow10(e1 as nat) <= n) by (nonlinear_arith)
                    requires
                        n == n1 * pow10((e1 - e) as nat),
                        pow10((e1 - e) as nat) == pow10(e1 as nat) * pow10((-e) as nat),
                        pow10((-e) as nat) >= 1,
                        n1 >= 0,
                        pow10(e1 as nat) >= 0,
                ;
                assert(n1 * pow10(e1 as nat) * pow10((-e) as nat) == n) by (nonlinear_arith)
                    requires
                        n == n1 * pow10((e1 - e) as nat),
                        pow10((e1 - e) as nat) == pow10(e1 as nat) * pow10((-e) as nat),
                ;
            }
        }
        assert(is_plain(n1, e1));
        assert(pow10(0) == 1);
        if e1 == 0 {
            assert(n1 * pow10(0) == n1);
        }
        assert(n <= 0x8000_0000_0000_0000_0000_0000_0000_0000);
        assert(m >= 0 ==> n <= i128::MAX);
        lemma_parse_positional(n1, e1);
        let p = positional_text(n1, e1);
        if m >= 0 {
            assert(decimal_text(d) =~= p);
        } else {
            assert(decimal_text(d) =~= seq!['-'] + p);
        }
        assert(pow10(0) == 1);
        let r = spec_parse(decimal_text(d))->Ok_0;
        // the magnitudes agree; the signs are the same on both sides
        let (a, pa, qb) = if e1 >= 0 {
            if e >= 0 {
                (n1 * pow10(e1 as nat), 1int, pow10(e as nat))
            } else {
                (n1 * pow10(e1 as nat), pow10((-e) as nat), 1int)
            }
        } else {
            (n1 as int, pow10((e1 - e) as nat), 1int)
        };
        assert(a * pa == n * qb) by (nonlinear_arith)
            requires
                e1 >= 0 && e >= 0 ==> a == n1 * pow10(e1 as nat) && pa == 1 && qb == pow10(
                    e as nat,
                ) && n1 * pow10(e1 as nat) == n * pow10(e as nat),
                e1 >= 0 && e < 0 ==> a == n1 * pow10(e1 as nat) && qb == 1 && pa == pow10(
                    (-e) as nat,
                ) && n1 * pow10(e1 as nat) * pow10((-e) as nat) == n,
                e1 < 0 ==> a == n1 && qb == 1 && pa == pow10((e1 - e) as nat) && n == n1 * pow10(
                    (e1 - e) as nat,
                ),
        ;
        if m >= 0 {
            assert(r.mantissa == a);
            assert(m == n);
        } else {
            assert(r.mantissa == -a);
            assert(m == -n);
            assert((-a) * pa == (-n) * qb) by (nonlinear_arith)
                requires
                    a * pa == n * qb,
            ;
        }
        if e1 >= 0 {
            assert(r.exponent == 0);
        } else {
            assert(r.exponent == e1);
        }
    }
}

/// A written decimal ends in a digit.
pub proof fn lemma_decimal_text_ends_in_digit(d: Decimal)
    ensures
        decimal_text(d).len() > 0,
        is_digit(decimal_text(d).last()),
{
    let n = abs(d.mantissa as int);
    if n != 0 {
        let t = trimmed(n, d.exponent as int);
        let ds = digits_text(t.0);
        lemma_digits_text_all_digits(t.0);
        lemma_pow10_exceeds(t.0);
        lemma_digits_text_len(t.0, (t.0 + 1) as nat);
        let p = if is_plain(t.0, t.1) {
            positional_text(t.0, t.1)
        } else {
            exponent_text(t.0, t.1)
        };
        assert(is_digit(ds[ds.len() - 1]));
        if !is_plain(t.0, t.1) {
            let shift: int = if t.1 > i32::MAX { t.1 - i32::MAX } else { 0 };
            let es = digits_text(abs(t.1 - shift));
            lemma_digits_text_all_digits(abs(t.1 - shift));
            lemma_pow10_exceeds(abs(t.1 - shift));
            lemma_digits_text_len(abs(t.1 - shift), (abs(t.1 - shift) + 1) as nat);
            assert(p.last() == es.last());
            assert(is_digit(es[es.len() - 1]));
        } else if t.1 >= 0 {
            lemma_zeros_digits(t.1 as nat);
            lemma_concat_digits(ds, zeros(t.1 as nat));
            assert(is_digit(p[p.len() - 1]));
        } else if ds.len() > -t.1 {
            assert(p[p.len() - 1] == ds[ds.len() - 1]);
        } else {
            assert(p[p.len() - 1] == ds[ds.len() - 1]);
        }
        assert(decimal_text(d).last() == p.last());
    }
}

/// The letter that introduces a power of ten.
pub open spec fn is_exponent_marker(c: char) -> bool {
    c == 'e' || c == 'E'
}

/// The index of the first exponent marker (`e` or `E`) at or after `i`, or the length of `s`.
pub open spec fn marker_index(s: Seq<char>, i: int) -> int
    decreases s.len() - i,
{
    if i >= s.len() {
        s.len() as int
    } else if is_exponent_marker(s[i]) {
        i
    } else {
        marker_index(s, i + 1)
    }
}

/// The integer that an exponent spells: an optional sign, then at least one digit.
pub open spec fn exponent_value(s: Seq<char>) -> Option<int> {
    let u = unsigned_part(s);
    if u.len() > 0 && forall|i: int| 0 <= i < u.len() ==> is_digit(#[trigger] u[i]) {
        Some(
            if is_negative_literal(s) {
                -digits_value(u)
            } else {
                digits_value(u)
            },
        )
    } else {
        None
    }
}

/// What reading `s` as a number in decimal or exponent notation gives: a decimal number,
/// optionally followed by `e` or `E` and a signed power of ten.
pub open spec fn spec_parse_number(s: Seq<char>) -> Result<Decimal, DecimalError> {
    let i = marker_index(s, 0);
    if i == s.len() {
        spec_parse(s)
    } else {
        match (spec_parse(s.take(i)), exponent_value(s.skip(i + 1))) {
            (Err(DecimalError::OutOfRange), Some(_)) => Err(DecimalError::OutOfRange),
            (Ok(d), Some(x)) => if i32::MIN <= d.exponent + x <= i32::MAX {
                Ok(Decimal { mantissa: d.mantissa, exponent: (d.exponent + x) as i32 })
            } else {
                Err(DecimalError::OutOfRange)
            },
            _ => Err(DecimalError::Invalid),
        }
    }
}

/// Reads the exponent `s[from..to]`, where it is within twice the range of `i32`.
fn parse_exponent(s: &Vec<char>, from: usize, to: usize) -> (r: Result<i64, DecimalError>)
    requires
        from <= to <= s.len(),
    ensures
        match (r, exponent_value(s@.subrange(from as int, to as int))) {
            (Ok(x), Some(y)) => x == y && -0x1_0000_0000 <= x <= 0x1_0000_0000,
            (Err(DecimalError::OutOfRange), Some(y)) => y < -0x1_0000_0000 || y > 0x1_0000_0000,
            (Err(DecimalError::Invalid), None) => true,
            _ => false,
        },
{
    let ghost t = s@.subrange(from as int, to as int);
    let negative = from < to && s[from] == '-';
    assert(negative == is_negative_literal(t)) by {
        if from < to {
            assert(t[0] == s@[from as int]);
        }
    }
    let start: usize = if from < to && (s[from] == '-' || s[from] == '+') {
        from + 1
    } else {
        from
    };
    let ghost u = s@.subrange(start as int, to as int);
    proof {
        if from < to {
            assert(t[0] == s@[from as int]);
        }
    }
    assert(u =~= unsigned_part(t));
    if start == to {
        return Err(DecimalError::Invalid);
    }
    let mut v: i64 = 0;
    let mut big = false;
    let mut i: usize = start;
    while i < to
        invariant
            start <= i <= to <= s.len(),
            start < to,
            u == s@.subrange(start as int, to as int),
            t == s@.subrange(from as int, to as int),
            u == unsigned_part(t),
            negative == is_negative_literal(t),
            forall|k: int| 0 <= k < i - start ==> is_digit(#[trigger] u[k]),
            big <==> digits_value(u.take(i - start)) > 0x1_0000_0000,
            !big ==> v == digits_value(u.take(i - start)),
            0 <= v <= 0x1_0000_0000,
        decreases to - i,
    {
        let c = s[i];
        assert(u[i - start] == c);
        if !('0' <= c && c <= '9') {
            assert(!is_digit(u[i - start]));
            return Err(DecimalError::Invalid);
        }
        let ghost pre = u.take(i - start);
        assert(u.take(i - start + 1) =~= pre.push(c));
        assert(pre.push(c).drop_last() =~= pre);
        proof {
            lemma_digits_value_nonneg(pre);
        }
        let d = (c as u32 - '0' as u32) as i64;
        if !big {
            let w = v * 10 + d;
            if w > 0x1_0000_0000 {
                big = true;
            } else {
                v = w;
            }
        }
        i = i + 1;
    }
    assert(u.take(i - start) =~= u);
    proof {
        lemma_digits_value_nonneg(u);
    }
    if big {
        Err(DecimalError::OutOfRange)
    } else if negative {
        Ok(-v)
    } else {
        Ok(v)
    }
}

/// Reads `s[from..to]` as a number in decimal or exponent notation.
pub fn parse_number_range(s: &Vec<char>, from: usize, to: usize) -> (r: Result<
    Decimal,
    DecimalError,
>)
    requires
        from <= to <= s.len(),
    ensures
        r == spec_parse_number(s@.subrange(from as int, to as int)),
{
    let ghost t = s@.subrange(from as int, to as int);
    let mut i: usize = from;
    while i < to && s[i] != 'e' && s[i] != 'E'
        invariant
            from <= i <= to <= s.len(),
            t == s@.subrange(from as int, to as int),
            marker_index(t, 0) == marker_index(t, i - from),
        decreases to - i,
    {
        assert(t[i - from] == s@[i as int]);
        i = i + 1;
    }
    proof {
        if i < to {
            assert(t[i - from] == s@[i as int]);
        }
    }
    assert(marker_index(t, 0) == i - from);
    if i == to {
        return parse_range(s, from, to);
    }
    assert(t.take(i - from) =~= s@.subrange(from as int, i as int));
    assert(t.skip(i - from + 1) =~= s@.subrange(i + 1, to as int));
    let m = parse_range(s, from, i);
    let x = parse_exponent(s, i + 1, to);
    match (m, x) {
        (Err(DecimalError::OutOfRange), Ok(_)) => Err(DecimalError::OutOfRange),
        (Err(DecimalError::OutOfRange), Err(DecimalError::OutOfRange)) => Err(DecimalError::OutOfRange),
        (Ok(d), Ok(x)) => {
            let e = d.exponent as i64 + x;
            if i32::MIN as i64 <= e && e <= i32::MAX as i64 {
                Ok(Decimal { mantissa: d.mantissa, exponent: e as i32 })
            } else {
                Err(DecimalError::OutOfRange)
            }
        },
        (Ok(_), Err(DecimalError::OutOfRange)) => Err(DecimalError::OutOfRange),
        _ => Err(DecimalError::Invalid),
    }
}

proof fn lemma_no_marker(t: Seq<char>, i: int)
    requires
        0 <= i <= t.len(),
        forall|k: int| i <= k < t.len() ==> !is_exponent_marker(#[trigger] t[k]),
    ensures
        marker_index(t, i) == t.len(),
    decreases t.len() - i,
{
    if i < t.len() {
        lemma_no_marker(t, i + 1);
    }
}

/// A written decimal holds only digits, a point and a minus sign.
proof fn lemma_decimal_text_chars(d: Decimal)
    requires
        abs(d.mantissa as int) != 0 ==> is_plain(
            trimmed(abs(d.mantissa as int), d.exponent as int).0,
            trimmed(abs(d.mantissa as int), d.exponent as int).1,
        ),
    ensures
        forall|i: int|
            0 <= i < decimal_text(d).len() ==> is_digit(#[trigger] decimal_text(d)[i])
                || decimal_text(d)[i] == '.' || decimal_text(d)[i] == '-',
{
    let t = decimal_text(d);
    let n = abs(d.mantissa as int);
    if n != 0 {
        let tr = trimmed(n, d.exponent as int);
        let ds = digits_text(tr.0);
        let k = -tr.1;
        lemma_digits_text_all_digits(tr.0);
        let p = positional_text(tr.0, tr.1);
        assert forall|i: int| 0 <= i < p.len() implies is_digit(#[trigger] p[i]) || p[i] == '.' by {
            if tr.1 >= 0 {
                lemma_zeros_digits(tr.1 as nat);
                lemma_concat_digits(ds, zeros(tr.1 as nat));
            } else if ds.len() > k {
                let x = ds.take(ds.len() - k);
                let y = ds.skip(ds.len() - k);
                if i < x.len() {
                    assert(p[i] == ds[i]);
                } else if i > x.len() {
                    assert(p[i] == ds[i - 1]);
                }
            } else {
                let z = zeros((k - ds.len()) as nat);
                lemma_zeros_digits((k - ds.len()) as nat);
                if 2 <= i < 2 + z.len() {
                    assert(p[i] == z[i - 2]);
                } else if i >= 2 + z.len() {
                    assert(p[i] == ds[i - 2 - z.len()]);
                }
            }
        }
        assert forall|i: int| 0 <= i < t.len() implies is_digit(#[trigger] t[i]) || t[i] == '.'
            || t[i] == '-' by {
            if d.mantissa < 0 {
                if i > 0 {
                    assert(t[i] == p[i - 1]);
                }
            } else {
                assert(t[i] == p[i]);
            }
        }
    }
}

proof fn lemma_marker_at(t: Seq<char>, i: int, p: int)
    requires
        0 <= i <= p < t.len(),
        forall|k: int| i <= k < p ==> !is_exponent_marker(#[trigger] t[k]),
        is_exponent_marker(t[p]),
    ensures
        marker_index(t, i) == p,
    decreases p - i,
{
    if i < p {
        lemma_marker_at(t, i + 1, p);
    }
}

proof fn lemma_parse_digits_shifted(n: nat, shift: nat, negative: bool)
    requires
        n > 0,
        n * pow10(shift) <= magnitude_bound(negative),
    ensures
        spec_parse(
            (if negative { seq!['-'] } else { Seq::<char>::empty() }) + (digits_text(n) + zeros(
                shift,
            )),
        ) == Ok::<Decimal, DecimalError>(
            Decimal {
                mantissa: (if negative { -(n * pow10(shift)) } else { n * pow10(shift) }) as i128,
                exponent: 0,
            },
        ),
        forall|k: int|
            0 <= k < (digits_text(n) + zeros(shift)).len() ==> is_digit(
                #[trigger] (digits_text(n) + zeros(shift))[k],
            ),
{
    let ds = digits_text(n);
    let z = zeros(shift);
    let dz = ds + z;
    lemma_digits_text_all_digits(n);
    lemma_zeros_digits(shift);
    lemma_concat_digits(ds, z);
    lemma_digits_value_concat(ds, z);
    lemma_digits_text_value(n);
    lemma_pow10_exceeds(n);
    lemma_digits_text_len(n, (n + 1) as nat);
    lemma_without_points_of_digits(dz);
    assert(dz[0] == ds[0]);
    let v = n * pow10(shift);
    lemma_pow10_positive(shift);
    assert(v >= 0) by (nonlinear_arith)
        requires
            v == n * pow10(shift),
            pow10(shift) >= 1,
    ;
    lemma_parse_unsigned(dz, v, 0);
    if negative {
    } else {
        assert(Seq::<char>::empty() + dz =~= dz);
    }
}

proof fn lemma_exponent_value_text(x: int)
    ensures
        exponent_value((if x < 0 { seq!['-'] } else { Seq::<char>::empty() }) + digits_text(abs(x)))
            == Some(x),
{
    let eds = digits_text(abs(x));
    let b = (if x < 0 { seq!['-'] } else { Seq::<char>::empty() }) + eds;
    lemma_digits_text_all_digits(abs(x));
    lemma_digits_text_value(abs(x));
    lemma_pow10_exceeds(abs(x));
    lemma_digits_text_len(abs(x), (abs(x) + 1) as nat);
    if x < 0 {
        assert(b[0] == '-');
        assert(unsigned_part(b) =~= eds);
    } else {
        assert(b =~= eds);
        assert(is_digit(eds[0]));
        assert(unsigned_part(b) =~= eds);
    }
}

/// Reading the exponent notation of `n * 10^e`, with the sign of `negative`, gives the number
/// whose digits are written, at the exponent written.
#[verifier::rlimit(100)]
proof fn lemma_parse_exponent_form(n: nat, e: int, negative: bool)
    requires
        n > 0,
        i32::MIN <= e,
        n * pow10((if e > i32::MAX { e - i32::MAX } else { 0 }) as nat) <= magnitude_bound(
            negative,
        ),
    ensures
        ({
            let shift: int = if e > i32::MAX { e - i32::MAX } else { 0 };
            let t = (if negative { seq!['-'] } else { Seq::<char>::empty() }) + exponent_text(n, e);
            let v = n * pow10(shift as nat);
            spec_parse_number(t) == Ok::<Decimal, DecimalError>(
                Decimal {
                    mantissa: (if negative { -v } else { v }) as i128,
                    exponent: (e - shift) as i32,
                },
            )
        }),
{
    let shift: int = if e > i32::MAX { e - i32::MAX } else { 0 };
    let ee = e - shift;
    let sg = if negative { seq!['-'] } else { Seq::<char>::empty() };
    let dz = digits_text(n) + zeros(shift as nat);
    let a = sg + dz;
    let b = (if ee < 0 { seq!['-'] } else { Seq::<char>::empty() }) + digits_text(abs(ee));
    let t = sg + exponent_text(n, e);
    assert(t =~= a + seq!['e'] + b);
    lemma_parse_digits_shifted(n, shift as nat, negative);
    lemma_exponent_value_text(ee);
    assert forall|k: int| 0 <= k < a.len() implies !is_exponent_marker(#[trigger] t[k]) by {
        assert(t[k] == a[k]);
        if negative && k > 0 {
            assert(a[k] == dz[k - 1]);
            assert(is_digit(dz[k - 1]));
        } else if !negative {
            assert(a[k] == dz[k]);
            assert(is_digit(dz[k]));
        }
    }
    assert(t[a.len() as int] == 'e');
    lemma_marker_at(t, 0, a.len() as int);
    assert(t.take(a.len() as int) =~= a);
    assert(t.skip(a.len() as int + 1) =~= b);
    assert(marker_index(t, 0) != t.len());
    assert(exponent_value(t.skip(marker_index(t, 0) + 1)) == Some(ee));
    assert(i32::MIN <= 0 + ee <= i32::MAX);
}

/// Writing a decimal and reading the text back gives the same number.
pub proof fn lemma_decimal_text_round_trip(d: Decimal)
    ensures
        spec_parse_number(decimal_text(d)) is Ok,
        same_value(spec_parse_number(decimal_text(d))->Ok_0, d),
{
    let m = d.mantissa as int;
    let e = d.exponent as int;
    let n = abs(m);
    let tr = trimmed(n, e);
    if n == 0 || is_plain(tr.0, tr.1) {
        lemma_decimal_text_plain_round_trip(d);
        lemma_decimal_text_chars(d);
        let t = decimal_text(d);
        assert forall|k: int| 0 <= k < t.len() implies !is_exponent_marker(#[trigger] t[k]) by {
            assert(is_digit(t[k]) || t[k] == '.' || t[k] == '-');
        }
        lemma_no_marker(t, 0);
    } else {
        let (n1, e1) = tr;
        lemma_trimmed(n, e);
        let shift: int = if e1 > i32::MAX { e1 - i32::MAX } else { 0 };
        let ee = e1 - shift;
        // the written mantissa is at most the magnitude, and the written exponent at least `e`
        assert(shift <= e1 - e);
        lemma_pow10_monotone(shift as nat, (e1 - e) as nat);
        lemma_pow10_positive(shift as nat);
        lemma_pow10_add(shift as nat, (ee - e) as nat);
        let v = n1 * pow10(shift as nat);
        assert(v * pow10((ee - e) as nat) == n) by (nonlinear_arith)
            requires
                v == n1 * pow10(shift as nat),
                n == n1 * pow10((e1 - e) as nat),
                pow10((e1 - e) as nat) == pow10(shift as nat) * pow10((ee - e) as nat),
        ;
        lemma_pow10_positive((ee - e) as nat);
        assert(v <= n) by (nonlinear_arith)
            requires
                v * pow10((ee - e) as nat) == n,
                pow10((ee - e) as nat) >= 1,
                v >= 0,
        ;
        assert(n <= magnitude_bound(m < 0));
        lemma_parse_exponent_form(n1, e1, m < 0);
        let r = spec_parse_number(decimal_text(d))->Ok_0;
        if m < 0 {
            assert(decimal_text(d) =~= seq!['-'] + exponent_text(n1, e1));
        } else {
            assert(decimal_text(d) =~= Seq::<char>::empty() + exponent_text(n1, e1));
        }
        assert(r.exponent == ee);
        assert(pow10(0) == 1);
        if m >= 0 {
            assert(r.mantissa == v);
            assert(r.mantissa * pow10((ee - e) as nat) == m * pow10(0));
        } else {
            assert(r.mantissa == -v);
            assert(m == -n);
            assert((-v) * pow10((ee - e) as nat) == (-n) * pow10(0)) by (nonlinear_arith)
                requires
                    v * pow10((ee - e) as nat) == n,
                    pow10(0) == 1,
            ;
        }
    }
}


/// The trimmed form of a nonzero magnitude ends in a digit other than zero.
proof fn lemma_trimmed_not_multiple(n: nat, e: int)
    requires
        n != 0,
    ensures
        trimmed(n, e).0 % 10 != 0,
    decreases n,
{
    if n % 10 == 0 {
        lemma_trimmed_not_multiple(n / 10, e + 1);
    }
}

/// Two nonzero magnitudes at their exponents stand for the same number exactly when their
/// trimmed forms agree.
proof fn lemma_same_value_trimmed(n1: nat, e1: int, n2: nat, e2: int)
    requires
        n1 != 0,
        n2 != 0,
    ensures
        ({
            let emin = if e1 < e2 { e1 } else { e2 };
            (n1 * pow10((e1 - emin) as nat) == n2 * pow10((e2 - emin) as nat)) <==> trimmed(n1, e1)
                == trimmed(n2, e2)
        }),
{
    let emin = if e1 < e2 { e1 } else { e2 };
    let (p, x) = trimmed(n1, e1);
    let (q, y) = trimmed(n2, e2);
    lemma_trimmed(n1, e1);
    lemma_trimmed(n2, e2);
    lemma_trimmed_not_multiple(n1, e1);
    lemma_trimmed_not_multiple(n2, e2);
    lemma_pow10_add((x - e1) as nat, (e1 - emin) as nat);
    lemma_pow10_add((y - e2) as nat, (e2 - emin) as nat);
    let a = pow10((x - emin) as nat);
    let b = pow10((y - emin) as nat);
    assert(n1 * pow10((e1 - emin) as nat) == p * a) by (nonlinear_arith)
        requires
            n1 == p * pow10((x - e1) as nat),
            a == pow10((x - e1) as nat) * pow10((e1 - emin) as nat),
    ;
    assert(n2 * pow10((e2 - emin) as nat) == q * b) by (nonlinear_arith)
        requires
            n2 == q * pow10((y - e2) as nat),
            b == pow10((y - e2) as nat) * pow10((e2 - emin) as nat),
    ;
    if p * a == q * b {
        if x > y {
            let c = pow10((x - y - 1) as nat);
            lemma_pow10_add((x - y) as nat, (y - emin) as nat);
            assert(pow10((x - y) as nat) == 10 * c);
            lemma_pow10_positive((y - emin) as nat);
            assert(q == p * 10 * c) by (nonlinear_arith)
                requires
                    p * a == q * b,
                    a == pow10((x - y) as nat) * b,
                    pow10((x - y) as nat) == 10 * c,
                    b >= 1,
            ;
            assert(q == (p * c) * 10) by (nonlinear_arith)
                requires
                    q == p * 10 * c,
            ;
            vstd::arithmetic::div_mod::lemma_mod_multiples_basic(p * c, 10);
        } else if y > x {
            let c = pow10((y - x - 1) as nat);
            lemma_pow10_add((y - x) as nat, (x - emin) as nat);
            assert(pow10((y - x) as nat) == 10 * c);
            lemma_pow10_positive((x - emin) as nat);
            assert(p == q * 10 * c) by (nonlinear_arith)
                requires
                    p * a == q * b,
                    b == pow10((y - x) as nat) * a,
                    pow10((y - x) as nat) == 10 * c,
                    a >= 1,
            ;
            assert(p == (q * c) * 10) by (nonlinear_arith)
                requires
                    p == q * 10 * c,
            ;
            vstd::arithmetic::div_mod::lemma_mod_multiples_basic(q * c, 10);
        } else {
            lemma_pow10_positive((x - emin) as nat);
            assert(p == q) by (nonlinear_arith)
                requires
                    p * a == q * a,
                    a >= 1,
            ;
        }
    }
}

/// `n * 10^e` with the trailing zeros of `n` moved into the exponent.
fn trim(n: u128, e: i64) -> (r: (u128, i64))
    requires
        n != 0,
        i32::MIN <= e <= i32::MAX,
    ensures
        (r.0 as nat, r.1 as int) == trimmed(n as nat, e as int),
{
    let mut m = n;
    let mut x = e;
    proof {
        lemma_pow10_39();
        assert(pow10(0) == 1);
    }
    while m % 10 == 0
        invariant
            m != 0,
            trimmed(m as nat, x as int) == trimmed(n as nat, e as int),
            i32::MIN <= e <= i32::MAX,
            e <= x,
            m * pow10((x - e) as nat) == n,
            pow10(39) > u128::MAX,
        decreases m,
    {
        let ghost k = (x - e) as nat;
        proof {
            lemma_pow10_positive(k);
            assert(pow10(k + 1) == 10 * pow10(k));
            assert(m * pow10(k) >= 10 * pow10(k)) by (nonlinear_arith)
                requires
                    m >= 10,
                    pow10(k) >= 1,
            ;
            if k + 1 >= 39 {
                lemma_pow10_monotone(39, k + 1);
            }
            assert((m / 10) * pow10(k + 1) == m * pow10(k)) by (nonlinear_arith)
                requires
                    m % 10 == 0,
                    pow10(k + 1) == 10 * pow10(k),
            ;
        }
        assert(k + 1 < 39);
        m = m / 10;
        x = x + 1;
        assert((x - e) as nat == k + 1);
    }
    (m, x)
}

fn magnitude_of(m: i128) -> (n: u128)
    ensures
        n == abs(m as int),
{
    if m < 0 {
        ((-(m + 1)) as u128) + 1
    } else {
        m as u128
    }
}

impl PartialEq for Decimal {
    fn eq(&self, other: &Decimal) -> (r: bool) {
        let a = self.mantissa;
        let b = other.mantissa;
        if a == 0 || b == 0 {
            proof {
                lemma_same_value_zero(*self, *other);
            }
            return a == 0 && b == 0;
        }
        if (a < 0) != (b < 0) {
            proof {
                lemma_same_value_signs(*self, *other);
            }
            return false;
        }
        let (p, x) = trim(magnitude_of(a), self.exponent as i64);
        let (q, y) = trim(magnitude_of(b), other.exponent as i64);
        proof {
            lemma_same_value_trimmed(
                abs(a as int),
                self.exponent as int,
                abs(b as int),
                other.exponent as int,
            );
            lemma_same_value_signs(*self, *other);
        }
        p == q && x == y
    }
}

impl vstd::std_specs::cmp::PartialEqSpecImpl for Decimal {
    open spec fn obeys_eq_spec() -> bool {
        true
    }

    open spec fn eq_spec(&self, other: &Decimal) -> bool {
        same_value(*self, *other)
    }
}

proof fn lemma_same_value_zero(a: Decimal, b: Decimal)
    requires
        a.mantissa == 0 || b.mantissa == 0,
    ensures
        same_value(a, b) <==> (a.mantissa == 0 && b.mantissa == 0),
{
    let emin = if a.exponent < b.exponent { a.exponent as int } else { b.exponent as int };
    let pa = pow10((a.exponent - emin) as nat);
    let pb = pow10((b.exponent - emin) as nat);
    lemma_pow10_positive((a.exponent - emin) as nat);
    lemma_pow10_positive((b.exponent - emin) as nat);
    assert((a.mantissa * pa == b.mantissa * pb) <==> (a.mantissa == 0 && b.mantissa == 0))
        by (nonlinear_arith)
        requires
            a.mantissa == 0 || b.mantissa == 0,
            pa >= 1,
            pb >= 1,
    ;
}

/// Nonzero decimals of the same number have the same sign, and then compare by magnitude.
proof fn lemma_same_value_signs(a: Decimal, b: Decimal)
    requires
        a.mantissa != 0,
        b.mantissa != 0,
    ensures
        (a.mantissa < 0) != (b.mantissa < 0) ==> !same_value(a, b),
        (a.mantissa < 0) == (b.mantissa < 0) ==> (same_value(a, b) <==> ({
            let emin = if a.exponent < b.exponent { a.exponent as int } else { b.exponent as int };
            abs(a.mantissa as int) * pow10((a.exponent - emin) as nat) == abs(b.mantissa as int)
                * pow10((b.exponent - emin) as nat)
        })),
{
    let emin = if a.exponent < b.exponent { a.exponent as int } else { b.exponent as int };
    let pa = pow10((a.exponent - emin) as nat);
    let pb = pow10((b.exponent - emin) as nat);
    lemma_pow10_positive((a.exponent - emin) as nat);
    lemma_pow10_positive((b.exponent - emin) as nat);
    let x = a.mantissa as int;
    let y = b.mantissa as int;
    if x < 0 && y > 0 {
        assert(x * pa < 0 && y * pb > 0) by (nonlinear_arith)
            requires
                x < 0,
                y > 0,
                pa >= 1,
                pb >= 1,
        ;
    } else if x > 0 && y < 0 {
        assert(x * pa > 0 && y * pb < 0) by (nonlinear_arith)
            requires
                x > 0,
                y < 0,
                pa >= 1,
                pb >= 1,
        ;
    } else if x < 0 && y < 0 {
        assert((x * pa == y * pb) <==> ((-x) * pa == (-y) * pb)) by (nonlinear_arith);
    }
}

} // verus!
