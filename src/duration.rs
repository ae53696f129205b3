use vstd::prelude::*;
use crate::decimal::{
    abs, lemma_parse_digits, lemma_parse_tenths, parse_range, pow10, same_value,
    spec_parse, Decimal,
};
use crate::text::{
    char_of_digit, chars_of, digit_char, digits_text, push_digits, push_range, push_zeros, string_of,
    zeros,
};
use vstd::utf8::encode_utf8;

verus! {

/// A span of time written as days, hours, minutes and seconds, each as given: the parts are
/// not carried into each other. Two are equal when their parts are, the seconds by value.
#[derive(Debug, Clone, Copy)]
pub struct Duration {
    pub days: u32,
    pub hours: u32,
    pub minutes: u32,
    pub seconds: Decimal,
}

/// Why a text is not a duration.
#[derive(Debug)]
pub enum DurationFromStrError {
    /// The word that could not be read, and the byte range within it that is at fault.
    MalformedString(String, std::ops::Range<usize>),
}

/// The unit that a word of a duration counts in.
#[derive(Debug, Clone, Copy, PartialEq, Eq, Structural)]
pub enum TimeUnit {
    Days,
    Hours,
    Minutes,
    Seconds,
}

/// A malformed word, with the byte range at fault within it.
pub type MalformedView = (Seq<char>, int, int);

/// Sums of the words read so far, per unit, each counted in units of `10^-k` for a scale `k`
/// that goes with them.
pub type Totals = (int, int, int, int);

/// The largest total a unit may reach at scale `k`: the seconds of a duration are kept
/// exactly, at that scale, in an `i128` mantissa, with room for the sixty carried from a
/// fraction of a minute.
pub open spec fn total_limit(k: nat) -> int {
    i128::MAX - 60 * pow10(k)
}

/// Unicode white space, which separates the words of a duration.
pub open spec fn is_white(c: char) -> bool {
    ('\u{9}' <= c && c <= '\u{d}') || c == ' ' || c == '\u{85}' || c == '\u{a0}' || c
        == '\u{1680}' || ('\u{2000}' <= c && c <= '\u{200a}') || c == '\u{2028}' || c
        == '\u{2029}' || c == '\u{202f}' || c == '\u{205f}' || c == '\u{3000}'
}

/// The maximal runs of characters of `s` that hold no white space, in order.
pub open spec fn words(s: Seq<char>) -> Seq<Seq<char>>
    decreases s.len(),
{
    if s.len() == 0 {
        Seq::empty()
    } else {
        let prev = words(s.drop_last());
        let c = s.last();
        if is_white(c) {
            prev
        } else if s.len() == 1 || is_white(s[s.len() - 2]) {
            prev.push(seq![c])
        } else {
            prev.update(prev.len() - 1, prev.last().push(c))
        }
    }
}

/// A character of the number at the start of a word: a digit or a point.
pub open spec fn is_number_char(c: char) -> bool {
    ('0' <= c && c <= '9') || c == '.'
}

/// The index of the first character at or after `i` that is neither a digit nor a point.
pub open spec fn number_end(t: Seq<char>, i: int) -> int
    decreases t.len() - i,
{
    if i >= t.len() {
        t.len() as int
    } else if !is_number_char(t[i]) {
        i
    } else {
        number_end(t, i + 1)
    }
}

/// The unit that a unit word names.
pub open spec fn unit_of(w: Seq<char>) -> Option<TimeUnit> {
    if w == "d"@ || w == "day"@ || w == "days"@ {
        Some(TimeUnit::Days)
    } else if w == "h"@ || w == "hour"@ || w == "hours"@ {
        Some(TimeUnit::Hours)
    } else if w == "m"@ || w == "min"@ || w == "minute"@ || w == "minutes"@ {
        Some(TimeUnit::Minutes)
    } else if w == "s"@ || w == "sec"@ || w == "second"@ || w == "seconds"@ {
        Some(TimeUnit::Seconds)
    } else {
        None
    }
}

/// The figure that a number gives, exactly: its digits and how many of them follow the point.
pub open spec fn number_figure(n: Seq<char>) -> Option<(int, nat)> {
    match spec_parse(n) {
        Ok(d) => if d.exponent <= 0 && d.mantissa >= 0 {
            Some((d.mantissa as int, (-d.exponent) as nat))
        } else {
            None
        },
        Err(_) => None,
    }
}

/// What a word of a duration gives: a number with a unit word after it, or a bare number of
/// seconds.
pub open spec fn read_word(t: Seq<char>) -> Result<(TimeUnit, int, nat), MalformedView> {
    let p = number_end(t, 0);
    match number_figure(t.take(p)) {
        None => Err((t, 0, p)),
        Some(v) => if p == t.len() {
            Ok((TimeUnit::Seconds, v.0, v.1))
        } else {
            match unit_of(t.skip(p)) {
                Some(u) => Ok((u, v.0, v.1)),
                None => Err((t, p, encode_utf8(t).len() as usize as int)),
            }
        },
    }
}

/// The sums with `v` added to those of unit `u`.
pub open spec fn add_to(t: Totals, u: TimeUnit, v: int) -> Totals {
    match u {
        TimeUnit::Days => (t.0 + v, t.1, t.2, t.3),
        TimeUnit::Hours => (t.0, t.1 + v, t.2, t.3),
        TimeUnit::Minutes => (t.0, t.1, t.2 + v, t.3),
        TimeUnit::Seconds => (t.0, t.1, t.2, t.3 + v),
    }
}

/// Whether every total is within the limit of scale `k`.
pub open spec fn within_range(t: Totals, k: nat) -> bool {
    t.0 <= total_limit(k) && t.1 <= total_limit(k) && t.2 <= total_limit(k) && t.3
        <= total_limit(k)
}

/// The totals counted at a scale finer by `j` places.
pub open spec fn rescale(t: Totals, j: nat) -> Totals {
    (t.0 * pow10(j), t.1 * pow10(j), t.2 * pow10(j), t.3 * pow10(j))
}

/// The totals and their scale after one more word: the scale becomes the finer of the two,
/// and the word's figure is added to its unit.
pub open spec fn add_word(t: Totals, k: nat, u: TimeUnit, m: int, f: nat) -> (Totals, nat) {
    let k2 = if f > k {
        f
    } else {
        k
    };
    (add_to(rescale(t, (k2 - k) as nat), u, m * pow10((k2 - f) as nat)), k2)
}

/// The totals per unit of a sequence of words with their scale, or the first word that is
/// malformed or that carries a total past the limit of the scale (reported at its number).
pub open spec fn read_words(ws: Seq<Seq<char>>) -> Result<(Totals, nat), MalformedView>
    decreases ws.len(),
{
    if ws.len() == 0 {
        Ok(((0, 0, 0, 0), 0))
    } else {
        match read_words(ws.drop_last()) {
            Err(e) => Err(e),
            Ok(st) => match read_word(ws.last()) {
                Err(e) => Err(e),
                Ok(w) => if within_range(add_word(st.0, st.1, w.0, w.1, w.2).0, add_word(st.0, st.1, w.0, w.1, w.2).1) {
                    Ok(add_word(st.0, st.1, w.0, w.1, w.2))
                } else {
                    Err((ws.last(), 0, number_end(ws.last(), 0)))
                },
            },
        }
    }
}

/// A count, held at `u32::MAX` where it is larger.
pub open spec fn saturate(x: int) -> u32 {
    if x > u32::MAX {
        u32::MAX
    } else {
        x as u32
    }
}

/// The duration that totals counted at scale `k` make: each whole part is kept, the fraction of the days
/// and of the hours goes sixty to one into the next part, and the fraction of the minutes
/// into the seconds.
///
/// Open question, kept as configurations have always been read: a fraction of a day carries
/// into hours at sixty per day, not twenty-four (`1.5d` reads as one day and thirty hours),
/// and the carried hours and minutes are whole, so the fraction of a minute that a fraction
/// of an hour makes is dropped.
pub open spec fn duration_of(t: Totals, k: nat) -> Duration {
    let n = pow10(k);
    Duration {
        days: saturate(t.0 / n),
        hours: saturate((t.0 % n) * 60 / n + t.1 / n),
        minutes: saturate((t.1 % n) * 60 / n + t.2 / n),
        seconds: Decimal { mantissa: ((t.2 % n) * 60 + t.3) as i128, exponent: (-k) as i32 },
    }
}

/// What reading `s` as a duration gives.
pub open spec fn spec_read_duration(s: Seq<char>) -> Result<Duration, MalformedView> {
    match read_words(words(s)) {
        Ok(st) => Ok(duration_of(st.0, st.1)),
        Err(e) => Err(e),
    }
}

fn is_white_char(c: char) -> (r: bool)
    ensures
        r == is_white(c),
{
    ('\u{9}' <= c && c <= '\u{d}') || c == ' ' || c == '\u{85}' || c == '\u{a0}' || c
        == '\u{1680}' || ('\u{2000}' <= c && c <= '\u{200a}') || c == '\u{2028}' || c
        == '\u{2029}' || c == '\u{202f}' || c == '\u{205f}' || c == '\u{3000}'
}

/// The start and end of each word of `chars`, in order.
fn split_words(chars: &Vec<char>) -> (spans: Vec<(usize, usize)>)
    ensures
        spans.len() == words(chars@).len(),
        forall|k: int|
            0 <= k < spans.len() ==> {
                &&& (#[trigger] spans[k]).0 < spans[k].1 <= chars.len()
                &&& chars@.subrange(spans[k].0 as int, spans[k].1 as int) == words(chars@)[k]
            },
{
    let mut spans: Vec<(usize, usize)> = Vec::new();
    let mut i: usize = 0;
    while i < chars.len()
        invariant
            i <= chars.len(),
            spans.len() == words(chars@.take(i as int)).len(),
            forall|k: int|
                0 <= k < spans.len() ==> {
                    &&& (#[trigger] spans[k]).0 < spans[k].1 <= i
                    &&& chars@.subrange(spans[k].0 as int, spans[k].1 as int) == words(
                        chars@.take(i as int),
                    )[k]
                },
            i > 0 && !is_white(chars@[i - 1]) ==> spans.len() > 0 && spans[spans.len() - 1].1
                == i,
        decreases chars.len() - i,
    {
        let c = chars[i];
        let ghost pre = chars@.take(i as int);
        let ghost next = chars@.take(i + 1);
        assert(next.drop_last() =~= pre);
        assert(next.last() == c);
        if is_white_char(c) {
        } else if i == 0 || is_white_char(chars[i - 1]) {
            assert(i > 0 ==> next[next.len() - 2] == chars@[i - 1]);
            spans.push((i, i + 1));
            assert(chars@.subrange(i as int, i + 1) =~= seq![c]);
        } else {
            assert(next[next.len() - 2] == chars@[i - 1]);
            let last = spans.len() - 1;
            let (a, _) = spans[last];
            spans.set(last, (a, i + 1));
            assert(chars@.subrange(a as int, i + 1) =~= chars@.subrange(a as int, i as int).push(
                c,
            ));
        }
        i = i + 1;
    }
    assert(chars@.take(i as int) =~= chars@);
    spans
}

/// Whether `chars[from..to]` spells `lit`.
fn range_spells(chars: &Vec<char>, from: usize, to: usize, lit: &str) -> (r: bool)
    requires
        from <= to <= chars.len(),
    ensures
        r == (chars@.subrange(from as int, to as int) == lit@),
{
    let l = chars_of(lit);
    if to - from != l.len() {
        return false;
    }
    let mut i: usize = 0;
    while i < l.len()
        invariant
            to - from == l.len(),
            from <= to <= chars.len(),
            l@ == lit@,
            i <= l.len(),
            chars@.subrange(from as int, from + i) == l@.take(i as int),
        decreases l.len() - i,
    {
        if chars[from + i] != l[i] {
            assert(chars@.subrange(from as int, to as int)[i as int] != l@[i as int]);
            return false;
        }
        i = i + 1;
        assert(chars@.subrange(from as int, from + i) =~= l@.take(i as int));
    }
    assert(l@.take(i as int) =~= l@);
    true
}

/// The unit that `chars[from..to]` names.
fn unit_at(chars: &Vec<char>, from: usize, to: usize) -> (r: Option<TimeUnit>)
    requires
        from <= to <= chars.len(),
    ensures
        r == unit_of(chars@.subrange(from as int, to as int)),
{
    if range_spells(chars, from, to, "d") || range_spells(chars, from, to, "day")
        || range_spells(chars, from, to, "days") {
        Some(TimeUnit::Days)
    } else if range_spells(chars, from, to, "h") || range_spells(chars, from, to, "hour")
        || range_spells(chars, from, to, "hours") {
        Some(TimeUnit::Hours)
    } else if range_spells(chars, from, to, "m") || range_spells(chars, from, to, "min")
        || range_spells(chars, from, to, "minute") || range_spells(chars, from, to, "minutes") {
        Some(TimeUnit::Minutes)
    } else if range_spells(chars, from, to, "s") || range_spells(chars, from, to, "sec")
        || range_spells(chars, from, to, "second") || range_spells(chars, from, to, "seconds") {
        Some(TimeUnit::Seconds)
    } else {
        None
    }
}

/// The figure of a number: its digits and how many follow the point.
fn figure_at(chars: &Vec<char>, from: usize, to: usize) -> (r: Option<(u128, u32)>)
    requires
        from <= to <= chars.len(),
    ensures
        match (r, number_figure(chars@.subrange(from as int, to as int))) {
            (Some(x), Some(y)) => x.0 == y.0 && x.1 == y.1 && x.0 <= i128::MAX,
            (None, None) => true,
            _ => false,
        },
{
    match parse_range(chars, from, to) {
        Err(_) => None,
        Ok(d) => {
            if d.exponent > 0 || d.mantissa < 0 {
                return None;
            }
            Some((d.mantissa as u128, (-(d.exponent as i64)) as u32))
        },
    }
}

/// The text of `chars[from..to]`.
fn text_at(chars: &Vec<char>, from: usize, to: usize) -> (r: String)
    requires
        from <= to <= chars.len(),
    ensures
        r@ == chars@.subrange(from as int, to as int),
{
    let mut w: Vec<char> = Vec::new();
    push_range(&mut w, chars, from, to);
    assert(w@ =~= chars@.subrange(from as int, to as int));
    string_of(&w)
}

/// Reads the word `chars[from..to]`: its unit, its figure (digits and places after the
/// point), and the length of its number.
fn read_word_at(chars: &Vec<char>, from: usize, to: usize) -> (r: Result<
    (TimeUnit, u128, u32, usize),
    DurationFromStrError,
>)
    requires
        from < to <= chars.len(),
    ensures
        match (r, read_word(chars@.subrange(from as int, to as int))) {
            (Ok(x), Ok(y)) => x.0 == y.0 && x.1 == y.1 && x.2 == y.2 && x.1 <= i128::MAX && x.3
                == number_end(chars@.subrange(from as int, to as int), 0),
            (Err(DurationFromStrError::MalformedString(w, range)), Err(e)) => w@ == e.0
                && range.start == e.1 && range.end == e.2,
            _ => false,
        },
{
    let ghost t = chars@.subrange(from as int, to as int);
    let mut p: usize = from;
    while p < to && ('0' <= chars[p] && chars[p] <= '9' || chars[p] == '.')
        invariant
            from <= p <= to <= chars.len(),
            t == chars@.subrange(from as int, to as int),
            number_end(t, 0) == number_end(t, p - from),
        decreases to - p,
    {
        assert(t[p - from] == chars@[p as int]);
        p = p + 1;
    }
    proof {
        if p < to {
            assert(t[p - from] == chars@[p as int]);
        }
    }
    assert(number_end(t, 0) == p - from);
    assert(t.take(p - from) =~= chars@.subrange(from as int, p as int));
    match figure_at(chars, from, p) {
        None => Err(DurationFromStrError::MalformedString(text_at(chars, from, to), 0..(p - from))),
        Some(v) => {
            if p == to {
                Ok((TimeUnit::Seconds, v.0, v.1, p - from))
            } else {
                assert(t.skip(p - from) =~= chars@.subrange(p as int, to as int));
                match unit_at(chars, p, to) {
                    Some(u) => Ok((u, v.0, v.1, p - from)),
                    None => {
                        let w = text_at(chars, from, to);
                        let end = w.as_str().len();
                        Err(DurationFromStrError::MalformedString(w, (p - from)..end))
                    },
                }
            }
        },
    }
}

/// The totals as integers.
pub open spec fn as_totals(t: (u128, u128, u128, u128)) -> Totals {
    (t.0 as int, t.1 as int, t.2 as int, t.3 as int)
}

proof fn lemma_pow10_36()
    ensures
        pow10(36) == 1_000_000_000_000_000_000_000_000_000_000_000_000,
        pow10(37) == 10_000_000_000_000_000_000_000_000_000_000_000_000,
{
    reveal_with_fuel(pow10, 38);
}

/// `x * r`, where it is within `lim`.
fn scaled_within(x: u128, r: u128, lim: u128) -> (y: Option<u128>)
    requires
        r >= 1,
    ensures
        match y {
            Some(v) => v == x * r && v <= lim,
            None => x * r > lim,
        },
{
    if x > lim / r {
        proof {
            assert(x * r > lim) by (nonlinear_arith)
                requires
                    x > lim / r,
                    r >= 1,
            ;
        }
        None
    } else {
        proof {
            assert(x * r <= lim) by (nonlinear_arith)
                requires
                    x <= lim / r,
                    r >= 1,
            ;
        }
        Some(x * r)
    }
}

/// The totals and scale after one more word, where every total stays within the limit.
fn add_word_at(t: (u128, u128, u128, u128), k: u32, u: TimeUnit, m: u128, f: u32) -> (r: Option<
    ((u128, u128, u128, u128), u32),
>)
    requires
        within_range(as_totals(t), k as nat),
        k <= 36,
        m <= i128::MAX,
    ensures
        match r {
            Some(x) => (as_totals(x.0), x.1 as nat) == add_word(as_totals(t), k as nat, u, m as int, f as nat)
                && within_range(as_totals(x.0), x.1 as nat) && x.1 <= 36,
            None => !within_range(
                add_word(as_totals(t), k as nat, u, m as int, f as nat).0,
                add_word(as_totals(t), k as nat, u, m as int, f as nat).1,
            ),
        },
{
    let ghost nw = add_word(as_totals(t), k as nat, u, m as int, f as nat);
    let k2 = if f > k { f } else { k };
    proof {
        lemma_pow10_36();
        crate::decimal::lemma_pow10_positive((k2 - k) as nat);
        crate::decimal::lemma_pow10_positive((k2 - f) as nat);
    }
    if k2 > 36 {
        proof {
            crate::decimal::lemma_pow10_monotone(37, k2 as nat);
            assert(total_limit(k2 as nat) < 0);
            assert(m * pow10((k2 - f) as nat) >= 0) by (nonlinear_arith)
                requires
                    pow10((k2 - f) as nat) >= 1,
            ;
            assert(t.0 * pow10((k2 - k) as nat) >= 0 && t.1 * pow10((k2 - k) as nat) >= 0
                && t.2 * pow10((k2 - k) as nat) >= 0 && t.3 * pow10((k2 - k) as nat) >= 0)
                by (nonlinear_arith)
                requires
                    pow10((k2 - k) as nat) >= 1,
            ;
        }
        return None;
    }
    let p = crate::decimal::pow10_exec(k2);
    proof {
        crate::decimal::lemma_pow10_monotone(k2 as nat, 36);
    }
    let lim: u128 = (i128::MAX as u128) - 60 * p;
    assert(lim == total_limit(k2 as nat));
    let r = crate::decimal::pow10_exec(k2 - k);
    let q = crate::decimal::pow10_exec(k2 - f);
    let (a0, a1, a2, a3) = t;
    let o0 = scaled_within(a0, r, lim);
    let o1 = scaled_within(a1, r, lim);
    let o2 = scaled_within(a2, r, lim);
    let o3 = scaled_within(a3, r, lim);
    let ow = scaled_within(m, q, lim);
    proof {
        assert(m * q >= 0) by (nonlinear_arith)
            requires
                q >= 1,
        ;
        assert(a0 * r >= 0 && a1 * r >= 0 && a2 * r >= 0 && a3 * r >= 0) by (nonlinear_arith)
            requires
                r >= 1,
        ;
    }
    match (o0, o1, o2, o3, ow) {
        (Some(b0), Some(b1), Some(b2), Some(b3), Some(w)) => {
            let (c0, c1, c2, c3) = match u {
                TimeUnit::Days => (b0 + w, b1, b2, b3),
                TimeUnit::Hours => (b0, b1 + w, b2, b3),
                TimeUnit::Minutes => (b0, b1, b2 + w, b3),
                TimeUnit::Seconds => (b0, b1, b2, b3 + w),
            };
            if c0 > lim || c1 > lim || c2 > lim || c3 > lim {
                None
            } else {
                Some(((c0, c1, c2, c3), k2))
            }
        },
        _ => None,
    }
}

proof fn lemma_error_stays(ws: Seq<Seq<char>>, j: int, e: MalformedView)
    requires
        0 <= j <= ws.len(),
        read_words(ws.take(j)) == Err::<(Totals, nat), MalformedView>(e),
    ensures
        read_words(ws) == Err::<(Totals, nat), MalformedView>(e),
    decreases ws.len() - j,
{
    if j < ws.len() {
        assert(ws.take(j + 1).drop_last() =~= ws.take(j));
        lemma_error_stays(ws, j + 1, e);
    } else {
        assert(ws.take(j) =~= ws);
    }
}

fn saturate_u128(x: u128) -> (r: u32)
    ensures
        r == saturate(x as int),
{
    if x > u32::MAX as u128 {
        u32::MAX
    } else {
        x as u32
    }
}

impl Duration {
    /// No time at all.
    pub fn zero() -> (d: Duration)
        ensures
            d.days == 0,
            d.hours == 0,
            d.minutes == 0,
            d.seconds.mantissa == 0,
            d.seconds.exponent == 0,
    {
        Duration { days: 0, hours: 0, minutes: 0, seconds: Decimal::new(0, 0) }
    }

    /// Reads a duration: words apart by white space, each a number followed by a unit word
    /// (`d`, `day`, `days`, `h`, `hour`, `hours`, `m`, `min`, `minute`, `minutes`, `s`, `sec`,
    /// `second`, `seconds`) or a bare number of seconds. The figures of each unit are summed
    /// exactly, to the finest decimal place given; a word that carries a total past what an
    /// `i128` mantissa holds at that place is reported as malformed, at its number.
    pub fn parse(s: &str) -> (r: Result<Duration, DurationFromStrError>)
        ensures
            match (r, spec_read_duration(s@)) {
                (Ok(d), Ok(e)) => d == e,
                (Err(DurationFromStrError::MalformedString(w, range)), Err(e)) => w@ == e.0
                    && range.start == e.1 && range.end == e.2,
                _ => false,
            },
    {
        let chars = chars_of(s);
        let spans = split_words(&chars);
        let ghost ws = words(chars@);
        let mut t: (u128, u128, u128, u128) = (0, 0, 0, 0);
        let mut scale: u32 = 0;
        let mut k: usize = 0;
        proof {
            assert(pow10(0) == 1);
        }
        while k < spans.len()
            invariant
                chars@ == s@,
                ws == words(chars@),
                spans.len() == ws.len(),
                forall|i: int|
                    0 <= i < spans.len() ==> {
                        &&& (#[trigger] spans[i]).0 < spans[i].1 <= chars.len()
                        &&& chars@.subrange(spans[i].0 as int, spans[i].1 as int) == ws[i]
                    },
                k <= spans.len(),
                read_words(ws.take(k as int)) == Ok::<(Totals, nat), MalformedView>(
                    (as_totals(t), scale as nat),
                ),
                within_range(as_totals(t), scale as nat),
                scale <= 36,
            decreases spans.len() - k,
        {
            let (a, b) = spans[k];
            assert(ws.take(k + 1).drop_last() =~= ws.take(k as int));
            assert(ws.take(k + 1).last() == ws[k as int]);
            match read_word_at(&chars, a, b) {
                Err(e) => {
                    proof {
                        let ev = read_word(ws[k as int])->Err_0;
                        lemma_error_stays(ws, k + 1, ev);
                    }
                    return Err(e);
                },
                Ok((u, m, f, len)) => {
                    match add_word_at(t, scale, u, m, f) {
                        None => {
                            proof {
                                let ev = (ws[k as int], 0int, number_end(ws[k as int], 0));
                                lemma_error_stays(ws, k + 1, ev);
                            }
                            return Err(
                                DurationFromStrError::MalformedString(
                                    text_at(&chars, a, b),
                                    0..len,
                                ),
                            );
                        },
                        Some((t2, k2)) => {
                            t = t2;
                            scale = k2;
                        },
                    }
                },
            }
            k = k + 1;
        }
        assert(ws.take(k as int) =~= ws);
        let n = crate::decimal::pow10_exec(scale);
        proof {
            crate::decimal::lemma_pow10_monotone(scale as nat, 36);
            lemma_pow10_36();
        }
        let (days, hours, minutes, seconds) = t;
        let d = Duration {
            days: saturate_u128(days / n),
            hours: saturate_u128((days % n) * 60 / n + hours / n),
            minutes: saturate_u128((hours % n) * 60 / n + minutes / n),
            seconds: Decimal::new(((minutes % n) * 60 + seconds) as i128, -(scale as i32)),
        };
        Ok(d)
    }
}

impl Duration {
    /// The duration of `value` seconds, where a positive exponent leaves the number of seconds
    /// within the mantissa's range; `None` otherwise.
    pub fn checked_from_seconds(value: Decimal) -> (r: Option<Duration>)
        ensures
            r is Some <==> (value.exponent > 0 ==> abs(value.mantissa as int) * pow10(
                value.exponent as nat,
            ) <= i128::MAX),
            r is Some ==> r->Some_0 == duration_of_seconds(value),
    {
        if value.exponent <= 0 || value.mantissa == 0 {
            proof {
                assert(0 * pow10(value.exponent as nat) == 0);
            }
            return Some(Duration::from_seconds(value));
        }
        let m = value.mantissa;
        let n: u128 = if m < 0 {
            ((-(m + 1)) as u128) + 1
        } else {
            m as u128
        };
        let ghost e = value.exponent as nat;
        proof {
            crate::decimal::lemma_pow10_positive(e);
        }
        if value.exponent > 38 {
            proof {
                crate::decimal::lemma_pow10_monotone(39, e);
                crate::decimal::lemma_pow10_39();
                assert(n * pow10(e) >= pow10(e)) by (nonlinear_arith)
                    requires
                        n >= 1,
                        pow10(e) >= 1,
                ;
            }
            return None;
        }
        let p = crate::decimal::pow10_exec(value.exponent as u32);
        proof {
            assert((n <= (i128::MAX as u128) / p) == (n * p <= i128::MAX)) by (nonlinear_arith)
                requires
                    p >= 1,
            ;
        }
        if n <= (i128::MAX as u128) / p {
            Some(Duration::from_seconds(value))
        } else {
            None
        }
    }

    /// The length of this duration in seconds, where the whole part, the seconds and their
    /// sum fit the mantissa at the result's exponent; `None` otherwise.
    pub fn checked_as_seconds(&self) -> (r: Option<Decimal>)
        ensures
            r is Some <==> {
                &&& whole_seconds(*self) * pow10((-seconds_exponent(*self)) as nat) <= i128::MAX
                &&& abs(self.seconds.mantissa as int) * pow10(
                    (self.seconds.exponent - seconds_exponent(*self)) as nat,
                ) <= i128::MAX
                &&& seconds_value_at(*self, seconds_exponent(*self)) <= i128::MAX
            },
            r is Some ==> r->Some_0.exponent == seconds_exponent(*self) && r->Some_0.mantissa
                == seconds_value_at(*self, seconds_exponent(*self)),
    {
        let whole: u128 = self.days as u128 * 86400 + self.hours as u128 * 3600
            + self.minutes as u128 * 60;
        let se = self.seconds.exponent;
        let e: i32 = if se < 0 {
            se
        } else {
            0
        };
        let k = (-(e as i64)) as u32;
        let j = (se as i64 - e as i64) as u32;
        let m = self.seconds.mantissa;
        let n: u128 = if m < 0 {
            ((-(m + 1)) as u128) + 1
        } else {
            m as u128
        };
        let ghost pk = pow10(k as nat);
        let ghost pj = pow10(j as nat);
        proof {
            crate::decimal::lemma_pow10_positive(k as nat);
            crate::decimal::lemma_pow10_positive(j as nat);
            crate::decimal::lemma_pow10_39();
            assert(whole == whole_seconds(*self));
            assert(seconds_exponent(*self) == e);
        }
        // the whole part at the result's exponent
        let a: Option<i128> = if whole == 0 {
            assert(0 * pk == 0);
            Some(0)
        } else if k > 38 {
            proof {
                crate::decimal::lemma_pow10_monotone(39, k as nat);
                assert(whole * pk >= pk) by (nonlinear_arith)
                    requires
                        whole >= 1,
                        pk >= 1,
                ;
            }
            None
        } else {
            let p = crate::decimal::pow10_exec(k);
            proof {
                assert((whole <= (i128::MAX as u128) / p) == (whole * p <= i128::MAX))
                    by (nonlinear_arith)
                    requires
                        p >= 1,
                ;
            }
            if whole <= (i128::MAX as u128) / p {
                Some((whole * p) as i128)
            } else {
                None
            }
        };
        // the seconds at the result's exponent
        let b: Option<i128> = if m == 0 {
            assert(0 * pj == 0);
            Some(0)
        } else if j > 38 {
            proof {
                crate::decimal::lemma_pow10_monotone(39, j as nat);
                assert(n * pj >= pj) by (nonlinear_arith)
                    requires
                        n >= 1,
                        pj >= 1,
                ;
            }
            None
        } else {
            let q = crate::decimal::pow10_exec(j);
            proof {
                assert((n <= (i128::MAX as u128) / q) == (n * q <= i128::MAX))
                    by (nonlinear_arith)
                    requires
                        q >= 1,
                ;
                assert(-(n * q) <= m * q <= n * q) by (nonlinear_arith)
                    requires
                        n == abs(m as int),
                        q >= 1,
                ;
            }
            if n <= (i128::MAX as u128) / q {
                proof {
                    crate::decimal::lemma_pow10_monotone(j as nat, 38);
                    crate::decimal::lemma_pow10_38();
                }
                let qi = q as i128;
                assert(m * qi == m * pj);
                Some(m * qi)
            } else {
                None
            }
        };
        match (a, b) {
            (Some(a), Some(b)) => {
                assert(a == whole * pk);
                assert(b == m * pj);
                assert(seconds_value_at(*self, e as int) == a + b);
                if b > 0 && a > i128::MAX - b {
                    None
                } else {
                    Some(self.as_seconds())
                }
            },
            _ => None,
        }
    }
}

impl PartialEq for Duration {
    fn eq(&self, other: &Duration) -> (r: bool) {
        self.days == other.days && self.hours == other.hours && self.minutes == other.minutes
            && self.seconds == other.seconds
    }
}

impl vstd::std_specs::cmp::PartialEqSpecImpl for Duration {
    open spec fn obeys_eq_spec() -> bool {
        true
    }

    open spec fn eq_spec(&self, other: &Duration) -> bool {
        self.days == other.days && self.hours == other.hours && self.minutes == other.minutes
            && same_value(self.seconds, other.seconds)
    }
}

impl Default for Duration {
    fn default() -> (d: Duration)
        ensures
            d.days == 0,
            d.hours == 0,
            d.minutes == 0,
            d.seconds.mantissa == 0,
            d.seconds.exponent == 0,
    {
        Duration::zero()
    }
}

impl std::str::FromStr for Duration {
    type Err = DurationFromStrError;

    fn from_str(s: &str) -> (r: Result<Duration, DurationFromStrError>)
        ensures
            match (r, spec_read_duration(s@)) {
                (Ok(d), Ok(e)) => d == e,
                (Err(DurationFromStrError::MalformedString(w, range)), Err(e)) => w@ == e.0
                    && range.start == e.1 && range.end == e.2,
                _ => false,
            },
    {
        Duration::parse(s)
    }
}

/// The remainder of `x` by `n` that keeps the sign of `x`.
pub open spec fn signed_rem(x: int, n: int) -> int {
    if x >= 0 {
        x % n
    } else {
        -((-x) % n)
    }
}

/// The duration of `x * 10^e` seconds, for `e <= 0`: the whole days, the whole hours left
/// over, the whole minutes left over, and the seconds left over. A negative number has no whole
/// parts, and its seconds keep its sign.
pub open spec fn split_seconds(x: int, e: int) -> Duration {
    let u = pow10((-e) as nat);
    Duration {
        days: if x < 0 {
            0
        } else {
            saturate(x / (86400 * u))
        },
        hours: if x < 0 {
            0
        } else {
            saturate((x % (86400 * u)) / (3600 * u))
        },
        minutes: if x < 0 {
            0
        } else {
            saturate((x % (3600 * u)) / (60 * u))
        },
        seconds: Decimal { mantissa: signed_rem(x, 60 * u) as i128, exponent: e as i32 },
    }
}

/// The duration of `value` seconds; a positive exponent is first written out in whole seconds.
pub open spec fn duration_of_seconds(value: Decimal) -> Duration {
    if value.exponent > 0 {
        split_seconds(value.mantissa * pow10(value.exponent as nat), 0)
    } else {
        split_seconds(value.mantissa as int, value.exponent as int)
    }
}

/// The whole seconds in the days, hours and minutes of a duration.
pub open spec fn whole_seconds(d: Duration) -> int {
    d.days * 86400 + d.hours * 3600 + d.minutes * 60
}

/// The number of seconds that a duration spans, counting its parts as given, in units of
/// `10^e` seconds.
pub open spec fn seconds_value_at(d: Duration, e: int) -> int {
    whole_seconds(d) * pow10((-e) as nat) + d.seconds.mantissa * pow10(
        (d.seconds.exponent - e) as nat,
    )
}

/// `x / (c * 10^k)` and `x % (c * 10^k)`, for any `k`.
fn div_rem_scaled(x: u128, c: u128, k: u32) -> (r: (u128, u128))
    requires
        c >= 1,
    ensures
        r.0 == x as int / (c * pow10(k as nat)),
        r.1 == x as int % (c * pow10(k as nat)),
{
    proof {
        crate::decimal::lemma_pow10_positive(k as nat);
        assert(c * pow10(k as nat) >= 1) by (nonlinear_arith)
            requires
                c >= 1,
                pow10(k as nat) >= 1,
        ;
    }
    if k > 38 {
        proof {
            crate::decimal::lemma_pow10_monotone(39, k as nat);
            crate::decimal::lemma_pow10_39();
            assert(c * pow10(k as nat) > x) by (nonlinear_arith)
                requires
                    c >= 1,
                    pow10(k as nat) >= 1000000000000000000000000000000000000000,
                    x < 1000000000000000000000000000000000000000,
            ;
            vstd::arithmetic::div_mod::lemma_basic_div(x as int, c * pow10(k as nat));
            vstd::arithmetic::div_mod::lemma_small_mod(x as nat, (c * pow10(k as nat)) as nat);
        }
        return (0, x);
    }
    let p = crate::decimal::pow10_exec(k);
    if c > u128::MAX / p {
        proof {
            assert(c * p > u128::MAX) by (nonlinear_arith)
                requires
                    c > u128::MAX / p,
                    p >= 1,
            ;
            vstd::arithmetic::div_mod::lemma_basic_div(x as int, c * p);
            vstd::arithmetic::div_mod::lemma_small_mod(x as nat, (c * p) as nat);
        }
        return (0, x);
    }
    proof {
        assert(c * p <= u128::MAX) by (nonlinear_arith)
            requires
                c <= u128::MAX / p,
                p >= 1,
        ;
    }
    let n = c * p;
    (x / n, x % n)
}

impl Duration {
    /// The duration of `value` seconds, split into whole days, hours and minutes and the
    /// seconds left over. A positive exponent must leave the number of seconds within the
    /// mantissa's range.
    pub fn from_seconds(value: Decimal) -> (d: Duration)
        requires
            value.exponent > 0 ==> abs(value.mantissa as int) * pow10(value.exponent as nat)
                <= i128::MAX,
        ensures
            d == duration_of_seconds(value),
    {
        if value.exponent > 0 {
            if value.mantissa == 0 {
                assert(0 * pow10(value.exponent as nat) == 0);
                return Duration::split(Decimal::new(0, 0));
            }
            let ghost n = abs(value.mantissa as int);
            proof {
                crate::decimal::lemma_pow10_positive(value.exponent as nat);
                assert(pow10(value.exponent as nat) <= n * pow10(value.exponent as nat))
                    by (nonlinear_arith)
                    requires
                        n >= 1,
                        pow10(value.exponent as nat) >= 1,
                ;
                assert(-(n * pow10(value.exponent as nat)) <= value.mantissa * pow10(
                    value.exponent as nat,
                ) <= n * pow10(value.exponent as nat)) by (nonlinear_arith)
                    requires
                        n == abs(value.mantissa as int),
                        pow10(value.exponent as nat) >= 1,
                ;
            }
            let p = pow10_within(value.exponent as u32);
            Duration::split(Decimal::new(value.mantissa * p, 0))
        } else {
            Duration::split(value)
        }
    }

    /// The duration of `value` seconds for a value written with no positive exponent.
    fn split(value: Decimal) -> (d: Duration)
        requires
            value.exponent <= 0,
        ensures
            d == split_seconds(value.mantissa as int, value.exponent as int),
    {
        let m = value.mantissa;
        let negative = m < 0;
        let x: u128 = if negative {
            ((-(m + 1)) as u128) + 1
        } else {
            m as u128
        };
        let k = (-(value.exponent as i64)) as u32;
        let (day_q, day_r) = div_rem_scaled(x, 86400, k);
        let (hour_q, hour_r) = div_rem_scaled(day_r, 3600, k);
        let (minute_q, _) = div_rem_scaled(hour_r, 60, k);
        let (_, second_r) = div_rem_scaled(x, 60, k);
        let ghost u = pow10(k as nat);
        proof {
            crate::decimal::lemma_pow10_positive(k as nat);
            assert(86400 * u == (3600 * u) * 24) by (nonlinear_arith);
            assert(3600 * u == (60 * u) * 60) by (nonlinear_arith);
            assert(3600 * u > 0 && 60 * u > 0) by (nonlinear_arith)
                requires
                    u >= 1,
            ;
            vstd::arithmetic::div_mod::lemma_mod_mod(x as int, 3600 * u, 24);
        }
        proof {
            if x < 60 * u {
                vstd::arithmetic::div_mod::lemma_small_mod(x as nat, (60 * u) as nat);
            }
        }
        assert(second_r <= x);
        let seconds: i128 = if negative {
            if second_r == x {
                m
            } else {
                -(second_r as i128)
            }
        } else {
            second_r as i128
        };
        assert(u == pow10((-value.exponent) as nat));
        assert(seconds == signed_rem(m as int, 60 * u));
        if negative {
            Duration { days: 0, hours: 0, minutes: 0, seconds: Decimal::new(seconds, value.exponent) }
        } else {
            assert(hour_r == (x as int) % (3600 * u));
            Duration {
                days: saturate_u128(day_q),
                hours: saturate_u128(hour_q),
                minutes: saturate_u128(minute_q),
                seconds: Decimal::new(seconds, value.exponent),
            }
        }
    }
}

/// Seconds rounded to tenths, ties to even, for a positive number of seconds.
pub open spec fn tenths(d: Decimal) -> int {
    let m = d.mantissa as int;
    if d.exponent >= -1 {
        m * pow10((d.exponent + 1) as nat)
    } else {
        let p = pow10((-d.exponent - 1) as nat);
        let q = m / p;
        let r = m % p;
        if 2 * r > p || (2 * r == p && q % 2 == 1) {
            q + 1
        } else {
            q
        }
    }
}

/// A count of tenths written with one digit after the point.
pub open spec fn tenths_text(t: nat) -> Seq<char> {
    digits_text(t / 10) + seq!['.', digit_char((t % 10) as int)]
}

/// A part of a duration as written: the count and its unit letter, then a space; nothing for
/// a zero count.
pub open spec fn part_text(n: u32, unit: char) -> Seq<char> {
    if n > 0 {
        digits_text(n as nat) + seq![unit, ' ']
    } else {
        Seq::empty()
    }
}

/// How a duration is written: each nonzero part with its unit letter, the seconds to one
/// decimal place, and `0` where there is nothing to write.
pub open spec fn duration_text(d: Duration) -> Seq<char> {
    let body = part_text(d.days, 'd') + part_text(d.hours, 'h') + part_text(d.minutes, 'm') + (
    if d.seconds.mantissa > 0 {
        tenths_text(tenths(d.seconds) as nat) + seq!['s']
    } else {
        Seq::empty()
    });
    if body.len() == 0 {
        seq!['0']
    } else {
        body
    }
}

proof fn lemma_digits_text_times_pow10(m: nat, e: nat)
    requires
        m > 0,
    ensures
        digits_text(m * pow10(e) as nat) == digits_text(m) + zeros(e),
    decreases e,
{
    if e == 0 {
        assert(pow10(0) == 1);
        assert(m * pow10(0) == m) by (nonlinear_arith)
            requires
                pow10(0) == 1,
        ;
        assert(digits_text(m) + zeros(0) =~= digits_text(m));
    } else {
        lemma_digits_text_times_pow10(m, (e - 1) as nat);
        let a = m * pow10((e - 1) as nat);
        crate::decimal::lemma_pow10_positive((e - 1) as nat);
        assert(m * pow10(e) == a * 10) by (nonlinear_arith)
            requires
                a == m * pow10((e - 1) as nat),
                pow10(e) == 10 * pow10((e - 1) as nat),
        ;
        assert(a >= 1) by (nonlinear_arith)
            requires
                a == m * pow10((e - 1) as nat),
                m >= 1,
                pow10((e - 1) as nat) >= 1,
        ;
        assert((a * 10) as nat / 10 == a as nat);
        assert((a * 10) as nat % 10 == 0);
        assert(digits_text((a * 10) as nat) == digits_text(a as nat).push('0'));
        assert(digits_text(m) + zeros(e) =~= (digits_text(m) + zeros((e - 1) as nat)).push('0'));
    }
}

/// Appends a positive number of seconds to one decimal place, ties to even.
fn push_tenths(out: &mut Vec<char>, d: Decimal)
    requires
        d.mantissa > 0,
    ensures
        final(out)@ == old(out)@ + tenths_text(tenths(d) as nat),
{
    let m = d.mantissa as u128;
    if d.exponent >= 0 {
        let ghost e = d.exponent as nat;
        proof {
            crate::decimal::lemma_pow10_positive(e);
            assert(pow10(e + 1) == 10 * pow10(e));
            let a = m * pow10(e);
            assert(m * pow10(e + 1) == a * 10) by (nonlinear_arith)
                requires
                    a == m * pow10(e),
                    pow10(e + 1) == 10 * pow10(e),
            ;
            assert(a >= 0) by (nonlinear_arith)
                requires
                    a == m * pow10(e),
                    m >= 1,
                    pow10(e) >= 1,
            ;
            assert((a * 10) / 10 == a);
            assert((a * 10) % 10 == 0);
            lemma_digits_text_times_pow10(m as nat, e);
        }
        push_digits(out, m);
        push_zeros(out, d.exponent as u64);
        out.push('.');
        out.push('0');
        assert(final(out)@ =~= old(out)@ + tenths_text(tenths(d) as nat));
    } else if d.exponent == -1 {
        push_digits(out, m / 10);
        out.push('.');
        out.push(char_of_digit((m % 10) as u32));
        assert(final(out)@ =~= old(out)@ + tenths_text(tenths(d) as nat));
    } else {
        let k = (-(d.exponent as i64) - 1) as u32;
        let t: u128 = if k > 38 {
            proof {
                crate::decimal::lemma_pow10_monotone(39, k as nat);
                crate::decimal::lemma_pow10_39();
                vstd::arithmetic::div_mod::lemma_basic_div(m as int, pow10(k as nat));
                vstd::arithmetic::div_mod::lemma_small_mod(m as nat, pow10(k as nat) as nat);
            }
            0
        } else {
            let p = crate::decimal::pow10_exec(k);
            let q = m / p;
            let r = m % p;
            proof {
                crate::decimal::lemma_pow10_38();
                crate::decimal::lemma_pow10_monotone(k as nat, 38);
            }
            if 2 * r > p || (2 * r == p && q % 2 == 1) {
                q + 1
            } else {
                q
            }
        };
        assert(t == tenths(d));
        push_digits(out, t / 10);
        out.push('.');
        out.push(char_of_digit((t % 10) as u32));
        assert(final(out)@ =~= old(out)@ + tenths_text(tenths(d) as nat));
    }
}

fn push_part(out: &mut Vec<char>, n: u32, unit: char)
    ensures
        final(out)@ == old(out)@ + part_text(n, unit),
{
    if n > 0 {
        push_digits(out, n as u128);
        out.push(unit);
        out.push(' ');
    }
    assert(final(out)@ =~= old(out)@ + part_text(n, unit));
}

impl Duration {
    /// How this duration is written: `1d 2h 30m 45.5s`, each nonzero part with its unit
    /// letter, the seconds to one decimal place, and `0` for no time at all.
    pub fn to_string(&self) -> (r: String)
        ensures
            r@ == duration_text(*self),
    {
        let mut out: Vec<char> = Vec::new();
        push_part(&mut out, self.days, 'd');
        push_part(&mut out, self.hours, 'h');
        push_part(&mut out, self.minutes, 'm');
        if self.seconds.mantissa > 0 {
            push_tenths(&mut out, self.seconds);
            out.push('s');
        }
        if out.len() == 0 {
            out.push('0');
        }
        assert(out@ =~= duration_text(*self));
        string_of(&out)
    }
}

/// The exponent in which a duration's length in seconds is exact: that of its seconds, or
/// units where the seconds are whole.
pub open spec fn seconds_exponent(d: Duration) -> int {
    if d.seconds.exponent < 0 {
        d.seconds.exponent as int
    } else {
        0
    }
}

fn pow10_within(k: u32) -> (r: i128)
    requires
        pow10(k as nat) <= i128::MAX,
    ensures
        r == pow10(k as nat),
{
    let mut r: i128 = 1;
    let mut i: u32 = 0;
    while i < k
        invariant
            i <= k,
            r == pow10(i as nat),
            pow10(k as nat) <= i128::MAX,
        decreases k - i,
    {
        proof {
            crate::decimal::lemma_pow10_monotone((i + 1) as nat, k as nat);
            crate::decimal::lemma_pow10_positive(i as nat);
            assert(pow10((i + 1) as nat) == 10 * pow10(i as nat));
        }
        r = r * 10;
        i = i + 1;
    }
    r
}

impl Duration {
    /// The length of this duration in seconds, counting each part as given. The whole part,
    /// the seconds and their sum, each in units of the result's exponent, must lie within the
    /// mantissa's range.
    pub fn as_seconds(&self) -> (r: Decimal)
        requires
            whole_seconds(*self) * pow10((-seconds_exponent(*self)) as nat) <= i128::MAX,
            abs(self.seconds.mantissa as int) * pow10(
                (self.seconds.exponent - seconds_exponent(*self)) as nat,
            ) <= i128::MAX,
            seconds_value_at(*self, seconds_exponent(*self)) <= i128::MAX,
        ensures
            r.exponent == seconds_exponent(*self),
            r.mantissa == seconds_value_at(*self, seconds_exponent(*self)),
    {
        let whole: i128 = self.days as i128 * 86400 + self.hours as i128 * 3600 + self.minutes as i128
            * 60;
        let se = self.seconds.exponent;
        let e: i32 = if se < 0 {
            se
        } else {
            0
        };
        let k = (-(e as i64)) as u32;
        let j = (se as i64 - e as i64) as u32;
        let m = self.seconds.mantissa;
        let ghost pk = pow10(k as nat);
        let ghost pj = pow10(j as nat);
        proof {
            crate::decimal::lemma_pow10_positive(k as nat);
            crate::decimal::lemma_pow10_positive(j as nat);
            assert(whole * pk >= 0) by (nonlinear_arith)
                requires
                    whole >= 0,
                    pk >= 1,
            ;
            assert(-(abs(m as int) * pj) <= m * pj <= abs(m as int) * pj) by (nonlinear_arith)
                requires
                    pj >= 1,
            ;
            assert(seconds_value_at(*self, e as int) == whole * pk + m * pj);
        }
        let a: i128 = if whole == 0 {
            0
        } else {
            proof {
                assert(pk <= whole * pk) by (nonlinear_arith)
                    requires
                        whole >= 1,
                        pk >= 1,
                ;
            }
            whole * pow10_within(k)
        };
        let b: i128 = if m == 0 {
            0
        } else {
            proof {
                assert(pj <= abs(m as int) * pj) by (nonlinear_arith)
                    requires
                        m != 0,
                        pj >= 1,
                ;
            }
            m * pow10_within(j)
        };
        assert(a == whole * pk) by (nonlinear_arith)
            requires
                whole == 0 ==> a == 0,
                whole != 0 ==> a == whole * pk,
        ;
        assert(b == m * pj) by (nonlinear_arith)
            requires
                m == 0 ==> b == 0,
                m != 0 ==> b == m * pj,
        ;
        assert(seconds_exponent(*self) == e as int);
        Decimal::new(a + b, e)
    }
}

proof fn lemma_words_nonempty(s: Seq<char>)
    requires
        s.len() > 0,
        !is_white(s.last()),
    ensures
        words(s).len() > 0,
    decreases s.len(),
{
    if s.len() > 1 && !is_white(s[s.len() - 2]) {
        assert(s.drop_last().last() == s[s.len() - 2]);
        lemma_words_nonempty(s.drop_last());
    }
}

proof fn lemma_words_append(a: Seq<char>, b: Seq<char>)
    requires
        a.len() == 0 || is_white(a.last()),
    ensures
        words(a + b) == words(a) + words(b),
    decreases b.len(),
{
    if b.len() == 0 {
        assert(a + b =~= a);
        assert(words(a) + words(b) =~= words(a));
    } else {
        let b1 = b.drop_last();
        let c = b.last();
        let ab = a + b;
        assert(ab.drop_last() =~= a + b1);
        assert(ab.last() == c);
        lemma_words_append(a, b1);
        if is_white(c) {
        } else if ab.len() == 1 || is_white(ab[ab.len() - 2]) {
            if b.len() >= 2 {
                assert(ab[ab.len() - 2] == b[b.len() - 2]);
            }
            assert(words(a) + words(b1).push(seq![c]) =~= (words(a) + words(b1)).push(seq![c]));
        } else {
            if b.len() == 1 {
                assert(ab[ab.len() - 2] == a.last());
                assert(false);
            }
            assert(ab[ab.len() - 2] == b[b.len() - 2]);
            assert(b1.last() == b[b.len() - 2]);
            lemma_words_nonempty(b1);
            let wb = words(b1);
            assert(words(a) + wb.update(wb.len() - 1, wb.last().push(c)) =~= (words(a)
                + wb).update((words(a) + wb).len() - 1, (words(a) + wb).last().push(c)));
        }
    }
}

proof fn lemma_words_single(w: Seq<char>)
    requires
        w.len() > 0,
        forall|i: int| 0 <= i < w.len() ==> !is_white(#[trigger] w[i]),
    ensures
        words(w) == seq![w],
    decreases w.len(),
{
    let w1 = w.drop_last();
    if w.len() == 1 {
        assert(w1.len() == 0);
        assert(words(w1) =~= Seq::<Seq<char>>::empty());
        assert(seq![w.last()] =~= w);
        assert(Seq::<Seq<char>>::empty().push(seq![w.last()]) =~= seq![w]);
    } else {
        lemma_words_single(w1);
        assert(!is_white(w[w.len() - 2]));
        assert(w1.push(w.last()) =~= w);
        assert(seq![w1].update(0, w1.push(w.last())) =~= seq![w]);
    }
}

proof fn lemma_number_end(t: Seq<char>, i: int, p: int)
    requires
        0 <= i <= p <= t.len(),
        forall|k: int| i <= k < p ==> is_number_char(#[trigger] t[k]),
        p == t.len() || !is_number_char(t[p]),
    ensures
        number_end(t, i) == p,
    decreases p - i,
{
    if i < p {
        lemma_number_end(t, i + 1, p);
    }
}

proof fn lemma_unit_words()
    ensures
        unit_of(seq!['d']) == Some(TimeUnit::Days),
        unit_of(seq!['h']) == Some(TimeUnit::Hours),
        unit_of(seq!['m']) == Some(TimeUnit::Minutes),
        unit_of(seq!['s']) == Some(TimeUnit::Seconds),
{
    reveal_strlit("d");
    reveal_strlit("day");
    reveal_strlit("days");
    reveal_strlit("h");
    reveal_strlit("hour");
    reveal_strlit("hours");
    reveal_strlit("m");
    reveal_strlit("min");
    reveal_strlit("minute");
    reveal_strlit("minutes");
    reveal_strlit("s");
    assert("d"@ =~= seq!['d']);
    assert("h"@ =~= seq!['h']);
    assert("m"@ =~= seq!['m']);
    assert("s"@ =~= seq!['s']);
    assert(seq!['h'] != "d"@) by {
        assert(seq!['h'][0] != "d"@[0]);
    }
    assert(seq!['m'] != "d"@) by {
        assert(seq!['m'][0] != "d"@[0]);
    }
    assert(seq!['m'] != "h"@) by {
        assert(seq!['m'][0] != "h"@[0]);
    }
    assert(seq!['s'] != "d"@) by {
        assert(seq!['s'][0] != "d"@[0]);
    }
    assert(seq!['s'] != "h"@) by {
        assert(seq!['s'][0] != "h"@[0]);
    }
    assert(seq!['s'] != "m"@) by {
        assert(seq!['s'][0] != "m"@[0]);
    }
}

/// The letter in which a duration writes a unit.
pub open spec fn unit_letter(u: TimeUnit) -> char {
    match u {
        TimeUnit::Days => 'd',
        TimeUnit::Hours => 'h',
        TimeUnit::Minutes => 'm',
        TimeUnit::Seconds => 's',
    }
}

proof fn lemma_read_count_word(n: u32, u: TimeUnit)
    ensures
        read_word(digits_text(n as nat) + seq![unit_letter(u)]) == Ok::<
            (TimeUnit, int, nat),
            MalformedView,
        >((u, n as int, 0nat)),
{
    let ds = digits_text(n as nat);
    let t = ds + seq![unit_letter(u)];
    lemma_parse_digits(n as nat);
    crate::decimal::lemma_digits_text_all_digits(n as nat);
    assert forall|k: int| 0 <= k < ds.len() implies is_number_char(#[trigger] t[k]) by {
        assert(t[k] == ds[k]);
        assert(crate::decimal::is_digit(ds[k]));
    }
    lemma_number_end(t, 0, ds.len() as int);
    assert(t.take(ds.len() as int) =~= ds);
    assert(t.skip(ds.len() as int) =~= seq![unit_letter(u)]);
    lemma_unit_words();
}

proof fn lemma_read_tenths_word(n: nat)
    requires
        n <= i128::MAX,
    ensures
        read_word(tenths_text(n) + seq!['s']) == Ok::<(TimeUnit, int, nat), MalformedView>(
            (TimeUnit::Seconds, n as int, 1nat),
        ),
{
    let num = tenths_text(n);
    let t = num + seq!['s'];
    let ds = digits_text(n / 10);
    lemma_parse_tenths(n);
    crate::decimal::lemma_digits_text_all_digits(n / 10);
    crate::decimal::lemma_digit_char((n % 10) as int);
    assert forall|k: int| 0 <= k < num.len() implies is_number_char(#[trigger] t[k]) by {
        assert(t[k] == num[k]);
        if k < ds.len() {
            assert(num[k] == ds[k]);
            assert(crate::decimal::is_digit(ds[k]));
        }
    }
    lemma_number_end(t, 0, num.len() as int);
    assert(t.take(num.len() as int) =~= num);
    assert(t.skip(num.len() as int) =~= seq!['s']);
    lemma_unit_words();
}

proof fn lemma_no_white_digits(n: nat)
    ensures
        forall|i: int| 0 <= i < digits_text(n).len() ==> !is_white(#[trigger] digits_text(n)[i]),
{
    crate::decimal::lemma_digits_text_all_digits(n);
    assert forall|i: int| 0 <= i < digits_text(n).len() implies !is_white(
        #[trigger] digits_text(n)[i],
    ) by {
        assert(crate::decimal::is_digit(digits_text(n)[i]));
    }
}

proof fn lemma_part_words(n: u32, u: TimeUnit)
    ensures
        words(part_text(n, unit_letter(u))) == (if n > 0 {
            seq![digits_text(n as nat) + seq![unit_letter(u)]]
        } else {
            Seq::<Seq<char>>::empty()
        }),
        part_text(n, unit_letter(u)).len() == 0 || is_white(part_text(n, unit_letter(u)).last()),
{
    if n > 0 {
        let w = digits_text(n as nat) + seq![unit_letter(u)];
        lemma_no_white_digits(n as nat);
        assert(digits_text(n as nat).len() >= 1);
        assert forall|i: int| 0 <= i < w.len() implies !is_white(#[trigger] w[i]) by {
            if i < digits_text(n as nat).len() {
                assert(w[i] == digits_text(n as nat)[i]);
            }
        }
        lemma_words_single(w);
        assert(part_text(n, unit_letter(u)) =~= w.push(' '));
        assert(w.push(' ').drop_last() =~= w);
    } else {
        assert(words(Seq::<char>::empty()) =~= Seq::<Seq<char>>::empty());
    }
}

/// Whether a number of seconds has at most one decimal place.
pub open spec fn exact_tenths(s: Decimal) -> bool {
    s.exponent >= -1 || (s.mantissa as int) % pow10((-s.exponent - 1) as nat) == 0
}

proof fn lemma_read_words_push(
    ws: Seq<Seq<char>>,
    w: Seq<char>,
    t: Totals,
    k: nat,
    u: TimeUnit,
    m: int,
    f: nat,
)
    requires
        read_words(ws) == Ok::<(Totals, nat), MalformedView>((t, k)),
        read_word(w) == Ok::<(TimeUnit, int, nat), MalformedView>((u, m, f)),
        within_range(add_word(t, k, u, m, f).0, add_word(t, k, u, m, f).1),
    ensures
        read_words(ws.push(w)) == Ok::<(Totals, nat), MalformedView>(add_word(t, k, u, m, f)),
{
    assert(ws.push(w).drop_last() =~= ws);
}

proof fn lemma_add_whole_word(t: Totals, u: TimeUnit, n: int)
    ensures
        add_word(t, 0, u, n, 0) == (add_to(t, u, n), 0nat),
{
    assert(pow10(0) == 1);
    assert(rescale(t, 0) == t);
}

proof fn lemma_read_part(ws: Seq<Seq<char>>, t: Totals, n: u32, u: TimeUnit)
    requires
        read_words(ws) == Ok::<(Totals, nat), MalformedView>((t, 0nat)),
        within_range(add_to(t, u, n as int), 0),
    ensures
        read_words(ws + words(part_text(n, unit_letter(u)))) == Ok::<(Totals, nat), MalformedView>(
            (add_to(t, u, n as int), 0nat),
        ),
{
    lemma_part_words(n, u);
    if n > 0 {
        let w = digits_text(n as nat) + seq![unit_letter(u)];
        lemma_read_count_word(n, u);
        lemma_add_whole_word(t, u, n as int);
        assert(ws + seq![w] =~= ws.push(w));
        lemma_read_words_push(ws, w, t, 0, u, n as int, 0);
    } else {
        assert(ws + Seq::<Seq<char>>::empty() =~= ws);
        assert(add_to(t, u, 0) == t);
    }
}

proof fn lemma_tenths_nonneg(sd: Decimal)
    requires
        sd.mantissa >= 0,
    ensures
        tenths(sd) >= 0,
{
    if sd.exponent >= -1 {
        crate::decimal::lemma_pow10_positive((sd.exponent + 1) as nat);
        assert(sd.mantissa * pow10((sd.exponent + 1) as nat) >= 0) by (nonlinear_arith)
            requires
                sd.mantissa >= 0,
                pow10((sd.exponent + 1) as nat) >= 1,
        ;
    } else {
        crate::decimal::lemma_pow10_positive((-sd.exponent - 1) as nat);
    }
}

proof fn lemma_seconds_same_value(sd: Decimal)
    requires
        sd.mantissa >= 0,
        exact_tenths(sd),
        sd.mantissa > 0 ==> tenths(sd) <= i128::MAX,
    ensures
        sd.mantissa > 0 ==> same_value(
            Decimal { mantissa: tenths(sd) as i128, exponent: -1i32 },
            sd,
        ),
        sd.mantissa == 0 ==> same_value(Decimal { mantissa: 0, exponent: 0 }, sd),
{
    let m = sd.mantissa as int;
    let e = sd.exponent as int;
    assert(pow10(0) == 1);
    lemma_tenths_nonneg(sd);
    if m == 0 {
        let a = Decimal { mantissa: 0, exponent: 0 };
        let emin = if a.exponent < sd.exponent {
            a.exponent as int
        } else {
            sd.exponent as int
        };
        assert(a.mantissa * pow10((a.exponent - emin) as nat) == 0);
        assert(sd.mantissa * pow10((sd.exponent - emin) as nat) == 0);
    } else if e >= -1 {
        assert(tenths(sd) == m * pow10((e + 1) as nat));
        assert(tenths(sd) * pow10(0) == tenths(sd));
    } else {
        let p = pow10((-e - 1) as nat);
        crate::decimal::lemma_pow10_positive((-e - 1) as nat);
        let q = m / p;
        assert(m % p == 0);
        assert(m == q * p) by (nonlinear_arith)
            requires
                m % p == 0,
                q == m / p,
                p >= 1,
        ;
        assert(tenths(sd) == q);
        assert(m * pow10(0) == m);
    }
}

proof fn lemma_seconds_word(sd: Decimal, ws: Seq<Seq<char>>, t: Totals)
    requires
        sd.mantissa >= 0,
        tenths(sd) <= total_limit(1),
        read_words(ws) == Ok::<(Totals, nat), MalformedView>((t, 0nat)),
        t.3 == 0,
        0 <= t.0 <= u32::MAX && 0 <= t.1 <= u32::MAX && 0 <= t.2 <= u32::MAX,
    ensures
        sd.mantissa > 0 ==> read_words(ws + words(tenths_text(tenths(sd) as nat) + seq!['s']))
            == Ok::<(Totals, nat), MalformedView>(
            ((t.0 * 10, t.1 * 10, t.2 * 10, tenths(sd)), 1nat),
        ),
        sd.mantissa == 0 ==> read_words(ws + words(Seq::<char>::empty())) == Ok::<
            (Totals, nat),
            MalformedView,
        >((t, 0nat)),
{
    let tn = tenths(sd);
    lemma_tenths_nonneg(sd);
    reveal_with_fuel(pow10, 3);
    lemma_pow10_36();
    if sd.mantissa > 0 {
        let ds = digits_text((tn / 10) as nat);
        let c = crate::text::digit_char(tn % 10);
        let w = tenths_text(tn as nat) + seq!['s'];
        assert(w =~= ds + seq!['.', c, 's']);
        lemma_no_white_digits((tn / 10) as nat);
        crate::decimal::lemma_digit_char(tn % 10);
        assert forall|i: int| 0 <= i < w.len() implies !is_white(#[trigger] w[i]) by {
            if i < ds.len() {
                assert(w[i] == ds[i]);
            }
        }
        lemma_words_single(w);
        lemma_read_tenths_word(tn as nat);
        assert(ws + seq![w] =~= ws.push(w));
        assert(pow10(1) == 10);
        assert(pow10(0) == 1);
        assert(rescale(t, 1) == (t.0 * 10, t.1 * 10, t.2 * 10, 0int));
        assert(tn * pow10(0) == tn) by (nonlinear_arith)
            requires
                pow10(0) == 1,
        ;
        assert(add_word(t, 0, TimeUnit::Seconds, tn, 1) == ((t.0 * 10, t.1 * 10, t.2 * 10, tn), 1nat));
        lemma_read_words_push(ws, w, t, 0, TimeUnit::Seconds, tn, 1);
    } else {
        let empty = Seq::<char>::empty();
        assert(words(empty) =~= Seq::<Seq<char>>::empty());
        assert(ws + words(empty) =~= ws);
    }
}

proof fn lemma_whole_parts(days: u32, hours: u32, minutes: u32, s: int, k: nat)
    ensures
        duration_of((days * pow10(k), hours * pow10(k), minutes * pow10(k), s), k).days == days,
        duration_of((days * pow10(k), hours * pow10(k), minutes * pow10(k), s), k).hours == hours,
        duration_of((days * pow10(k), hours * pow10(k), minutes * pow10(k), s), k).minutes
            == minutes,
        duration_of((days * pow10(k), hours * pow10(k), minutes * pow10(k), s), k).seconds == (
        Decimal { mantissa: s as i128, exponent: (-k) as i32 }),
{
    let n = pow10(k);
    crate::decimal::lemma_pow10_positive(k);
    vstd::arithmetic::div_mod::lemma_div_multiples_vanish(days as int, n);
    vstd::arithmetic::div_mod::lemma_div_multiples_vanish(hours as int, n);
    vstd::arithmetic::div_mod::lemma_div_multiples_vanish(minutes as int, n);
    vstd::arithmetic::div_mod::lemma_mod_multiples_basic(days as int, n);
    vstd::arithmetic::div_mod::lemma_mod_multiples_basic(hours as int, n);
    vstd::arithmetic::div_mod::lemma_mod_multiples_basic(minutes as int, n);
    assert(days * n == n * days) by (nonlinear_arith);
    assert(hours * n == n * hours) by (nonlinear_arith);
    assert(minutes * n == n * minutes) by (nonlinear_arith);
}

proof fn lemma_zero_text_round_trip(d: Duration)
    requires
        d.days == 0,
        d.hours == 0,
        d.minutes == 0,
        d.seconds.mantissa == 0,
        exact_tenths(d.seconds),
    ensures
        spec_read_duration(seq!['0']) == Ok::<Duration, MalformedView>(
            duration_of((0, 0, 0, 0), 0),
        ),
        same_value(duration_of((0, 0, 0, 0), 0).seconds, d.seconds),
{
    let empty = Seq::<Seq<char>>::empty();
    let zero = seq!['0'];
    lemma_words_single(zero);
    lemma_parse_digits(0);
    assert(digits_text(0) == zero);
    lemma_number_end(zero, 0, 1);
    assert(zero.take(1) =~= zero);
    assert(read_word(zero) == Ok::<(TimeUnit, int, nat), MalformedView>(
        (TimeUnit::Seconds, 0, 0nat),
    ));
    assert(empty.push(zero) =~= seq![zero]);
    lemma_add_whole_word((0, 0, 0, 0), TimeUnit::Seconds, 0);
    lemma_pow10_36();
    reveal_with_fuel(pow10, 2);
    lemma_read_words_push(empty, zero, (0, 0, 0, 0), 0, TimeUnit::Seconds, 0, 0);
    lemma_whole_parts(0, 0, 0, 0, 0);
    lemma_seconds_same_value(d.seconds);
}

/// Writing a duration and reading the text back gives the same days, hours and minutes and
/// the same number of seconds, for every duration whose seconds are not negative, have at
/// most one decimal place, and count at most `i128::MAX - 600` tenths (the range in which
/// seconds to the tenth are kept).
#[verifier::rlimit(50)]
pub proof fn lemma_duration_text_round_trip(d: Duration)
    requires
        d.seconds.mantissa >= 0,
        exact_tenths(d.seconds),
        tenths(d.seconds) <= total_limit(1),
    ensures
        spec_read_duration(duration_text(d)) is Ok,
        spec_read_duration(duration_text(d))->Ok_0.days == d.days,
        spec_read_duration(duration_text(d))->Ok_0.hours == d.hours,
        spec_read_duration(duration_text(d))->Ok_0.minutes == d.minutes,
        same_value(spec_read_duration(duration_text(d))->Ok_0.seconds, d.seconds),
{
    let pd = part_text(d.days, 'd');
    let ph = part_text(d.hours, 'h');
    let pm = part_text(d.minutes, 'm');
    let tn = tenths(d.seconds);
    let ps = if d.seconds.mantissa > 0 {
        tenths_text(tn as nat) + seq!['s']
    } else {
        Seq::<char>::empty()
    };
    let body = pd + ph + pm + ps;
    let empty = Seq::<Seq<char>>::empty();
    lemma_pow10_36();
    reveal_with_fuel(pow10, 3);
    assert(read_words(empty) == Ok::<(Totals, nat), MalformedView>(((0, 0, 0, 0), 0nat)));
    lemma_tenths_nonneg(d.seconds);
    lemma_seconds_same_value(d.seconds);
    if body.len() == 0 {
        assert(pd.len() == 0 && ph.len() == 0 && pm.len() == 0 && ps.len() == 0);
        lemma_zero_text_round_trip(d);
    } else {
        assert(duration_text(d) == body);
        lemma_part_words(d.days, TimeUnit::Days);
        lemma_part_words(d.hours, TimeUnit::Hours);
        lemma_part_words(d.minutes, TimeUnit::Minutes);
        assert(body =~= pd + (ph + (pm + ps)));
        lemma_words_append(pm, ps);
        lemma_words_append(ph, pm + ps);
        lemma_words_append(pd, ph + (pm + ps));
        let w1 = words(pd);
        let w2 = w1 + words(ph);
        let w3 = w2 + words(pm);
        assert(words(body) =~= w3 + words(ps));
        assert(empty + w1 =~= w1);
        lemma_read_part(empty, (0, 0, 0, 0), d.days, TimeUnit::Days);
        lemma_read_part(w1, (d.days as int, 0, 0, 0), d.hours, TimeUnit::Hours);
        lemma_read_part(w2, (d.days as int, d.hours as int, 0, 0), d.minutes, TimeUnit::Minutes);
        let t3: Totals = (d.days as int, d.hours as int, d.minutes as int, 0);
        lemma_seconds_word(d.seconds, w3, t3);
        if d.seconds.mantissa > 0 {
            assert(read_words(words(body)) == Ok::<(Totals, nat), MalformedView>(
                ((d.days * 10, d.hours * 10, d.minutes * 10, tn), 1nat),
            ));
            lemma_whole_parts(d.days, d.hours, d.minutes, tn, 1);
        } else {
            assert(ps == Seq::<char>::empty());
            assert(read_words(words(body)) == Ok::<(Totals, nat), MalformedView>((t3, 0nat)));
            lemma_whole_parts(d.days, d.hours, d.minutes, 0, 0);
            assert(d.days * pow10(0) == d.days && d.hours * pow10(0) == d.hours && d.minutes
                * pow10(0) == d.minutes);
        }
    }
}

} // verus!
