//! Conversion between elapsed time, counted in whole milliseconds, and its
//! textual forms: the strict subtitle timestamp `HH:MM:SS,mmm` and the
//! flexible forms `SS`, `MM:SS` and `HH:MM:SS` with optional fractions.

use crate::text::{
    all_digits, bounded_number, chars_of, decimal_value, digit_of, digit_value, find_char,
    index_of, is_digit, is_digit_char, is_number, lemma_index_of, lemma_index_of_is,
    lemma_leading_zeros, lemma_split_first, lemma_split_single, lemma_zero_padded, parse_number,
    push_padded, rows, split, split_chars, string_of, zero_padded, zeros,
};
use vstd::prelude::*;

verus! {

/// Why a time or a time window was refused.
#[derive(Debug, Clone, Copy, PartialEq, Eq, Structural)]
pub enum TimeError {
    /// The text is no time in the expected notation, or the time does not
    /// fit in 64 bits of milliseconds.
    MalformedTime,
    /// A window whose start is not before its end.
    InvalidInterval,
}

/// What a time error says in words.
pub open spec fn time_error_text(e: TimeError) -> Seq<char> {
    match e {
        TimeError::MalformedTime => "Invalid time format"@,
        TimeError::InvalidInterval => "Start time must be less than end time"@,
    }
}

impl TimeError {
    /// What the error says in words.
    pub fn message(&self) -> (r: &'static str)
        ensures
            r@ == time_error_text(*self),
    {
        match self {
            TimeError::MalformedTime => "Invalid time format",
            TimeError::InvalidInterval => "Start time must be less than end time",
        }
    }
}

/// Milliseconds in `h` hours, `m` minutes, `s` seconds and `ms` milliseconds.
pub open spec fn clock_millis(h: nat, m: nat, s: nat, ms: nat) -> nat {
    h * 3_600_000 + m * 60_000 + s * 1000 + ms
}

/// The time that a subtitle timestamp denotes: two parts around one comma,
/// the first of which is three numbers around two colons. Every number is a
/// non-empty run of digits; widths are not prescribed.
pub open spec fn srt_time_value(t: Seq<char>) -> Option<nat> {
    let halves = split(t, ',');
    if halves.len() != 2 {
        None
    } else {
        let clock = split(halves[0], ':');
        if clock.len() == 3 && is_number(clock[0]) && is_number(clock[1]) && is_number(clock[2])
            && is_number(halves[1]) {
            Some(
                clock_millis(
                    decimal_value(clock[0]),
                    decimal_value(clock[1]),
                    decimal_value(clock[2]),
                    decimal_value(halves[1]),
                ),
            )
        } else {
            None
        }
    }
}

/// The clock notation of `ms` milliseconds with `mark` before the
/// milliseconds: hours, minutes and seconds in at least two digits, then
/// three digits of milliseconds.
pub open spec fn clock_text(ms: nat, mark: char) -> Seq<char> {
    zero_padded(ms / 3_600_000, 2) + seq![':'] + zero_padded((ms / 60_000) % 60, 2) + seq![':']
        + zero_padded((ms / 1000) % 60, 2) + seq![mark] + zero_padded(ms % 1000, 3)
}

/// The subtitle timestamp of `ms` milliseconds: `HH:MM:SS,mmm`.
pub open spec fn srt_time_text(ms: nat) -> Seq<char> {
    clock_text(ms, ',')
}

/// The timestamp of `ms` milliseconds as shown to the user: `HH:MM:SS.mmm`.
pub open spec fn display_time_text(ms: nat) -> Seq<char> {
    clock_text(ms, '.')
}

/// What a parser hands back for a denoted time: the time where there is one
/// and it fits in 64 bits, `MalformedTime` otherwise.
pub open spec fn time_result(v: Option<nat>) -> Result<u64, TimeError> {
    match v {
        Some(n) => if n <= u64::MAX {
            Ok(n as u64)
        } else {
            Err(TimeError::MalformedTime)
        },
        None => Err(TimeError::MalformedTime),
    }
}

/// Ten to the power `k`.
pub open spec fn pow10(k: nat) -> nat
    decreases k,
{
    if k == 0 {
        1
    } else {
        10 * pow10((k - 1) as nat)
    }
}

/// A number as a fraction of two whole numbers.
pub struct Ratio {
    pub num: nat,
    pub den: nat,
}

/// The digits before the point of a decimal number.
pub open spec fn whole_digits(s: Seq<char>) -> Seq<char> {
    s.take(index_of(s, '.'))
}

/// The digits after the point of a decimal number; none where it has no
/// point.
pub open spec fn frac_digits(s: Seq<char>) -> Seq<char> {
    if index_of(s, '.') < s.len() {
        s.skip(index_of(s, '.') + 1)
    } else {
        Seq::<char>::empty()
    }
}

/// The value of a decimal number: digits, optionally a point and more
/// digits, with at least one digit in all. No sign and no exponent. The
/// value is exact: the digits without the point, over ten to the number of
/// digits after the point.
pub open spec fn decimal_ratio(s: Seq<char>) -> Option<Ratio> {
    let whole = whole_digits(s);
    let frac = frac_digits(s);
    if all_digits(whole) && all_digits(frac) && whole.len() + frac.len() > 0 {
        Some(Ratio { num: decimal_value(whole + frac), den: pow10(frac.len()) })
    } else {
        None
    }
}

/// The whole milliseconds in `h` hours, `m` minutes and `s` seconds: the
/// exact sum `h * 3600 + m * 60 + s`, in thousandths, cut off below the
/// millisecond.
pub open spec fn whole_millis(h: Ratio, m: Ratio, s: Ratio) -> nat {
    ((1000 * (3600 * h.num * m.den * s.den + 60 * m.num * h.den * s.den + s.num * h.den * m.den))
        / (h.den * m.den * s.den)) as nat
}

/// No hours, or no minutes.
pub open spec fn none_of_it() -> Ratio {
    Ratio { num: 0, den: 1 }
}

/// The time that three decimal numbers denote as hours, minutes and
/// seconds.
pub open spec fn parts_millis(h: Option<Ratio>, m: Option<Ratio>, s: Option<Ratio>) -> Option<nat> {
    match (h, m, s) {
        (Some(h), Some(m), Some(s)) => Some(whole_millis(h, m, s)),
        _ => None,
    }
}

/// The time that a flexible time text denotes: seconds, or minutes and
/// seconds, or hours, minutes and seconds, separated by colons, each a
/// decimal number. The parts are summed exactly and the sum is cut off
/// below the millisecond.
pub open spec fn flexible_time_value(t: Seq<char>) -> Option<nat> {
    let parts = split(t, ':');
    if parts.len() == 1 {
        parts_millis(Some(none_of_it()), Some(none_of_it()), decimal_ratio(parts[0]))
    } else if parts.len() == 2 {
        parts_millis(Some(none_of_it()), decimal_ratio(parts[0]), decimal_ratio(parts[1]))
    } else if parts.len() == 3 {
        parts_millis(decimal_ratio(parts[0]), decimal_ratio(parts[1]), decimal_ratio(parts[2]))
    } else {
        None
    }
}

/// Appends the clock notation of `ms` to `out`.
pub(crate) fn push_clock(out: &mut Vec<char>, ms: u64, mark: char)
    ensures
        final(out)@ == old(out)@ + clock_text(ms as nat, mark),
{
    let ghost h = zero_padded((ms / 3_600_000) as nat, 2);
    let ghost m = zero_padded(((ms / 60_000) % 60) as nat, 2);
    let ghost s = zero_padded(((ms / 1000) % 60) as nat, 2);
    let ghost f = zero_padded((ms % 1000) as nat, 3);
    push_padded(out, ms / 3_600_000, 2);
    out.push(':');
    push_padded(out, (ms / 60_000) % 60, 2);
    out.push(':');
    push_padded(out, (ms / 1000) % 60, 2);
    out.push(mark);
    push_padded(out, ms % 1000, 3);
    assert(out@ =~= old(out)@ + (h + seq![':'] + m + seq![':'] + s + seq![mark] + f));
}

/// Writes `ms` milliseconds as a subtitle timestamp, `HH:MM:SS,mmm`.
pub fn format_srt_time(ms: u64) -> (r: String)
    ensures
        r@ == srt_time_text(ms as nat),
{
    let mut out: Vec<char> = Vec::new();
    push_clock(&mut out, ms, ',');
    assert(out@ =~= srt_time_text(ms as nat));
    string_of(&out)
}

/// Writes `ms` milliseconds as shown to the user, `HH:MM:SS.mmm`.
pub fn format_time(ms: u64) -> (r: String)
    ensures
        r@ == display_time_text(ms as nat),
{
    let mut out: Vec<char> = Vec::new();
    push_clock(&mut out, ms, '.');
    assert(out@ =~= display_time_text(ms as nat));
    string_of(&out)
}

/// Reads the whole of `v` as a number.
fn whole_number(v: &Vec<char>) -> (r: Option<u64>)
    ensures
        r == bounded_number(v@),
{
    assert(v@.subrange(0, v.len() as int) =~= v@);
    parse_number(v, 0, v.len())
}

/// Reads a subtitle timestamp from its characters.
pub(crate) fn parse_srt_time_chars(v: &Vec<char>) -> (r: Result<u64, TimeError>)
    ensures
        r == time_result(srt_time_value(v@)),
{
    let halves = split_chars(v, ',');
    if halves.len() != 2 {
        return Err(TimeError::MalformedTime);
    }
    let clock = split_chars(&halves[0], ':');
    if clock.len() != 3 {
        return Err(TimeError::MalformedTime);
    }
    assert(rows(halves@)[0] == halves@[0]@);
    assert(rows(halves@)[1] == halves@[1]@);
    assert(rows(clock@)[0] == clock@[0]@);
    assert(rows(clock@)[1] == clock@[1]@);
    assert(rows(clock@)[2] == clock@[2]@);
    let h = whole_number(&clock[0]);
    let m = whole_number(&clock[1]);
    let s = whole_number(&clock[2]);
    let f = whole_number(&halves[1]);
    match (h, m, s, f) {
        (Some(h), Some(m), Some(s), Some(f)) => {
            let total: u128 = (h as u128) * 3_600_000 + (m as u128) * 60_000 + (s as u128) * 1000
                + (f as u128);
            if total <= u64::MAX as u128 {
                Ok(total as u64)
            } else {
                Err(TimeError::MalformedTime)
            }
        },
        _ => Err(TimeError::MalformedTime),
    }
}

/// Reads a subtitle timestamp, `HH:MM:SS,mmm`.
///
/// The text must be three numbers separated by colons, a comma, and a
/// fourth number; anything else, white space included, is refused.
pub fn parse_srt_time(text: &str) -> (r: Result<u64, TimeError>)
    ensures
        r == time_result(srt_time_value(text@)),
{
    let v = chars_of(text);
    parse_srt_time_chars(&v)
}

/// The digit at place `i` of a run of digits, counted from zero; zero
/// behind its end.
pub open spec fn digit_at(digits: Seq<char>, i: int) -> nat {
    if 0 <= i < digits.len() {
        digit_value(digits[i])
    } else {
        0
    }
}

/// A run of digits filled with zeros at its end up to `width` digits.
pub open spec fn padded(digits: Seq<char>, width: nat) -> Seq<char> {
    digits + zeros((width - digits.len()) as nat)
}

/// Three numbers weighed as hours, minutes and seconds, in thousandths of
/// a second.
pub open spec fn weighed(h: nat, m: nat, s: nat) -> nat {
    3_600_000 * h + 60_000 * m + 1000 * s
}

/// A power of ten is positive, and each is ten times the one before it.
pub proof fn lemma_pow10(k: nat)
    ensures
        pow10(k) > 0,
        pow10(k + 1) == 10 * pow10(k),
    decreases k,
{
    if k > 0 {
        lemma_pow10((k - 1) as nat);
    }
}

/// The power of a sum is the product of the powers.
pub proof fn lemma_pow10_sum(a: nat, b: nat)
    ensures
        pow10(a + b) == pow10(a) * pow10(b),
    decreases b,
{
    lemma_pow10(a);
    if b == 0 {
        assert(pow10(a) * 1 == pow10(a));
    } else {
        lemma_pow10_sum(a, (b - 1) as nat);
        lemma_pow10((b - 1) as nat);
        lemma_pow10((a + b - 1) as nat);
        let x = pow10(a);
        let y = pow10((b - 1) as nat);
        assert(10 * (x * y) == x * (10 * y)) by (nonlinear_arith);
    }
}

/// The value of digits behind other digits: the first run moves up by as
/// many places as the second has.
pub proof fn lemma_decimal_concat(a: Seq<char>, b: Seq<char>)
    ensures
        decimal_value(a + b) == decimal_value(a) * pow10(b.len()) + decimal_value(b),
    decreases b.len(),
{
    if b.len() == 0 {
        assert(a + b =~= a);
        assert(decimal_value(a) * 1 == decimal_value(a));
    } else {
        let front = b.drop_last();
        assert((a + b).drop_last() =~= a + front);
        assert((a + b).last() == b.last());
        lemma_decimal_concat(a, front);
        lemma_pow10(front.len());
        let x = decimal_value(a);
        let y = pow10(front.len());
        let z = decimal_value(front);
        assert((x * y + z) * 10 == x * (10 * y) + z * 10) by (nonlinear_arith);
    }
}

/// A run of zeros has the value zero.
pub proof fn lemma_zeros_value(count: nat)
    ensures
        decimal_value(zeros(count)) == 0,
{
    lemma_leading_zeros(count, Seq::<char>::empty());
    assert(zeros(count) + Seq::<char>::empty() =~= zeros(count));
}

/// Two fractions with equal cross products have the same whole part.
proof fn lemma_cross(a: int, b: int, c: int, e: int)
    requires
        0 <= a,
        0 <= c,
        0 < b,
        0 < e,
        a * e == c * b,
    ensures
        a / b == c / e,
{
    let q = a / b;
    let r = a % b;
    vstd::arithmetic::div_mod::lemma_fundamental_div_mod(a, b);
    vstd::arithmetic::div_mod::lemma_mod_pos_bound(a, b);
    let rest = c - q * e;
    assert(rest * b == r * e) by (nonlinear_arith)
        requires
            a * e == c * b,
            a == b * q + r,
            rest == c - q * e,
    ;
    assert(0 <= rest < e) by (nonlinear_arith)
        requires
            rest * b == r * e,
            0 <= r < b,
            0 < e,
    ;
    vstd::arithmetic::div_mod::lemma_fundamental_div_mod_converse(c, e, q, rest);
}

/// One step of adding up from the last digit: the carry out of a place is
/// the carry of all places from it on.
proof fn lemma_carry_step(a: int, t: int, p: int, carry: int)
    requires
        0 <= a,
        0 <= t,
        0 < p,
        carry == t / p,
    ensures
        (a + carry) / 10 == (a * p + t) / (10 * p),
{
    vstd::arithmetic::div_mod::lemma_hoist_over_denominator(t, a, p as nat);
    assert(a * p + t >= 0) by (nonlinear_arith)
        requires
            0 <= a,
            0 <= t,
            0 < p,
    ;
    vstd::arithmetic::div_mod::lemma_div_denominator(a * p + t, p, 10);
    assert(p * 10 == 10 * p);
}

/// The whole milliseconds of hours, minutes and seconds, each given by its
/// whole part `w`, the digits after its point as a number `f`, and its
/// denominator `d`: the whole parts weighed, and the whole part of what the
/// fractions add up to.
proof fn lemma_time_split(
    wh: nat,
    fh: nat,
    dh: nat,
    wm: nat,
    fm: nat,
    dm: nat,
    ws: nat,
    fs: nat,
    ds: nat,
)
    requires
        dh > 0,
        dm > 0,
        ds > 0,
    ensures
        dh * dm * ds > 0,
        whole_millis(
            Ratio { num: wh * dh + fh, den: dh },
            Ratio { num: wm * dm + fm, den: dm },
            Ratio { num: ws * ds + fs, den: ds },
        ) == weighed(wh, wm, ws) + (1000 * (3600 * fh * dm * ds + 60 * fm * dh * ds + fs * dh * dm))
            / (dh * dm * ds),
        (1000 * (3600 * fh * dm * ds + 60 * fm * dh * ds + fs * dh * dm)) / (dh * dm * ds) >= 0,
{
    let b = (dh * dm * ds) as int;
    assert(b > 0) by (nonlinear_arith)
        requires
            b == dh * dm * ds,
            dh > 0,
            dm > 0,
            ds > 0,
    ;
    let a = (1000 * (3600 * fh * dm * ds + 60 * fm * dh * ds + fs * dh * dm)) as int;
    let w = weighed(wh, wm, ws) as int;
    let num = (1000 * (3600 * (wh * dh + fh) * dm * ds + 60 * (wm * dm + fm) * dh * ds + (ws * ds
        + fs) * dh * dm)) as int;
    let (nh, nm, ns) = ((wh * dh + fh) as int, (wm * dm + fm) as int, (ws * ds + fs) as int);
    assert(3600 * nh * dm * ds == 3600 * wh * b + 3600 * fh * dm * ds) by (nonlinear_arith)
        requires
            nh == wh * dh + fh,
            b == dh * dm * ds,
    ;
    assert(60 * nm * dh * ds == 60 * wm * b + 60 * fm * dh * ds) by (nonlinear_arith)
        requires
            nm == wm * dm + fm,
            b == dh * dm * ds,
    ;
    assert(ns * dh * dm == ws * b + fs * dh * dm) by (nonlinear_arith)
        requires
            ns == ws * ds + fs,
            b == dh * dm * ds,
    ;
    assert(w * b == 1000 * (3600 * wh * b + 60 * wm * b + ws * b)) by (nonlinear_arith)
        requires
            w == 3_600_000 * wh + 60_000 * wm + 1000 * ws,
    ;
    assert(num == a + w * b);
    vstd::arithmetic::div_mod::lemma_hoist_over_denominator(a, w, b as nat);
    vstd::arithmetic::div_mod::lemma_div_pos_is_pos(a, b);
}

/// What the fractions add up to, over the product of their denominators,
/// has the same whole part as over one common denominator `t`.
proof fn lemma_common_denominator(
    fh: nat,
    dh: nat,
    eh: nat,
    fm: nat,
    dm: nat,
    em: nat,
    fs: nat,
    ds: nat,
    es: nat,
    t: nat,
)
    requires
        dh > 0,
        dm > 0,
        ds > 0,
        t > 0,
        dh * eh == t,
        dm * em == t,
        ds * es == t,
    ensures
        (1000 * (3600 * fh * dm * ds + 60 * fm * dh * ds + fs * dh * dm)) / (dh * dm * ds)
            == weighed(fh * eh, fm * em, fs * es) / t,
{
    let b = (dh * dm * ds) as int;
    assert(b > 0) by (nonlinear_arith)
        requires
            b == dh * dm * ds,
            dh > 0,
            dm > 0,
            ds > 0,
    ;
    let a = (1000 * (3600 * fh * dm * ds + 60 * fm * dh * ds + fs * dh * dm)) as int;
    let c = weighed(fh * eh, fm * em, fs * es) as int;
    let th = 3_600_000 * fh * dm * ds;
    let tm = 60_000 * fm * dh * ds;
    let ts = 1000 * fs * dh * dm;
    assert(a == th + tm + ts) by (nonlinear_arith)
        requires
            a == 1000 * (3600 * fh * dm * ds + 60 * fm * dh * ds + fs * dh * dm),
            th == 3_600_000 * fh * dm * ds,
            tm == 60_000 * fm * dh * ds,
            ts == 1000 * fs * dh * dm,
    ;
    assert(th * t == (3_600_000 * (fh * eh)) * b) by (nonlinear_arith)
        requires
            th == 3_600_000 * fh * dm * ds,
            b == dh * dm * ds,
            dh * eh == t,
    ;
    assert(tm * t == (60_000 * (fm * em)) * b) by (nonlinear_arith)
        requires
            tm == 60_000 * fm * dh * ds,
            b == dh * dm * ds,
            dm * em == t,
    ;
    assert(ts * t == (1000 * (fs * es)) * b) by (nonlinear_arith)
        requires
            ts == 1000 * fs * dh * dm,
            b == dh * dm * ds,
            ds * es == t,
    ;
    assert(a * t == c * b) by (nonlinear_arith)
        requires
            a == th + tm + ts,
            c == 3_600_000 * (fh * eh) + 60_000 * (fm * em) + 1000 * (fs * es),
            th * t == (3_600_000 * (fh * eh)) * b,
            tm * t == (60_000 * (fm * em)) * b,
            ts * t == (1000 * (fs * es)) * b,
    ;
    lemma_cross(a, b, c, t as int);
}

/// The value of a well-formed decimal number by its whole part and the
/// digits after its point.
proof fn lemma_ratio_parts(s: Seq<char>)
    requires
        decimal_ratio(s) is Some,
    ensures
        decimal_ratio(s)->Some_0.den == pow10(frac_digits(s).len()),
        decimal_ratio(s)->Some_0.den > 0,
        decimal_ratio(s)->Some_0.num == decimal_value(whole_digits(s)) * pow10(
            frac_digits(s).len(),
        ) + decimal_value(frac_digits(s)),
{
    lemma_decimal_concat(whole_digits(s), frac_digits(s));
    lemma_pow10(frac_digits(s).len());
}

/// The time of three well-formed decimal numbers is their whole parts
/// weighed and the whole part of what the digits after their points, each
/// filled up to `width` digits, add up to.
proof fn lemma_exact_time(h: Seq<char>, m: Seq<char>, s: Seq<char>, width: nat)
    requires
        decimal_ratio(h) is Some,
        decimal_ratio(m) is Some,
        decimal_ratio(s) is Some,
        frac_digits(h).len() <= width,
        frac_digits(m).len() <= width,
        frac_digits(s).len() <= width,
    ensures
        pow10(width) > 0,
        parts_millis(decimal_ratio(h), decimal_ratio(m), decimal_ratio(s)) == Some(
            (weighed(
                decimal_value(whole_digits(h)),
                decimal_value(whole_digits(m)),
                decimal_value(whole_digits(s)),
            ) + weighed(
                decimal_value(padded(frac_digits(h), width)),
                decimal_value(padded(frac_digits(m), width)),
                decimal_value(padded(frac_digits(s), width)),
            ) / pow10(width)) as nat,
        ),
        weighed(
            decimal_value(padded(frac_digits(h), width)),
            decimal_value(padded(frac_digits(m), width)),
            decimal_value(padded(frac_digits(s), width)),
        ) / pow10(width) >= 0,
{
    let (fh, fm, fs) = (frac_digits(h), frac_digits(m), frac_digits(s));
    let (kh, km, ks) = (fh.len(), fm.len(), fs.len());
    let (eh, em, es) = (
        pow10((width - kh) as nat),
        pow10((width - km) as nat),
        pow10((width - ks) as nat),
    );
    lemma_ratio_parts(h);
    lemma_ratio_parts(m);
    lemma_ratio_parts(s);
    lemma_pow10(width);
    lemma_pow10_sum(kh, (width - kh) as nat);
    lemma_pow10_sum(km, (width - km) as nat);
    lemma_pow10_sum(ks, (width - ks) as nat);
    lemma_decimal_concat(fh, zeros((width - kh) as nat));
    lemma_decimal_concat(fm, zeros((width - km) as nat));
    lemma_decimal_concat(fs, zeros((width - ks) as nat));
    lemma_zeros_value((width - kh) as nat);
    lemma_zeros_value((width - km) as nat);
    lemma_zeros_value((width - ks) as nat);
    assert(decimal_value(padded(fh, width)) == decimal_value(fh) * eh);
    assert(decimal_value(padded(fm, width)) == decimal_value(fm) * em);
    assert(decimal_value(padded(fs, width)) == decimal_value(fs) * es);
    lemma_time_split(
        decimal_value(whole_digits(h)),
        decimal_value(fh),
        pow10(kh),
        decimal_value(whole_digits(m)),
        decimal_value(fm),
        pow10(km),
        decimal_value(whole_digits(s)),
        decimal_value(fs),
        pow10(ks),
    );
    lemma_common_denominator(
        decimal_value(fh),
        pow10(kh),
        eh,
        decimal_value(fm),
        pow10(km),
        em,
        decimal_value(fs),
        pow10(ks),
        es,
        pow10(width),
    );
}

/// Finds the point of a decimal number, or tells that the text is none.
fn point_of(v: &Vec<char>) -> (r: Option<usize>)
    ensures
        r is Some <==> decimal_ratio(v@) is Some,
        r is Some ==> r->Some_0 == index_of(v@, '.') && r->Some_0 <= v.len(),
{
    let n = v.len();
    let dot = find_char(v, '.');
    proof {
        lemma_index_of(v@, '.');
    }
    if n == 0 || (dot == 0 && n == 1) {
        return None;
    }
    let mut i: usize = 0;
    while i < n
        invariant
            i <= n == v.len(),
            dot == index_of(v@, '.'),
            dot <= n,
            forall|j: int| 0 <= j < i && j != dot ==> is_digit(#[trigger] v@[j]),
        decreases n - i,
    {
        if i != dot && !is_digit_char(v[i]) {
            proof {
                if i < dot {
                    assert(whole_digits(v@)[i as int] == v@[i as int]);
                } else {
                    assert(frac_digits(v@)[i - dot - 1] == v@[i as int]);
                }
            }
            return None;
        }
        i += 1;
    }
    proof {
        assert forall|j: int| 0 <= j < whole_digits(v@).len() implies is_digit(
            #[trigger] whole_digits(v@)[j],
        ) by {
            assert(whole_digits(v@)[j] == v@[j]);
        }
        assert forall|j: int| 0 <= j < frac_digits(v@).len() implies is_digit(
            #[trigger] frac_digits(v@)[j],
        ) by {
            assert(frac_digits(v@)[j] == v@[dot + 1 + j]);
        }
    }
    Some(dot)
}

/// The value of the digits before the point, or none where it does not fit
/// in 64 bits.
fn whole_of(v: &Vec<char>, dot: usize) -> (r: Option<u64>)
    requires
        decimal_ratio(v@) is Some,
        dot == index_of(v@, '.'),
        dot <= v.len(),
    ensures
        match r {
            Some(w) => w == decimal_value(whole_digits(v@)),
            None => decimal_value(whole_digits(v@)) > u64::MAX,
        },
{
    if dot == 0 {
        assert(whole_digits(v@) =~= Seq::<char>::empty());
        return Some(0);
    }
    assert(v@.subrange(0, dot as int) =~= whole_digits(v@));
    parse_number(v, 0, dot)
}

/// The digit at place `i` behind the point, counted from zero; zero behind
/// the last digit.
fn frac_digit(v: &Vec<char>, dot: usize, i: usize) -> (d: u64)
    requires
        decimal_ratio(v@) is Some,
        dot == index_of(v@, '.'),
        dot <= v.len(),
    ensures
        d == digit_at(frac_digits(v@), i as int),
        d <= 9,
{
    if dot < v.len() && i < v.len() - dot - 1 {
        assert(frac_digits(v@)[i as int] == v@[dot + 1 + i]);
        assert(is_digit(frac_digits(v@)[i as int]));
        digit_of(v[dot + 1 + i])
    } else {
        0
    }
}

/// How many digits stand behind the point.
fn frac_len(v: &Vec<char>, dot: usize) -> (k: usize)
    requires
        dot == index_of(v@, '.'),
        dot <= v.len(),
    ensures
        k == frac_digits(v@).len(),
{
    if dot < v.len() {
        v.len() - dot - 1
    } else {
        0
    }
}

/// The digit of a padded run is the digit of the run, or zero behind it.
proof fn lemma_padded_digit(digits: Seq<char>, width: nat, i: int)
    requires
        digits.len() <= width,
        0 <= i < width,
    ensures
        padded(digits, width).len() == width,
        digit_value(padded(digits, width)[i]) == digit_at(digits, i),
{
}

/// The value of the digits from place `j` on, by the digit at `j - 1` and
/// the value of the digits behind it.
proof fn lemma_tail_value(digits: Seq<char>, j: int)
    requires
        0 < j <= digits.len(),
    ensures
        decimal_value(digits.skip(j - 1)) == digit_value(digits[j - 1]) * pow10(
            (digits.len() - j) as nat,
        ) + decimal_value(digits.skip(j)),
{
    let one = seq![digits[j - 1]];
    assert(digits.skip(j - 1) =~= one + digits.skip(j));
    lemma_decimal_concat(one, digits.skip(j));
    assert(one.drop_last() =~= Seq::<char>::empty());
    assert(decimal_value(one) == digit_value(digits[j - 1])) by {
        assert(decimal_value(one.drop_last()) == 0);
    }
}

/// Reads hours, minutes and seconds, each a decimal number, as whole
/// milliseconds. The digits behind the points are added up from the last
/// place on, so that nothing of them is lost, however many there are.
fn parts_to_millis(h: &Vec<char>, m: &Vec<char>, s: &Vec<char>) -> (r: Result<u64, TimeError>)
    ensures
        r == time_result(parts_millis(decimal_ratio(h@), decimal_ratio(m@), decimal_ratio(s@))),
{
    let dh = match point_of(h) {
        Some(d) => d,
        None => {
            return Err(TimeError::MalformedTime);
        },
    };
    let dm = match point_of(m) {
        Some(d) => d,
        None => {
            return Err(TimeError::MalformedTime);
        },
    };
    let ds = match point_of(s) {
        Some(d) => d,
        None => {
            return Err(TimeError::MalformedTime);
        },
    };
    let kh = frac_len(h, dh);
    let km = frac_len(m, dm);
    let ks = frac_len(s, ds);
    let mut width = kh;
    if km > width {
        width = km;
    }
    if ks > width {
        width = ks;
    }
    let ghost ph = padded(frac_digits(h@), width as nat);
    let ghost pm = padded(frac_digits(m@), width as nat);
    let ghost ps = padded(frac_digits(s@), width as nat);
    proof {
        lemma_exact_time(h@, m@, s@, width as nat);
    }
    let wh = match whole_of(h, dh) {
        Some(w) => w,
        None => {
            return Err(TimeError::MalformedTime);
        },
    };
    let wm = match whole_of(m, dm) {
        Some(w) => w,
        None => {
            return Err(TimeError::MalformedTime);
        },
    };
    let ws = match whole_of(s, ds) {
        Some(w) => w,
        None => {
            return Err(TimeError::MalformedTime);
        },
    };
    let mut carry: u64 = 0;
    let mut j: usize = width;
    proof {
        assert(ph.skip(width as int) =~= Seq::<char>::empty());
        assert(pm.skip(width as int) =~= Seq::<char>::empty());
        assert(ps.skip(width as int) =~= Seq::<char>::empty());
    }
    while j > 0
        invariant
            j <= width,
            decimal_ratio(h@) is Some,
            decimal_ratio(m@) is Some,
            decimal_ratio(s@) is Some,
            dh == index_of(h@, '.'),
            dm == index_of(m@, '.'),
            ds == index_of(s@, '.'),
            dh <= h.len(),
            dm <= m.len(),
            ds <= s.len(),
            frac_digits(h@).len() <= width,
            frac_digits(m@).len() <= width,
            frac_digits(s@).len() <= width,
            ph == padded(frac_digits(h@), width as nat),
            pm == padded(frac_digits(m@), width as nat),
            ps == padded(frac_digits(s@), width as nat),
            carry <= 3_661_000,
            carry == weighed(
                decimal_value(ph.skip(j as int)),
                decimal_value(pm.skip(j as int)),
                decimal_value(ps.skip(j as int)),
            ) / pow10((width - j) as nat),
        decreases j,
    {
        let xh = frac_digit(h, dh, j - 1);
        let xm = frac_digit(m, dm, j - 1);
        let xs = frac_digit(s, ds, j - 1);
        let here: u64 = 3_600_000 * xh + 60_000 * xm + 1000 * xs;
        proof {
            let p = pow10((width - j) as nat);
            let t = weighed(
                decimal_value(ph.skip(j as int)),
                decimal_value(pm.skip(j as int)),
                decimal_value(ps.skip(j as int)),
            );
            lemma_pow10((width - j) as nat);
            lemma_padded_digit(frac_digits(h@), width as nat, j - 1);
            lemma_padded_digit(frac_digits(m@), width as nat, j - 1);
            lemma_padded_digit(frac_digits(s@), width as nat, j - 1);
            lemma_tail_value(ph, j as int);
            lemma_tail_value(pm, j as int);
            lemma_tail_value(ps, j as int);
            let next = weighed(
                decimal_value(ph.skip(j - 1)),
                decimal_value(pm.skip(j - 1)),
                decimal_value(ps.skip(j - 1)),
            );
            assert(next == here * p + t) by (nonlinear_arith)
                requires
                    next == 3_600_000 * (xh * p + decimal_value(ph.skip(j as int))) + 60_000 * (xm
                        * p + decimal_value(pm.skip(j as int))) + 1000 * (xs * p + decimal_value(
                        ps.skip(j as int),
                    )),
                    t == 3_600_000 * decimal_value(ph.skip(j as int)) + 60_000 * decimal_value(
                        pm.skip(j as int),
                    ) + 1000 * decimal_value(ps.skip(j as int)),
                    here == 3_600_000 * xh + 60_000 * xm + 1000 * xs,
            ;
            lemma_carry_step(here as int, t as int, p as int, carry as int);
            assert(pow10((width - (j - 1)) as nat) == 10 * p);
        }
        carry = (here + carry) / 10;
        j -= 1;
    }
    proof {
        assert(ph.skip(0) =~= ph);
        assert(pm.skip(0) =~= pm);
        assert(ps.skip(0) =~= ps);
    }
    let total: u128 = 3_600_000 * (wh as u128) + 60_000 * (wm as u128) + 1000 * (ws as u128)
        + (carry as u128);
    if total <= u64::MAX as u128 {
        Ok(total as u64)
    } else {
        Err(TimeError::MalformedTime)
    }
}

/// Reads a flexible time from its characters.
pub(crate) fn parse_time_chars(v: &Vec<char>) -> (r: Result<u64, TimeError>)
    ensures
        r == time_result(flexible_time_value(v@)),
{
    let parts = split_chars(v, ':');
    let count = parts.len();
    if count == 0 || count > 3 {
        return Err(TimeError::MalformedTime);
    }
    let mut none: Vec<char> = Vec::new();
    none.push('0');
    proof {
        let zero = none@;
        assert(index_of(zero, '.') == 1) by {
            lemma_index_of_is(zero, '.', 1);
        }
        assert(whole_digits(zero) =~= zero);
        assert(frac_digits(zero) =~= Seq::<char>::empty());
        assert(whole_digits(zero) + frac_digits(zero) =~= zero);
        assert(zero.drop_last() =~= Seq::<char>::empty());
        assert(decimal_value(zero.drop_last()) == 0);
        assert(decimal_value(zero) == 0);
        assert(decimal_ratio(zero) == Some(none_of_it()));
        assert(rows(parts@)[0] == parts@[0]@);
        if count > 1 {
            assert(rows(parts@)[1] == parts@[1]@);
        }
        if count > 2 {
            assert(rows(parts@)[2] == parts@[2]@);
        }
    }
    if count == 1 {
        parts_to_millis(&none, &none, &parts[0])
    } else if count == 2 {
        parts_to_millis(&none, &parts[0], &parts[1])
    } else {
        parts_to_millis(&parts[0], &parts[1], &parts[2])
    }
}

/// Reads a time as a user types it: `SS`, `MM:SS` or `HH:MM:SS`, each part
/// a decimal number such as `90`, `1.5` or `.25`.
///
/// The result counts the whole milliseconds of the exact sum of the parts,
/// so that `0.0009:0:0` is 3240 milliseconds. No upper bound is put on any
/// part; a time that does not fit in 64 bits of milliseconds is refused.
pub fn parse_time_string(time_str: &str) -> (r: Result<u64, TimeError>)
    ensures
        r == time_result(flexible_time_value(time_str@)),
{
    let v = chars_of(time_str);
    parse_time_chars(&v)
}

/// Checks a time window and gives its length.
pub fn check_interval(start: u64, end: u64) -> (r: Result<u64, TimeError>)
    ensures
        start < end ==> r == Ok::<u64, TimeError>((end - start) as u64),
        start >= end ==> r == Err::<u64, TimeError>(TimeError::InvalidInterval),
{
    if start < end {
        Ok(end - start)
    } else {
        Err(TimeError::InvalidInterval)
    }
}

/// The split of a clock notation into hours, minutes and seconds is exact.
proof fn lemma_clock_sum(ms: nat)
    ensures
        clock_millis(ms / 3_600_000, (ms / 60_000) % 60, (ms / 1000) % 60, ms % 1000) == ms,
{
    let seconds = ms as int / 1000;
    let minutes = seconds / 60;
    let hours = minutes / 60;
    vstd::arithmetic::div_mod::lemma_div_denominator(ms as int, 1000, 60);
    vstd::arithmetic::div_mod::lemma_div_denominator(ms as int, 60_000, 60);
    assert(minutes == ms as int / 60_000);
    assert(hours == ms as int / 3_600_000);
    assert(ms as int == 1000 * seconds + ms as int % 1000);
    assert(seconds == 60 * minutes + seconds % 60);
    assert(minutes == 60 * hours + minutes % 60);
}

/// Reading back a written subtitle timestamp gives the time that was
/// written, for every count of milliseconds.
pub proof fn lemma_srt_time_round_trip(ms: nat)
    ensures
        srt_time_value(srt_time_text(ms)) == Some(ms),
{
    let h = zero_padded(ms / 3_600_000, 2);
    let m = zero_padded((ms / 60_000) % 60, 2);
    let s = zero_padded((ms / 1000) % 60, 2);
    let f = zero_padded(ms % 1000, 3);
    lemma_zero_padded(ms / 3_600_000, 2);
    lemma_zero_padded((ms / 60_000) % 60, 2);
    lemma_zero_padded((ms / 1000) % 60, 2);
    lemma_zero_padded(ms % 1000, 3);
    let tail = m + seq![':'] + s;
    let clock = h + seq![':'] + tail;
    let text = clock + seq![','] + f;
    assert(text =~= srt_time_text(ms));
    assert forall|i: int| 0 <= i < clock.len() implies clock[i] != ',' by {
        if i < h.len() {
            assert(is_digit(h[i]));
        } else if i == h.len() {
        } else if i < h.len() + 1 + m.len() {
            assert(clock[i] == m[i - h.len() - 1]);
            assert(is_digit(m[i - h.len() - 1]));
        } else if i == h.len() + 1 + m.len() {
        } else {
            assert(clock[i] == s[i - h.len() - m.len() - 2]);
            assert(is_digit(s[i - h.len() - m.len() - 2]));
        }
    }
    assert forall|i: int| 0 <= i < f.len() implies f[i] != ',' by {
        assert(is_digit(f[i]));
    }
    lemma_split_first(clock, f, ',');
    lemma_split_single(f, ',');
    assert(split(text, ',') =~= seq![clock, f]);
    assert forall|i: int| 0 <= i < h.len() implies h[i] != ':' by {
        assert(is_digit(h[i]));
    }
    assert forall|i: int| 0 <= i < m.len() implies m[i] != ':' by {
        assert(is_digit(m[i]));
    }
    assert forall|i: int| 0 <= i < s.len() implies s[i] != ':' by {
        assert(is_digit(s[i]));
    }
    lemma_split_first(h, tail, ':');
    lemma_split_first(m, s, ':');
    lemma_split_single(s, ':');
    assert(split(clock, ':') =~= seq![h, m, s]);
    lemma_clock_sum(ms);
}

} // verus!
