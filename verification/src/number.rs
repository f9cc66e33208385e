//! Temperatures as decimal text.
//!
//! A temperature is written as an optional `-`, one or more digits, and
//! optionally a `.` followed by one or more digits. Its value is the number
//! that the text writes, with all its digits. It is held as a whole number
//! of units, a unit being a billionth of a degree, so that all values stand
//! on one scale and compare and add as integers. Nothing is rounded: a text
//! whose value is no whole number of units, or is beyond `i64`, is not
//! read.

use vstd::prelude::*;
use crate::bytes::{
    find_byte, lemma_prefix_len, lemma_prefix_len_is, prefix_len, DOT, MINUS, NINE, ZERO,
};

verus! {

/// The number of digits behind the point that a value holds.
pub const FRACTION_DIGITS: usize = 9;

/// The number of units in a degree.
pub const UNIT: u64 = 1_000_000_000;

/// The largest whole part whose units may fit.
pub const WHOLE_CAP: u64 = 9_223_372_036;

pub open spec fn is_digit(b: u8) -> bool {
    ZERO <= b <= NINE
}

pub open spec fn all_digits(s: Seq<u8>) -> bool {
    forall|i: int| 0 <= i < s.len() ==> is_digit(#[trigger] s[i])
}

/// Ten to the power of `k`.
pub open spec fn pow10(k: nat) -> nat
    decreases k,
{
    if k == 0 {
        1
    } else {
        10 * pow10((k - 1) as nat)
    }
}

/// The number that a sequence of decimal digits writes.
pub open spec fn digits_value(s: Seq<u8>) -> nat
    decreases s.len(),
{
    if s.len() == 0 {
        0
    } else {
        (digits_value(s.drop_last()) * 10 + (s.last() - ZERO)) as nat
    }
}

/// How many of the digits behind the point count in units.
pub open spec fn held_digits(frac: Seq<u8>) -> nat {
    if frac.len() < FRACTION_DIGITS {
        frac.len()
    } else {
        FRACTION_DIGITS as nat
    }
}

/// Behind the last digit that counts in units stand zeros only.
pub open spec fn whole_units(frac: Seq<u8>) -> bool {
    forall|i: int| FRACTION_DIGITS <= i < frac.len() ==> frac[i] == ZERO
}

/// The units that the digits behind the point write.
pub open spec fn fraction_units(frac: Seq<u8>) -> nat {
    let h = held_digits(frac);
    digits_value(frac.take(h as int)) * pow10((FRACTION_DIGITS - h) as nat)
}

/// The units that an unsigned decimal writes. `None` where the text is no
/// decimal, or writes no whole number of units.
pub open spec fn magnitude_units(s: Seq<u8>) -> Option<nat> {
    let k = prefix_len(s, DOT) as int;
    let whole = s.take(k);
    let frac = s.skip(k + 1);
    if k == 0 || !all_digits(whole) {
        None
    } else if k == s.len() {
        Some(digits_value(whole) * (UNIT as nat))
    } else if frac.len() == 0 || !all_digits(frac) || !whole_units(frac) {
        None
    } else {
        Some(digits_value(whole) * (UNIT as nat) + fraction_units(frac))
    }
}

/// The units that a temperature text writes. `None` where the text is no
/// decimal, writes no whole number of units, or writes more than
/// `i64::MAX` of them.
#[verifier::opaque]
pub open spec fn decimal_units(text: Seq<u8>) -> Option<int> {
    let negative = text.len() > 0 && text[0] == MINUS;
    let body = if negative { text.skip(1) } else { text };
    match magnitude_units(body) {
        Some(m) => if m <= i64::MAX {
            Some(if negative { -(m as int) } else { m as int })
        } else {
            None
        },
        None => None,
    }
}

/// A unit is ten to the power of the number of digits that a value holds.
pub proof fn lemma_unit()
    ensures
        pow10(FRACTION_DIGITS as nat) == UNIT,
{
    reveal_with_fuel(pow10, 10);
}

/// Powers of ten multiply by adding their exponents.
pub proof fn lemma_pow10_add(a: nat, b: nat)
    ensures
        pow10(a + b) == pow10(a) * pow10(b),
        pow10(a) >= 1,
    decreases a,
{
    if a == 0 {
        assert(1 * pow10(b) == pow10(b));
    } else {
        lemma_pow10_add((a - 1) as nat, b);
        let x = pow10((a - 1) as nat);
        let y = pow10(b);
        assert(pow10(a + b) == 10 * pow10((a + b - 1) as nat));
        assert(10 * (x * y) == (10 * x) * y) by (nonlinear_arith);
    }
}

/// A longer run of digits writes no smaller a number than its beginning.
pub proof fn lemma_digits_value_grows(s: Seq<u8>, i: int)
    requires
        0 <= i <= s.len(),
        all_digits(s),
    ensures
        digits_value(s.take(i)) <= digits_value(s),
    decreases s.len(),
{
    if i == s.len() {
        assert(s.take(i) =~= s);
    } else {
        let t = s.drop_last();
        assert(t.take(i) =~= s.take(i));
        assert(is_digit(s.last()));
        assert forall|j: int| 0 <= j < t.len() implies is_digit(#[trigger] t[j]) by {
            assert(t[j] == s[j]);
        }
        lemma_digits_value_grows(t, i);
    }
}

/// Two runs of digits, one behind the other, write the number of the
/// first, times ten to the power of the length of the second, plus the
/// number of the second.
pub proof fn lemma_digits_value_concat(a: Seq<u8>, b: Seq<u8>)
    requires
        all_digits(b),
    ensures
        digits_value(a + b) == digits_value(a) * pow10(b.len()) + digits_value(b),
    decreases b.len(),
{
    if b.len() == 0 {
        assert(a + b =~= a);
        assert(digits_value(a) * 1 == digits_value(a));
    } else {
        let t = b.drop_last();
        let d = b.last() - ZERO;
        assert(is_digit(b.last()));
        assert forall|j: int| 0 <= j < t.len() implies is_digit(#[trigger] t[j]) by {
            assert(t[j] == b[j]);
        }
        lemma_digits_value_concat(a, t);
        assert((a + b).drop_last() =~= a + t);
        assert((a + b).last() == b.last());
        let x = digits_value(a);
        let p = pow10(t.len());
        assert(pow10(b.len()) == 10 * p);
        assert((x * p + digits_value(t)) * 10 + d == x * (10 * p) + (digits_value(t) * 10 + d))
            by (nonlinear_arith);
    }
}

/// A run of zeros writes zero.
pub proof fn lemma_digits_value_zeros(s: Seq<u8>)
    requires
        forall|i: int| 0 <= i < s.len() ==> s[i] == ZERO,
    ensures
        digits_value(s) == 0,
        all_digits(s),
    decreases s.len(),
{
    if s.len() > 0 {
        let t = s.drop_last();
        assert forall|i: int| 0 <= i < t.len() implies t[i] == ZERO by {
            assert(t[i] == s[i]);
        }
        lemma_digits_value_zeros(t);
    }
}

/// The units of an unsigned decimal are the number that the text writes,
/// with all its digits: with `n` digits behind the point, and `written` the
/// number that all the digits write with the point left out, the units
/// stand to a unit as `written` stands to ten to the power of `n`.
pub proof fn lemma_magnitude_exact(s: Seq<u8>)
    requires
        magnitude_units(s).is_some(),
    ensures
        ({
            let k = prefix_len(s, DOT) as int;
            let frac = if k < s.len() { s.skip(k + 1) } else { Seq::<u8>::empty() };
            let written = digits_value(s.take(k) + frac);
            magnitude_units(s).unwrap() * pow10(frac.len()) == written * (UNIT as nat)
        }),
{
    let k = prefix_len(s, DOT) as int;
    let whole = s.take(k);
    let w = digits_value(whole) as int;
    let unit = UNIT as int;
    lemma_prefix_len(s, DOT);
    lemma_unit();
    if k < s.len() {
        let frac = s.skip(k + 1);
        let n = frac.len();
        let h = held_digits(frac);
        let head = frac.take(h as int);
        let tail = frac.skip(h as int);
        let m = magnitude_units(s).unwrap() as int;
        assert(frac =~= head + tail);
        assert forall|i: int| 0 <= i < tail.len() implies tail[i] == ZERO by {
            assert(tail[i] == frac[h + i]);
        }
        lemma_digits_value_zeros(tail);
        lemma_digits_value_concat(head, tail);
        lemma_digits_value_concat(whole, frac);
        lemma_pow10_add((FRACTION_DIGITS - h) as nat, n);
        lemma_pow10_add((n - h) as nat, FRACTION_DIGITS as nat);
        let x = digits_value(head) as int;
        let pn = pow10(n) as int;
        let pa = pow10((FRACTION_DIGITS - h) as nat) as int;
        let pb = pow10((n - h) as nat) as int;
        assert(pa * pn == pb * unit);
        assert(m == w * unit + x * pa);
        assert(digits_value(whole + frac) == w * pn + x * pb);
        assert((w * unit + x * pa) * pn == (w * pn + x * pb) * unit) by (nonlinear_arith)
            requires
                pa * pn == pb * unit,
        ;
    } else {
        assert(whole + Seq::<u8>::empty() =~= whole);
        assert(pow10(0) == 1);
        assert((w * unit) * 1 == w * unit);
    }
}

/// The value of a temperature text is the number that the text writes, with
/// its sign: its magnitude is that of the text without the sign, which
/// `lemma_magnitude_exact` ties to the digits, and it is negative only
/// behind a `-`.
pub proof fn lemma_decimal_exact(text: Seq<u8>)
    requires
        decimal_units(text).is_some(),
    ensures
        ({
            let negative = text.len() > 0 && text[0] == MINUS;
            let body = if negative { text.skip(1) } else { text };
            let value = decimal_units(text).unwrap();
            &&& magnitude_units(body) == Some((if negative { -value } else { value }) as nat)
            &&& negative ==> value <= 0
            &&& !negative ==> value >= 0
        }),
{
    reveal(decimal_units);
}

/// Reads the digits of a whole part. `None` where a byte is no digit or
/// the number is above `WHOLE_CAP`.
fn read_whole(text: &[u8], from: usize, to: usize) -> (r: Option<u64>)
    requires
        from <= to <= text@.len(),
    ensures
        ({
            let run = text@.subrange(from as int, to as int);
            match r {
                Some(v) => all_digits(run) && v == digits_value(run) && v <= WHOLE_CAP,
                None => !all_digits(run) || digits_value(run) > WHOLE_CAP,
            }
        }),
{
    let ghost run = text@.subrange(from as int, to as int);
    let mut acc: u64 = 0;
    let mut i: usize = from;
    proof {
        assert(run.take(0) =~= Seq::<u8>::empty());
    }
    while i < to
        invariant
            from <= i <= to <= text@.len(),
            run == text@.subrange(from as int, to as int),
            all_digits(run.take(i - from)),
            acc == digits_value(run.take(i - from)),
            acc <= WHOLE_CAP,
        decreases to - i,
    {
        let c = text[i];
        let ghost seen = run.take(i - from);
        let ghost more = run.take(i + 1 - from);
        proof {
            assert(run[i - from] == c);
            assert(more.drop_last() =~= seen);
            assert(more.last() == c);
        }
        if c < ZERO || c > NINE {
            proof {
                assert(!is_digit(run[i - from]));
            }
            return None;
        }
        acc = acc * 10 + (c - ZERO) as u64;
        proof {
            assert forall|j: int| 0 <= j < more.len() implies is_digit(#[trigger] more[j]) by {
                if j < seen.len() {
                    assert(more[j] == seen[j]);
                }
            }
        }
        if acc > WHOLE_CAP {
            proof {
                if all_digits(run) {
                    lemma_digits_value_grows(run, i + 1 - from);
                }
            }
            return None;
        }
        i += 1;
    }
    proof {
        assert(run.take(to - from) =~= run);
    }
    Some(acc)
}

/// Reads the digits behind the point as units. `None` where a byte is no
/// digit or the digits write no whole number of units.
fn read_fraction(text: &[u8], from: usize) -> (r: Option<u64>)
    requires
        from <= text@.len(),
    ensures
        ({
            let frac = text@.skip(from as int);
            match r {
                Some(v) => all_digits(frac) && whole_units(frac) && v == fraction_units(frac) && v
                    < UNIT,
                None => !all_digits(frac) || !whole_units(frac),
            }
        }),
{
    let n = text.len();
    let ghost frac = text@.skip(from as int);
    let mut j: usize = from;
    let mut held: u64 = 0;
    let mut taken: usize = 0;
    let mut room: u64 = UNIT;
    proof {
        lemma_unit();
        assert(frac.take(0) =~= Seq::<u8>::empty());
        assert(pow10(0) == 1);
    }
    while j < n
        invariant
            from <= j <= n == text@.len(),
            frac == text@.skip(from as int),
            forall|x: int| 0 <= x < j - from ==> is_digit(#[trigger] frac[x]),
            forall|x: int| FRACTION_DIGITS <= x < j - from ==> frac[x] == ZERO,
            taken <= FRACTION_DIGITS,
            taken <= j - from,
            taken < FRACTION_DIGITS ==> taken == j - from,
            held == digits_value(frac.take(taken as int)),
            held < pow10(taken as nat),
            room == pow10((FRACTION_DIGITS - taken) as nat),
            pow10(taken as nat) * room == UNIT,
            1 <= room <= UNIT,
        decreases n - j,
    {
        let c = text[j];
        let ghost x = j - from;
        assert(frac[x] == c);
        if c < ZERO || c > NINE {
            proof {
                assert(!is_digit(frac[x]));
            }
            return None;
        }
        if taken < FRACTION_DIGITS {
            let ghost seen = frac.take(taken as int);
            let ghost more = frac.take(taken + 1);
            proof {
                assert(more.drop_last() =~= seen);
                assert(more.last() == c);
                let p = pow10(taken as nat) as int;
                let q = pow10((FRACTION_DIGITS - taken - 1) as nat) as int;
                assert(room == 10 * q);
                assert(pow10((taken + 1) as nat) == 10 * p);
                assert((10 * p) * q == p * (10 * q)) by (nonlinear_arith);
                assert(q >= 1) by {
                    lemma_pow10_add((FRACTION_DIGITS - taken - 1) as nat, 0);
                }
                assert(held < UNIT) by (nonlinear_arith)
                    requires
                        held < p,
                        p * room == UNIT,
                        room >= 1,
                ;
            }
            held = held * 10 + (c - ZERO) as u64;
            taken = taken + 1;
            room = room / 10;
        } else if c != ZERO {
            return None;
        }
        j += 1;
    }
    proof {
        assert(taken == held_digits(frac));
        assert(held * room < UNIT) by (nonlinear_arith)
            requires
                held < pow10(taken as nat),
                pow10(taken as nat) * room == UNIT,
                room >= 1,
        ;
    }
    Some(held * room)
}

/// Reads a temperature text.
pub fn parse_decimal(text: &[u8]) -> (r: Option<i64>)
    ensures
        r.is_some() == decimal_units(text@).is_some(),
        r.is_some() ==> r.unwrap() == decimal_units(text@).unwrap(),
{
    let n = text.len();
    let negative = n > 0 && text[0] == MINUS;
    let start: usize = if negative { 1 } else { 0 };
    let dot = find_byte(text, start, DOT);
    let ghost body = text@.skip(start as int);
    let ghost k = prefix_len(body, DOT) as int;
    proof {
        reveal(decimal_units);
        if !negative {
            assert(body =~= text@);
        }
        lemma_prefix_len(body, DOT);
        assert(text@.subrange(start as int, dot as int) =~= body.take(k));
        if dot < n {
            assert(text@.skip(dot + 1) =~= body.skip(k + 1));
        }
    }
    if dot == start {
        return None;
    }
    let whole = match read_whole(text, start, dot) {
        Some(v) => v,
        None => {
            return None;
        },
    };
    assert(whole * UNIT <= WHOLE_CAP * UNIT) by (nonlinear_arith)
        requires
            whole <= WHOLE_CAP,
    ;
    let part: u64 = if dot == n {
        0
    } else if dot + 1 == n {
        return None;
    } else {
        match read_fraction(text, dot + 1) {
            Some(v) => v,
            None => {
                return None;
            },
        }
    };
    let m = whole * UNIT + part;
    if m > i64::MAX as u64 {
        return None;
    }
    Some(if negative { -(m as i64) } else { m as i64 })
}

/// The decimal digits of a number, without leading zeros.
pub open spec fn digits_text(n: nat) -> Seq<u8>
    decreases n,
{
    if n < 10 {
        seq![(ZERO + n) as u8]
    } else {
        digits_text(n / 10).push((ZERO + n % 10) as u8)
    }
}

/// The digits behind the point of `rest` units written in `width` places,
/// without the zeros at the end.
pub open spec fn fraction_text(rest: nat, width: nat) -> Seq<u8>
    decreases width,
{
    if rest == 0 || width == 0 {
        Seq::empty()
    } else {
        let p = pow10((width - 1) as nat);
        seq![(ZERO + rest / p) as u8] + fraction_text(rest % p, (width - 1) as nat)
    }
}

/// A value as text: a `-` where it is negative, the whole degrees, and,
/// where the value is no whole number of degrees, a `.` and the digits
/// behind it, without zeros at the end.
pub open spec fn decimal_text(value: int) -> Seq<u8> {
    let m = if value < 0 { -value } else { value };
    let sign = if value < 0 { seq![MINUS] } else { Seq::<u8>::empty() };
    let rest = (m % (UNIT as int)) as nat;
    let frac = if rest == 0 {
        Seq::<u8>::empty()
    } else {
        seq![DOT] + fraction_text(rest, FRACTION_DIGITS as nat)
    };
    sign + digits_text((m / (UNIT as int)) as nat) + frac
}

/// The digits of a number are digits, at least one, and write that number.
pub proof fn lemma_digits_text(n: nat)
    ensures
        digits_text(n).len() >= 1,
        all_digits(digits_text(n)),
        digits_value(digits_text(n)) == n,
    decreases n,
{
    let t = digits_text(n);
    if n < 10 {
        assert(t.drop_last() =~= Seq::<u8>::empty());
        assert(digits_value(t.drop_last()) == 0);
    } else {
        lemma_digits_text(n / 10);
        assert(t.drop_last() =~= digits_text(n / 10));
    }
}

/// The digits behind the point of less than ten to the power of `width`
/// units are digits, no more than `width`, at least one where there is a
/// unit to write, and write those units in their places.
pub proof fn lemma_fraction_text(rest: nat, width: nat)
    requires
        rest < pow10(width),
    ensures
        all_digits(fraction_text(rest, width)),
        fraction_text(rest, width).len() <= width,
        rest > 0 ==> fraction_text(rest, width).len() >= 1,
        digits_value(fraction_text(rest, width)) * pow10(
            (width - fraction_text(rest, width).len()) as nat,
        ) == rest,
    decreases width,
{
    let f = fraction_text(rest, width);
    if rest == 0 || width == 0 {
        assert(digits_value(f) == 0);
        assert(0 * pow10(width) == 0);
    } else {
        let p = pow10((width - 1) as nat);
        let d = rest / p;
        let r = rest % p;
        let tail = fraction_text(r, (width - 1) as nat);
        lemma_pow10_add((width - 1) as nat, 0);
        assert(pow10(width) == 10 * p);
        assert(d < 10 && rest == d * p + r && r < p) by (nonlinear_arith)
            requires
                d == rest / p,
                r == rest % p,
                rest < 10 * p,
                p >= 1,
        ;
        lemma_fraction_text(r, (width - 1) as nat);
        let first = seq![(ZERO + d) as u8];
        assert(f == first + tail);
        assert(is_digit(first[0]));
        assert forall|i: int| 0 <= i < f.len() implies is_digit(#[trigger] f[i]) by {
            if i > 0 {
                assert(f[i] == tail[i - 1]);
                assert(is_digit(tail[i - 1]));
            }
        }
        assert(first.drop_last() =~= Seq::<u8>::empty());
        assert(digits_value(first.drop_last()) == 0);
        assert(digits_value(first) == d);
        lemma_digits_value_concat(first, tail);
        let a = pow10(tail.len());
        let b = pow10((width - 1 - tail.len()) as nat);
        lemma_pow10_add(tail.len(), (width - 1 - tail.len()) as nat);
        assert(a * b == p);
        let x = digits_value(tail);
        assert((d * a + x) * b == d * (a * b) + x * b) by (nonlinear_arith);
    }
}

/// The text of a value reads back as that value.
pub proof fn lemma_decimal_round_trip(value: int)
    requires
        -i64::MAX <= value <= i64::MAX,
    ensures
        decimal_units(decimal_text(value)) == Some(value),
{
    reveal(decimal_units);
    lemma_unit();
    let unit = UNIT as int;
    let m = if value < 0 { -value } else { value };
    let rest = (m % unit) as nat;
    let digits = digits_text((m / unit) as nat);
    let places = fraction_text(rest, FRACTION_DIGITS as nat);
    let frac = if rest == 0 { Seq::<u8>::empty() } else { seq![DOT] + places };
    let text = decimal_text(value);
    let body = digits + frac;
    lemma_digits_text((m / unit) as nat);
    lemma_fraction_text(rest, FRACTION_DIGITS as nat);
    assert(is_digit(digits[0]));
    if value < 0 {
        assert(text =~= seq![MINUS] + body);
        assert(text[0] == MINUS);
        assert(text.skip(1) =~= body);
    } else {
        assert(text =~= body);
        assert(text[0] == digits[0]);
    }
    let k = digits.len() as int;
    assert forall|j: int| 0 <= j < k implies body[j] != DOT by {
        assert(is_digit(digits[j]));
    }
    if rest != 0 {
        assert(body[k] == DOT);
    }
    lemma_prefix_len_is(body, DOT, k);
    assert(body.take(k) =~= digits);
    assert(m == (m / unit) * unit + rest);
    if rest != 0 {
        assert(body.skip(k + 1) =~= places);
        assert(held_digits(places) == places.len());
        assert(places.take(places.len() as int) =~= places);
        assert(fraction_units(places) == rest);
    }
}

/// Appends the digits of a number.
pub fn push_digits(out: &mut Vec<u8>, n: u64)
    ensures
        final(out)@ == old(out)@ + digits_text(n as nat),
    decreases n,
{
    if n >= 10 {
        push_digits(out, n / 10);
    }
    out.push(ZERO + (n % 10) as u8);
    proof {
        assert(out@ =~= old(out)@ + digits_text(n as nat));
    }
}

/// Appends the text of a value.
pub fn push_decimal(out: &mut Vec<u8>, value: i64)
    ensures
        final(out)@ == old(out)@ + decimal_text(value as int),
{
    let m: u64 = if value < 0 { (-(value as i128)) as u64 } else { value as u64 };
    if value < 0 {
        out.push(MINUS);
    }
    push_digits(out, m / UNIT);
    let mut rest: u64 = m % UNIT;
    if rest != 0 {
        out.push(DOT);
        let ghost before = out@;
        let ghost all = fraction_text(rest as nat, FRACTION_DIGITS as nat);
        let mut p: u64 = UNIT / 10;
        let mut width: usize = FRACTION_DIGITS;
        proof {
            lemma_unit();
            reveal_with_fuel(pow10, 10);
        }
        while rest != 0
            invariant
                width <= FRACTION_DIGITS,
                rest < pow10(width as nat),
                width >= 1 ==> p == pow10((width - 1) as nat),
                out@ + fraction_text(rest as nat, width as nat) == before + all,
            decreases width,
        {
            assert(width >= 1) by {
                assert(pow10(0) == 1);
            }
            assert(pow10(width as nat) == 10 * p);
            assert(p >= 1) by {
                lemma_pow10_add((width - 1) as nat, 0);
            }
            let d = rest / p;
            assert(d < 10) by (nonlinear_arith)
                requires
                    d == rest / p,
                    rest < 10 * p,
                    p >= 1,
            ;
            let ghost tail = fraction_text((rest % p) as nat, (width - 1) as nat);
            out.push(ZERO + d as u8);
            proof {
                assert(fraction_text(rest as nat, width as nat) == seq![(ZERO + d) as u8] + tail);
                assert(out@ + tail =~= before + all);
                if width >= 2 {
                    assert(p == 10 * pow10((width - 2) as nat));
                }
            }
            rest = rest % p;
            p = p / 10;
            width = width - 1;
        }
        proof {
            assert(out@ + Seq::<u8>::empty() =~= out@);
        }
    }
    proof {
        assert(out@ =~= old(out)@ + decimal_text(value as int));
    }
}

} // verus!
