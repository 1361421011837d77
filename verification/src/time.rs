//! Simulation time: integer nanoseconds inside, exact decimal seconds on the
//! wire.
//!
//! Text is written and read through integer arithmetic alone, so the
//! representation is exact and the bytes are canonical: trailing zeros
//! trimmed, at least one fractional digit (`1.5`, `2.0`, `0.033333333`).
use vstd::prelude::*;

use std::ops::{Add, AddAssign, Mul, Neg, Sub, SubAssign};
use std::str::FromStr;

use crate::error::CoreError;
use crate::text::{chars_of, digit_char, push_decimal};

verus! {

pub const NANOS_PER_SEC: i64 = 1_000_000_000;

/// Absolute simulation time: integer nanoseconds since the start of the run.
#[derive(Debug, Clone, Copy, PartialEq, Eq, PartialOrd, Ord, Hash, Default, Structural)]
pub struct SimTime(pub i64);

/// A span of simulation time: integer nanoseconds, with the text form of
/// [`SimTime`].
#[derive(Debug, Clone, Copy, PartialEq, Eq, PartialOrd, Ord, Hash, Default, Structural)]
pub struct SimDuration(pub i64);

// ---------------------------------------------------------------------------
// The text form
// ---------------------------------------------------------------------------

/// `digits` without its trailing zeros, but for the first digit, which stays.
pub open spec fn trim_zeros(digits: Seq<char>) -> Seq<char>
    decreases digits.len(),
{
    if digits.len() > 1 && digits.last() == '0' {
        trim_zeros(digits.drop_last())
    } else {
        digits
    }
}

/// The distance of `n` from zero.
pub open spec fn magnitude(n: int) -> nat {
    if n < 0 {
        (-n) as nat
    } else {
        n as nat
    }
}

/// The canonical decimal-seconds text of `ns` nanoseconds.
pub open spec fn canonical_seconds(ns: int) -> Seq<char> {
    let abs = magnitude(ns);
    let sign = if ns < 0 {
        seq!['-']
    } else {
        Seq::<char>::empty()
    };
    sign + crate::text::decimal(abs / 1_000_000_000) + seq!['.'] + trim_zeros(
        crate::text::fixed_decimal(abs % 1_000_000_000, 9),
    )
}

/// The first position of `c` in `text`, or the length where it does not
/// occur.
pub open spec fn position(text: Seq<char>, c: char) -> int
    decreases text.len(),
{
    if text.len() == 0 {
        0
    } else if text[0] == c {
        0
    } else {
        1 + position(text.drop_first(), c)
    }
}

/// The nanoseconds that a run of digits before the point and one after it
/// stand for, or why they stand for none.
pub open spec fn parse_digits(negative: bool, whole: Seq<char>, fraction: Seq<char>) -> Result<
    int,
    Seq<char>,
> {
    let total = crate::text::decimal_value(whole) * 1_000_000_000 + crate::text::decimal_value(
        fraction,
    ) * crate::text::ten_to((9 - fraction.len()) as nat);
    let signed = if negative {
        -total
    } else {
        total
    };
    if crate::text::decimal_value(whole) > i128::MAX {
        Err("integer part overflow"@)
    } else if i64::MIN <= signed <= i64::MAX {
        Ok(signed)
    } else {
        Err("out of range for 64-bit nanoseconds"@)
    }
}

/// What an unsigned `digits[.digits]` reads as, or why it is refused.
pub open spec fn parse_body(negative: bool, body: Seq<char>) -> Result<int, Seq<char>> {
    let point = position(body, '.');
    let whole = body.take(point);
    let fraction = if point < body.len() {
        body.skip(point + 1)
    } else {
        Seq::<char>::empty()
    };
    if whole.len() == 0 || !crate::text::all_digits(whole) {
        Err("expected decimal digits before the point"@)
    } else if point < body.len() && (fraction.len() == 0 || !crate::text::all_digits(fraction)) {
        Err("expected decimal digits after the point"@)
    } else if fraction.len() > 9 {
        Err("more than 9 fractional digits (sub-nanosecond precision is not representable)"@)
    } else {
        parse_digits(negative, whole, fraction)
    }
}

/// What `[-]digits[.digits]` reads as in nanoseconds, or why the text is
/// refused.
pub open spec fn parse_seconds(text: Seq<char>) -> Result<int, Seq<char>> {
    if text.len() > 0 && text[0] == '-' {
        parse_body(true, text.drop_first())
    } else {
        parse_body(false, text)
    }
}

/// Whether an error says why a text is no time.
pub open spec fn is_refusal(error: CoreError, text: Seq<char>) -> bool {
    parse_seconds(text) matches Err(reason) && error matches CoreError::TimeParse {
        value,
        reason: said,
    } && value@ == text && said@ == reason
}

/// Trimming zeros drops nothing of the value: what is left, scaled back up,
/// is the number there was, and it is still digits.
proof fn lemma_trim_zeros(digits: Seq<char>)
    requires
        crate::text::all_digits(digits),
        digits.len() >= 1,
    ensures
        1 <= trim_zeros(digits).len() <= digits.len(),
        crate::text::all_digits(trim_zeros(digits)),
        crate::text::decimal_value(trim_zeros(digits)) * crate::text::ten_to(
            (digits.len() - trim_zeros(digits).len()) as nat,
        ) == crate::text::decimal_value(digits),
    decreases digits.len(),
{
    if digits.len() > 1 && digits.last() == '0' {
        let front = digits.drop_last();
        assert forall|i: int| 0 <= i < front.len() implies crate::text::is_digit(
            #[trigger] front[i],
        ) by {
            assert(crate::text::is_digit(digits[i]));
        }
        lemma_trim_zeros(front);
        let trimmed = trim_zeros(digits);
        let scale = crate::text::ten_to((front.len() - trimmed.len()) as nat);
        assert(crate::text::ten_to((digits.len() - trimmed.len()) as nat) == scale * 10);
        let value = crate::text::decimal_value(trimmed);
        assert(value * (scale * 10) == (value * scale) * 10) by (nonlinear_arith);
    } else {
        assert(crate::text::ten_to(0) == 1);
    }
}

/// The position of a character behind text that does not hold it.
proof fn lemma_position_behind(before: Seq<char>, c: char, after: Seq<char>)
    requires
        forall|i: int| 0 <= i < before.len() ==> #[trigger] before[i] != c,
    ensures
        position(before + seq![c] + after, c) == before.len(),
    decreases before.len(),
{
    let text = before + seq![c] + after;
    if before.len() > 0 {
        let rest = before.drop_first();
        assert forall|i: int| 0 <= i < rest.len() implies #[trigger] rest[i] != c by {
            assert(before[i + 1] != c);
        }
        lemma_position_behind(rest, c, after);
        assert(text.drop_first() =~= rest + seq![c] + after);
        assert(text[0] == before[0]);
        assert(before[0] != c);
    } else {
        assert(text[0] == c);
    }
}

/// Reading the canonical text of a time gives that time back, for every
/// 64-bit count of nanoseconds.
pub proof fn law_parse_undoes_format(ns: i64)
    ensures
        parse_seconds(canonical_seconds(ns as int)) == Ok::<int, Seq<char>>(ns as int),
{
    let abs = magnitude(ns as int);
    let whole = crate::text::decimal(abs / 1_000_000_000);
    let part = abs % 1_000_000_000;
    let padded = crate::text::fixed_decimal(part, 9);
    let fraction = trim_zeros(padded);
    crate::text::lemma_decimal_value(abs / 1_000_000_000);
    assert(crate::text::ten_to(9) == 1_000_000_000) by {
        reveal_with_fuel(crate::text::ten_to, 10);
    }
    crate::text::lemma_fixed_decimal_value(part, 9);
    lemma_trim_zeros(padded);
    let body = whole + seq!['.'] + fraction;
    assert forall|i: int| 0 <= i < whole.len() implies #[trigger] whole[i] != '.' by {
        assert(crate::text::is_digit(whole[i]));
    }
    lemma_position_behind(whole, '.', fraction);
    assert(body.take(whole.len() as int) =~= whole);
    assert(body.skip(whole.len() as int + 1) =~= fraction);
    let text = canonical_seconds(ns as int);
    if ns < 0 {
        assert(text.drop_first() =~= body);
    } else {
        assert(text =~= body);
        assert(text[0] == whole[0]);
        assert(crate::text::is_digit(whole[0]));
    }
    assert(parse_body(ns < 0, body) == Ok::<int, Seq<char>>(ns as int));
}

/// A number of zeros, written out.
pub open spec fn zeros(n: nat) -> Seq<char> {
    Seq::new(n, |i: int| '0')
}

proof fn lemma_zeros_behind(digits: Seq<char>, n: nat)
    ensures
        crate::text::decimal_value(digits + zeros(n)) == crate::text::decimal_value(digits)
            * crate::text::ten_to(n),
    decreases n,
{
    let whole = digits + zeros(n);
    let value = crate::text::decimal_value(digits);
    if n == 0 {
        assert(whole =~= digits);
        assert(value * 1 == value);
    } else {
        let m = (n - 1) as nat;
        lemma_zeros_behind(digits, m);
        assert(whole.drop_last() =~= digits + zeros(m));
        assert(whole.last() == '0');
        let scale = crate::text::ten_to(m);
        assert(value * (scale * 10) == (value * scale) * 10) by (nonlinear_arith);
    }
}

/// A decimal text of seconds reads as that many: what stands before the
/// point counts a thousand million nanoseconds each, and what stands behind
/// it, filled up with zeros to nine digits, counts one each. A sign in front
/// makes it negative. What does not fit 64 bits is refused.
pub proof fn law_what_a_text_of_seconds_reads_as(
    negative: bool,
    whole: Seq<char>,
    fraction: Seq<char>,
)
    requires
        whole.len() > 0,
        crate::text::all_digits(whole),
        1 <= fraction.len() <= 9,
        crate::text::all_digits(fraction),
    ensures
        ({
            let sign = if negative {
                seq!['-']
            } else {
                Seq::<char>::empty()
            };
            let nanos = crate::text::decimal_value(whole) * 1_000_000_000
                + crate::text::decimal_value(fraction + zeros((9 - fraction.len()) as nat));
            let signed = if negative {
                -nanos
            } else {
                nanos
            };
            let read = parse_seconds(sign + whole + seq!['.'] + fraction);
            if i64::MIN <= signed <= i64::MAX {
                read == Ok::<int, Seq<char>>(signed)
            } else {
                read is Err
            }
        }),
{
    let body = whole + seq!['.'] + fraction;
    let sign = if negative {
        seq!['-']
    } else {
        Seq::<char>::empty()
    };
    let text = sign + whole + seq!['.'] + fraction;
    assert forall|i: int| 0 <= i < whole.len() implies #[trigger] whole[i] != '.' by {
        assert(crate::text::is_digit(whole[i]));
    }
    lemma_position_behind(whole, '.', fraction);
    assert(body.take(whole.len() as int) =~= whole);
    assert(body.skip(whole.len() as int + 1) =~= fraction);
    lemma_zeros_behind(fraction, (9 - fraction.len()) as nat);
    if negative {
        assert(text.drop_first() =~= body);
    } else {
        assert(text =~= body);
        assert(text[0] == whole[0]);
        assert(crate::text::is_digit(whole[0]));
    }
    crate::text::lemma_decimal_value_nonnegative(whole);
    crate::text::lemma_decimal_value_nonnegative(fraction);
    crate::text::lemma_decimal_value_nonnegative(fraction + zeros((9 - fraction.len()) as nat));
}

proof fn lemma_no_position(text: Seq<char>, c: char)
    requires
        forall|i: int| 0 <= i < text.len() ==> #[trigger] text[i] != c,
    ensures
        position(text, c) == text.len(),
    decreases text.len(),
{
    if text.len() > 0 {
        let rest = text.drop_first();
        assert(text[0] != c);
        assert forall|i: int| 0 <= i < rest.len() implies #[trigger] rest[i] != c by {
            assert(text[i + 1] != c);
        }
        lemma_no_position(rest, c);
    }
}

/// Seconds need no point: digits alone are whole seconds.
pub proof fn law_whole_seconds_need_no_point(whole: Seq<char>)
    requires
        whole.len() > 0,
        crate::text::all_digits(whole),
        crate::text::decimal_value(whole) * 1_000_000_000 <= i64::MAX,
    ensures
        parse_seconds(whole) == Ok::<int, Seq<char>>(
            crate::text::decimal_value(whole) * 1_000_000_000,
        ),
{
    assert(crate::text::is_digit(whole[0]));
    assert forall|i: int| 0 <= i < whole.len() implies #[trigger] whole[i] != '.' by {
        assert(crate::text::is_digit(whole[i]));
    }
    lemma_no_position(whole, '.');
    assert(whole.take(whole.len() as int) =~= whole);
    crate::text::lemma_decimal_value_nonnegative(whole);
    assert(crate::text::decimal_value(Seq::<char>::empty()) == 0);
    assert(0 * crate::text::ten_to(9) == 0);
}

/// A text without the sign in front of it.
pub open spec fn unsigned(text: Seq<char>) -> Seq<char> {
    if text.len() > 0 && text[0] == '-' {
        text.drop_first()
    } else {
        text
    }
}

/// Whether a text is digits with one point among them: some in front of it,
/// and one to nine behind it.
pub open spec fn is_pointed_at(body: Seq<char>, point: int) -> bool {
    &&& 0 < point < body.len()
    &&& body[point] == '.'
    &&& point + 1 < body.len() <= point + 10
    &&& forall|i: int|
        0 <= i < body.len() && i != point ==> crate::text::is_digit(#[trigger] body[i])
}

/// A text that is not digits, or digits, a point and digits, with or without
/// a sign in front, is refused, and so is one with more than nine digits
/// behind the point.
pub proof fn law_what_is_no_text_of_seconds(text: Seq<char>)
    requires
        parse_seconds(text) is Ok,
    ensures
        (unsigned(text).len() > 0 && crate::text::all_digits(unsigned(text))) || exists|point: int|
            #[trigger] is_pointed_at(unsigned(text), point),
{
    let body = unsigned(text);
    let point = position(body, '.');
    lemma_position(body, '.');
    if point < body.len() {
        let whole = body.take(point);
        let fraction = body.skip(point + 1);
        assert forall|i: int| 0 <= i < body.len() && i != point implies crate::text::is_digit(
            #[trigger] body[i],
        ) by {
            if i < point {
                assert(crate::text::is_digit(whole[i]));
            } else {
                assert(crate::text::is_digit(fraction[i - point - 1]));
            }
        }
        assert(is_pointed_at(body, point));
    } else {
        assert(body.take(point) =~= body);
    }
}

proof fn lemma_position(text: Seq<char>, c: char)
    ensures
        0 <= position(text, c) <= text.len(),
        position(text, c) < text.len() ==> text[position(text, c)] == c,
    decreases text.len(),
{
    if text.len() > 0 && text[0] != c {
        lemma_position(text.drop_first(), c);
    }
}

/// Time is counted: going on from an instant by a span and back is the
/// instant, the span between two instants leads from one to the other, spans
/// add up, and a span taken a number of times is that many of it.
pub proof fn law_how_time_is_counted(t: SimTime, u: SimTime, d: SimDuration, e: SimDuration, n: i64)
    ensures
        fits(t.0 + d.0) ==> vstd::std_specs::ops::AddSpec::add_spec(t, d).0 == t.0 + d.0,
        fits(t.0 - d.0) ==> vstd::std_specs::ops::SubSpec::<SimDuration>::sub_spec(t, d).0 == t.0 - d.0,
        fits(u.0 - t.0) ==> vstd::std_specs::ops::SubSpec::<SimTime>::sub_spec(u, t).0 == u.0 - t.0,
        fits(u.0 - t.0) ==> vstd::std_specs::ops::AddSpec::add_spec(
            t,
            vstd::std_specs::ops::SubSpec::<SimTime>::sub_spec(u, t),
        ) == u,
        fits(d.0 + e.0) ==> vstd::std_specs::ops::AddSpec::add_spec(d, e).0 == d.0 + e.0,
        fits(d.0 - e.0) ==> vstd::std_specs::ops::SubSpec::sub_spec(d, e).0 == d.0 - e.0,
        fits(d.0 * n) ==> vstd::std_specs::ops::MulSpec::mul_spec(d, n).0 == d.0 * n,
        fits(-d.0) ==> vstd::std_specs::ops::NegSpec::neg_spec(d).0 == -d.0,
{
}

/// The canonical text of a time has a sign exactly where the time is before
/// zero, whole seconds without a zero in front, a point, and one to nine
/// digits behind it, the last of them no zero unless it is the only one.
pub proof fn law_a_time_has_one_canonical_text(ns: i64)
    ensures
        ({
            let text = canonical_seconds(ns as int);
            let body = unsigned(text);
            &&& text.len() > 0
            &&& text[0] == '-' <==> ns < 0
            &&& exists|point: int|
                {
                    &&& #[trigger] is_pointed_at(body, point)
                    &&& point == 1 || body[0] != '0'
                    &&& body.len() == point + 2 || body.last() != '0'
                }
        }),
{
    let abs = magnitude(ns as int);
    let whole = crate::text::decimal(abs / 1_000_000_000);
    let part = abs % 1_000_000_000;
    let padded = crate::text::fixed_decimal(part, 9);
    let fraction = trim_zeros(padded);
    crate::text::law_a_number_in_decimal(abs / 1_000_000_000);
    assert(crate::text::ten_to(9) == 1_000_000_000) by {
        reveal_with_fuel(crate::text::ten_to, 10);
    }
    crate::text::lemma_fixed_decimal_value(part, 9);
    lemma_trim_zeros(padded);
    lemma_no_zero_behind(padded);
    let body = whole + seq!['.'] + fraction;
    let text = canonical_seconds(ns as int);
    assert(crate::text::is_digit(whole[0]));
    if ns < 0 {
        assert(text.drop_first() =~= body);
    } else {
        assert(text =~= body);
        assert(text[0] == whole[0]);
    }
    let point = whole.len() as int;
    assert(body[point] == '.');
    assert forall|i: int| 0 <= i < body.len() && i != point implies crate::text::is_digit(
        #[trigger] body[i],
    ) by {
        if i < point {
            assert(crate::text::is_digit(whole[i]));
        } else {
            assert(crate::text::is_digit(fraction[i - point - 1]));
        }
    }
    assert(is_pointed_at(body, point));
    assert(body[0] == whole[0]);
    assert(body.last() == fraction.last());
    assert(body.len() == point + 1 + fraction.len());
    assert(unsigned(text) =~= body);
}

proof fn lemma_no_zero_behind(digits: Seq<char>)
    ensures
        trim_zeros(digits).len() <= 1 || trim_zeros(digits).last() != '0',
    decreases digits.len(),
{
    if digits.len() > 1 && digits.last() == '0' {
        lemma_no_zero_behind(digits.drop_last());
    }
}

/// No two times share a canonical text.
pub proof fn law_canonical_text_is_unique(a: i64, b: i64)
    requires
        canonical_seconds(a as int) == canonical_seconds(b as int),
    ensures
        a == b,
{
    law_parse_undoes_format(a);
    law_parse_undoes_format(b);
}

/// The low `width` decimal digits of `n`, appended zero-filled.
fn push_fixed_decimal(text: &mut Vec<char>, n: u64, width: u64)
    ensures
        final(text)@ == old(text)@ + crate::text::fixed_decimal(n as nat, width as nat),
    decreases width,
{
    if width > 0 {
        push_fixed_decimal(text, n / 10, width - 1);
        text.push(digit_char(n % 10));
    }
    proof {
        assert(text@ =~= old(text)@ + crate::text::fixed_decimal(n as nat, width as nat));
    }
}

/// Formats integer nanoseconds as canonical decimal seconds: trailing zeros
/// trimmed, at least one fractional digit.
pub fn format_ns(ns: i64) -> (text: String)
    ensures
        text@ == canonical_seconds(ns as int),
{
    let abs: u64 = if ns < 0 {
        (-(ns as i128)) as u64
    } else {
        ns as u64
    };
    let mut digits: Vec<char> = Vec::new();
    push_fixed_decimal(&mut digits, abs % 1_000_000_000, 9);
    let ghost padded = digits@;
    proof {
        assert(padded =~= crate::text::fixed_decimal((abs % 1_000_000_000) as nat, 9));
        assert(crate::text::ten_to(9) == 1_000_000_000) by {
            reveal_with_fuel(crate::text::ten_to, 10);
        }
        crate::text::lemma_fixed_decimal_value((abs % 1_000_000_000) as nat, 9);
    }
    while digits.len() > 1 && digits[digits.len() - 1] == '0'
        invariant
            digits@.len() >= 1,
            trim_zeros(digits@) == trim_zeros(padded),
        decreases digits@.len(),
    {
        proof {
            assert(digits@.last() == '0');
        }
        digits.pop();
    }
    let mut text = String::new();
    if ns < 0 {
        text.push('-');
    }
    push_decimal(&mut text, abs / 1_000_000_000);
    text.push('.');
    let fraction = crate::text::text_of(&digits);
    text.append(fraction.as_str());
    proof {
        assert(abs == magnitude(ns as int));
        assert(text@ =~= canonical_seconds(ns as int));
    }
    text
}

/// The error for text that is not a time.
fn time_error(text: &str, reason: &str) -> (error: CoreError)
    ensures
        error matches CoreError::TimeParse { value, reason: said } && value@ == text@ && said@
            == reason@,
{
    CoreError::TimeParse { value: text.to_owned(), reason: reason.to_owned() }
}

/// Whether `chars[from..to]` is digits only.
fn digits_between(chars: &Vec<char>, from: usize, to: usize) -> (digits: bool)
    requires
        from <= to <= chars@.len(),
    ensures
        digits == crate::text::all_digits(chars@.subrange(from as int, to as int)),
{
    let mut i: usize = from;
    while i < to
        invariant
            from <= i <= to <= chars@.len(),
            forall|j: int| from <= j < i ==> crate::text::is_digit(#[trigger] chars@[j]),
        decreases to - i,
    {
        let c = chars[i];
        if !('0' <= c && c <= '9') {
            proof {
                assert(chars@.subrange(from as int, to as int)[i - from] == c);
            }
            return false;
        }
        i += 1;
    }
    true
}

/// The number that the digits `chars[from..to]` stand for, or `None` where it
/// is above what an `i128` holds.
fn read_digits(chars: &Vec<char>, from: usize, to: usize) -> (value: Option<u128>)
    requires
        from <= to <= chars@.len(),
        crate::text::all_digits(chars@.subrange(from as int, to as int)),
    ensures
        match value {
            Some(n) => n == crate::text::decimal_value(chars@.subrange(from as int, to as int)) && n
                <= i128::MAX,
            None => crate::text::decimal_value(chars@.subrange(from as int, to as int))
                > i128::MAX,
        },
{
    let limit: u128 = 0x7fff_ffff_ffff_ffff_ffff_ffff_ffff_ffff;
    let mut value: u128 = 0;
    let mut over: bool = false;
    let mut i: usize = from;
    let ghost digits = chars@.subrange(from as int, to as int);
    while i < to
        invariant
            from <= i <= to <= chars@.len(),
            digits == chars@.subrange(from as int, to as int),
            crate::text::all_digits(digits),
            limit == i128::MAX,
            !over ==> value == crate::text::decimal_value(digits.take(i - from)) && value <= limit,
            over ==> crate::text::decimal_value(digits.take(i - from)) > limit,
        decreases to - i,
    {
        let c = chars[i];
        proof {
            assert(digits.take(i - from + 1).drop_last() =~= digits.take(i - from));
            assert(digits[i - from] == c);
            assert(digits.take(i - from + 1).last() == c);
            assert(crate::text::is_digit(digits[i - from]));
        }
        let d: u128 = (c as u32 - '0' as u32) as u128;
        if !over {
            if value > (limit - d) / 10 {
                over = true;
            } else {
                value = value * 10 + d;
            }
        }
        i += 1;
    }
    proof {
        assert(digits.take(i - from) =~= digits);
    }
    if over {
        None
    } else {
        Some(value)
    }
}

/// Parses decimal seconds into integer nanoseconds through integer
/// arithmetic alone.
///
/// Accepts `[-]digits[.digits]` with at most 9 fractional digits. Exponents
/// are rejected: they never appear in canonical output, and refusing them
/// keeps the parser trivially exact.
#[verifier::rlimit(40)]
pub fn parse_ns(s: &str) -> (parsed: Result<i64, CoreError>)
    ensures
        match parsed {
            Ok(ns) => parse_seconds(s@) == Ok::<int, Seq<char>>(ns as int),
            Err(error) => is_refusal(error, s@),
        },
{
    let chars = chars_of(s);
    let negative = chars.len() > 0 && chars[0] == '-';
    let start: usize = if negative {
        1
    } else {
        0
    };
    let ghost body = chars@.skip(start as int);
    proof {
        if negative {
            assert(body =~= s@.drop_first());
        } else {
            assert(body =~= s@);
        }
        assert(parse_seconds(s@) == parse_body(negative, body));
    }
    let mut point: usize = start;
    proof {
        assert(body.skip(0) =~= body);
    }
    while point < chars.len() && chars[point] != '.'
        invariant
            start <= point <= chars@.len(),
            body == chars@.skip(start as int),
            position(body, '.') == (point - start) + position(body.skip(point - start), '.'),
        decreases chars@.len() - point,
    {
        proof {
            let rest = body.skip(point - start);
            assert(rest[0] == chars@[point as int]);
            assert(rest.drop_first() =~= body.skip(point - start + 1));
        }
        point += 1;
    }
    proof {
        let rest = body.skip(point - start);
        if point < chars@.len() {
            assert(rest[0] == '.');
        }
        assert(position(body, '.') == point - start);
        assert(body.take(point - start) =~= chars@.subrange(start as int, point as int));
    }
    if point == start || !digits_between(&chars, start, point) {
        return Err(time_error(s, "expected decimal digits before the point"));
    }
    let has_point = point < chars.len();
    let from: usize = if has_point {
        point + 1
    } else {
        point
    };
    let to: usize = chars.len();
    let ghost fraction = chars@.subrange(from as int, to as int);
    proof {
        if has_point {
            assert(body.skip(point - start + 1) =~= fraction);
        } else {
            assert(fraction =~= Seq::<char>::empty());
        }
    }
    if has_point && (from == to || !digits_between(&chars, from, to)) {
        return Err(time_error(s, "expected decimal digits after the point"));
    }
    if to - from > 9 {
        return Err(
            time_error(
                s,
                "more than 9 fractional digits (sub-nanosecond precision is not representable)",
            ),
        );
    }
    let whole: u128 = match read_digits(&chars, start, point) {
        Some(n) => n,
        None => {
            return Err(time_error(s, "integer part overflow"));
        },
    };
    proof {
        crate::text::lemma_decimal_value_nonnegative(fraction);
        reveal_with_fuel(crate::text::ten_to, 10);
    }
    let mut scaled: u128 = match read_digits(&chars, from, to) {
        Some(n) => n,
        None => 0,
    };
    let ghost read = scaled as int;
    let mut k: usize = to - from;
    proof {
        assert(read * crate::text::ten_to(0) == read) by {
            assert(crate::text::ten_to(0) == 1);
        }
    }
    while k < 9
        invariant
            to - from <= k <= 9,
            0 <= read < crate::text::ten_to((to - from) as nat),
            scaled == read * crate::text::ten_to((k - (to - from)) as nat),
            scaled < crate::text::ten_to(k as nat),
        decreases 9 - k,
    {
        proof {
            reveal_with_fuel(crate::text::ten_to, 10);
            let scale = crate::text::ten_to((k - (to - from)) as nat);
            assert(crate::text::ten_to((k + 1 - (to - from)) as nat) == scale * 10);
            assert((read * scale) * 10 == read * (scale * 10)) by (nonlinear_arith);
        }
        scaled = scaled * 10;
        k += 1;
    }
    if whole > 10_000_000_000 {
        return Err(time_error(s, "out of range for 64-bit nanoseconds"));
    }
    let total: i128 = whole as i128 * 1_000_000_000 + scaled as i128;
    let signed: i128 = if negative {
        -total
    } else {
        total
    };
    if signed < i64::MIN as i128 || signed > i64::MAX as i128 {
        return Err(time_error(s, "out of range for 64-bit nanoseconds"));
    }
    Ok(signed as i64)
}

impl SimTime {
    /// The start of the run.
    pub fn zero() -> (t: Self)
        ensures
            t.0 == 0,
    {
        SimTime(0)
    }

    /// The instant `ns` nanoseconds into the run.
    pub fn from_nanos(ns: i64) -> (t: Self)
        ensures
            t.0 == ns,
    {
        SimTime(ns)
    }

    /// The instant `us` microseconds into the run.
    pub fn from_micros(us: i64) -> (t: Self)
        requires
            i64::MIN <= us * 1_000 <= i64::MAX,
        ensures
            t.0 == us * 1_000,
    {
        SimTime(us * 1_000)
    }

    /// The instant `ms` milliseconds into the run.
    pub fn from_millis(ms: i64) -> (t: Self)
        requires
            i64::MIN <= ms * 1_000_000 <= i64::MAX,
        ensures
            t.0 == ms * 1_000_000,
    {
        SimTime(ms * 1_000_000)
    }

    /// The instant `s` seconds into the run.
    pub fn from_secs(s: i64) -> (t: Self)
        requires
            i64::MIN <= s * 1_000_000_000 <= i64::MAX,
        ensures
            t.0 == s * 1_000_000_000,
    {
        SimTime(s * NANOS_PER_SEC)
    }

    /// Nanoseconds since the start of the run.
    pub fn as_nanos(self) -> (ns: i64)
        ensures
            ns == self.0,
    {
        self.0
    }

    /// Canonical decimal-seconds form used on the wire.
    pub fn to_canonical_string(self) -> (text: String)
        ensures
            text@ == canonical_seconds(self.0 as int),
    {
        format_ns(self.0)
    }

    /// The canonical text, as a reader sees it.
    pub fn to_string(self) -> (text: String)
        ensures
            text@ == canonical_seconds(self.0 as int),
    {
        format_ns(self.0)
    }
}

impl SimDuration {
    /// No time at all.
    pub fn zero() -> (d: Self)
        ensures
            d.0 == 0,
    {
        SimDuration(0)
    }

    /// A span of `ns` nanoseconds.
    pub fn from_nanos(ns: i64) -> (d: Self)
        ensures
            d.0 == ns,
    {
        SimDuration(ns)
    }

    /// A span of `us` microseconds.
    pub fn from_micros(us: i64) -> (d: Self)
        requires
            i64::MIN <= us * 1_000 <= i64::MAX,
        ensures
            d.0 == us * 1_000,
    {
        SimDuration(us * 1_000)
    }

    /// A span of `ms` milliseconds.
    pub fn from_millis(ms: i64) -> (d: Self)
        requires
            i64::MIN <= ms * 1_000_000 <= i64::MAX,
        ensures
            d.0 == ms * 1_000_000,
    {
        SimDuration(ms * 1_000_000)
    }

    /// A span of `s` seconds.
    pub fn from_secs(s: i64) -> (d: Self)
        requires
            i64::MIN <= s * 1_000_000_000 <= i64::MAX,
        ensures
            d.0 == s * 1_000_000_000,
    {
        SimDuration(s * NANOS_PER_SEC)
    }

    /// The span in nanoseconds.
    pub fn as_nanos(self) -> (ns: i64)
        ensures
            ns == self.0,
    {
        self.0
    }

    /// Canonical decimal-seconds form used on the wire.
    pub fn to_canonical_string(self) -> (text: String)
        ensures
            text@ == canonical_seconds(self.0 as int),
    {
        format_ns(self.0)
    }

    /// The canonical text, as a reader sees it.
    pub fn to_string(self) -> (text: String)
        ensures
            text@ == canonical_seconds(self.0 as int),
    {
        format_ns(self.0)
    }
}

// ---------------------------------------------------------------------------
// Arithmetic
// ---------------------------------------------------------------------------

/// Whether an integer is a count of nanoseconds that fits in 64 bits.
pub open spec fn fits(ns: int) -> bool {
    i64::MIN <= ns <= i64::MAX
}

impl Add<SimDuration> for SimTime {
    type Output = SimTime;

    fn add(self, rhs: SimDuration) -> SimTime {
        SimTime(self.0 + rhs.0)
    }
}

impl vstd::std_specs::ops::AddSpecImpl<SimDuration> for SimTime {
    open spec fn obeys_add_spec() -> bool {
        true
    }

    open spec fn add_req(self, rhs: SimDuration) -> bool {
        fits(self.0 + rhs.0)
    }

    open spec fn add_spec(self, rhs: SimDuration) -> SimTime {
        SimTime((self.0 + rhs.0) as i64)
    }
}

impl Sub<SimDuration> for SimTime {
    type Output = SimTime;

    fn sub(self, rhs: SimDuration) -> SimTime {
        SimTime(self.0 - rhs.0)
    }
}

impl vstd::std_specs::ops::SubSpecImpl<SimDuration> for SimTime {
    open spec fn obeys_sub_spec() -> bool {
        true
    }

    open spec fn sub_req(self, rhs: SimDuration) -> bool {
        fits(self.0 - rhs.0)
    }

    open spec fn sub_spec(self, rhs: SimDuration) -> SimTime {
        SimTime((self.0 - rhs.0) as i64)
    }
}

impl Sub for SimTime {
    type Output = SimDuration;

    fn sub(self, rhs: SimTime) -> SimDuration {
        SimDuration(self.0 - rhs.0)
    }
}

impl vstd::std_specs::ops::SubSpecImpl for SimTime {
    open spec fn obeys_sub_spec() -> bool {
        true
    }

    open spec fn sub_req(self, rhs: SimTime) -> bool {
        fits(self.0 - rhs.0)
    }

    open spec fn sub_spec(self, rhs: SimTime) -> SimDuration {
        SimDuration((self.0 - rhs.0) as i64)
    }
}

impl Add for SimDuration {
    type Output = SimDuration;

    fn add(self, rhs: SimDuration) -> SimDuration {
        SimDuration(self.0 + rhs.0)
    }
}

impl vstd::std_specs::ops::AddSpecImpl for SimDuration {
    open spec fn obeys_add_spec() -> bool {
        true
    }

    open spec fn add_req(self, rhs: SimDuration) -> bool {
        fits(self.0 + rhs.0)
    }

    open spec fn add_spec(self, rhs: SimDuration) -> SimDuration {
        SimDuration((self.0 + rhs.0) as i64)
    }
}

impl Sub for SimDuration {
    type Output = SimDuration;

    fn sub(self, rhs: SimDuration) -> SimDuration {
        SimDuration(self.0 - rhs.0)
    }
}

impl vstd::std_specs::ops::SubSpecImpl for SimDuration {
    open spec fn obeys_sub_spec() -> bool {
        true
    }

    open spec fn sub_req(self, rhs: SimDuration) -> bool {
        fits(self.0 - rhs.0)
    }

    open spec fn sub_spec(self, rhs: SimDuration) -> SimDuration {
        SimDuration((self.0 - rhs.0) as i64)
    }
}

impl Mul<i64> for SimDuration {
    type Output = SimDuration;

    fn mul(self, rhs: i64) -> SimDuration {
        SimDuration(self.0 * rhs)
    }
}

impl vstd::std_specs::ops::MulSpecImpl<i64> for SimDuration {
    open spec fn obeys_mul_spec() -> bool {
        true
    }

    open spec fn mul_req(self, rhs: i64) -> bool {
        fits(self.0 * rhs)
    }

    open spec fn mul_spec(self, rhs: i64) -> SimDuration {
        SimDuration((self.0 * rhs) as i64)
    }
}

impl Neg for SimDuration {
    type Output = SimDuration;

    fn neg(self) -> SimDuration {
        SimDuration(-self.0)
    }
}

impl vstd::std_specs::ops::NegSpecImpl for SimDuration {
    open spec fn obeys_neg_spec() -> bool {
        true
    }

    open spec fn neg_req(self) -> bool {
        fits(-self.0)
    }

    open spec fn neg_spec(self) -> SimDuration {
        SimDuration((-self.0) as i64)
    }
}

/// Moves the instant later, wrapping where the sum does not fit in 64 bits.
impl AddAssign<SimDuration> for SimTime {
    fn add_assign(&mut self, rhs: SimDuration)
        ensures
            final(self).0 == old(self).0.wrapping_add(rhs.0),
            fits(old(self).0 + rhs.0) ==> final(self).0 == old(self).0 + rhs.0,
    {
        self.0 = self.0.wrapping_add(rhs.0);
    }
}

/// Lengthens the span, wrapping where the sum does not fit in 64 bits.
impl AddAssign for SimDuration {
    fn add_assign(&mut self, rhs: SimDuration)
        ensures
            final(self).0 == old(self).0.wrapping_add(rhs.0),
            fits(old(self).0 + rhs.0) ==> final(self).0 == old(self).0 + rhs.0,
    {
        self.0 = self.0.wrapping_add(rhs.0);
    }
}

/// Shortens the span, wrapping where the difference does not fit in 64 bits.
impl SubAssign for SimDuration {
    fn sub_assign(&mut self, rhs: SimDuration)
        ensures
            final(self).0 == old(self).0.wrapping_sub(rhs.0),
            fits(old(self).0 - rhs.0) ==> final(self).0 == old(self).0 - rhs.0,
    {
        self.0 = self.0.wrapping_sub(rhs.0);
    }
}

impl FromStr for SimTime {
    type Err = CoreError;

    fn from_str(s: &str) -> (time: Result<Self, Self::Err>)
        ensures
            match time {
                Ok(t) => parse_seconds(s@) == Ok::<int, Seq<char>>(t.0 as int),
                Err(error) => is_refusal(error, s@),
            },
    {
        match parse_ns(s) {
            Ok(ns) => Ok(SimTime(ns)),
            Err(error) => Err(error),
        }
    }
}

impl FromStr for SimDuration {
    type Err = CoreError;

    fn from_str(s: &str) -> (span: Result<Self, Self::Err>)
        ensures
            match span {
                Ok(d) => parse_seconds(s@) == Ok::<int, Seq<char>>(d.0 as int),
                Err(error) => is_refusal(error, s@),
            },
    {
        match parse_ns(s) {
            Ok(ns) => Ok(SimDuration(ns)),
            Err(error) => Err(error),
        }
    }
}

} // verus!
