//! Amounts of money in cents.
use vstd::arithmetic::power::pow;
use vstd::prelude::*;
use vstd::utf8::encode_utf8;

use crate::digits::{
    are_digits, is_digit, lemma_number_bound, lemma_number_grows, lemma_number_is_written,
    lemma_number_split, lemma_run_end, lemma_run_is_read, lemma_runs_within, lemma_ten_to_is_power,
    number, numbers_within, read_run, run_end, run_number, ten_to, written,
};
use crate::error::{invalid_data, DataError};

verus! {

/// How far amounts that agree may be apart.
pub const AMOUNT_TOLERANCE_CENTS: i64 = 1;

/// How many bytes the sign takes.
pub open spec fn sign_len(bytes: Seq<u8>) -> int {
    if bytes.len() > 0 && (bytes[0] == 45 || bytes[0] == 43) {
        1
    } else {
        0
    }
}

/// Where the digits of the whole part end.
pub open spec fn whole_end(bytes: Seq<u8>) -> int {
    run_end(bytes, sign_len(bytes))
}

/// An optional sign, one digit or more, and optionally a point that digits may follow.
pub open spec fn is_amount(bytes: Seq<u8>) -> bool {
    &&& whole_end(bytes) > sign_len(bytes)
    &&& whole_end(bytes) == bytes.len() || (bytes[whole_end(bytes)] == 46 && run_end(
        bytes,
        whole_end(bytes) + 1,
    ) == bytes.len())
}

/// The value of the `i`-th digit behind the point, zero where there is none.
pub open spec fn decimal_place(bytes: Seq<u8>, i: int) -> int {
    let at = whole_end(bytes) + 1 + i;
    if at < bytes.len() {
        bytes[at] - 48
    } else {
        0
    }
}

/// The amount without its sign, in cents; the third digit behind the point decides which way it is
/// rounded.
pub open spec fn magnitude(bytes: Seq<u8>) -> int {
    run_number(bytes, sign_len(bytes)) * 100 + decimal_place(bytes, 0) * 10 + decimal_place(
        bytes,
        1,
    ) + (if decimal_place(bytes, 2) >= 5 {
        1int
    } else {
        0int
    })
}

/// The amount in cents.
pub open spec fn cents(bytes: Seq<u8>) -> int {
    if bytes[0] == 45 {
        -magnitude(bytes)
    } else {
        magnitude(bytes)
    }
}

/// The numbers that have to be computed to read the amount can be held.
pub open spec fn amount_in_range(bytes: Seq<u8>) -> bool {
    &&& run_number(bytes, sign_len(bytes)) <= i64::MAX
    &&& is_amount(bytes) ==> magnitude(bytes) <= i64::MAX
}

/// What is said of a text that is no amount.
pub open spec fn amount_fault(raw: Seq<char>) -> Seq<char> {
    if raw.len() == 0 {
        "empty amount"@
    } else {
        "invalid amount: "@ + raw
    }
}

fn amount_error(raw: &str) -> (error: DataError)
    ensures
        error.message@ == "invalid amount: "@ + raw@,
{
    invalid_data("invalid amount: ".to_owned().concat(raw))
}

/// Reads an amount; `None` where it takes a number that is too large.
pub fn checked_amount_cents(raw: &str) -> (read: Result<Option<i64>, DataError>)
    ensures
        match read {
            Ok(Some(value)) => amount_in_range(encode_utf8(raw@)) && is_amount(encode_utf8(raw@))
                && value == cents(encode_utf8(raw@)) && value > i64::MIN,
            Ok(None) => !amount_in_range(encode_utf8(raw@)),
            Err(error) => amount_in_range(encode_utf8(raw@)) && !is_amount(encode_utf8(raw@))
                && error.message@ == amount_fault(raw@),
        },
{
    let bytes = raw.as_bytes();
    let ghost b = encode_utf8(raw@);
    proof {
        vstd::utf8::encode_utf8_decode_utf8(raw@);
        lemma_empty(raw@);
        lemma_run_end(b, sign_len(b));
    }
    if bytes.len() == 0 {
        return Err(invalid_data("empty amount".to_owned()));
    }
    let negative = bytes[0] == 45;
    let start: usize = if negative || bytes[0] == 43 {
        1
    } else {
        0
    };
    let (end, run) = read_run(bytes, start, i64::MAX as u64);
    let whole = match run {
        Some(value) => value,
        None => {
            return Ok(None);
        },
    };
    if end == start {
        return Err(amount_error(raw));
    }
    let mut frac: i128 = 0;
    if end < bytes.len() {
        if bytes[end] != 46 {
            return Err(amount_error(raw));
        }
        proof {
            lemma_run_end(b, end + 1);
        }
        let mut idx: usize = end + 1;
        while idx < bytes.len() && 48 <= bytes[idx] && bytes[idx] <= 57
            invariant
                bytes@ == b,
                end == whole_end(b),
                end < bytes@.len(),
                end + 1 <= idx <= bytes@.len(),
                run_end(b, end + 1) == run_end(b, idx as int),
                forall|i: int| end < i < run_end(b, end + 1) ==> is_digit(#[trigger] b[i]),
            decreases bytes@.len() - idx,
        {
            idx += 1;
        }
        if idx != bytes.len() {
            return Err(amount_error(raw));
        }
        let places = bytes.len() - end - 1;
        if places > 0 {
            assert(is_digit(b[end + 1]));
            frac = frac + (bytes[end + 1] - 48) as i128 * 10;
        }
        if places > 1 {
            assert(is_digit(b[end + 2]));
            frac = frac + (bytes[end + 2] - 48) as i128;
        }
        if places > 2 && bytes[end + 3] >= 53 {
            frac = frac + 1;
        }
    }
    let total = whole as i128 * 100 + frac;
    assert(total == magnitude(b));
    if total > i64::MAX as i128 {
        return Ok(None);
    }
    let total = total as i64;
    Ok(Some(if negative {
        -total
    } else {
        total
    }))
}

/// Only the empty text has no bytes.
proof fn lemma_empty(text: Seq<char>)
    ensures
        encode_utf8(text).len() == 0 <==> text.len() == 0,
{
    vstd::utf8::encode_utf8_decode_utf8(text);
    if encode_utf8(text).len() == 0 {
        assert(encode_utf8(text) =~= encode_utf8(Seq::<char>::empty()));
        vstd::utf8::encode_utf8_decode_utf8(Seq::<char>::empty());
    }
}

/// Reads an amount.
pub fn parse_amount_cents(raw: &str) -> (read: Result<i64, DataError>)
    requires
        amount_in_range(encode_utf8(raw@)),
    ensures
        match read {
            Ok(value) => is_amount(encode_utf8(raw@)) && value == cents(encode_utf8(raw@)),
            Err(error) => !is_amount(encode_utf8(raw@)) && error.message@ == amount_fault(raw@),
        },
{
    match checked_amount_cents(raw) {
        Ok(Some(value)) => Ok(value),
        Ok(None) => {
            assert(false);
            Ok(0)
        },
        Err(error) => Err(error),
    }
}

/// How many digits stand behind the point.
pub open spec fn places(bytes: Seq<u8>) -> int {
    if whole_end(bytes) == bytes.len() {
        0
    } else {
        bytes.len() - whole_end(bytes) - 1
    }
}

/// All digits of the amount as one number.
pub open spec fn all_digits(bytes: Seq<u8>) -> int {
    run_number(bytes, sign_len(bytes)) * ten_to(places(bytes)) + number(
        bytes,
        bytes.len() - places(bytes),
        bytes.len() as int,
    )
}

/// Amounts are rounded to the nearest cent, halves away from zero: what is read differs from what
/// is written by half a cent at most, and is larger where it differs by that.
pub proof fn lemma_amounts_are_rounded(bytes: Seq<u8>)
    requires
        is_amount(bytes),
    ensures
        ({
            let unit = ten_to(places(bytes));
            let excess = magnitude(bytes) * unit - 100 * all_digits(bytes);
            -unit < 2 * excess <= unit
        }),
{
    let w = whole_end(bytes);
    let n = bytes.len() as int;
    let d = places(bytes);
    let whole = run_number(bytes, sign_len(bytes));
    lemma_run_end(bytes, sign_len(bytes));
    if d == 0 {
        assert(ten_to(0) == 1);
        assert(whole * 1 == whole) by (nonlinear_arith);
        assert(number(bytes, n, n) == 0);
        assert(decimal_place(bytes, 0) == 0 && decimal_place(bytes, 1) == 0);
        assert(decimal_place(bytes, 2) == 0);
        assert(all_digits(bytes) == whole);
        let m = magnitude(bytes);
        assert(m == whole * 100);
        assert(m * 1 == m) by (nonlinear_arith);
    } else {
        lemma_run_end(bytes, w + 1);
        let p0 = decimal_place(bytes, 0);
        let p1 = decimal_place(bytes, 1);
        let p2 = decimal_place(bytes, 2);
        let f = number(bytes, w + 1, n);
        let unit = ten_to(d);
        assert(is_digit(bytes[w + 1]));
        reveal_with_fuel(number, 4);
        reveal_with_fuel(ten_to, 4);
        let r: int = if p2 >= 5 {
            1
        } else {
            0
        };
        let hundredths = 10 * p0 + p1 + r;
        assert(magnitude(bytes) == whole * 100 + hundredths);
        assert((whole * 100 + hundredths) * unit - 100 * (whole * unit + f) == hundredths * unit
            - 100 * f) by (nonlinear_arith);
        let excess = magnitude(bytes) * unit - 100 * all_digits(bytes);
        assert(all_digits(bytes) == whole * unit + f);
        assert(excess == hundredths * unit - 100 * f);
        if d == 1 {
            assert(f == p0);
            assert(unit == 10);
            assert(p2 == 0 && p1 == 0);
            assert(hundredths * unit == hundredths * 10) by (nonlinear_arith)
                requires
                    unit == 10,
            ;
            assert(excess == 0);
        } else if d == 2 {
            assert(is_digit(bytes[w + 2]));
            assert(f == p0 * 10 + p1);
            assert(unit == 100);
            assert(p2 == 0);
            assert(hundredths * unit == hundredths * 100) by (nonlinear_arith)
                requires
                    unit == 100,
            ;
            assert(excess == 0);
        } else {
            assert(is_digit(bytes[w + 2]) && is_digit(bytes[w + 3]));
            let t = ten_to(d - 3);
            let rest = number(bytes, w + 4, n);
            let top = p0 * 100 + p1 * 10 + p2;
            assert(number(bytes, w + 1, w + 4) == top);
            lemma_number_split(bytes, w + 1, w + 4, n);
            lemma_number_bound(bytes, w + 4, n);
            assert(f == top * t + rest);
            assert(ten_to(d - 1) == 100 * t && unit == 1000 * t);
            assert(hundredths * (1000 * t) - 100 * (top * t + rest) == (1000 * r - 100 * p2) * t
                - 100 * rest) by (nonlinear_arith)
                requires
                    hundredths == 10 * p0 + p1 + r,
                    top == p0 * 100 + p1 * 10 + p2,
            ;
            assert(excess == (1000 * r - 100 * p2) * t - 100 * rest);
            if p2 >= 5 {
                assert((1000 - 100 * p2) * t <= 500 * t && (1000 - 100 * p2) * t >= 100 * t)
                    by (nonlinear_arith)
                    requires
                        5 <= p2 <= 9,
                        t >= 0,
                ;
            } else {
                assert((0 - 100 * p2) * t <= 0 && (0 - 100 * p2) * t >= -400 * t)
                    by (nonlinear_arith)
                    requires
                        0 <= p2 <= 4,
                        t >= 0,
                ;
            }
            assert(-unit < 2 * excess <= unit);
        }
    }
}

/// The amounts that agree with `amount_cents` within the tolerance.
pub fn amount_bucket_range(amount_cents: i64) -> (amounts: [i64; 3])
    ensures
        amounts@[0] == (if amount_cents == i64::MIN {
            i64::MIN as int
        } else {
            amount_cents - AMOUNT_TOLERANCE_CENTS
        }),
        amounts@[1] == amount_cents,
        amounts@[2] == (if amount_cents == i64::MAX {
            i64::MAX as int
        } else {
            amount_cents + AMOUNT_TOLERANCE_CENTS
        }),
{
    let below = if amount_cents == i64::MIN {
        i64::MIN
    } else {
        amount_cents - AMOUNT_TOLERANCE_CENTS
    };
    let above = if amount_cents == i64::MAX {
        i64::MAX
    } else {
        amount_cents + AMOUNT_TOLERANCE_CENTS
    };
    [below, amount_cents, above]
}

/// How far the two numbers are apart.
pub fn abs_diff_i64(left: i64, right: i64) -> (difference: i64)
    requires
        -i64::MAX <= left - right <= i64::MAX,
    ensures
        difference == (if left >= right {
            left - right
        } else {
            right - left
        }),
{
    if left >= right {
        left - right
    } else {
        right - left
    }
}

/// `text` is written as a sign or none, digits, and perhaps a point that digits may follow.
pub open spec fn is_sum_of_money(
    text: Seq<u8>,
    sign: Seq<u8>,
    whole: Seq<u8>,
    point: bool,
    decimals: Seq<u8>,
) -> bool {
    &&& sign == Seq::<u8>::empty() || sign == seq![43u8] || sign == seq![45u8]
    &&& are_digits(whole)
    &&& decimals == Seq::<u8>::empty() || point && are_digits(decimals)
    &&& text == sign + whole + (if point {
        seq![46u8]
    } else {
        Seq::<u8>::empty()
    }) + decimals
}

/// What an amount means: a number of cents with the sign that is written, off what is written by
/// half a cent at most, and the larger one of two that are; one that an `i64` holds, of a whole
/// part that an `i64` holds, is not too large.
pub proof fn lemma_amount_meaning(
    text: Seq<u8>,
    sign: Seq<u8>,
    whole: Seq<u8>,
    point: bool,
    decimals: Seq<u8>,
)
    requires
        is_sum_of_money(text, sign, whole, point, decimals),
    ensures
        is_amount(text),
        ({
            let unit = pow(10, decimals.len());
            let size = if sign == seq![45u8] {
                -cents(text)
            } else {
                cents(text)
            };
            &&& size >= 0
            &&& -unit < 2 * (size * unit - 100 * (written(whole) * unit + written(decimals)))
                <= unit
            &&& amount_in_range(text) <==> written(whole) <= i64::MAX && size <= i64::MAX
        }),
{
    let a = sign.len() as int;
    let b = a + whole.len();
    let n = text.len() as int;
    assert(text[a] == whole[0]);
    assert(48 <= whole[0] <= 57);
    if a == 1 {
        assert(text[0] == sign[0]);
        if sign != seq![43u8] {
            assert(sign[0] == 45);
        } else {
            assert(sign[0] == 43);
        }
        assert(sign == seq![45u8] <==> text[0] == 45);
    } else {
        assert(sign.len() == 0);
        assert(text[0] == whole[0]);
        assert(seq![45u8].len() == 1);
    }
    assert(sign_len(text) == a);
    assert(text.subrange(a, b) =~= whole);
    if point {
        assert(text[b] == 46);
    }
    lemma_run_is_read(text, a, whole);
    assert(whole_end(text) == b);
    if point {
        assert(text.subrange(b + 1, n) =~= decimals);
        lemma_run_is_read(text, b + 1, decimals);
        lemma_number_is_written(text, b + 1, n);
    } else {
        assert(decimals =~= Seq::<u8>::empty());
        lemma_number_is_written(text, n, n);
        assert(text.subrange(n, n) =~= decimals);
    }
    assert(is_amount(text));
    lemma_amounts_are_rounded(text);
    lemma_ten_to_is_power(decimals.len());
    assert(places(text) == decimals.len());
    lemma_run_end(text, a);
    lemma_number_grows(text, a, a, b);
    lemma_run_end(text, b + 1);
    assert(magnitude(text) >= 0) by {
        lemma_place_is_digit(text, 0);
        lemma_place_is_digit(text, 1);
    }
}

proof fn lemma_place_is_digit(text: Seq<u8>, i: int)
    requires
        is_amount(text),
        0 <= i,
    ensures
        0 <= decimal_place(text, i) <= 9,
{
    let at = whole_end(text) + 1 + i;
    lemma_run_end(text, sign_len(text));
    lemma_run_end(text, whole_end(text) + 1);
    if at < text.len() {
        assert(is_digit(text[at]));
    }
}

/// Nothing else is an amount.
pub proof fn lemma_only_sums_of_money(text: Seq<u8>)
    requires
        is_amount(text),
    ensures
        exists|sign: Seq<u8>, whole: Seq<u8>, point: bool, decimals: Seq<u8>| #[trigger]
            is_sum_of_money(text, sign, whole, point, decimals),
{
    let a = sign_len(text);
    let b = whole_end(text);
    let n = text.len() as int;
    lemma_run_end(text, a);
    lemma_run_end(text, b + 1);
    let sign = text.subrange(0, a);
    let whole = text.subrange(a, b);
    let point = b < n;
    let decimals = if point {
        text.subrange(b + 1, n)
    } else {
        Seq::empty()
    };
    if a == 1 {
        if text[0] == 45 {
            assert(sign =~= seq![45u8]);
        } else {
            assert(sign =~= seq![43u8]);
        }
    } else {
        assert(sign =~= Seq::<u8>::empty());
    }
    assert forall|i: int| 0 <= i < whole.len() implies 48 <= #[trigger] whole[i] <= 57 by {
        assert(is_digit(text[a + i]));
    }
    assert forall|i: int| 0 <= i < decimals.len() implies 48 <= #[trigger] decimals[i] <= 57 by {
        assert(is_digit(text[b + 1 + i]));
    }
    if decimals.len() == 0 {
        assert(decimals =~= Seq::<u8>::empty());
    }
    assert(text =~= sign + whole + (if point {
        seq![46u8]
    } else {
        Seq::<u8>::empty()
    }) + decimals);
    assert(is_sum_of_money(text, sign, whole, point, decimals));
}

/// The sign of an amount turns it round: the same digits behind a minus stand for as many cents
/// below zero as they do behind a plus, or behind nothing, above.
pub proof fn lemma_sign_turns_round(whole: Seq<u8>, point: bool, decimals: Seq<u8>)
    requires
        is_sum_of_money(
            seq![45u8] + whole + (if point { seq![46u8] } else { Seq::<u8>::empty() }) + decimals,
            seq![45u8],
            whole,
            point,
            decimals,
        ),
    ensures
        ({
            let tail = (if point { seq![46u8] } else { Seq::<u8>::empty() }) + decimals;
            &&& cents(seq![45u8] + (whole + tail)) == -cents(seq![43u8] + (whole + tail))
            &&& cents(seq![43u8] + (whole + tail)) == cents(whole + tail)
        }),
{
    let dot = if point {
        seq![46u8]
    } else {
        Seq::<u8>::empty()
    };
    let tail = dot + decimals;
    let minus = seq![45u8] + (whole + tail);
    let plus = seq![43u8] + (whole + tail);
    let bare = whole + tail;
    assert(minus =~= seq![45u8] + whole + dot + decimals);
    assert(plus =~= seq![43u8] + whole + dot + decimals);
    assert(bare =~= Seq::<u8>::empty() + whole + dot + decimals);
    assert(is_sum_of_money(plus, seq![43u8], whole, point, decimals));
    assert(is_sum_of_money(bare, Seq::<u8>::empty(), whole, point, decimals));
    lemma_amount_meaning(minus, seq![45u8], whole, point, decimals);
    lemma_amount_meaning(plus, seq![43u8], whole, point, decimals);
    lemma_amount_meaning(bare, Seq::<u8>::empty(), whole, point, decimals);
    assert(seq![43u8][0] == 43 && seq![45u8][0] == 45);
    assert(seq![43u8] != seq![45u8]);
    assert(Seq::<u8>::empty().len() == 0 && seq![45u8].len() == 1);
    let unit = pow(10, decimals.len());
    let exact = 100 * (written(whole) * unit + written(decimals));
    vstd::arithmetic::power::lemma_pow_positive(10, decimals.len());
    lemma_one_rounding(-cents(minus), cents(plus), unit, exact);
    lemma_one_rounding(cents(plus), cents(bare), unit, exact);
}

proof fn lemma_one_rounding(a: int, b: int, unit: int, exact: int)
    requires
        unit > 0,
        -unit < 2 * (a * unit - exact) <= unit,
        -unit < 2 * (b * unit - exact) <= unit,
    ensures
        a == b,
{
    assert(a * unit - b * unit == (a - b) * unit) by (nonlinear_arith);
    if a > b {
        assert((a - b) * unit >= unit) by (nonlinear_arith)
            requires
                a - b >= 1,
                unit > 0,
        ;
    } else if a < b {
        assert((a - b) * unit <= -unit) by (nonlinear_arith)
            requires
                a - b <= -1,
                unit > 0,
        ;
    }
}

/// A text that is no amount is refused as that, unless it has a number in it that an `i64` cannot
/// hold.
pub proof fn lemma_no_amount_is_refused(text: Seq<u8>)
    requires
        numbers_within(text, i64::MAX as int),
        !is_amount(text),
    ensures
        amount_in_range(text),
{
    lemma_runs_within(text, i64::MAX as int, sign_len(text));
}

} // verus!
