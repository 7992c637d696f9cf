//! Runs of decimal digits.
use vstd::arithmetic::power::{lemma_pow0, lemma_pow1, lemma_pow_adds, pow};
use vstd::prelude::*;

use crate::sums::{lemma_sum_eq, lemma_sum_scale, sum};

verus! {

/// The byte is an ASCII digit.
pub open spec fn is_digit(b: u8) -> bool {
    48 <= b <= 57
}

/// Where the run of digits that starts at `from` ends.
pub open spec fn run_end(bytes: Seq<u8>, from: int) -> int
    decreases bytes.len() - from,
{
    if 0 <= from < bytes.len() && is_digit(bytes[from]) {
        run_end(bytes, from + 1)
    } else {
        from
    }
}

/// The number that the digits from `from` up to `to` stand for.
pub open spec fn number(bytes: Seq<u8>, from: int, to: int) -> int
    decreases to - from,
{
    if to <= from {
        0
    } else {
        number(bytes, from, to - 1) * 10 + (bytes[to - 1] - 48)
    }
}

/// The number that the run of digits that starts at `from` stands for.
pub open spec fn run_number(bytes: Seq<u8>, from: int) -> int {
    number(bytes, from, run_end(bytes, from))
}

/// A run is made of digits, and no digit stands behind it.
pub proof fn lemma_run_end(bytes: Seq<u8>, from: int)
    requires
        0 <= from,
    ensures
        from <= run_end(bytes, from),
        from <= bytes.len() ==> run_end(bytes, from) <= bytes.len(),
        forall|i: int| from <= i < run_end(bytes, from) ==> is_digit(#[trigger] bytes[i]),
        run_end(bytes, from) < bytes.len() ==> !is_digit(bytes[run_end(bytes, from)]),
    decreases bytes.len() - from,
{
    if from < bytes.len() && is_digit(bytes[from]) {
        lemma_run_end(bytes, from + 1);
    }
}

/// Within a run of digits the number only grows.
pub proof fn lemma_number_grows(bytes: Seq<u8>, from: int, mid: int, to: int)
    requires
        from <= mid <= to,
        forall|i: int| from <= i < to ==> is_digit(#[trigger] bytes[i]),
    ensures
        0 <= number(bytes, from, mid) <= number(bytes, from, to),
    decreases to - from,
{
    if mid < to {
        lemma_number_grows(bytes, from, mid, to - 1);
        assert(is_digit(bytes[to - 1]));
    } else if from < mid {
        lemma_number_grows(bytes, from, mid - 1, to - 1);
        assert(is_digit(bytes[to - 1]));
    }
}

/// Ten to the power of `n`.
pub open spec fn ten_to(n: int) -> int
    decreases n,
{
    if n <= 0 {
        1
    } else {
        10 * ten_to(n - 1)
    }
}

/// A number of so many digits is below that power of ten.
pub proof fn lemma_number_bound(bytes: Seq<u8>, from: int, to: int)
    requires
        from <= to,
        forall|i: int| from <= i < to ==> is_digit(#[trigger] bytes[i]),
    ensures
        0 <= number(bytes, from, to) < ten_to(to - from),
    decreases to - from,
{
    if from < to {
        lemma_number_bound(bytes, from, to - 1);
        assert(is_digit(bytes[to - 1]));
    }
}

/// A number is made of its first digits, moved up, and its last ones.
pub proof fn lemma_number_split(bytes: Seq<u8>, from: int, mid: int, to: int)
    requires
        from <= mid <= to,
    ensures
        number(bytes, from, to) == number(bytes, from, mid) * ten_to(to - mid) + number(
            bytes,
            mid,
            to,
        ),
    decreases to - mid,
{
    if mid < to {
        lemma_number_split(bytes, from, mid, to - 1);
        let a = number(bytes, from, mid);
        let t = ten_to(to - 1 - mid);
        assert(ten_to(to - mid) == 10 * t);
        assert((a * t) * 10 == a * (10 * t)) by (nonlinear_arith);
    } else {
        let a = number(bytes, from, mid);
        assert(a * 1 == a) by (nonlinear_arith);
    }
}

/// Reads the run of digits that starts at `from`: where it ends, and its number, unless that is
/// above `limit`.
pub(crate) fn read_run(bytes: &[u8], from: usize, limit: u64) -> (run: (usize, Option<u64>))
    requires
        limit <= i64::MAX,
    ensures
        run.0 == run_end(bytes@, from as int),
        match run.1 {
            Some(value) => value == run_number(bytes@, from as int) && value <= limit,
            None => run_number(bytes@, from as int) > limit,
        },
{
    proof {
        lemma_run_end(bytes@, from as int);
    }
    let mut at = from;
    let mut value: u64 = 0;
    let mut fits = true;
    while at < bytes.len() && 48 <= bytes[at] && bytes[at] <= 57
        invariant
            limit <= i64::MAX,
            from <= at <= run_end(bytes@, from as int),
            run_end(bytes@, from as int) == run_end(bytes@, at as int),
            forall|i: int|
                from <= i < run_end(bytes@, from as int) ==> is_digit(#[trigger] bytes@[i]),
            fits ==> value == number(bytes@, from as int, at as int) && value <= limit,
            !fits ==> run_number(bytes@, from as int) > limit,
        decreases bytes@.len() - at,
    {
        proof {
            lemma_run_end(bytes@, at as int + 1);
            lemma_number_grows(
                bytes@,
                from as int,
                at as int + 1,
                run_end(bytes@, from as int),
            );
        }
        if fits {
            let next = value as u128 * 10 + (bytes[at] - 48) as u128;
            if next <= limit as u128 {
                value = next as u64;
            } else {
                fits = false;
            }
        }
        at += 1;
    }
    if fits {
        (at, Some(value))
    } else {
        (at, None)
    }
}

/// One decimal digit or more.
pub open spec fn are_digits(text: Seq<u8>) -> bool {
    text.len() > 0 && forall|i: int| 0 <= i < text.len() ==> 48 <= #[trigger] text[i] <= 57
}

/// The number that is written with these digits: each counts ten times what the next one does, and
/// the last one its own value.
pub open spec fn written(text: Seq<u8>) -> int {
    sum(text.len() as int, |i: int| (text[i] - 48) * pow(10, (text.len() - 1 - i) as nat))
}

/// Reading a run of digits gives the number that is written with them.
pub proof fn lemma_number_is_written(bytes: Seq<u8>, from: int, to: int)
    requires
        0 <= from <= to <= bytes.len(),
    ensures
        number(bytes, from, to) == written(bytes.subrange(from, to)),
    decreases to - from,
{
    let text = bytes.subrange(from, to);
    let n = text.len() as int;
    if from < to {
        let init = bytes.subrange(from, to - 1);
        lemma_number_is_written(bytes, from, to - 1);
        let f = |i: int| (text[i] - 48) * pow(10, (n - 1 - i) as nat);
        let g = |i: int| (init[i] - 48) * pow(10, (n - 2 - i) as nat);
        let h = |i: int| 10 * g(i);
        assert forall|i: int| 0 <= i < n - 1 implies #[trigger] f(i) == h(i) by {
            let e = (n - 2 - i) as nat;
            lemma_pow_adds(10, 1, e);
            lemma_pow1(10);
            let d = text[i] - 48;
            let p = pow(10, e);
            assert(pow(10, (n - 1 - i) as nat) == 10 * p);
            assert(d * (10 * p) == 10 * (d * p)) by (nonlinear_arith);
        }
        lemma_sum_eq(n - 1, f, h);
        lemma_sum_scale(n - 1, 10, g);
        lemma_pow0(10);
        assert(f(n - 1) == bytes[to - 1] - 48) by {
            let d = text[n - 1] - 48;
            assert(d * 1 == d) by (nonlinear_arith);
        }
        assert(sum(n, f) == sum(n - 1, f) + f(n - 1));
    }
}

/// A run of digits that something else follows, or nothing, is read whole.
pub proof fn lemma_run_is_read(bytes: Seq<u8>, from: int, text: Seq<u8>)
    requires
        0 <= from,
        from + text.len() <= bytes.len(),
        bytes.subrange(from, from + text.len()) == text,
        forall|i: int| 0 <= i < text.len() ==> 48 <= #[trigger] text[i] <= 57,
        from + text.len() < bytes.len() ==> !(48 <= bytes[from + text.len()] <= 57),
    ensures
        run_end(bytes, from) == from + text.len(),
        run_number(bytes, from) == written(text),
    decreases text.len(),
{
    lemma_run_end(bytes, from);
    let end = run_end(bytes, from);
    let to = from + text.len();
    if end < to {
        assert(bytes[end] == text[end - from]);
    }
    if end > to {
        assert(is_digit(bytes[to]));
    }
    lemma_number_is_written(bytes, from, to);
}

/// Ten to the power of `n`.
pub proof fn lemma_ten_to_is_power(n: nat)
    ensures
        ten_to(n as int) == pow(10, n),
    decreases n,
{
    if n > 0 {
        lemma_ten_to_is_power((n - 1) as nat);
        lemma_pow_adds(10, 1, (n - 1) as nat);
        lemma_pow1(10);
    } else {
        lemma_pow0(10);
    }
}

/// No digits that stand together in the text make a number above `most`.
pub open spec fn numbers_within(text: Seq<u8>, most: int) -> bool {
    forall|from: int, to: int|
        0 <= from <= to <= text.len() && (forall|i: int|
            from <= i < to ==> 48 <= #[trigger] text[i] <= 57) ==> written(
            #[trigger] text.subrange(from, to),
        ) <= most
}

/// Then no run makes one either.
pub proof fn lemma_runs_within(text: Seq<u8>, most: int, from: int)
    requires
        numbers_within(text, most),
        0 <= most,
        0 <= from,
    ensures
        run_number(text, from) <= most,
{
    lemma_run_end(text, from);
    if from <= text.len() {
        let to = run_end(text, from);
        assert forall|i: int| from <= i < to implies 48 <= #[trigger] text[i] <= 57 by {
            assert(is_digit(text[i]));
        }
        lemma_number_is_written(text, from, to);
        assert(written(text.subrange(from, to)) <= most);
    }
}

} // verus!
