use reconcile::amount::{
    abs_diff_i64, amount_bucket_range, checked_amount_cents, parse_amount_cents,
};

#[test]
fn parses_amounts_to_cents() {
    assert_eq!(parse_amount_cents("123").unwrap(), 12_300);
    assert_eq!(parse_amount_cents("-45.67").unwrap(), -4_567);
    assert_eq!(parse_amount_cents("8.5").unwrap(), 850);
    assert_eq!(parse_amount_cents("8.555").unwrap(), 856);
}

#[test]
fn reads_signs_and_points() {
    assert_eq!(parse_amount_cents("+1.2").unwrap(), 120);
    assert_eq!(parse_amount_cents("7.").unwrap(), 700);
    assert_eq!(parse_amount_cents("-0.01").unwrap(), -1);
    assert_eq!(parse_amount_cents("007.05").unwrap(), 705);
}

#[test]
fn rounds_by_the_third_digit() {
    assert_eq!(parse_amount_cents("0.994").unwrap(), 99);
    assert_eq!(parse_amount_cents("0.995").unwrap(), 100);
    assert_eq!(parse_amount_cents("9.999").unwrap(), 1_000);
    assert_eq!(parse_amount_cents("-9.995").unwrap(), -1_000);
    assert_eq!(parse_amount_cents("1.2349").unwrap(), 123);
    assert_eq!(parse_amount_cents("1.23500").unwrap(), 124);
}

#[test]
fn refuses_what_is_no_amount() {
    assert_eq!(parse_amount_cents("").unwrap_err().message, "empty amount");
    for raw in ["-", "+", ".5", "abc", "1,000", "1.2.3", "1 ", "12x", "1.5-", "\u{661}"] {
        assert_eq!(
            parse_amount_cents(raw).unwrap_err().message,
            format!("invalid amount: {raw}")
        );
    }
}

#[test]
fn notices_amounts_that_are_too_large() {
    assert_eq!(
        checked_amount_cents("92233720368547758.07").unwrap(),
        Some(i64::MAX)
    );
    assert_eq!(
        checked_amount_cents("-92233720368547758.07").unwrap(),
        Some(-i64::MAX)
    );
    assert_eq!(checked_amount_cents("92233720368547758.08").unwrap(), None);
    assert_eq!(checked_amount_cents("99999999999999999999").unwrap(), None);
    assert_eq!(checked_amount_cents("99999999999999999999x").unwrap(), None);
}

#[test]
fn amounts_within_a_cent_agree() {
    assert_eq!(amount_bucket_range(500), [499, 500, 501]);
    assert_eq!(amount_bucket_range(0), [-1, 0, 1]);
    assert_eq!(
        amount_bucket_range(i64::MAX),
        [i64::MAX - 1, i64::MAX, i64::MAX]
    );
    assert_eq!(
        amount_bucket_range(i64::MIN),
        [i64::MIN, i64::MIN, i64::MIN + 1]
    );
}

#[test]
fn differences_have_no_sign() {
    assert_eq!(abs_diff_i64(3, 10), 7);
    assert_eq!(abs_diff_i64(10, 3), 7);
    assert_eq!(abs_diff_i64(-5, 5), 10);
    assert_eq!(abs_diff_i64(4, 4), 0);
}
