use reconcile::token::{canonicalize_token, keep_token, TokenInterner};
use reconcile::weights::shared_tokens;

fn weighted_jaccard_ppm(
    left: &[u32],
    left_sum: f64,
    right: &[u32],
    right_sum: f64,
    weights: &[f64],
) -> u32 {
    if left.is_empty() || right.is_empty() {
        return 0;
    }
    let intersection: f64 = shared_tokens(left, right)
        .iter()
        .map(|&token| weights[token as usize])
        .sum();
    let union = left_sum + right_sum - intersection;
    if union <= 0.0 {
        return 0;
    }
    ((intersection / union) * 1_000_000.0).round() as u32
}

#[test]
fn drops_noise_tokens() {
    assert!(!keep_token("com"));
    assert!(!keep_token("004YGZFNCBKVC2M"));
    assert!(keep_token("quickbooks"));
    assert!(keep_token("mico"));
}

#[test]
fn alias_normalization_makes_quickbooks_and_intuit_overlap() {
    let mut interner = TokenInterner::default();
    let left = interner.tokenize("Systemrecorded deposit for QuickBooks Payments");
    let right = interner.tokenize("ACH CREDIT INTUIT 40442204 DEPOSIT MICO STRATEGIES");
    let weights = vec![1.0; interner.len()];
    let left_sum = left.len() as f64;
    let right_sum = right.len() as f64;
    let score = weighted_jaccard_ppm(&left, left_sum, &right, right_sum, &weights);
    assert!(score > 0);
}

#[test]
fn keeps_words_by_length_and_kind() {
    assert!(!keep_token("x"));
    assert!(!keep_token(""));
    assert!(keep_token("1234"));
    assert!(!keep_token("12345"));
    assert!(keep_token("abc12345"));
    assert!(!keep_token("abc123456"));
    assert!(keep_token("abcdefghijkl"));
    // lengths are counted in bytes
    assert!(keep_token("\u{e9}"));
    for word in [
        "a", "at", "bank", "by", "com", "dda", "for", "from", "in", "inc", "ll", "llc", "on",
        "svc", "tax", "to", "transferred", "usataxpymt",
    ] {
        assert!(!keep_token(word));
    }
}

#[test]
fn replaces_words_by_their_aliases() {
    assert_eq!(canonicalize_token("payments"), Some("payment"));
    assert_eq!(canonicalize_token("payables"), Some("payment"));
    assert_eq!(canonicalize_token("payable"), Some("payment"));
    assert_eq!(canonicalize_token("deposits"), Some("deposit"));
    assert_eq!(canonicalize_token("credits"), Some("credit"));
    assert_eq!(canonicalize_token("debits"), Some("debit"));
    assert_eq!(canonicalize_token("quickbooks"), Some("intuit"));
    assert_eq!(canonicalize_token("intuit"), Some("intuit"));
    assert_eq!(canonicalize_token("systemrecorded"), Some("system"));
    assert_eq!(canonicalize_token("systemgenerated"), Some("system"));
    assert_eq!(canonicalize_token("systemcreated"), Some("system"));
    assert_eq!(canonicalize_token("rent"), Some("rent"));
    assert_eq!(canonicalize_token("bank"), None);
}

#[test]
fn numbers_tokens_in_the_order_of_their_appearance() {
    let mut interner = TokenInterner::default();
    assert_eq!(interner.len(), 0);
    assert_eq!(interner.tokenize("Office RENT, office"), vec![0, 1]);
    assert_eq!(interner.tokenize("rent/parking"), vec![1, 2]);
    assert_eq!(interner.len(), 3);
    assert_eq!(interner.intern_token("parking"), 2);
    assert_eq!(interner.intern_token("heating"), 3);
    assert_eq!(interner.tokenize(""), Vec::<u32>::new());
    assert_eq!(interner.tokenize("the bank by to"), vec![4]);
    assert_eq!(interner.len(), 5);
}

#[test]
fn the_same_text_has_the_same_tokens() {
    let mut interner = TokenInterner::default();
    let first = interner.tokenize("Wire from Acme Corp 77");
    let known = interner.len();
    let second = interner.tokenize("Wire from Acme Corp 77");
    assert_eq!(first, second);
    assert_eq!(interner.len(), known);
}

#[test]
fn words_end_at_anything_but_ascii_letters_and_digits() {
    let mut interner = TokenInterner::default();
    let plain = interner.tokenize("caf bar");
    assert_eq!(interner.tokenize("caf\u{e9}bar"), plain);
    assert_eq!(interner.tokenize("caf_bar"), plain);
}

#[test]
fn phrases_have_tokens_of_their_own() {
    let pairs = [
        ("Bill.com fee", "billcom"),
        ("BILL COM fee", "billcom"),
        ("Mobile Deposit 12", "mobile_deposit"),
        ("INCOMING WIRE", "incoming_wire"),
        ("ACH Credit", "ach_credit"),
        ("ach debit", "ach_debit"),
        ("Internet Transfer", "internet_transfer"),
        ("APPLE.COM/BIL", "apple_bill"),
        ("xquickbooksx", "intuit"),
        ("intuit payment", "intuit_payment"),
        ("Quickbooks deposit", "intuit_payment"),
    ];
    for (text, phrase) in pairs {
        let mut interner = TokenInterner::default();
        let ids = interner.tokenize(text);
        let id = interner.intern_token(phrase);
        assert!(ids.contains(&id));
    }
    let mut interner = TokenInterner::default();
    let ids = interner.tokenize("payment");
    assert!(!ids.contains(&interner.intern_token("intuit_payment")));
}

#[test]
fn flushing_ends_a_word() {
    let mut interner = TokenInterner::default();
    let mut ids = Vec::new();
    let mut token = String::from("rent");
    interner.flush_token(&mut token, &mut ids);
    assert_eq!(token, "");
    assert_eq!(ids, vec![0]);
    interner.flush_token(&mut token, &mut ids);
    assert_eq!(ids, vec![0]);
    token.push('a');
    interner.flush_token(&mut token, &mut ids);
    assert_eq!(token, "");
    assert_eq!(ids, vec![0]);
    interner.add_synthetic_tokens("ach debit by mobile deposit", &mut ids);
    assert_eq!(ids, vec![0, 1, 2]);
    assert_eq!(interner.intern_token("mobile_deposit"), 1);
}

#[test]
fn shares_what_occurs_in_both() {
    assert_eq!(shared_tokens(&[1, 3, 5, 7], &[2, 3, 4, 7, 9]), vec![3, 7]);
    assert_eq!(shared_tokens(&[], &[1]), Vec::<u32>::new());
    assert_eq!(shared_tokens(&[1, 2], &[1, 2]), vec![1, 2]);
    assert_eq!(shared_tokens(&[1], &[2]), Vec::<u32>::new());
}
