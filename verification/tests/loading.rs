use reconcile::ledger::{journal_entries_from_records, load_journal_entries};
use reconcile::listing::{build_candidates, check_windows};
use reconcile::load::{bank_transactions_from_records, load_bank_transactions};
use reconcile::records::HasTokens;
use reconcile::report::{build_match_records, count_candidate_free};
use reconcile::table::{required_field, LoadError};
use reconcile::token::TokenInterner;
use reconcile::weights::{checked_document_frequencies, document_frequencies};
use reconcile::candidate::{Assignment, Candidate};

const BANK: &[u8] = b"datetime,amount,description\n\
    3/14/23 0:00, -100.00 ,  ACH DEBIT Acme \n\
    3/20/23 12:30,250,\"Rent, March\"\n\
    6/1/23 0:00,100.01,late\n";

const LEDGER: &[u8] = b"datetime,amount,description,journal_entry_id\n\
    3/15/23 0:00,60.00,Acme,JE1\n\
    3/16/23 0:00,250.00,,JE2\n\
    3/17/23 0:00,40.00,invoice,JE1\n\
    3/18/23 0:00,0.00,rent,JE2\n";

fn fields(texts: &[&str]) -> Result<Vec<String>, csv::Error> {
    Ok(texts.iter().map(|text| text.to_string()).collect())
}

fn message(error: LoadError) -> String {
    match error {
        LoadError::Csv(_) => "csv".to_owned(),
        LoadError::Data(error) => error.message,
        LoadError::OutOfRange => "out of range".to_owned(),
    }
}

#[test]
fn loads_bank_transactions() {
    let mut interner = TokenInterner::default();
    let banks = load_bank_transactions(BANK, &mut interner).unwrap();
    assert_eq!(banks.len(), 3);
    assert_eq!(banks[0].index, 0);
    assert_eq!(banks[0].datetime_raw, "3/14/23 0:00");
    assert_eq!(banks[0].datetime_key, 19_430 * 1_440);
    assert_eq!(banks[0].amount_cents, -10_000);
    assert_eq!(banks[0].abs_amount_cents, 10_000);
    assert_eq!(banks[0].description_raw, "ACH DEBIT Acme");
    assert_eq!(banks[0].tokens(), &[0, 1, 2, 3]);
    assert_eq!(banks[1].index, 1);
    assert_eq!(banks[1].description_raw, "Rent, March");
    assert_eq!(banks[1].tokens(), &[4, 5]);
    assert_eq!(banks[2].amount_cents, 10_001);
    assert_eq!(interner.len(), 7);
    assert_eq!(interner.intern_token("ach_debit"), 3);
}

#[test]
fn groups_ledger_lines_by_identifier() {
    let mut interner = TokenInterner::default();
    let entries = load_journal_entries(LEDGER, &mut interner).unwrap();
    assert_eq!(entries.len(), 2);
    assert_eq!(entries[0].journal_entry_id, "JE1");
    assert_eq!(entries[0].datetime_raw, "3/15/23 0:00");
    assert_eq!(entries[0].amount_cents, 10_000);
    assert_eq!(entries[0].description_raw, "Acme invoice");
    assert_eq!(entries[0].num_lines, 2);
    assert_eq!(entries[0].tokens(), &[0, 1]);
    assert_eq!(entries[1].journal_entry_id, "JE2");
    assert_eq!(entries[1].datetime_raw, "3/16/23 0:00");
    assert_eq!(entries[1].amount_cents, 25_000);
    assert_eq!(entries[1].description_raw, "rent");
    assert_eq!(entries[1].num_lines, 2);
    assert_eq!(entries[1].tokens(), &[2]);
}

#[test]
fn amounts_of_both_signs_add_up() {
    let mut interner = TokenInterner::default();
    let entries = journal_entries_from_records(
        vec![
            fields(&["1/1/23 0:00", "-70", "", "A"]),
            fields(&["1/2/23 0:00", "20", "", "A"]),
        ],
        &mut interner,
    )
    .unwrap();
    assert_eq!(entries[0].amount_cents, -5_000);
    assert_eq!(entries[0].abs_amount_cents, 5_000);
    assert_eq!(entries[0].description_raw, "");
    assert_eq!(interner.len(), 0);
}

#[test]
fn trims_unicode_white_space() {
    let mut interner = TokenInterner::default();
    let banks = bank_transactions_from_records(
        vec![fields(&[
            "\u{3000}1/1/23 0:00\t",
            "\u{a0}1\u{2003}",
            " x\u{a0}y\u{200b} ",
        ])],
        &mut interner,
    )
    .unwrap();
    assert_eq!(banks[0].datetime_raw, "1/1/23 0:00");
    assert_eq!(banks[0].amount_cents, 100);
    // inside a text, and where it has no width, it stays
    assert_eq!(banks[0].description_raw, "x\u{a0}y\u{200b}");
}

#[test]
fn the_first_fault_is_reported() {
    let mut interner = TokenInterner::default();
    let good = ["1/1/23 0:00", "5", "alpha beta"];
    let cases: Vec<(Vec<&str>, &str)> = vec![
        (vec![], "missing datetime field at column 0"),
        (vec!["1/1/23 0:00"], "missing amount field at column 1"),
        (vec!["x", "y"], "missing description field at column 2"),
        (vec!["x", "y", "z"], "invalid datetime component"),
        (vec!["13/1/23 0:00", "y", "z"], "invalid datetime: 13/1/23 0:00"),
        (vec!["1/1/23 0:00", "y", "z"], "invalid amount: y"),
        (vec!["1/1/23 0:00", "", "z"], "empty amount"),
        (vec!["1/1/23 0:00", "99999999999999999999", "z"], "out of range"),
        (vec!["1/99999999999/23 0:00", "1", "z"], "out of range"),
    ];
    for (bad, expected) in cases {
        let error = bank_transactions_from_records(
            vec![fields(&good), fields(&bad), fields(&[])],
            &mut interner,
        )
        .unwrap_err();
        assert_eq!(message(error), expected);
        // what stood before the fault has been learned
        assert_eq!(interner.len(), 2);
    }
}

#[test]
fn ledger_faults_are_reported() {
    let mut interner = TokenInterner::default();
    let good = ["1/1/23 0:00", "5", "alpha", "A"];
    let large = "92233720368547758.07";
    let cases: Vec<(Vec<&str>, &str)> = vec![
        (
            vec!["1/1/23 0:00", "5", "alpha"],
            "missing journal_entry_id field at column 3",
        ),
        (vec!["1/1/23", "5", "alpha", "A"], "invalid datetime component"),
        (vec!["1/1/23 0:00", "5..", "alpha", "A"], "invalid amount: 5.."),
        (vec!["1/1/23 0:00", large, "alpha", "A"], "out of range"),
    ];
    for (bad, expected) in cases {
        let error =
            journal_entries_from_records(vec![fields(&good), fields(&bad)], &mut interner)
                .unwrap_err();
        assert_eq!(message(error), expected);
        assert_eq!(interner.len(), 0);
    }
    let fits = ["1/1/23 0:00", large, "alpha", "B"];
    assert!(
        journal_entries_from_records(vec![fields(&good), fields(&fits)], &mut interner).is_ok()
    );
    let error = journal_entries_from_records(
        vec![
            fields(&["1/1/23 0:00", "-92233720368547758.07", "", "A"]),
            fields(&["1/1/23 0:00", "-0.01", "", "A"]),
        ],
        &mut interner,
    )
    .unwrap_err();
    assert_eq!(message(error), "out of range");
}

#[test]
fn records_that_cannot_be_read_end_the_loading() {
    let mut interner = TokenInterner::default();
    let ragged = b"datetime,amount,description\n1/1/23 0:00,1,a\n1/1/23 0:00,1\n";
    let error = load_bank_transactions(ragged, &mut interner).unwrap_err();
    assert_eq!(message(error), "csv");
    let garbled = b"datetime,amount,description\n1/1/23 0:00,1,\xff\n";
    let error = load_bank_transactions(garbled, &mut interner).unwrap_err();
    assert_eq!(message(error), "csv");
    let ragged = b"datetime,amount,description,journal_entry_id\n1/1/23 0:00,1,a\n";
    let error = load_journal_entries(ragged, &mut interner).unwrap_err();
    assert_eq!(message(error), "csv");
    assert!(load_bank_transactions(b"", &mut interner).unwrap().is_empty());
    assert!(load_journal_entries(b"a,b,c,d\n", &mut interner).unwrap().is_empty());
}

#[test]
fn fields_are_required() {
    let record = vec!["a".to_owned(), "b".to_owned()];
    assert_eq!(required_field(&record, 1, "second").unwrap(), "b");
    assert_eq!(
        required_field(&record, 12, "twelfth").unwrap_err().message,
        "missing twelfth field at column 12"
    );
}

#[test]
fn candidates_agree_in_amount_and_date() {
    let mut interner = TokenInterner::default();
    let banks = bank_transactions_from_records(
        vec![
            fields(&["1/20/23 0:00", "10.01", "high"]),
            fields(&["1/18/23 0:00", "-10.00", "same, later"]),
            fields(&["1/10/23 0:00", "10.00", "same, earlier"]),
            fields(&["1/15/23 0:00", "9.99", "low"]),
            fields(&["1/15/23 0:00", "9.98", "too low"]),
            fields(&["1/15/23 0:00", "10.02", "too high"]),
            fields(&["1/30/23 0:00", "10.00", "at the edge"]),
            fields(&["1/30/23 0:01", "10.00", "beyond the edge"]),
            fields(&["12/31/22 0:00", "10.00", "at the other edge"]),
        ],
        &mut interner,
    )
    .unwrap();
    let entries = journal_entries_from_records(
        vec![
            fields(&["1/15/23 0:00", "10", "x", "A"]),
            fields(&["1/15/23 0:00", "77", "x", "B"]),
        ],
        &mut interner,
    )
    .unwrap();
    let lists = build_candidates(&banks, &entries, |g: usize, x: usize| (10 * g + x) as u32);
    let places: Vec<usize> = lists[0].iter().map(|candidate| candidate.bank_idx).collect();
    assert_eq!(places, vec![3, 8, 2, 1, 6, 0]);
    let gaps: Vec<i64> = lists[0].iter().map(|candidate| candidate.minute_gap).collect();
    assert_eq!(gaps, vec![0, 21_600, 7_200, 4_320, 21_600, 7_200]);
    assert!(lists[0].iter().all(|candidate| candidate.score_ppm as usize == candidate.bank_idx));
    assert!(lists[1].is_empty());
    assert_eq!(count_candidate_free(&lists), 1);
}

#[test]
fn counts_descriptions_with_a_token() {
    let mut interner = TokenInterner::default();
    let banks = load_bank_transactions(BANK, &mut interner).unwrap();
    let entries = load_journal_entries(LEDGER, &mut interner).unwrap();
    let counts = document_frequencies(&banks, &entries, interner.len());
    assert_eq!(counts.len(), interner.len());
    assert_eq!(counts[interner.intern_token("acme") as usize], 2);
    assert_eq!(counts[interner.intern_token("rent") as usize], 2);
    assert_eq!(counts[interner.intern_token("invoice") as usize], 1);
    assert_eq!(
        checked_document_frequencies(&banks, &entries, interner.len()),
        Some(counts)
    );
    assert_eq!(checked_document_frequencies(&banks, &entries, 1), None);
}

#[test]
fn windows_matter_where_amounts_agree() {
    let mut interner = TokenInterner::default();
    let banks = load_bank_transactions(BANK, &mut interner).unwrap();
    let mut entries = load_journal_entries(LEDGER, &mut interner).unwrap();
    assert!(check_windows(&banks, &entries));
    entries[0].datetime_key = i64::MAX;
    assert!(!check_windows(&banks, &entries));
    // no transaction has this amount
    entries[0].abs_amount_cents = 77;
    assert!(check_windows(&banks, &entries));
    let lists = build_candidates(&banks, &entries, |_: usize, _: usize| 0);
    assert!(lists[0].is_empty());
    assert_eq!(lists[1].len(), 1);
}

#[test]
fn records_matched_entries_only() {
    let mut interner = TokenInterner::default();
    let banks = load_bank_transactions(BANK, &mut interner).unwrap();
    let entries = load_journal_entries(LEDGER, &mut interner).unwrap();
    let assignments = vec![
        None,
        Some(Assignment {
            bank_idx: 1,
            score_ppm: 123_456,
            minute_gap: 5,
        }),
    ];
    let matches = build_match_records(&assignments, &banks, &entries);
    assert_eq!(matches.len(), 1);
    assert_eq!(matches[0].journal_entry_id, "JE2");
    assert_eq!(matches[0].gl_datetime, "3/16/23 0:00");
    assert_eq!(matches[0].gl_amount_cents, 25_000);
    assert_eq!(matches[0].gl_description, "rent");
    assert_eq!(matches[0].num_lines, 2);
    assert_eq!(matches[0].bank_index, 1);
    assert_eq!(matches[0].bank_datetime, "3/20/23 12:30");
    assert_eq!(matches[0].bank_amount_cents, 25_000);
    assert_eq!(matches[0].bank_description, "Rent, March");
    assert_eq!(matches[0].score_ppm, 123_456);
    let none: Vec<Vec<Candidate>> = vec![];
    assert_eq!(count_candidate_free(&none), 0);
}
