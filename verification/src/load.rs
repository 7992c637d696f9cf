//! Reading bank transactions.
use vstd::prelude::*;
use vstd::utf8::encode_utf8;

use crate::amount::{amount_in_range, cents, is_amount};
use crate::cli::texts;
use crate::datetime::{datetime_in_range, datetime_key, is_datetime};
use crate::records::BankTransaction;
use crate::table::{
    csv_records, read_csv, read_dated_amount, record_fields, records_read, required_field, row,
    LoadError, Row,
};
use crate::text::{trim, trimmed};
use crate::token::{
    are_ids_of, is_kept_in, knows, lemma_ids_stay, lemma_tokens_keep_places, tokens_of, with_tokens,
    TokenInterner,
};

verus! {

/// The columns of a bank statement.
pub open spec fn bank_columns() -> Seq<Seq<char>> {
    seq!["datetime"@, "amount"@, "description"@]
}

/// The `i`-th record has been read, and has a date and an amount.
pub open spec fn is_good(
    records: Seq<Option<Seq<Seq<char>>>>,
    columns: Seq<Seq<char>>,
    i: int,
) -> bool {
    records[i] matches Some(fields) && row(fields, columns) is Good
}

/// The text of the `i`-th record in this column.
pub open spec fn text_at(records: Seq<Option<Seq<Seq<char>>>>, i: int, column: int) -> Seq<char> {
    trimmed(records[i]->0[column])
}

/// The vocabulary after the descriptions of the first `n` records.
pub open spec fn learned(
    known: Map<Seq<char>, usize>,
    records: Seq<Option<Seq<Seq<char>>>>,
    n: int,
) -> Map<Seq<char>, usize>
    decreases n,
{
    if n <= 0 {
        known
    } else {
        with_tokens(learned(known, records, n - 1), tokens_of(text_at(records, n - 1, 2)))
    }
}

/// The amount without its sign.
pub open spec fn magnitude_of(cents: int) -> int {
    if cents < 0 {
        -cents
    } else {
        cents
    }
}

/// `bank` is what the `i`-th record says.
pub open spec fn is_bank_transaction(
    bank: BankTransaction,
    records: Seq<Option<Seq<Seq<char>>>>,
    i: int,
    known: Map<Seq<char>, usize>,
) -> bool {
    &&& bank.index == i
    &&& bank.datetime_raw@ == text_at(records, i, 0)
    &&& bank.description_raw@ == text_at(records, i, 2)
    &&& row(records[i]->0, bank_columns()) == (Row::Good {
        key: bank.datetime_key as int,
        cents: bank.amount_cents as int,
    })
    &&& bank.abs_amount_cents == magnitude_of(bank.amount_cents as int)
    &&& are_ids_of(bank.tokens@, known, tokens_of(bank.description_raw@))
}

/// The `i`-th record cannot be used, and `error` says why.
pub open spec fn is_fault(
    records: Seq<Result<Vec<String>, csv::Error>>,
    columns: Seq<Seq<char>>,
    i: int,
    error: LoadError,
) -> bool {
    match records[i] {
        Err(unread) => error == LoadError::Csv(unread),
        Ok(fields) => match row(texts(fields@), columns) {
            Row::Good { .. } => false,
            Row::Fault(message) => error matches LoadError::Data(data) && data.message@ == message,
            Row::TooLarge => error == LoadError::OutOfRange,
        },
    }
}

/// The error of the record at `i`, which could not be read.
pub(crate) fn unread_record(records: Vec<Result<Vec<String>, csv::Error>>, i: usize) -> (error: LoadError)
    requires
        i < records@.len(),
        records@[i as int] is Err,
    ensures
        error == LoadError::Csv(records@[i as int]->Err_0),
{
    let mut records = records;
    match records.swap_remove(i) {
        Err(unread) => LoadError::Csv(unread),
        Ok(_) => LoadError::OutOfRange,
    }
}

/// What is said of bank transactions that are loaded from `records`.
pub open spec fn bank_loaded(
    records: Seq<Option<Seq<Seq<char>>>>,
    known: Map<Seq<char>, usize>,
    after: Map<Seq<char>, usize>,
    banks: Seq<BankTransaction>,
) -> bool {
    &&& banks.len() == records.len()
    &&& after == learned(known, records, records.len() as int)
    &&& forall|i: int| 0 <= i < records.len() ==> #[trigger] is_good(records, bank_columns(), i)
    &&& forall|i: int|
        0 <= i < records.len() ==> is_bank_transaction(#[trigger] banks[i], records, i, after)
}

/// The bank transactions that the records hold. The first record that cannot be used ends it.
pub fn bank_transactions_from_records(
    records: Vec<Result<Vec<String>, csv::Error>>,
    interner: &mut TokenInterner,
) -> (loaded: Result<Vec<BankTransaction>, LoadError>)
    ensures
        match loaded {
            Ok(banks) => bank_loaded(
                records_read(records@),
                old(interner)@,
                final(interner)@,
                banks@,
            ),
            Err(error) => exists|i: int|
                {
                    &&& 0 <= i < records@.len()
                    &&& #[trigger] is_fault(records@, bank_columns(), i, error)
                    &&& forall|j: int|
                        0 <= j < i ==> #[trigger] is_good(
                            records_read(records@),
                            bank_columns(),
                            j,
                        )
                    &&& final(interner)@ == learned(old(interner)@, records_read(records@), i)
                },
        },
{
    let ghost all = records_read(records@);
    let ghost known = interner@;
    let mut banks: Vec<BankTransaction> = Vec::new();
    let mut i: usize = 0;
    while i < records.len()
        invariant
            all == records_read(records@),
            i <= records@.len(),
            banks@.len() == i,
            interner@ == learned(known, all, i as int),
            known == old(interner)@,
            forall|j: int| 0 <= j < i ==> #[trigger] is_good(all, bank_columns(), j),
            forall|j: int|
                0 <= j < i ==> is_bank_transaction(#[trigger] banks@[j], all, j, interner@)
                    && knows(interner@, tokens_of(banks@[j].description_raw@)),
        decreases records@.len() - i,
    {
        assert(all[i as int] == record_fields(records@[i as int]));
        let fields = match &records[i] {
            Ok(fields) => fields,
            Err(_) => {
                assert(is_fault(
                    records@,
                    bank_columns(),
                    i as int,
                    LoadError::Csv(records@[i as int]->Err_0),
                ));
                return Err(unread_record(records, i));
            },
        };
        assert(records@[i as int] == Ok::<Vec<String>, csv::Error>(*fields));
        let datetime_raw = match required_field(fields, 0, "datetime") {
            Ok(text) => trim(text),
            Err(error) => {
                let error = LoadError::Data(error);
                assert(is_fault(records@, bank_columns(), i as int, error));
                return Err(error);
            },
        };
        let amount_raw = match required_field(fields, 1, "amount") {
            Ok(text) => trim(text),
            Err(error) => {
                let error = LoadError::Data(error);
                assert(is_fault(records@, bank_columns(), i as int, error));
                return Err(error);
            },
        };
        let description_raw = match required_field(fields, 2, "description") {
            Ok(text) => trim(text),
            Err(error) => {
                let error = LoadError::Data(error);
                assert(is_fault(records@, bank_columns(), i as int, error));
                return Err(error);
            },
        };
        let (datetime_key, amount_cents) = match read_dated_amount(
            datetime_raw.as_str(),
            amount_raw.as_str(),
        ) {
            Ok(Some(read)) => read,
            Ok(None) => {
                assert(is_fault(records@, bank_columns(), i as int, LoadError::OutOfRange));
                return Err(LoadError::OutOfRange);
            },
            Err(error) => {
                let error = LoadError::Data(error);
                assert(is_fault(records@, bank_columns(), i as int, error));
                return Err(error);
            },
        };
        assert(is_good(all, bank_columns(), i as int));
        let ghost before = interner@;
        let tokens = interner.tokenize(description_raw.as_str());
        let ghost earlier = banks@;
        banks.push(
            BankTransaction {
                index: i,
                datetime_raw,
                datetime_key,
                amount_cents,
                abs_amount_cents: if amount_cents < 0 {
                    -amount_cents
                } else {
                    amount_cents
                },
                description_raw,
                tokens,
            },
        );
        proof {
            let words = tokens_of(text_at(all, i as int, 2));
            lemma_tokens_keep_places(before, words);
            assert forall|j: int| 0 <= j < i + 1 implies is_bank_transaction(
                #[trigger] banks@[j],
                all,
                j,
                interner@,
            ) && knows(interner@, tokens_of(banks@[j].description_raw@)) by {
                if j < i {
                    assert(banks@[j] == earlier[j]);
                    lemma_ids_stay(
                        earlier[j].tokens@,
                        before,
                        interner@,
                        tokens_of(earlier[j].description_raw@),
                    );
                }
            }
        }
        i += 1;
    }
    Ok(banks)
}

/// The `i`-th record cannot be used, and `error` says why.
pub open spec fn is_fault_of(
    records: Seq<Option<Seq<Seq<char>>>>,
    columns: Seq<Seq<char>>,
    i: int,
    error: LoadError,
) -> bool {
    match records[i] {
        None => error is Csv,
        Some(fields) => match row(fields, columns) {
            Row::Good { .. } => false,
            Row::Fault(message) => error matches LoadError::Data(data) && data.message@ == message,
            Row::TooLarge => error == LoadError::OutOfRange,
        },
    }
}

/// The bank transactions of a file with these bytes.
pub fn load_bank_transactions(data: &[u8], interner: &mut TokenInterner) -> (loaded: Result<
    Vec<BankTransaction>,
    LoadError,
>)
    ensures
        match loaded {
            Ok(banks) => bank_loaded(
                csv_records(data@),
                old(interner)@,
                final(interner)@,
                banks@,
            ),
            Err(error) => exists|i: int|
                {
                    &&& 0 <= i < csv_records(data@).len()
                    &&& #[trigger] is_fault_of(csv_records(data@), bank_columns(), i, error)
                    &&& forall|j: int|
                        0 <= j < i ==> #[trigger] is_good(csv_records(data@), bank_columns(), j)
                    &&& final(interner)@ == learned(old(interner)@, csv_records(data@), i)
                },
        },
{
    let records = read_csv(data);
    let ghost all = records@;
    let ghost known = interner@;
    let loaded = bank_transactions_from_records(records, interner);
    proof {
        if loaded is Err {
            let error = loaded->Err_0;
            let i = choose|i: int|
                {
                    &&& 0 <= i < all.len()
                    &&& #[trigger] is_fault(all, bank_columns(), i, error)
                    &&& forall|j: int|
                        0 <= j < i ==> #[trigger] is_good(records_read(all), bank_columns(), j)
                    &&& interner@ == learned(known, records_read(all), i)
                };
            assert(records_read(all)[i] == record_fields(all[i]));
            assert(is_fault_of(csv_records(data@), bank_columns(), i, error));
        }
    }
    loaded
}

/// The transaction is what the fields of the `i`-th row say.
pub open spec fn bank_by_fields(
    records: Seq<Option<Seq<Seq<char>>>>,
    i: int,
    known: Map<Seq<char>, usize>,
    bank: BankTransaction,
) -> bool {
    let fields = records[i]->0;
    &&& records[i] is Some
    &&& fields.len() >= 3
    &&& bank.index == i
    &&& bank.datetime_raw@ == trimmed(fields[0])
    &&& bank.datetime_key == datetime_key(encode_utf8(trimmed(fields[0])))
    &&& bank.amount_cents == cents(encode_utf8(trimmed(fields[1])))
    &&& bank.abs_amount_cents >= 0
    &&& bank.abs_amount_cents == bank.amount_cents || bank.abs_amount_cents == -bank.amount_cents
    &&& bank.description_raw@ == trimmed(fields[2])
    &&& are_ids_of(bank.tokens@, known, tokens_of(trimmed(fields[2])))
    &&& knows(known, tokens_of(trimmed(fields[2])))
}

/// What the rows of a bank statement say, field by field: there is a transaction for each row, in
/// their order and numbered by it; its date, its amount and its description are the first three
/// fields, without white space around them, and its tokens are those of the description.
pub proof fn lemma_bank_by_fields(
    records: Seq<Option<Seq<Seq<char>>>>,
    known: Map<Seq<char>, usize>,
    after: Map<Seq<char>, usize>,
    banks: Seq<BankTransaction>,
)
    requires
        bank_loaded(records, known, after, banks),
    ensures
        banks.len() == records.len(),
        forall|i: int|
            0 <= i < records.len() ==> bank_by_fields(records, i, after, #[trigger] banks[i]),
        is_kept_in(known, after),
{
    let n = records.len() as int;
    lemma_learned(known, records, n);
    assert forall|i: int| 0 <= i < records.len() implies bank_by_fields(
        records,
        i,
        after,
        #[trigger] banks[i],
    ) by {
        assert(is_good(records, bank_columns(), i));
        assert(is_bank_transaction(banks[i], records, i, after));
        assert(knows(after, tokens_of(text_at(records, i, 2))));
    }
}

proof fn lemma_learned(
    known: Map<Seq<char>, usize>,
    records: Seq<Option<Seq<Seq<char>>>>,
    n: int,
)
    requires
        0 <= n,
    ensures
        is_kept_in(known, learned(known, records, n)),
        forall|i: int|
            0 <= i < n ==> knows(
                learned(known, records, n),
                tokens_of(#[trigger] text_at(records, i, 2)),
            ),
    decreases n,
{
    if n > 0 {
        lemma_learned(known, records, n - 1);
        let before = learned(known, records, n - 1);
        let now = learned(known, records, n);
        lemma_tokens_keep_places(before, tokens_of(text_at(records, n - 1, 2)));
        assert forall|i: int| 0 <= i < n implies knows(
            now,
            tokens_of(#[trigger] text_at(records, i, 2)),
        ) by {
            let words = tokens_of(text_at(records, i, 2));
            if i < n - 1 {
                assert(knows(before, words));
                assert forall|k: int| 0 <= k < words.len() implies now.contains_key(
                    #[trigger] words[k],
                ) by {
                    assert(before.contains_key(words[k]));
                }
            }
        }
    }
}

/// A row with all its fields, a timestamp and an amount, neither of which is too large, is no
/// reason to give up; and nothing else is a good row.
pub proof fn lemma_good_rows(
    records: Seq<Option<Seq<Seq<char>>>>,
    columns: Seq<Seq<char>>,
    i: int,
    error: LoadError,
)
    requires
        columns.len() >= 2,
    ensures
        ({
            let fields = records[i]->0;
            let date = encode_utf8(trimmed(fields[0]));
            let amount = encode_utf8(trimmed(fields[1]));
            let good = {
                &&& records[i] is Some
                &&& fields.len() >= columns.len()
                &&& is_datetime(date) && datetime_in_range(date)
                &&& is_amount(amount) && amount_in_range(amount)
            };
            &&& is_good(records, columns, i) <==> good
            &&& good ==> !is_fault_of(records, columns, i, error)
        }),
        bank_columns().len() == 3,
{
}

} // verus!
