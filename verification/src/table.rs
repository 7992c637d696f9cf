//! Rows of a table with dates and amounts.
use vstd::prelude::*;
use vstd::utf8::encode_utf8;

use crate::amount::{
    amount_fault, amount_in_range, cents, checked_amount_cents, is_amount,
};
use crate::cli::texts;
use crate::datetime::{
    checked_datetime_key, datetime_fault, datetime_in_range, datetime_key, is_datetime,
};
use crate::error::{invalid_data, DataError};
use crate::text::{decimal, decimal_text, trim, trimmed};

verus! {

/// The error of the reader of comma separated values.
#[verifier::external_type_specification]
#[verifier::external_body]
pub struct ExCsvError(csv::Error);

/// The records behind the header, each with its fields; `None` for one that could not be read.
pub uninterp spec fn csv_records(data: Seq<u8>) -> Seq<Option<Seq<Seq<char>>>>;

/// The fields of a record, if it could be read.
pub open spec fn record_fields(record: Result<Vec<String>, csv::Error>) -> Option<Seq<Seq<char>>> {
    match record {
        Ok(fields) => Some(texts(fields@)),
        Err(_) => None,
    }
}

/// The fields of each record that could be read.
pub open spec fn records_read(records: Seq<Result<Vec<String>, csv::Error>>) -> Seq<
    Option<Seq<Seq<char>>>,
> {
    Seq::new(records.len(), |i: int| record_fields(records[i]))
}

/// `csv::Reader::records` of a `csv::ReaderBuilder` that trims all fields, on the bytes `data`: the
/// records, or the errors in their places, are a function of the bytes. Nothing is claimed of what
/// an error holds.
#[verifier::external_body]
pub(crate) fn read_csv(data: &[u8]) -> (records: Vec<Result<Vec<String>, csv::Error>>)
    ensures
        records_read(records@) == csv_records(data@),
{
    let mut reader = csv::ReaderBuilder::new().trim(csv::Trim::All).from_reader(data);
    let records = reader.records().map(
        |record| record.map(|fields| fields.iter().map(str::to_owned).collect()),
    ).collect();
    records
}

/// What is said of a record that ends before the field of this name.
pub open spec fn missing_field(name: Seq<char>, index: nat) -> Seq<char> {
    "missing "@ + name + " field at column "@ + decimal(index)
}

/// The field at this place.
pub fn required_field<'a>(record: &'a Vec<String>, index: usize, name: &str) -> (field: Result<
    &'a str,
    DataError,
>)
    ensures
        match field {
            Ok(text) => index < record@.len() && text@ == record@[index as int]@,
            Err(error) => index >= record@.len() && error.message@ == missing_field(
                name@,
                index as nat,
            ),
        },
{
    if index < record.len() {
        Ok(record[index].as_str())
    } else {
        let index = decimal_text(index);
        Err(
            invalid_data(
                "missing ".to_owned().concat(name).concat(" field at column ").concat(
                    index.as_str(),
                ),
            ),
        )
    }
}

/// What a row says of its date and its amount: both, or what is wrong with it, or that it takes a
/// number that is too large.
pub enum Row {
    Good { key: int, cents: int },
    Fault(Seq<char>),
    TooLarge,
}

/// What the texts of a date and of an amount say.
pub open spec fn dated_amount(datetime: Seq<char>, amount: Seq<char>) -> Row {
    let d = encode_utf8(datetime);
    let a = encode_utf8(amount);
    if !datetime_in_range(d) {
        Row::TooLarge
    } else if !is_datetime(d) {
        Row::Fault(datetime_fault(datetime))
    } else if !amount_in_range(a) {
        Row::TooLarge
    } else if !is_amount(a) {
        Row::Fault(amount_fault(amount))
    } else {
        Row::Good { key: datetime_key(d), cents: cents(a) }
    }
}

/// What a row with these fields says, where it must have `columns`; the first is the date and the
/// second the amount.
pub open spec fn row(fields: Seq<Seq<char>>, columns: Seq<Seq<char>>) -> Row {
    if fields.len() < columns.len() {
        Row::Fault(missing_field(columns[fields.len() as int], fields.len()))
    } else {
        dated_amount(trimmed(fields[0]), trimmed(fields[1]))
    }
}

/// Reads a date and an amount; `None` where that takes a number that is too large.
pub(crate) fn read_dated_amount(datetime: &str, amount: &str) -> (read: Result<
    Option<(i64, i64)>,
    DataError,
>)
    ensures
        match dated_amount(datetime@, amount@) {
            Row::Good { key, cents } => read matches Ok(Some((k, c))) && k == key && c == cents
                && c > i64::MIN,
            Row::Fault(message) => read is Err && read->Err_0.message@ == message,
            Row::TooLarge => read == Ok::<Option<(i64, i64)>, DataError>(None),
        },
{
    let key = match checked_datetime_key(datetime) {
        Ok(Some(key)) => key,
        Ok(None) => return Ok(None),
        Err(error) => return Err(error),
    };
    match checked_amount_cents(amount) {
        Ok(Some(cents)) => Ok(Some((key, cents))),
        Ok(None) => Ok(None),
        Err(error) => Err(error),
    }
}

/// What is wrong with a table.
#[derive(Debug)]
pub enum LoadError {
    /// A record could not be read.
    Csv(csv::Error),
    /// A record is not what it should be.
    Data(DataError),
    /// A number is too large.
    OutOfRange,
}

/// A row says something if it has all its fields, the first is a timestamp, the second an amount,
/// and neither is too large; then it says what these mean. White space around them is no matter.
pub proof fn lemma_row_by_fields(fields: Seq<Seq<char>>, columns: Seq<Seq<char>>)
    requires
        columns.len() >= 2,
    ensures
        ({
            let date = encode_utf8(trimmed(fields[0]));
            let amount = encode_utf8(trimmed(fields[1]));
            let read = row(fields, columns);
            &&& read is Good <==> {
                &&& fields.len() >= columns.len()
                &&& is_datetime(date) && datetime_in_range(date)
                &&& is_amount(amount) && amount_in_range(amount)
            }
            &&& read is Good ==> read->key == datetime_key(date) && read->cents == cents(amount)
            &&& read is TooLarge ==> fields.len() >= columns.len() && (!datetime_in_range(date)
                || !amount_in_range(amount))
        }),
{
}

/// What is said of a row that is no good: which field is missing, the first one, and where it would
/// stand; or that the date is no timestamp; or, where the date is one, that the amount is none.
pub proof fn lemma_row_faults(fields: Seq<Seq<char>>, columns: Seq<Seq<char>>)
    requires
        columns.len() >= 2,
    ensures
        ({
            let date = trimmed(fields[0]);
            let amount = trimmed(fields[1]);
            let d = encode_utf8(date);
            let a = encode_utf8(amount);
            let n = fields.len();
            let read = row(fields, columns);
            &&& n < columns.len() ==> read == Row::Fault(
                "missing "@ + columns[n as int] + " field at column "@ + decimal(n),
            )
            &&& n >= columns.len() && datetime_in_range(d) && !is_datetime(d) ==> read
                == Row::Fault("invalid datetime component"@) || read == Row::Fault(
                "invalid datetime: "@ + date,
            )
            &&& n >= columns.len() && datetime_in_range(d) && is_datetime(d) && amount_in_range(a)
                && !is_amount(a) ==> read == Row::Fault(
                if amount.len() == 0 {
                    "empty amount"@
                } else {
                    "invalid amount: "@ + amount
                },
            )
        }),
{
}

} // verus!
