//! Bank transactions and journal entries.
use vstd::prelude::*;

verus! {

/// A row of the bank statement.
#[derive(Debug)]
pub struct BankTransaction {
    pub index: usize,
    pub datetime_raw: String,
    pub datetime_key: i64,
    pub amount_cents: i64,
    pub abs_amount_cents: i64,
    pub description_raw: String,
    pub tokens: Vec<u32>,
}

/// The rows of the general ledger that share an identifier, taken together.
#[derive(Debug)]
pub struct JournalEntry {
    pub journal_entry_id: String,
    pub datetime_raw: String,
    pub datetime_key: i64,
    pub amount_cents: i64,
    pub abs_amount_cents: i64,
    pub description_raw: String,
    pub num_lines: usize,
    pub tokens: Vec<u32>,
}

/// What has a description that has been split into tokens.
pub trait HasTokens {
    /// The numbers of the tokens.
    spec fn token_ids(&self) -> Seq<u32>;

    fn tokens(&self) -> (ids: &[u32])
        ensures
            ids@ == self.token_ids(),
    ;
}

impl HasTokens for BankTransaction {
    open spec fn token_ids(&self) -> Seq<u32> {
        self.tokens@
    }

    fn tokens(&self) -> (ids: &[u32]) {
        self.tokens.as_slice()
    }
}

impl HasTokens for JournalEntry {
    open spec fn token_ids(&self) -> Seq<u32> {
        self.tokens@
    }

    fn tokens(&self) -> (ids: &[u32]) {
        self.tokens.as_slice()
    }
}

} // verus!
