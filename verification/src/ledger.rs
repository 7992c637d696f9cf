//! Reading journal entries.
use rustc_hash::FxHashMap;
use vstd::prelude::*;
use vstd::utf8::encode_utf8;

use crate::amount::{amount_in_range, cents, is_amount};
use crate::datetime::{datetime_in_range, datetime_key, is_datetime};
use crate::load::{is_fault, is_fault_of, is_good, magnitude_of, text_at, unread_record};
use crate::places::{get_place, no_places, places_held, put_place};
use crate::records::JournalEntry;
use crate::sums::{lemma_sum_eq, sum};
use crate::table::{
    csv_records, read_csv, read_dated_amount, record_fields, records_read, required_field, row,
    LoadError,
};
use crate::text::{trim, trimmed};
use crate::token::{
    are_ids_of, is_kept_in, knows, lemma_ids_stay, lemma_tokens_keep_places, tokens_of, with_tokens,
    TokenInterner,
};

verus! {

/// The columns of a general ledger.
pub open spec fn ledger_columns() -> Seq<Seq<char>> {
    seq!["datetime"@, "amount"@, "description"@, "journal_entry_id"@]
}

/// A journal entry as far as its rows have been read.
pub struct Draft {
    pub id: Seq<char>,
    pub datetime: Seq<char>,
    pub key: int,
    pub cents: int,
    pub description: Seq<char>,
    pub lines: int,
}

/// Two descriptions, with a space between them where neither is empty.
pub open spec fn joined(first: Seq<char>, second: Seq<char>) -> Seq<char> {
    if second.len() == 0 {
        first
    } else if first.len() == 0 {
        second
    } else {
        first + " "@ + second
    }
}

/// There is an entry with this identifier.
pub open spec fn has_entry(drafts: Seq<Draft>, id: Seq<char>) -> bool {
    exists|k: int| 0 <= k < drafts.len() && #[trigger] drafts[k].id == id
}

/// Where the entry with this identifier stands.
pub open spec fn entry_place(drafts: Seq<Draft>, id: Seq<char>) -> int {
    choose|k: int| 0 <= k < drafts.len() && #[trigger] drafts[k].id == id
}

/// The entries with one more row: it is added to the entry with its identifier, or starts one.
pub open spec fn with_line(drafts: Seq<Draft>, line: Draft) -> Seq<Draft> {
    if has_entry(drafts, line.id) {
        let k = entry_place(drafts, line.id);
        drafts.update(
            k,
            Draft {
                cents: drafts[k].cents + line.cents,
                description: joined(drafts[k].description, line.description),
                lines: drafts[k].lines + 1,
                ..drafts[k]
            },
        )
    } else {
        drafts.push(line)
    }
}

/// The `i`-th row as an entry of its own.
pub open spec fn line_at(records: Seq<Option<Seq<Seq<char>>>>, i: int) -> Draft {
    let read = row(records[i]->0, ledger_columns());
    Draft {
        id: text_at(records, i, 3),
        datetime: text_at(records, i, 0),
        key: read->key,
        cents: read->cents,
        description: text_at(records, i, 2),
        lines: 1,
    }
}

/// The entries that the first `n` rows make.
pub open spec fn drafts_of(records: Seq<Option<Seq<Seq<char>>>>, n: int) -> Seq<Draft>
    decreases n,
{
    if n <= 0 {
        Seq::empty()
    } else {
        with_line(drafts_of(records, n - 1), line_at(records, n - 1))
    }
}

/// The amounts of all entries can be held.
pub open spec fn sums_fit(drafts: Seq<Draft>) -> bool {
    forall|k: int|
        0 <= k < drafts.len() ==> i64::MIN <= (#[trigger] drafts[k]).cents <= i64::MAX
}

/// The `i`-th row can be used, and so can the sums that it leads to.
pub open spec fn is_good_line(records: Seq<Option<Seq<Seq<char>>>>, i: int) -> bool {
    is_good(records, ledger_columns(), i) && sums_fit(drafts_of(records, i + 1))
}

/// The amounts of all entries can be held without their signs.
pub open spec fn signs_drop(drafts: Seq<Draft>) -> bool {
    forall|k: int| 0 <= k < drafts.len() ==> (#[trigger] drafts[k]).cents > i64::MIN
}

/// The vocabulary after the descriptions of the first `n` entries.
pub open spec fn learned_entries(known: Map<Seq<char>, usize>, drafts: Seq<Draft>, n: int) -> Map<
    Seq<char>,
    usize,
>
    decreases n,
{
    if n <= 0 {
        known
    } else {
        with_tokens(
            learned_entries(known, drafts, n - 1),
            tokens_of(drafts[n - 1].description),
        )
    }
}

/// `entry` is what `draft` says.
pub open spec fn is_journal_entry(
    entry: JournalEntry,
    draft: Draft,
    known: Map<Seq<char>, usize>,
) -> bool {
    &&& entry.journal_entry_id@ == draft.id
    &&& entry.datetime_raw@ == draft.datetime
    &&& entry.datetime_key == draft.key
    &&& entry.amount_cents == draft.cents
    &&& entry.abs_amount_cents == magnitude_of(draft.cents)
    &&& entry.description_raw@ == draft.description
    &&& entry.num_lines == draft.lines
    &&& are_ids_of(entry.tokens@, known, tokens_of(draft.description))
}

/// What is said of journal entries that are loaded from `records`.
pub open spec fn entries_loaded(
    records: Seq<Option<Seq<Seq<char>>>>,
    known: Map<Seq<char>, usize>,
    after: Map<Seq<char>, usize>,
    entries: Seq<JournalEntry>,
) -> bool {
    let drafts = drafts_of(records, records.len() as int);
    &&& forall|i: int| 0 <= i < records.len() ==> #[trigger] is_good_line(records, i)
    &&& signs_drop(drafts)
    &&& entries.len() == drafts.len()
    &&& after == learned_entries(known, drafts, drafts.len() as int)
    &&& forall|k: int|
        0 <= k < drafts.len() ==> is_journal_entry(#[trigger] entries[k], drafts[k], after)
}

/// A journal entry as far as its rows have been read.
struct JournalEntryBuilder {
    journal_entry_id: String,
    datetime_raw: String,
    datetime_key: i64,
    amount_cents: i64,
    description_raw: String,
    num_lines: usize,
}

impl JournalEntryBuilder {
    spec fn draft(self) -> Draft {
        Draft {
            id: self.journal_entry_id@,
            datetime: self.datetime_raw@,
            key: self.datetime_key as int,
            cents: self.amount_cents as int,
            description: self.description_raw@,
            lines: self.num_lines as int,
        }
    }
}

spec fn drafts_held(builders: Seq<JournalEntryBuilder>) -> Seq<Draft> {
    Seq::new(builders.len(), |k: int| builders[k].draft())
}

/// No two entries have the same identifier.
pub open spec fn ids_differ(drafts: Seq<Draft>) -> bool {
    forall|k: int, m: int|
        0 <= k < m < drafts.len() ==> (#[trigger] drafts[k]).id != (#[trigger] drafts[m]).id
}

/// The map holds the place of each entry.
spec fn places_right(places: Map<Seq<char>, usize>, drafts: Seq<Draft>) -> bool {
    &&& forall|id: Seq<char>| #[trigger]
        places.contains_key(id) ==> places[id] < drafts.len() && drafts[places[id] as int].id == id
    &&& forall|k: int| 0 <= k < drafts.len() ==> places.contains_key((#[trigger] drafts[k]).id)
}

/// The entry stands where the map says.
proof fn lemma_entry_place(drafts: Seq<Draft>, places: Map<Seq<char>, usize>, id: Seq<char>)
    requires
        ids_differ(drafts),
        places_right(places, drafts),
    ensures
        has_entry(drafts, id) <==> places.contains_key(id),
        has_entry(drafts, id) ==> entry_place(drafts, id) == places[id],
{
    if has_entry(drafts, id) {
        let k = entry_place(drafts, id);
        assert(drafts[k].id == id);
        let m = places[id] as int;
        assert(places.contains_key(drafts[k].id));
        if k < m {
            assert(drafts[k].id != drafts[m].id);
        } else if m < k {
            assert(drafts[m].id != drafts[k].id);
        }
    }
}

/// One more row keeps identifiers apart.
proof fn lemma_with_line(drafts: Seq<Draft>, line: Draft)
    requires
        ids_differ(drafts),
    ensures
        ids_differ(with_line(drafts, line)),
        has_entry(with_line(drafts, line), line.id),
{
    let next = with_line(drafts, line);
    if has_entry(drafts, line.id) {
        let k = entry_place(drafts, line.id);
        assert(drafts[k].id == line.id);
        assert forall|a: int, b: int| 0 <= a < b < next.len() implies (#[trigger] next[a]).id
            != (#[trigger] next[b]).id by {
            assert(drafts[a].id != drafts[b].id);
        }
        assert(next[k].id == line.id);
    } else {
        assert forall|a: int, b: int| 0 <= a < b < next.len() implies (#[trigger] next[a]).id
            != (#[trigger] next[b]).id by {
            if b < drafts.len() {
                assert(drafts[a].id != drafts[b].id);
            } else {
                assert(drafts[a].id != line.id);
            }
        }
        assert(next[drafts.len() as int].id == line.id);
    }
}

/// The sum of the amounts of the first `n` rows with this identifier.
pub open spec fn group_cents(records: Seq<Option<Seq<Seq<char>>>>, n: int, id: Seq<char>) -> int {
    sum(
        n,
        |i: int|
            if line_at(records, i).id == id {
                line_at(records, i).cents
            } else {
                0
            },
    )
}

/// How many of the first `n` rows have this identifier.
pub open spec fn group_lines(records: Seq<Option<Seq<Seq<char>>>>, n: int, id: Seq<char>) -> int {
    sum(
        n,
        |i: int|
            if line_at(records, i).id == id {
                1
            } else {
                0
            },
    )
}

/// The descriptions of the first `n` rows with this identifier that are not empty, with spaces
/// between them.
pub open spec fn group_description(
    records: Seq<Option<Seq<Seq<char>>>>,
    n: int,
    id: Seq<char>,
) -> Seq<char>
    decreases n,
{
    if n <= 0 {
        Seq::empty()
    } else if line_at(records, n - 1).id == id {
        joined(group_description(records, n - 1, id), line_at(records, n - 1).description)
    } else {
        group_description(records, n - 1, id)
    }
}

/// The `i`-th row is the first with this identifier.
pub open spec fn is_first_line(
    records: Seq<Option<Seq<Seq<char>>>>,
    i: int,
    id: Seq<char>,
) -> bool {
    &&& 0 <= i
    &&& line_at(records, i).id == id
    &&& forall|j: int| 0 <= j < i ==> (#[trigger] line_at(records, j)).id != id
}

/// `draft` is made of the rows with its identifier among the first `n`.
pub open spec fn is_group(
    records: Seq<Option<Seq<Seq<char>>>>,
    n: int,
    draft: Draft,
) -> bool {
    &&& draft.cents == group_cents(records, n, draft.id)
    &&& draft.lines == group_lines(records, n, draft.id)
    &&& draft.description == group_description(records, n, draft.id)
    &&& exists|i: int|
        i < n && #[trigger] is_first_line(records, i, draft.id) && draft.datetime == line_at(
            records,
            i,
        ).datetime && draft.key == line_at(records, i).key
}

/// Rows are grouped by their identifiers: no two entries have the same, each row has an entry, and
/// an entry has the date of its first row, the sum of the amounts, the descriptions one after the
/// other, and the number of rows.
pub proof fn lemma_entries_are_groups(records: Seq<Option<Seq<Seq<char>>>>, n: int)
    requires
        0 <= n,
    ensures
        ids_differ(drafts_of(records, n)),
        forall|i: int|
            0 <= i < n ==> has_entry(drafts_of(records, n), (#[trigger] line_at(records, i)).id),
        forall|k: int|
            0 <= k < drafts_of(records, n).len() ==> is_group(
                records,
                n,
                #[trigger] drafts_of(records, n)[k],
            ),
    decreases n,
{
    if n > 0 {
        lemma_entries_are_groups(records, n - 1);
        let old_drafts = drafts_of(records, n - 1);
        let line = line_at(records, n - 1);
        let drafts = drafts_of(records, n);
        lemma_with_line(old_drafts, line);
        assert forall|i: int| 0 <= i < n implies has_entry(
            drafts,
            (#[trigger] line_at(records, i)).id,
        ) by {
            if i < n - 1 {
                let id = line_at(records, i).id;
                assert(has_entry(old_drafts, id));
                let k = entry_place(old_drafts, id);
                assert(old_drafts[k].id == id);
                if has_entry(old_drafts, line.id) {
                    let m = entry_place(old_drafts, line.id);
                    assert(old_drafts[m].id == line.id);
                }
                assert(drafts[k].id == id);
            }
        }
        assert forall|k: int| 0 <= k < drafts.len() implies is_group(
            records,
            n,
            #[trigger] drafts[k],
        ) by {
            let id = drafts[k].id;
            if has_entry(old_drafts, line.id) {
                let m = entry_place(old_drafts, line.id);
                assert(old_drafts[m].id == line.id);
                assert(is_group(records, n - 1, old_drafts[k]));
                assert(old_drafts[k].id == id);
                if k != m {
                    if k < m {
                        assert(old_drafts[k].id != old_drafts[m].id);
                    } else {
                        assert(old_drafts[m].id != old_drafts[k].id);
                    }
                }
            } else if k < old_drafts.len() {
                assert(is_group(records, n - 1, old_drafts[k]));
                assert(old_drafts[k].id != line.id);
            } else {
                assert forall|j: int| 0 <= j < n - 1 implies (#[trigger] line_at(records, j)).id
                    != line.id by {
                    assert(has_entry(old_drafts, line_at(records, j).id));
                }
                assert(is_first_line(records, n - 1, line.id));
                lemma_empty_group(records, n - 1, line.id);
                assert(joined(Seq::empty(), line.description) =~= line.description);
            }
        }
    }
}

/// A group without rows.
proof fn lemma_empty_group(records: Seq<Option<Seq<Seq<char>>>>, n: int, id: Seq<char>)
    requires
        forall|j: int| 0 <= j < n ==> (#[trigger] line_at(records, j)).id != id,
    ensures
        group_cents(records, n, id) == 0,
        group_lines(records, n, id) == 0,
        group_description(records, n, id) == Seq::<char>::empty(),
    decreases n,
{
    if n > 0 {
        lemma_empty_group(records, n - 1, id);
        assert(line_at(records, n - 1).id != id);
    }
}

/// A row as it has been read.
struct Line {
    journal_entry_id: String,
    datetime_raw: String,
    datetime_key: i64,
    amount_cents: i64,
    description_raw: String,
}

impl Line {
    spec fn draft(self) -> Draft {
        Draft {
            id: self.journal_entry_id@,
            datetime: self.datetime_raw@,
            key: self.datetime_key as int,
            cents: self.amount_cents as int,
            description: self.description_raw@,
            lines: 1,
        }
    }
}

/// Reads a row.
fn read_line(fields: &Vec<String>, Ghost(all): Ghost<Seq<Result<Vec<String>, csv::Error>>>, Ghost(
    i,
): Ghost<int>) -> (read: Result<Line, LoadError>)
    requires
        0 <= i < all.len(),
        all[i] == Ok::<Vec<String>, csv::Error>(*fields),
    ensures
        match read {
            Ok(line) => is_good(records_read(all), ledger_columns(), i) && line.draft() == line_at(
                records_read(all),
                i,
            ),
            Err(error) => is_fault(all, ledger_columns(), i, error),
        },
{
    assert(records_read(all)[i] == record_fields(all[i]));
    let datetime_raw = match required_field(fields, 0, "datetime") {
        Ok(text) => trim(text),
        Err(error) => return Err(LoadError::Data(error)),
    };
    let amount_raw = match required_field(fields, 1, "amount") {
        Ok(text) => trim(text),
        Err(error) => return Err(LoadError::Data(error)),
    };
    let description_raw = match required_field(fields, 2, "description") {
        Ok(text) => trim(text),
        Err(error) => return Err(LoadError::Data(error)),
    };
    let journal_entry_id = match required_field(fields, 3, "journal_entry_id") {
        Ok(text) => trim(text),
        Err(error) => return Err(LoadError::Data(error)),
    };
    match read_dated_amount(datetime_raw.as_str(), amount_raw.as_str()) {
        Ok(Some((datetime_key, amount_cents))) => Ok(
            Line { journal_entry_id, datetime_raw, datetime_key, amount_cents, description_raw },
        ),
        Ok(None) => Err(LoadError::OutOfRange),
        Err(error) => Err(LoadError::Data(error)),
    }
}

/// No entry has more than `n` rows.
spec fn lines_within(builders: Seq<JournalEntryBuilder>, n: int) -> bool {
    forall|k: int| 0 <= k < builders.len() ==> (#[trigger] builders[k]).num_lines <= n
}

/// Adds a row to its entry; `false`, and nothing of use, where the sum cannot be held.
fn add_line(
    builders: &mut Vec<JournalEntryBuilder>,
    positions: &mut FxHashMap<String, usize>,
    line: Line,
    Ghost(n): Ghost<int>,
) -> (added: bool)
    requires
        ids_differ(drafts_held(old(builders)@)),
        sums_fit(drafts_held(old(builders)@)),
        places_right(places_held(*old(positions)), drafts_held(old(builders)@)),
        lines_within(old(builders)@, n),
        0 <= n < usize::MAX,
    ensures
        added == sums_fit(with_line(drafts_held(old(builders)@), line.draft())),
        added ==> {
            &&& drafts_held(final(builders)@) == with_line(
                drafts_held(old(builders)@),
                line.draft(),
            )
            &&& ids_differ(drafts_held(final(builders)@))
            &&& places_right(places_held(*final(positions)), drafts_held(final(builders)@))
            &&& lines_within(final(builders)@, n + 1)
        },
{
    let ghost start = drafts_held(builders@);
    let ghost draft = line.draft();
    let ghost wanted = with_line(start, draft);
    proof {
        lemma_entry_place(start, places_held(*positions), line.journal_entry_id@);
        lemma_with_line(start, draft);
    }
    match get_place(positions, line.journal_entry_id.as_str()) {
        Some(idx) => {
            assert(start[idx as int] == builders@[idx as int].draft());
            let amount_cents = match builders[idx].amount_cents.checked_add(line.amount_cents) {
                Some(amount_cents) => amount_cents,
                None => {
                    assert(wanted[idx as int].cents == start[idx as int].cents + draft.cents);
                    return false;
                },
            };
            builders[idx].amount_cents = amount_cents;
            builders[idx].num_lines = builders[idx].num_lines + 1;
            if !line.description_raw.as_str().is_empty() {
                if !builders[idx].description_raw.as_str().is_empty() {
                    builders[idx].description_raw.append(" ");
                }
                builders[idx].description_raw.append(line.description_raw.as_str());
            }
            proof {
                let now = drafts_held(builders@);
                assert(now =~= wanted) by {
                    assert(now[idx as int].description =~= wanted[idx as int].description);
                    assert forall|k: int| 0 <= k < now.len() implies now[k] == wanted[k] by {
                        if k != idx {
                            assert(now[k] == start[k]);
                        }
                    }
                }
                assert forall|k: int| 0 <= k < wanted.len() implies i64::MIN
                    <= (#[trigger] wanted[k]).cents <= i64::MAX by {
                    if k != idx {
                        assert(wanted[k] == start[k]);
                    }
                }
                assert forall|k: int| 0 <= k < now.len() implies places_held(
                    *positions,
                ).contains_key((#[trigger] now[k]).id) by {
                    assert(start[k].id == now[k].id);
                }
            }
            true
        },
        None => {
            let id = line.journal_entry_id.clone();
            let place = builders.len();
            builders.push(
                JournalEntryBuilder {
                    journal_entry_id: line.journal_entry_id,
                    datetime_raw: line.datetime_raw,
                    datetime_key: line.datetime_key,
                    amount_cents: line.amount_cents,
                    description_raw: line.description_raw,
                    num_lines: 1,
                },
            );
            put_place(positions, id, place);
            proof {
                let now = drafts_held(builders@);
                assert(now =~= wanted);
                assert forall|k: int| 0 <= k < wanted.len() implies i64::MIN
                    <= (#[trigger] wanted[k]).cents <= i64::MAX by {
                    if k < start.len() {
                        assert(wanted[k] == start[k]);
                    }
                }
                let places = places_held(*positions);
                assert forall|k: int| 0 <= k < now.len() implies places.contains_key(
                    (#[trigger] now[k]).id,
                ) by {
                    if k < start.len() {
                        assert(now[k] == start[k]);
                    }
                }
                assert forall|t: Seq<char>| #[trigger] places.contains_key(t) implies places[t]
                    < now.len() && now[places[t] as int].id == t by {
                    if t != draft.id {
                        assert(places_held(*old(positions)).contains_key(t));
                        assert(now[places[t] as int] == start[places[t] as int]);
                    }
                }
            }
            true
        },
    }
}

/// `entry` is what `draft` says, and its tokens are known.
spec fn is_finished(entry: JournalEntry, draft: Draft, known: Map<Seq<char>, usize>) -> bool {
    is_journal_entry(entry, draft, known) && knows(known, tokens_of(draft.description))
}

/// Splits the descriptions into tokens.
fn finish_entries(
    builders: Vec<JournalEntryBuilder>,
    interner: &mut TokenInterner,
) -> (entries: Vec<JournalEntry>)
    requires
        signs_drop(drafts_held(builders@)),
    ensures
        ({
            let drafts = drafts_held(builders@);
            &&& entries@.len() == drafts.len()
            &&& final(interner)@ == learned_entries(
                old(interner)@,
                drafts,
                drafts.len() as int,
            )
            &&& forall|k: int|
                0 <= k < drafts.len() ==> is_journal_entry(
                    #[trigger] entries@[k],
                    drafts[k],
                    final(interner)@,
                )
        }),
{
    let ghost drafts = drafts_held(builders@);
    let ghost known = interner@;
    let mut entries: Vec<JournalEntry> = Vec::new();
    for k in 0..builders.len()
        invariant
            drafts == drafts_held(builders@),
            signs_drop(drafts),
            known == old(interner)@,
            entries@.len() == k,
            interner@ == learned_entries(known, drafts, k as int),
            forall|j: int|
                0 <= j < k ==> is_finished(#[trigger] entries@[j], drafts[j], interner@),
    {
        let builder = &builders[k];
        assert(drafts[k as int] == builder.draft());
        let ghost before = interner@;
        let ghost earlier = entries@;
        let tokens = interner.tokenize(builder.description_raw.as_str());
        entries.push(
            JournalEntry {
                journal_entry_id: builder.journal_entry_id.clone(),
                datetime_raw: builder.datetime_raw.clone(),
                datetime_key: builder.datetime_key,
                amount_cents: builder.amount_cents,
                abs_amount_cents: if builder.amount_cents < 0 {
                    -builder.amount_cents
                } else {
                    builder.amount_cents
                },
                description_raw: builder.description_raw.clone(),
                num_lines: builder.num_lines,
                tokens,
            },
        );
        proof {
            lemma_tokens_keep_places(before, tokens_of(drafts[k as int].description));
            assert forall|j: int| 0 <= j < k + 1 implies is_finished(
                #[trigger] entries@[j],
                drafts[j],
                interner@,
            ) by {
                if j < k {
                    assert(entries@[j] == earlier[j]);
                    lemma_ids_stay(
                        earlier[j].tokens@,
                        before,
                        interner@,
                        tokens_of(drafts[j].description),
                    );
                }
            }
        }
    }
    entries
}

/// What is said of records that make no journal entries: the first row that cannot be used, or a
/// sum that cannot be held without its sign.
pub open spec fn is_ledger_fault(
    records: Seq<Option<Seq<Seq<char>>>>,
    i: int,
    error: LoadError,
) -> bool {
    &&& 0 <= i <= records.len()
    &&& forall|j: int| 0 <= j < i ==> #[trigger] is_good_line(records, j)
    &&& if i < records.len() {
        ||| is_fault_of(records, ledger_columns(), i, error)
        ||| is_good(records, ledger_columns(), i) && !sums_fit(drafts_of(records, i + 1)) && error
            == LoadError::OutOfRange
    } else {
        !signs_drop(drafts_of(records, i)) && error == LoadError::OutOfRange
    }
}

/// The journal entries that the records make. The first record that cannot be used ends it.
pub fn journal_entries_from_records(
    records: Vec<Result<Vec<String>, csv::Error>>,
    interner: &mut TokenInterner,
) -> (loaded: Result<Vec<JournalEntry>, LoadError>)
    ensures
        match loaded {
            Ok(entries) => entries_loaded(
                records_read(records@),
                old(interner)@,
                final(interner)@,
                entries@,
            ),
            Err(error) => final(interner)@ == old(interner)@ && exists|i: int| #[trigger]
                is_ledger_fault(records_read(records@), i, error) && (i < records@.len()
                    && records@[i] is Err ==> error == LoadError::Csv(records@[i]->Err_0)),
        },
{
    let ghost all = records_read(records@);
    let mut builders: Vec<JournalEntryBuilder> = Vec::new();
    let mut positions = no_places();
    assert(drafts_held(builders@) =~= drafts_of(all, 0));
    let mut i: usize = 0;
    while i < records.len()
        invariant
            all == records_read(records@),
            i <= records@.len(),
            interner@ == old(interner)@,
            drafts_held(builders@) == drafts_of(all, i as int),
            ids_differ(drafts_held(builders@)),
            sums_fit(drafts_held(builders@)),
            places_right(places_held(positions), drafts_held(builders@)),
            lines_within(builders@, i as int),
            forall|j: int| 0 <= j < i ==> #[trigger] is_good_line(all, j),
        decreases records@.len() - i,
    {
        assert(all[i as int] == record_fields(records@[i as int]));
        let fields = match &records[i] {
            Ok(fields) => fields,
            Err(_) => {
                let error = unread_record(records, i);
                assert(is_ledger_fault(all, i as int, error));
                return Err(error);
            },
        };
        let line = match read_line(fields, Ghost(records@), Ghost(i as int)) {
            Ok(line) => line,
            Err(error) => {
                assert(is_ledger_fault(all, i as int, error));
                return Err(error);
            },
        };
        if !add_line(&mut builders, &mut positions, line, Ghost(i as int)) {
            assert(is_ledger_fault(all, i as int, LoadError::OutOfRange));
            return Err(LoadError::OutOfRange);
        }
        assert(is_good_line(all, i as int));
        i += 1;
    }
    for k in 0..builders.len()
        invariant
            all == records_read(records@),
            interner@ == old(interner)@,
            drafts_held(builders@) == drafts_of(all, records@.len() as int),
            forall|j: int| 0 <= j < records@.len() ==> #[trigger] is_good_line(all, j),
            forall|j: int|
                0 <= j < k ==> (#[trigger] drafts_held(builders@)[j]).cents > i64::MIN,
    {
        if builders[k].amount_cents == i64::MIN {
            proof {
                let drafts = drafts_of(all, records@.len() as int);
                assert(drafts[k as int].cents == i64::MIN);
                assert(is_ledger_fault(all, records@.len() as int, LoadError::OutOfRange));
            }
            return Err(LoadError::OutOfRange);
        }
    }
    Ok(finish_entries(builders, interner))
}

/// The journal entries of a file with these bytes.
pub fn load_journal_entries(data: &[u8], interner: &mut TokenInterner) -> (loaded: Result<
    Vec<JournalEntry>,
    LoadError,
>)
    ensures
        match loaded {
            Ok(entries) => entries_loaded(
                csv_records(data@),
                old(interner)@,
                final(interner)@,
                entries@,
            ),
            Err(error) => final(interner)@ == old(interner)@ && exists|i: int| #[trigger]
                is_ledger_fault(csv_records(data@), i, error),
        },
{
    journal_entries_from_records(read_csv(data), interner)
}

/// The parts one after the other, with a space between each two.
pub open spec fn spaced(parts: Seq<Seq<char>>) -> Seq<char>
    decreases parts.len(),
{
    if parts.len() == 0 {
        Seq::empty()
    } else if parts.len() == 1 {
        parts[0]
    } else {
        spaced(parts.drop_last()) + seq![' '] + parts.last()
    }
}

/// The descriptions, as far as they are not empty, of the first `n` rows with this identifier.
pub open spec fn parts_of(
    records: Seq<Option<Seq<Seq<char>>>>,
    n: nat,
    id: Seq<char>,
) -> Seq<Seq<char>> {
    Seq::new(n, |i: int| i).filter(
        |i: int| trimmed(records[i]->0[3]) == id && trimmed(records[i]->0[2]).len() > 0,
    ).map_values(|i: int| trimmed(records[i]->0[2]))
}

proof fn lemma_description_is_spaced(
    records: Seq<Option<Seq<Seq<char>>>>,
    n: nat,
    id: Seq<char>,
)
    ensures
        group_description(records, n as int, id) == spaced(parts_of(records, n, id)),
        parts_of(records, n, id).len() > 0 ==> spaced(parts_of(records, n, id)).len() > 0,
    decreases n,
{
    reveal(Seq::filter);
    reveal_strlit(" ");
    let keep = |i: int| trimmed(records[i]->0[3]) == id && trimmed(records[i]->0[2]).len() > 0;
    let text = |i: int| trimmed(records[i]->0[2]);
    let all = Seq::new(n, |i: int| i);
    let parts = parts_of(records, n, id);
    if n > 0 {
        let m = (n - 1) as nat;
        lemma_description_is_spaced(records, m, id);
        let fewer = Seq::new(m, |i: int| i);
        assert(all.drop_last() =~= fewer);
        let before = parts_of(records, m, id);
        assert(" "@ =~= seq![' ']);
        if keep(n - 1) {
            assert(all.filter(keep) =~= fewer.filter(keep).push(n - 1));
            assert(parts =~= before.push(text(n - 1)));
            assert(parts.drop_last() =~= before);
            if before.len() == 0 {
                assert(spaced(before) =~= Seq::<char>::empty());
            }
        } else {
            assert(all.filter(keep) =~= fewer.filter(keep));
            assert(parts =~= before);
        }
    } else {
        assert(all.filter(keep) =~= Seq::<int>::empty());
        assert(parts =~= Seq::<Seq<char>>::empty());
    }
}

/// Entries stand in the order of their first rows.
proof fn lemma_entries_in_order(
    records: Seq<Option<Seq<Seq<char>>>>,
    n: int,
    k: int,
    m: int,
    i: int,
    j: int,
)
    requires
        0 <= n,
        0 <= k < m < drafts_of(records, n).len(),
        is_first_line(records, i, drafts_of(records, n)[k].id),
        is_first_line(records, j, drafts_of(records, n)[m].id),
    ensures
        i < j,
    decreases n,
{
    if n > 0 {
        let before = drafts_of(records, n - 1);
        let line = line_at(records, n - 1);
        let drafts = drafts_of(records, n);
        lemma_entries_are_groups(records, n - 1);
        if has_entry(before, line.id) {
            let e = entry_place(before, line.id);
            assert(before[e].id == line.id);
            assert(drafts[k].id == before[k].id && drafts[m].id == before[m].id);
            lemma_entries_in_order(records, n - 1, k, m, i, j);
        } else if m < before.len() {
            lemma_entries_in_order(records, n - 1, k, m, i, j);
        } else {
            assert(is_group(records, n - 1, before[k]));
            let f = choose|f: int|
                f < n - 1 && #[trigger] is_first_line(records, f, before[k].id)
                    && before[k].datetime == line_at(records, f).datetime && before[k].key
                    == line_at(records, f).key;
            assert(line_at(records, f).id == line_at(records, i).id);
            assert(i <= f) by {
                if f < i {
                    assert(line_at(records, f).id != before[k].id);
                }
            }
            assert(j >= n - 1) by {
                if j < n - 1 {
                    assert(has_entry(before, line_at(records, j).id));
                }
            }
        }
    }
}

/// What the rows of a ledger say of its entries, field by field. Two rows belong to the same entry
/// if and only if the whole texts of their fourth fields are the same, white space around them
/// aside, and that text is the identifier of the entry. The entry has the date of its first row;
/// its amount is the sum of the amounts, its description is made of those that are not empty, with
/// a space between each two; and it counts its rows. Entries stand in the order of their first
/// rows.
#[verifier::rlimit(40)]
pub proof fn lemma_entries_by_fields(
    records: Seq<Option<Seq<Seq<char>>>>,
    known: Map<Seq<char>, usize>,
    after: Map<Seq<char>, usize>,
    entries: Seq<JournalEntry>,
)
    requires
        entries_loaded(records, known, after, entries),
    ensures
        forall|i: int|
            0 <= i < records.len() ==> (#[trigger] records[i]) is Some && records[i]->0.len() >= 4,
        forall|k: int, m: int|
            0 <= k < m < entries.len() ==> (#[trigger] entries[k]).journal_entry_id@ != (
            #[trigger] entries[m]).journal_entry_id@,
        forall|i: int|
            0 <= i < records.len() ==> exists|k: int|
                0 <= k < entries.len() && (#[trigger] entries[k]).journal_entry_id@ == trimmed(
                    (#[trigger] records[i])->0[3],
                ),
        forall|k: int|
            0 <= k < entries.len() ==> entry_by_fields(records, #[trigger] entries[k]),
        forall|k: int|
            0 <= k < entries.len() ==> are_ids_of(
                (#[trigger] entries[k]).tokens@,
                after,
                tokens_of(entries[k].description_raw@),
            ) && knows(after, tokens_of(entries[k].description_raw@)),
        is_kept_in(known, after),
        forall|k: int, m: int, i: int, j: int|
            0 <= k < m < entries.len() && #[trigger] is_first_row(records, i, entries[k])
                && #[trigger] is_first_row(records, j, entries[m]) ==> i < j,
{
    let n = records.len() as int;
    let drafts = drafts_of(records, n);
    lemma_entries_are_groups(records, n);
    assert forall|i: int| 0 <= i < records.len() implies (#[trigger] records[i]) is Some
        && records[i]->0.len() >= 4 by {
        assert(is_good_line(records, i));
    }
    assert forall|k: int, m: int| 0 <= k < m < entries.len() implies (
    #[trigger] entries[k]).journal_entry_id@ != (#[trigger] entries[m]).journal_entry_id@ by {
        assert(is_journal_entry(entries[k], drafts[k], after));
        assert(is_journal_entry(entries[m], drafts[m], after));
        assert(drafts[k].id != drafts[m].id);
    }
    assert forall|i: int| 0 <= i < records.len() implies exists|k: int|
        0 <= k < entries.len() && (#[trigger] entries[k]).journal_entry_id@ == trimmed(
            (#[trigger] records[i])->0[3],
        ) by {
        assert(has_entry(drafts, line_at(records, i).id));
        let k = entry_place(drafts, line_at(records, i).id);
        assert(drafts[k].id == line_at(records, i).id);
        assert(is_journal_entry(entries[k], drafts[k], after));
    }
    assert forall|k: int| 0 <= k < entries.len() implies entry_by_fields(
        records,
        #[trigger] entries[k],
    ) by {
        lemma_entry_by_fields(records, drafts[k], after, entries[k]);
    }
    lemma_learned_entries(known, drafts, drafts.len() as int);
    assert forall|k: int| 0 <= k < entries.len() implies are_ids_of(
        (#[trigger] entries[k]).tokens@,
        after,
        tokens_of(entries[k].description_raw@),
    ) && knows(after, tokens_of(entries[k].description_raw@)) by {
        assert(is_journal_entry(entries[k], drafts[k], after));
    }
    assert forall|k: int, m: int, i: int, j: int|
        0 <= k < m < entries.len() && #[trigger] is_first_row(records, i, entries[k])
            && #[trigger] is_first_row(records, j, entries[m]) implies i < j by {
        assert(is_journal_entry(entries[k], drafts[k], after));
        assert(is_journal_entry(entries[m], drafts[m], after));
        assert(is_first_line(records, i, drafts[k].id));
        assert(is_first_line(records, j, drafts[m].id));
        lemma_entries_in_order(records, n, k, m, i, j);
    }
}

/// The `i`-th row is the first with the identifier of the entry.
pub open spec fn is_first_row(
    records: Seq<Option<Seq<Seq<char>>>>,
    i: int,
    entry: JournalEntry,
) -> bool {
    &&& 0 <= i < records.len()
    &&& trimmed(records[i]->0[3]) == entry.journal_entry_id@
    &&& forall|j: int|
        0 <= j < i ==> trimmed((#[trigger] records[j])->0[3]) != entry.journal_entry_id@
}

/// The entry is what the fields of the rows with its identifier say.
pub open spec fn entry_by_fields(
    records: Seq<Option<Seq<Seq<char>>>>,
    entry: JournalEntry,
) -> bool {
    let id = entry.journal_entry_id@;
    &&& exists|i: int|
        {
            &&& #[trigger] is_first_row(records, i, entry)
            &&& entry.datetime_raw@ == trimmed(records[i]->0[0])
            &&& entry.datetime_key == datetime_key(encode_utf8(entry.datetime_raw@))
        }
    &&& entry.amount_cents == sum(
        records.len() as int,
        |i: int|
            if trimmed(records[i]->0[3]) == id {
                cents(encode_utf8(trimmed(records[i]->0[1])))
            } else {
                0
            },
    )
    &&& entry.abs_amount_cents >= 0
    &&& entry.abs_amount_cents == entry.amount_cents || entry.abs_amount_cents
        == -entry.amount_cents
    &&& entry.num_lines == sum(
        records.len() as int,
        |i: int|
            if trimmed(records[i]->0[3]) == id {
                1
            } else {
                0
            },
    )
    &&& entry.description_raw@ == spaced(parts_of(records, records.len(), id))
}

proof fn lemma_entry_by_fields(
    records: Seq<Option<Seq<Seq<char>>>>,
    draft: Draft,
    after: Map<Seq<char>, usize>,
    entry: JournalEntry,
)
    requires
        is_group(records, records.len() as int, draft),
        is_journal_entry(entry, draft, after),
        forall|i: int| 0 <= i < records.len() ==> #[trigger] is_good_line(records, i),
    ensures
        entry_by_fields(records, entry),
{
    let n = records.len() as int;
    let id = draft.id;
    let i = choose|i: int|
        i < n && #[trigger] is_first_line(records, i, draft.id) && draft.datetime == line_at(
            records,
            i,
        ).datetime && draft.key == line_at(records, i).key;
    assert(is_first_row(records, i, entry)) by {
        assert forall|j: int| 0 <= j < i implies trimmed((#[trigger] records[j])->0[3]) != id by {
            assert(line_at(records, j).id != id);
        }
    }
    assert(is_good_line(records, i));
    let f = |i: int|
        if line_at(records, i).id == id {
            line_at(records, i).cents
        } else {
            0
        };
    let g = |i: int|
        if trimmed(records[i]->0[3]) == id {
            cents(encode_utf8(trimmed(records[i]->0[1])))
        } else {
            0
        };
    assert forall|i: int| 0 <= i < n implies #[trigger] f(i) == g(i) by {
        assert(is_good_line(records, i));
    }
    lemma_sum_eq(n, f, g);
    let p = |i: int|
        if line_at(records, i).id == id {
            1
        } else {
            0int
        };
    let q = |i: int|
        if trimmed(records[i]->0[3]) == id {
            1
        } else {
            0int
        };
    assert forall|i: int| 0 <= i < n implies #[trigger] p(i) == q(i) by {}
    lemma_sum_eq(n, p, q);
    lemma_description_is_spaced(records, records.len(), id);
}

proof fn lemma_learned_entries(known: Map<Seq<char>, usize>, drafts: Seq<Draft>, n: int)
    requires
        0 <= n <= drafts.len(),
    ensures
        is_kept_in(known, learned_entries(known, drafts, n)),
        forall|k: int|
            0 <= k < n ==> knows(
                learned_entries(known, drafts, n),
                tokens_of((#[trigger] drafts[k]).description),
            ),
    decreases n,
{
    if n > 0 {
        lemma_learned_entries(known, drafts, n - 1);
        let before = learned_entries(known, drafts, n - 1);
        let now = learned_entries(known, drafts, n);
        lemma_tokens_keep_places(before, tokens_of(drafts[n - 1].description));
        assert forall|k: int| 0 <= k < n implies knows(
            now,
            tokens_of((#[trigger] drafts[k]).description),
        ) by {
            let words = tokens_of(drafts[k].description);
            if k < n - 1 {
                assert(knows(before, words));
                assert forall|m: int| 0 <= m < words.len() implies now.contains_key(
                    #[trigger] words[m],
                ) by {
                    assert(before.contains_key(words[m]));
                }
            }
        }
    }
}

/// Rows that each say something, in four fields or more, make a ledger, as long as the sums of
/// their amounts can be held, with and without their signs.
pub proof fn lemma_good_rows_make_a_ledger(
    records: Seq<Option<Seq<Seq<char>>>>,
    i: int,
    error: LoadError,
)
    requires
        forall|j: int|
            0 <= j < records.len() ==> {
                let fields = (#[trigger] records[j])->0;
                let date = encode_utf8(trimmed(fields[0]));
                let amount = encode_utf8(trimmed(fields[1]));
                &&& records[j] is Some
                &&& fields.len() >= 4
                &&& is_datetime(date) && datetime_in_range(date)
                &&& is_amount(amount) && amount_in_range(amount)
            },
        // the amounts together can be held
        sum(
            records.len() as int,
            |j: int| magnitude_of(cents(encode_utf8(trimmed(records[j]->0[1])))),
        ) <= i64::MAX,
    ensures
        !is_ledger_fault(records, i, error),
{
    if is_ledger_fault(records, i, error) {
        let n = records.len() as int;
        let whole = |j: int| magnitude_of(cents(encode_utf8(trimmed(records[j]->0[1]))));
        let m = if i < n {
            i + 1
        } else {
            i
        };
        let drafts = drafts_of(records, m);
        lemma_entries_are_groups(records, m);
        assert forall|k: int| 0 <= k < drafts.len() implies -i64::MAX <= (
        #[trigger] drafts[k]).cents <= i64::MAX by {
            assert(is_group(records, m, drafts[k]));
            let id = drafts[k].id;
            let part = |j: int|
                if line_at(records, j).id == id {
                    line_at(records, j).cents
                } else {
                    0
                };
            lemma_parts_below_whole(records, id, part, whole, m, n);
        }
        if i < n {
            assert(records[i] is Some);
        }
    }
}

proof fn lemma_parts_below_whole(
    records: Seq<Option<Seq<Seq<char>>>>,
    id: Seq<char>,
    part: spec_fn(int) -> int,
    whole: spec_fn(int) -> int,
    m: int,
    n: int,
)
    requires
        0 <= m <= n <= records.len(),
        part == (|j: int|
            if line_at(records, j).id == id {
                line_at(records, j).cents
            } else {
                0
            }),
        whole == (|j: int| magnitude_of(cents(encode_utf8(trimmed(records[j]->0[1]))))),
        forall|j: int|
            0 <= j < records.len() ==> {
                let fields = (#[trigger] records[j])->0;
                let date = encode_utf8(trimmed(fields[0]));
                let amount = encode_utf8(trimmed(fields[1]));
                &&& records[j] is Some
                &&& fields.len() >= 4
                &&& is_datetime(date) && datetime_in_range(date)
                &&& is_amount(amount) && amount_in_range(amount)
            },
    ensures
        -sum(n, whole) <= sum(m, part) <= sum(n, whole),
        0 <= sum(n, whole),
    decreases n,
{
    if n > m {
        lemma_parts_below_whole(records, id, part, whole, m, n - 1);
    } else if m > 0 {
        lemma_parts_below_whole(records, id, part, whole, m - 1, n - 1);
        assert(records[m - 1] is Some);
        assert(part(m - 1) == 0 || part(m - 1) == cents(
            encode_utf8(trimmed(records[m - 1]->0[1])),
        ));
    }
}

} // verus!
