//! How often tokens occur, and which tokens two descriptions share.
use vstd::prelude::*;

use crate::records::{BankTransaction, HasTokens, JournalEntry};
use crate::sums::{lemma_sum_eq, lemma_sum_single, lemma_sum_zero, sum};
use crate::token::increasing;

verus! {

/// Whether the `i`-th of `ids` is `token`, as a number.
pub open spec fn is_token(ids: Seq<u32>, token: int) -> spec_fn(int) -> int {
    |i: int|
        if ids[i] == token {
            1
        } else {
            0
        }
}

/// How often `token` occurs in `ids`.
pub open spec fn occurrences(ids: Seq<u32>, token: int) -> int {
    sum(ids.len() as int, is_token(ids, token))
}

/// How often `token` occurs in the description of the `i`-th of `items`.
pub open spec fn occurrences_in<T: HasTokens>(items: Seq<T>, token: int) -> spec_fn(int) -> int {
    |i: int| occurrences(items[i].token_ids(), token)
}

/// How often `token` occurs in the descriptions of `items`.
pub open spec fn frequency<T: HasTokens>(items: Seq<T>, token: int) -> int {
    sum(items.len() as int, occurrences_in(items, token))
}

/// Every token of `items` is below `token_count`.
pub open spec fn tokens_below<T: HasTokens>(items: Seq<T>, token_count: int) -> bool {
    forall|i: int, j: int|
        #![trigger items[i].token_ids()[j]]
        0 <= i < items.len() && 0 <= j < items[i].token_ids().len() ==> items[i].token_ids()[j]
            < token_count
}

proof fn lemma_occurrences_grow(ids: Seq<u32>, token: int, n: int, m: int)
    requires
        0 <= n <= m,
    ensures
        0 <= sum(n, is_token(ids, token)) <= sum(m, is_token(ids, token)),
    decreases m,
{
    if n < m {
        lemma_occurrences_grow(ids, token, n, m - 1);
    } else if n > 0 {
        lemma_occurrences_grow(ids, token, n - 1, m - 1);
    }
}

proof fn lemma_frequency_grows<T: HasTokens>(items: Seq<T>, token: int, n: int, m: int)
    requires
        0 <= n <= m,
    ensures
        0 <= sum(n, occurrences_in(items, token)) <= sum(m, occurrences_in(items, token)),
    decreases m,
{
    if n < m {
        lemma_frequency_grows(items, token, n, m - 1);
        let ids = items[m - 1].token_ids();
        lemma_occurrences_grow(ids, token, 0, ids.len() as int);
    } else if n > 0 {
        lemma_frequency_grows(items, token, n - 1, m - 1);
        let ids = items[n - 1].token_ids();
        lemma_occurrences_grow(ids, token, 0, ids.len() as int);
    }
}

/// Adds how often each token occurs in the descriptions of `items`; says whether every token has
/// a count and every count can be held.
fn count_tokens<T: HasTokens>(items: &[T], counts: &mut Vec<u32>) -> (counted: bool)
    ensures
        final(counts)@.len() == old(counts)@.len(),
        counted <==> tokens_below(items@, old(counts)@.len() as int) && forall|t: int|
            0 <= t < old(counts)@.len() ==> #[trigger] old(counts)@[t] + frequency(items@, t)
                <= u32::MAX,
        counted ==> forall|t: int|
            0 <= t < old(counts)@.len() ==> #[trigger] final(counts)@[t] == old(counts)@[t]
                + frequency(items@, t),
{
    let ghost start = counts@;
    for i in 0..items.len()
        invariant
            start == old(counts)@,
            counts@.len() == start.len(),
            forall|h: int, j: int|
                #![trigger items@[h].token_ids()[j]]
                0 <= h < i && 0 <= j < items@[h].token_ids().len() ==> items@[h].token_ids()[j]
                    < start.len(),
            forall|t: int|
                0 <= t < start.len() ==> #[trigger] counts@[t] == start[t] + sum(
                    i as int,
                    occurrences_in(items@, t),
                ),
    {
        let ids = items[i].tokens();
        for j in 0..ids.len()
            invariant
                i < items@.len(),
                start == old(counts)@,
                ids@ == items@[i as int].token_ids(),
                counts@.len() == start.len(),
                forall|h: int| 0 <= h < j ==> #[trigger] ids@[h] < start.len(),
                forall|t: int|
                    0 <= t < start.len() ==> #[trigger] counts@[t] == start[t] + sum(
                        i as int,
                        occurrences_in(items@, t),
                    ) + sum(j as int, is_token(ids@, t)),
        {
            let token = ids[j] as usize;
            if token >= counts.len() {
                assert(!(items@[i as int].token_ids()[j as int] < start.len()));
                return false;
            }
            let ghost before = counts@;
            if counts[token] == u32::MAX {
                proof {
                    let t = token as int;
                    assert(before[t] == before[t]);
                    lemma_occurrences_grow(ids@, t, j + 1, ids@.len() as int);
                    lemma_frequency_grows(items@, t, i + 1, items@.len() as int);
                    assert(start[t] + frequency(items@, t) > u32::MAX);
                }
                return false;
            }
            counts[token] = counts[token] + 1;
            assert forall|t: int| 0 <= t < start.len() implies #[trigger] counts@[t] == start[t]
                + sum(i as int, occurrences_in(items@, t)) + sum(j + 1, is_token(ids@, t)) by {
                assert(before[t] == before[t]);
            }
        }
    }
    proof {
        assert forall|t: int| 0 <= t < start.len() implies #[trigger] start[t] + frequency(items@, t)
            <= u32::MAX by {
            assert(counts@[t] == start[t] + frequency(items@, t));
        }
    }
    true
}

/// Each of the tokens is below `token_count`, and no token occurs more often than a `u32` can say.
pub open spec fn frequencies_fit(
    banks: Seq<BankTransaction>,
    entries: Seq<JournalEntry>,
    token_count: int,
) -> bool {
    &&& tokens_below(banks, token_count)
    &&& tokens_below(entries, token_count)
    &&& forall|t: int|
        0 <= t < token_count ==> #[trigger] frequency(banks, t) + frequency(entries, t) <= u32::MAX
}

/// In how many descriptions each of `token_count` tokens occurs; `None` where a token has no place
/// among them, or occurs too often to be counted.
pub fn checked_document_frequencies(
    bank_transactions: &[BankTransaction],
    journal_entries: &[JournalEntry],
    token_count: usize,
) -> (counts: Option<Vec<u32>>)
    ensures
        match counts {
            None => !frequencies_fit(bank_transactions@, journal_entries@, token_count as int),
            Some(counts) => {
                &&& frequencies_fit(bank_transactions@, journal_entries@, token_count as int)
                &&& counts@.len() == token_count
                &&& forall|t: int|
                    0 <= t < token_count ==> #[trigger] counts@[t] == frequency(
                        bank_transactions@,
                        t,
                    ) + frequency(journal_entries@, t)
            },
        },
{
    let mut counts: Vec<u32> = vec![0; token_count];
    let ghost none = counts@;
    if !count_tokens(bank_transactions, &mut counts) {
        proof {
            if frequencies_fit(bank_transactions@, journal_entries@, token_count as int) {
                assert forall|t: int| 0 <= t < token_count implies #[trigger] none[t] + frequency(
                    bank_transactions@,
                    t,
                ) <= u32::MAX by {
                    assert(frequency(bank_transactions@, t) + frequency(journal_entries@, t)
                        <= u32::MAX);
                    lemma_frequency_grows(journal_entries@, t, 0, journal_entries@.len() as int);
                }
            }
        }
        return None;
    }
    let ghost half = counts@;
    assert forall|t: int| 0 <= t < token_count implies #[trigger] half[t] == frequency(
        bank_transactions@,
        t,
    ) by {
        assert(none[t] == 0);
    }
    if !count_tokens(journal_entries, &mut counts) {
        proof {
            if frequencies_fit(bank_transactions@, journal_entries@, token_count as int) {
                assert forall|t: int| 0 <= t < token_count implies #[trigger] half[t] + frequency(
                    journal_entries@,
                    t,
                ) <= u32::MAX by {
                    assert(frequency(bank_transactions@, t) + frequency(journal_entries@, t)
                        <= u32::MAX);
                }
            }
        }
        return None;
    }
    proof {
        assert forall|t: int| 0 <= t < token_count implies #[trigger] frequency(
            bank_transactions@,
            t,
        ) + frequency(journal_entries@, t) <= u32::MAX by {
            assert(half[t] + frequency(journal_entries@, t) <= u32::MAX);
        }
        assert forall|t: int| 0 <= t < token_count implies #[trigger] counts@[t] == frequency(
            bank_transactions@,
            t,
        ) + frequency(journal_entries@, t) by {
            assert(half[t] == frequency(bank_transactions@, t));
        }
    }
    Some(counts)
}

/// In how many descriptions each of `token_count` tokens occurs.
pub fn document_frequencies(
    bank_transactions: &[BankTransaction],
    journal_entries: &[JournalEntry],
    token_count: usize,
) -> (counts: Vec<u32>)
    requires
        frequencies_fit(bank_transactions@, journal_entries@, token_count as int),
    ensures
        counts@.len() == token_count,
        forall|t: int|
            0 <= t < token_count ==> #[trigger] counts@[t] == frequency(bank_transactions@, t)
                + frequency(journal_entries@, t),
{
    match checked_document_frequencies(bank_transactions, journal_entries, token_count) {
        Some(counts) => counts,
        None => Vec::new(),
    }
}

/// A description in which no token is repeated has a token once or not at all.
pub proof fn lemma_descriptions_count_once(ids: Seq<u32>, token: u32)
    requires
        increasing(ids),
    ensures
        occurrences(ids, token as int) == (if ids.contains(token) {
            1int
        } else {
            0int
        }),
{
    let f = is_token(ids, token as int);
    if ids.contains(token) {
        let k = choose|k: int| 0 <= k < ids.len() && ids[k] == token;
        assert forall|i: int| 0 <= i < ids.len() && i != k implies #[trigger] f(i) == 0 by {
            if i < k {
                assert(ids[i] < ids[k]);
            } else {
                assert(ids[k] < ids[i]);
            }
        }
        lemma_sum_single(ids.len() as int, f, k);
    } else {
        assert forall|i: int| 0 <= i < ids.len() implies #[trigger] f(i) == 0 by {
            if ids[i] == token {
                assert(ids.contains(token));
            }
        }
        lemma_sum_zero(ids.len() as int, f);
    }
}

/// What two lists have in common, found by walking along both.
pub open spec fn common(left: Seq<u32>, right: Seq<u32>) -> Seq<u32>
    decreases left.len() + right.len(),
{
    if left.len() == 0 || right.len() == 0 {
        Seq::empty()
    } else if left[0] < right[0] {
        common(left.drop_first(), right)
    } else if left[0] > right[0] {
        common(left, right.drop_first())
    } else {
        seq![left[0]] + common(left.drop_first(), right.drop_first())
    }
}

/// The tokens that two descriptions share.
pub fn shared_tokens(left: &[u32], right: &[u32]) -> (shared: Vec<u32>)
    ensures
        shared@ == common(left@, right@),
{
    let mut shared: Vec<u32> = Vec::new();
    let mut i: usize = 0;
    let mut j: usize = 0;
    assert(left@.skip(0) =~= left@ && right@.skip(0) =~= right@);
    assert(shared@ + common(left@, right@) =~= common(left@, right@));
    while i < left.len() && j < right.len()
        invariant
            i <= left@.len(),
            j <= right@.len(),
            shared@ + common(left@.skip(i as int), right@.skip(j as int)) == common(left@, right@),
        decreases left@.len() - i + right@.len() - j,
    {
        assert(left@.skip(i as int).drop_first() =~= left@.skip(i + 1));
        assert(right@.skip(j as int).drop_first() =~= right@.skip(j + 1));
        if left[i] < right[j] {
            i += 1;
        } else if left[i] > right[j] {
            j += 1;
        } else {
            let ghost before = shared@;
            let ghost rest = common(left@.skip(i + 1), right@.skip(j + 1));
            shared.push(left[i]);
            assert(shared@ + rest =~= before + (seq![left@[i as int]] + rest));
            i += 1;
            j += 1;
        }
    }
    assert(shared@ + Seq::<u32>::empty() =~= shared@);
    shared
}

/// Of two increasing lists exactly the numbers that occur in both are found, in increasing order.
pub proof fn lemma_common_is_intersection(left: Seq<u32>, right: Seq<u32>)
    requires
        increasing(left),
        increasing(right),
    ensures
        increasing(common(left, right)),
        forall|x: u32| #[trigger]
            common(left, right).contains(x) <==> left.contains(x) && right.contains(x),
    decreases left.len() + right.len(),
{
    let out = common(left, right);
    if left.len() > 0 && right.len() > 0 {
        let a = left.drop_first();
        let b = right.drop_first();
        lemma_tail(left);
        lemma_tail(right);
        if left[0] < right[0] {
            lemma_common_is_intersection(a, right);
        } else if left[0] > right[0] {
            lemma_common_is_intersection(left, b);
        } else {
            lemma_common_is_intersection(a, b);
            let rest = common(a, b);
            assert forall|x: u32| #[trigger] out.contains(x) <==> left.contains(x)
                && right.contains(x) by {
                if out.contains(x) {
                    let i = choose|i: int| 0 <= i < out.len() && out[i] == x;
                    if i > 0 {
                        assert(rest[i - 1] == x);
                        assert(rest.contains(x));
                    }
                }
                if left.contains(x) && right.contains(x) {
                    if x == left[0] {
                        assert(out[0] == x);
                    } else {
                        assert(rest.contains(x));
                        let i = choose|i: int| 0 <= i < rest.len() && rest[i] == x;
                        assert(out[i + 1] == x);
                    }
                }
            }
            assert forall|i: int, j: int| 0 <= i < j < out.len() implies #[trigger] out[i]
                < #[trigger] out[j] by {
                assert(out[j] == rest[j - 1]);
                if i == 0 {
                    assert(rest.contains(rest[j - 1]));
                    assert(a.contains(rest[j - 1]));
                } else {
                    assert(out[i] == rest[i - 1]);
                }
            }
        }
    }
}

/// The rest of an increasing list is increasing, and what is in it is above the first.
proof fn lemma_tail(ids: Seq<u32>)
    requires
        increasing(ids),
        ids.len() > 0,
    ensures
        increasing(ids.drop_first()),
        forall|x: u32| #[trigger]
            ids.contains(x) <==> x == ids[0] || ids.drop_first().contains(x),
        forall|x: u32| #[trigger] ids.drop_first().contains(x) ==> ids[0] < x,
{
    let rest = ids.drop_first();
    assert forall|i: int, j: int| 0 <= i < j < rest.len() implies #[trigger] rest[i]
        < #[trigger] rest[j] by {
        assert(ids[i + 1] < ids[j + 1]);
    }
    assert forall|x: u32| #[trigger] ids.contains(x) <==> x == ids[0] || rest.contains(x) by {
        if ids.contains(x) {
            let i = choose|i: int| 0 <= i < ids.len() && ids[i] == x;
            if i > 0 {
                assert(rest[i - 1] == x);
            }
        }
        if rest.contains(x) {
            let i = choose|i: int| 0 <= i < rest.len() && rest[i] == x;
            assert(ids[i + 1] == x);
        }
    }
    assert forall|x: u32| #[trigger] rest.contains(x) implies ids[0] < x by {
        let i = choose|i: int| 0 <= i < rest.len() && rest[i] == x;
        assert(ids[0] < ids[i + 1]);
    }
}

/// How often a token occurs in descriptions that repeat none is the number of descriptions that
/// have it.
pub proof fn lemma_frequency_counts_descriptions<T: HasTokens>(items: Seq<T>, token: u32)
    requires
        forall|i: int| 0 <= i < items.len() ==> increasing((#[trigger] items[i]).token_ids()),
    ensures
        frequency(items, token as int) == items.filter(
            |item: T| item.token_ids().contains(token),
        ).len(),
    decreases items.len(),
{
    reveal(Seq::filter);
    let has = |item: T| item.token_ids().contains(token);
    if items.len() > 0 {
        let init = items.drop_last();
        assert forall|i: int| 0 <= i < init.len() implies increasing(
            (#[trigger] init[i]).token_ids(),
        ) by {
            assert(init[i] == items[i]);
        }
        lemma_frequency_counts_descriptions(init, token);
        let n = init.len() as int;
        let f = occurrences_in(items, token as int);
        let g = occurrences_in(init, token as int);
        assert forall|i: int| 0 <= i < n implies #[trigger] f(i) == g(i) by {
            assert(init[i] == items[i]);
        }
        lemma_sum_eq(n, f, g);
        assert(increasing(items[n].token_ids()));
        lemma_descriptions_count_once(items[n].token_ids(), token);
    }
}

/// Descriptions are too many to be counted only if a token has no place among `token_count`, or
/// occurs more than 4,294,967,295 times.
pub proof fn lemma_frequencies_fit(
    banks: Seq<BankTransaction>,
    entries: Seq<JournalEntry>,
    token_count: int,
)
    requires
        forall|i: int, j: int|
            #![trigger banks[i].tokens@[j]]
            0 <= i < banks.len() && 0 <= j < banks[i].tokens@.len() ==> banks[i].tokens@[j]
                < token_count,
        forall|i: int, j: int|
            #![trigger entries[i].tokens@[j]]
            0 <= i < entries.len() && 0 <= j < entries[i].tokens@.len() ==> entries[i].tokens@[j]
                < token_count,
        forall|t: int|
            0 <= t < token_count ==> #[trigger] frequency(banks, t) + frequency(entries, t)
                <= 4_294_967_295,
    ensures
        frequencies_fit(banks, entries, token_count),
{
    assert forall|i: int, j: int|
        #![trigger banks[i].token_ids()[j]]
        0 <= i < banks.len() && 0 <= j < banks[i].token_ids().len() implies banks[i].token_ids()[j]
        < token_count by {
        assert(banks[i].tokens@[j] < token_count);
    }
    assert forall|i: int, j: int|
        #![trigger entries[i].token_ids()[j]]
        0 <= i < entries.len() && 0 <= j < entries[i].token_ids().len() implies entries[i].token_ids()[j]
        < token_count by {
        assert(entries[i].tokens@[j] < token_count);
    }
}

/// How often a token occurs in a list is how many of its numbers are that one.
pub proof fn lemma_occurrences(ids: Seq<u32>, token: u32)
    ensures
        occurrences(ids, token as int) == ids.filter(|id: u32| id == token).len(),
    decreases ids.len(),
{
    reveal(Seq::filter);
    if ids.len() > 0 {
        let init = ids.drop_last();
        lemma_occurrences(init, token);
        let f = is_token(ids, token as int);
        let g = is_token(init, token as int);
        assert forall|i: int| 0 <= i < init.len() implies #[trigger] f(i) == g(i) by {}
        lemma_sum_eq(init.len() as int, f, g);
    }
}

} // verus!
