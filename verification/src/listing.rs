//! Which bank transactions are candidates for which journal entries.
use core::cmp::Ordering;

use rustc_hash::FxHashMap;
use vstd::prelude::*;

use crate::amount::{abs_diff_i64, amount_bucket_range, AMOUNT_TOLERANCE_CENTS};
use crate::buckets::{buckets_held, get_bucket, no_buckets, put_bucket, take_bucket};
use crate::candidate::{banks_in_range, lists, Assignment, Candidate};
use crate::datetime::MINUTES_PER_DAY;
use crate::heuristic::{gaps_fit, greedy, lemma_greedy_ignores_order, same_candidates};
use crate::matching::valid_matching;
use crate::maxflow::{cost_fits, fits};
use crate::order::{
    before_from, lemma_map_ignores_order, lemma_same_contents, not_after, order_of, orders_by,
    sort_unstable_by,
};
use crate::records::{BankTransaction, JournalEntry};

verus! {

/// How far apart the dates of an entry and of a candidate may be.
pub const DATE_WINDOW_MINUTES: i64 = 15 * MINUTES_PER_DAY;

/// The dates of the transactions do not go down along the list.
pub open spec fn by_date(list: Seq<usize>, banks: Seq<BankTransaction>) -> bool {
    forall|i: int, j: int|
        0 <= i < j < list.len() ==> banks[#[trigger] list[i] as int].datetime_key
            <= banks[#[trigger] list[j] as int].datetime_key
}

/// `list` holds each transaction of this amount once.
pub open spec fn is_bucket(list: Seq<usize>, banks: Seq<BankTransaction>, amount: int) -> bool {
    &&& list.no_duplicates()
    &&& forall|x: usize| #[trigger]
        list.contains(x) <==> x < banks.len() && banks[x as int].abs_amount_cents == amount
}

/// The minutes between two dates.
pub open spec fn minutes_between(a: int, b: int) -> int {
    if a >= b {
        a - b
    } else {
        b - a
    }
}

/// `list` holds each transaction of this amount within the window around `key` once, the earlier
/// first.
pub open spec fn is_window(
    list: Seq<usize>,
    banks: Seq<BankTransaction>,
    amount: int,
    key: int,
) -> bool {
    &&& list.no_duplicates()
    &&& by_date(list, banks)
    &&& forall|x: usize| #[trigger]
        list.contains(x) <==> x < banks.len() && banks[x as int].abs_amount_cents == amount
            && minutes_between(banks[x as int].datetime_key as int, key) <= DATE_WINDOW_MINUTES
}

/// The amount a cent below, if there is one.
pub open spec fn amount_below(amount: i64) -> int {
    if amount == i64::MIN {
        i64::MIN as int
    } else {
        amount - AMOUNT_TOLERANCE_CENTS
    }
}

/// The amount a cent above, if there is one.
pub open spec fn amount_above(amount: i64) -> int {
    if amount == i64::MAX {
        i64::MAX as int
    } else {
        amount + AMOUNT_TOLERANCE_CENTS
    }
}

/// `list` holds the candidates for an entry: first those of the amount below, then those of the
/// same amount, then those of the amount above.
pub open spec fn is_listing(
    list: Seq<usize>,
    banks: Seq<BankTransaction>,
    entry: JournalEntry,
) -> bool {
    exists|low: Seq<usize>, same: Seq<usize>, high: Seq<usize>|
        {
            &&& list == low + same + high
            &&& #[trigger] is_window(
                low,
                banks,
                amount_below(entry.abs_amount_cents),
                entry.datetime_key as int,
            )
            &&& #[trigger] is_window(
                same,
                banks,
                entry.abs_amount_cents as int,
                entry.datetime_key as int,
            )
            &&& #[trigger] is_window(
                high,
                banks,
                amount_above(entry.abs_amount_cents),
                entry.datetime_key as int,
            )
        }
}

/// The window around the date of the entry can be computed.
pub open spec fn window_fits(entry: JournalEntry) -> bool {
    i64::MIN <= entry.datetime_key - DATE_WINDOW_MINUTES && entry.datetime_key
        + DATE_WINDOW_MINUTES <= i64::MAX
}

/// The amounts of the transaction and of the entry agree within the tolerance.
pub open spec fn amounts_agree(bank: BankTransaction, entry: JournalEntry) -> bool {
    -AMOUNT_TOLERANCE_CENTS <= bank.abs_amount_cents - entry.abs_amount_cents
        <= AMOUNT_TOLERANCE_CENTS
}

/// The window around the date can be computed for every entry with the amount of some transaction.
pub open spec fn windows_fit(banks: Seq<BankTransaction>, entries: Seq<JournalEntry>) -> bool {
    forall|g: int, x: int|
        #![trigger entries[g], banks[x]]
        0 <= g < entries.len() && 0 <= x < banks.len() && amounts_agree(banks[x], entries[g])
            ==> window_fits(entries[g])
}

/// Whether the windows can be computed.
pub fn check_windows(bank_transactions: &[BankTransaction], journal_entries: &[JournalEntry]) -> (good:
    bool)
    ensures
        good == windows_fit(bank_transactions@, journal_entries@),
{
    for g in 0..journal_entries.len()
        invariant
            forall|h: int, x: int|
                #![trigger journal_entries@[h], bank_transactions@[x]]
                0 <= h < g && 0 <= x < bank_transactions@.len() && amounts_agree(
                    bank_transactions@[x],
                    journal_entries@[h],
                ) ==> window_fits(journal_entries@[h]),
    {
        let entry = &journal_entries[g];
        if entry.datetime_key < i64::MIN + DATE_WINDOW_MINUTES || entry.datetime_key > i64::MAX
            - DATE_WINDOW_MINUTES {
            assert(!window_fits(journal_entries@[g as int]));
            let amounts = amount_bucket_range(entry.abs_amount_cents);
            let low = amounts[0];
            let high = amounts[2];
            for x in 0..bank_transactions.len()
                invariant
                    g < journal_entries@.len(),
                    entry == journal_entries@[g as int],
                    low == amount_below(entry.abs_amount_cents),
                    high == amount_above(entry.abs_amount_cents),
                    !window_fits(journal_entries@[g as int]),
                    forall|y: int|
                        0 <= y < x ==> !amounts_agree(
                            #[trigger] bank_transactions@[y],
                            journal_entries@[g as int],
                        ),
            {
                let amount = bank_transactions[x].abs_amount_cents;
                if low <= amount && amount <= high {
                    assert(amounts_agree(bank_transactions@[x as int], journal_entries@[g as int]));
                    return false;
                }
            }
        }
    }
    true
}

/// The candidates for an entry are the transactions whose amount, without its sign, is within a
/// cent of that of the entry, and whose date is within fifteen days; each is listed once, unless
/// the amount is the largest or the smallest there is.
pub proof fn lemma_listing_is_complete(
    list: Seq<usize>,
    banks: Seq<BankTransaction>,
    entry: JournalEntry,
)
    requires
        is_listing(list, banks, entry),
    ensures
        forall|x: usize| #[trigger]
            list.contains(x) <==> x < banks.len() && amounts_agree(banks[x as int], entry)
                && minutes_between(
                banks[x as int].datetime_key as int,
                entry.datetime_key as int,
            ) <= DATE_WINDOW_MINUTES,
        i64::MIN < entry.abs_amount_cents < i64::MAX ==> list.no_duplicates(),
{
    let key = entry.datetime_key as int;
    let (low, same, high) = choose|low: Seq<usize>, same: Seq<usize>, high: Seq<usize>|
        {
            &&& list == low + same + high
            &&& #[trigger] is_window(low, banks, amount_below(entry.abs_amount_cents), key)
            &&& #[trigger] is_window(same, banks, entry.abs_amount_cents as int, key)
            &&& #[trigger] is_window(high, banks, amount_above(entry.abs_amount_cents), key)
        };
    assert forall|x: usize| #[trigger]
        list.contains(x) <==> x < banks.len() && amounts_agree(banks[x as int], entry)
            && minutes_between(banks[x as int].datetime_key as int, key)
            <= DATE_WINDOW_MINUTES by {
        lemma_in_three(low, same, high, x);
        assert(low.contains(x) <==> x < banks.len() && banks[x as int].abs_amount_cents
            == amount_below(entry.abs_amount_cents) && minutes_between(
            banks[x as int].datetime_key as int,
            key,
        ) <= DATE_WINDOW_MINUTES);
    }
    if i64::MIN < entry.abs_amount_cents < i64::MAX {
        assert forall|i: int, j: int| 0 <= i < list.len() && 0 <= j < list.len() && i != j implies list[i]
            != list[j] by {
            lemma_amount_of(low, same, high, banks, entry, i);
            lemma_amount_of(low, same, high, banks, entry, j);
            let n = low.len() as int;
            let m = same.len() as int;
            if i < n && j < n {
                assert(low[i] != low[j]);
            } else if n <= i < n + m && n <= j < n + m {
                assert(same[i - n] != same[j - n]);
            } else if n + m <= i && n + m <= j {
                assert(high[i - n - m] != high[j - n - m]);
            }
        }
    }
}

proof fn lemma_in_three(a: Seq<usize>, b: Seq<usize>, c: Seq<usize>, x: usize)
    ensures
        (a + b + c).contains(x) <==> a.contains(x) || b.contains(x) || c.contains(x),
{
    let s = a + b + c;
    if a.contains(x) {
        let i = choose|i: int| 0 <= i < a.len() && a[i] == x;
        assert(s[i] == x);
    }
    if b.contains(x) {
        let i = choose|i: int| 0 <= i < b.len() && b[i] == x;
        assert(s[a.len() + i] == x);
    }
    if c.contains(x) {
        let i = choose|i: int| 0 <= i < c.len() && c[i] == x;
        assert(s[a.len() + b.len() + i] == x);
    }
    if s.contains(x) {
        let i = choose|i: int| 0 <= i < s.len() && s[i] == x;
        if i < a.len() {
            assert(a[i] == x);
        } else if i < a.len() + b.len() {
            assert(b[i - a.len()] == x);
        } else {
            assert(c[i - a.len() - b.len()] == x);
        }
    }
}

/// Which amount the `i`-th candidate has.
proof fn lemma_amount_of(
    low: Seq<usize>,
    same: Seq<usize>,
    high: Seq<usize>,
    banks: Seq<BankTransaction>,
    entry: JournalEntry,
    i: int,
)
    requires
        is_window(low, banks, amount_below(entry.abs_amount_cents), entry.datetime_key as int),
        is_window(same, banks, entry.abs_amount_cents as int, entry.datetime_key as int),
        is_window(high, banks, amount_above(entry.abs_amount_cents), entry.datetime_key as int),
        0 <= i < (low + same + high).len(),
    ensures
        ({
            let x = (low + same + high)[i] as int;
            banks[x].abs_amount_cents == (if i < low.len() {
                amount_below(entry.abs_amount_cents)
            } else if i < low.len() + same.len() {
                entry.abs_amount_cents as int
            } else {
                amount_above(entry.abs_amount_cents)
            })
        }),
{
    let n = low.len() as int;
    let m = same.len() as int;
    if i < n {
        assert(low.contains(low[i]));
    } else if i < n + m {
        assert(same.contains(same[i - n]));
    } else {
        assert(high.contains(high[i - n - m]));
    }
}

spec fn date_key(banks: Seq<BankTransaction>) -> spec_fn(usize) -> Seq<int> {
    |x: usize| seq![banks[x as int].datetime_key as int]
}

/// Puts the transactions in order of their dates.
fn sort_by_date(list: &mut Vec<usize>, banks: &[BankTransaction])
    requires
        in_range(old(list)@, banks@),
    ensures
        final(list)@.to_multiset() == old(list)@.to_multiset(),
        vstd::relations::sorted_by(final(list)@, not_after(date_key(banks@))),
{
    let ghost start = list@;
    let ghost key = date_key(banks@);
    let compare = |left: &usize, right: &usize| -> (order: Ordering)
        requires
            *left < banks@.len(),
            *right < banks@.len(),
        ensures
            order == order_of(key(*left), key(*right)),
        {
            proof {
                reveal_with_fuel(before_from, 2);
            }
            let a = banks[*left].datetime_key;
            let b = banks[*right].datetime_key;
            if a < b {
                Ordering::Less
            } else if b < a {
                Ordering::Greater
            } else {
                Ordering::Equal
            }
        };
    assert(orders_by(compare, key, start));
    sort_unstable_by(list, compare);
}

/// Every place is that of a transaction.
spec fn in_range(list: Seq<usize>, banks: Seq<BankTransaction>) -> bool {
    forall|i: int| 0 <= i < list.len() ==> #[trigger] list[i] < banks.len()
}

/// Sorting keeps what is in the list.
proof fn lemma_sorted_by_date(start: Seq<usize>, list: Seq<usize>, banks: Seq<BankTransaction>)
    requires
        list.to_multiset() == start.to_multiset(),
        vstd::relations::sorted_by(list, not_after(date_key(banks))),
        start.no_duplicates(),
    ensures
        by_date(list, banks),
        list.no_duplicates(),
        forall|x: usize| #[trigger] list.contains(x) <==> start.contains(x),
{
    let leq = not_after(date_key(banks));
    assert forall|i: int, j: int| 0 <= i < j < list.len() implies banks[#[trigger] list[i] as int].datetime_key
        <= banks[#[trigger] list[j] as int].datetime_key by {
        assert(leq(list[i], list[j]));
        reveal_with_fuel(before_from, 2);
        let key = date_key(banks);
        assert(key(list[i])[0] == banks[list[i] as int].datetime_key);
        assert(key(list[j])[0] == banks[list[j] as int].datetime_key);
    }
    assert forall|x: usize| #[trigger] list.contains(x) <==> start.contains(x) by {
        vstd::seq_lib::to_multiset_contains(list, x);
        vstd::seq_lib::to_multiset_contains(start, x);
    }
    start.lemma_multiset_has_no_duplicates();
    list.lemma_multiset_has_no_duplicates_conv();
}

/// The map holds the transactions by their amounts, those of each amount in order of their dates.
spec fn is_index(map: Map<i64, Seq<usize>>, banks: Seq<BankTransaction>) -> bool {
    &&& forall|amount: i64| #[trigger]
        map.contains_key(amount) ==> is_bucket(map[amount], banks, amount as int) && by_date(
            map[amount],
            banks,
        )
    &&& forall|x: int|
        0 <= x < banks.len() ==> map.contains_key((#[trigger] banks[x]).abs_amount_cents)
}

/// The map holds the first `n` transactions by their amounts; `amounts` are its keys.
spec fn is_partial_index(
    map: Map<i64, Seq<usize>>,
    amounts: Seq<i64>,
    banks: Seq<BankTransaction>,
    n: int,
) -> bool {
    &&& forall|amount: i64| #[trigger]
        map.contains_key(amount) ==> is_bucket(map[amount], banks.take(n), amount as int)
    &&& forall|x: int| 0 <= x < n ==> map.contains_key((#[trigger] banks[x]).abs_amount_cents)
    &&& forall|amount: i64| #[trigger] map.contains_key(amount) <==> amounts.contains(amount)
    &&& amounts.no_duplicates()
}

/// One more transaction in its bucket.
proof fn lemma_bucket_push(list: Seq<usize>, banks: Seq<BankTransaction>, n: int)
    requires
        0 <= n < banks.len() <= usize::MAX,
        is_bucket(list, banks.take(n), banks[n].abs_amount_cents as int),
    ensures
        is_bucket(list.push(n as usize), banks.take(n + 1), banks[n].abs_amount_cents as int),
{
    let amount = banks[n].abs_amount_cents as int;
    let more = list.push(n as usize);
    assert forall|x: usize| #[trigger] more.contains(x) <==> x < banks.take(n + 1).len()
        && banks.take(n + 1)[x as int].abs_amount_cents == amount by {
        if more.contains(x) {
            let i = choose|i: int| 0 <= i < more.len() && more[i] == x;
            if i < list.len() {
                assert(list[i] == x);
                assert(list.contains(x));
            }
        }
        if x < n + 1 && banks[x as int].abs_amount_cents == amount {
            if x < n {
                assert(list.contains(x));
                let i = choose|i: int| 0 <= i < list.len() && list[i] == x;
                assert(more[i] == x);
            } else {
                assert(more[list.len() as int] == x);
            }
        }
    }
    assert(more.no_duplicates()) by {
        assert forall|i: int, j: int| 0 <= i < more.len() && 0 <= j < more.len() && i != j implies more[i]
            != more[j] by {
            if i < list.len() {
                assert(list.contains(list[i]));
            }
            if j < list.len() {
                assert(list.contains(list[j]));
            }
        }
    }
}

/// A transaction of another amount changes nothing in a bucket.
proof fn lemma_bucket_other(
    list: Seq<usize>,
    banks: Seq<BankTransaction>,
    n: int,
    amount: int,
)
    requires
        0 <= n < banks.len() <= usize::MAX,
        is_bucket(list, banks.take(n), amount),
        banks[n].abs_amount_cents != amount,
    ensures
        is_bucket(list, banks.take(n + 1), amount),
{
    assert forall|x: usize| #[trigger] list.contains(x) <==> x < banks.take(n + 1).len()
        && banks.take(n + 1)[x as int].abs_amount_cents == amount by {
        assert(list.contains(x) <==> x < banks.take(n).len() && banks.take(
            n,
        )[x as int].abs_amount_cents == amount);
        if x < n {
            assert(banks.take(n)[x as int] == banks.take(n + 1)[x as int]);
        }
    }
}

/// The transactions by their amounts.
fn index_by_amount(banks: &[BankTransaction]) -> (map: FxHashMap<i64, Vec<usize>>)
    ensures
        is_index(buckets_held(map), banks@),
{
    let mut map = no_buckets();
    let mut amounts: Vec<i64> = Vec::new();
    for n in 0..banks.len()
        invariant
            is_partial_index(buckets_held(map), amounts@, banks@, n as int),
    {
        let amount = banks[n].abs_amount_cents;
        let ghost held = buckets_held(map);
        let ghost keys = amounts@;
        let mut list = match take_bucket(&mut map, amount) {
            Some(list) => list,
            None => {
                amounts.push(amount);
                Vec::new()
            },
        };
        proof {
            if !held.contains_key(amount) {
                assert forall|x: usize| #[trigger] list@.contains(x) <==> x < banks@.take(
                    n as int,
                ).len() && banks@.take(n as int)[x as int].abs_amount_cents == amount by {
                    if x < n {
                        assert(held.contains_key(banks@[x as int].abs_amount_cents));
                    }
                }
            }
            lemma_bucket_push(list@, banks@, n as int);
        }
        list.push(n);
        put_bucket(&mut map, amount, list);
        proof {
            let now = buckets_held(map);
            assert forall|other: i64| #[trigger] now.contains_key(other) implies is_bucket(
                now[other],
                banks@.take(n + 1),
                other as int,
            ) by {
                if other != amount {
                    assert(held.contains_key(other));
                    lemma_bucket_other(held[other], banks@, n as int, other as int);
                }
            }
            assert forall|other: i64| #[trigger] now.contains_key(other) <==> amounts@.contains(
                other,
            ) by {
                assert(held.contains_key(other) <==> keys.contains(other));
                if !held.contains_key(amount) {
                    assert(amounts@ == keys.push(amount));
                    assert(amounts@[keys.len() as int] == amount);
                    if keys.contains(other) {
                        let i = choose|i: int| 0 <= i < keys.len() && keys[i] == other;
                        assert(amounts@[i] == other);
                    }
                    if amounts@.contains(other) && other != amount {
                        let i = choose|i: int| 0 <= i < amounts@.len() && amounts@[i] == other;
                        assert(keys[i] == other);
                    }
                }
            }
            assert(amounts@.no_duplicates()) by {
                if !held.contains_key(amount) {
                    assert(!keys.contains(amount));
                }
            }
            assert forall|x: int| 0 <= x < n + 1 implies now.contains_key(
                (#[trigger] banks@[x]).abs_amount_cents,
            ) by {
                if x < n {
                    assert(held.contains_key(banks@[x].abs_amount_cents));
                }
            }
        }
    }
    assert(banks@.take(banks@.len() as int) =~= banks@);
    let ghost full = buckets_held(map);
    for k in 0..amounts.len()
        invariant
            is_partial_index(full, amounts@, banks@, banks@.len() as int),
            banks@.take(banks@.len() as int) == banks@,
            buckets_held(map).dom() == full.dom(),
            forall|amount: i64| #[trigger]
                full.contains_key(amount) ==> is_bucket(
                    buckets_held(map)[amount],
                    banks@,
                    amount as int,
                ),
            forall|j: int|
                0 <= j < k ==> by_date(buckets_held(map)[#[trigger] amounts@[j]], banks@),
    {
        let amount = amounts[k];
        assert(amounts@.contains(amount));
        assert(full.contains_key(amount));
        let ghost held = buckets_held(map);
        assert(held.dom().contains(amount));
        if let Some(mut list) = take_bucket(&mut map, amount) {
            let ghost start = list@;
            assert(in_range(list@, banks@)) by {
                assert forall|i: int| 0 <= i < list@.len() implies #[trigger] list@[i]
                    < banks@.len() by {
                    assert(list@.contains(list@[i]));
                }
            }
            sort_by_date(&mut list, banks);
            proof {
                lemma_sorted_by_date(start, list@, banks@);
            }
            put_bucket(&mut map, amount, list);
        }
        proof {
            let now = buckets_held(map);
            assert(now.dom() =~= full.dom());
            assert forall|j: int| 0 <= j < k + 1 implies by_date(
                now[#[trigger] amounts@[j]],
                banks@,
            ) by {
                if j < k {
                    assert(amounts@[j] != amounts@[k as int]);
                    assert(now[amounts@[j]] == held[amounts@[j]]);
                }
            }
            assert forall|other: i64| #[trigger] full.contains_key(other) implies is_bucket(
                now[other],
                banks@,
                other as int,
            ) by {
                if other != amount {
                    assert(now[other] == held[other]);
                }
            }
        }
    }
    proof {
        let now = buckets_held(map);
        assert forall|amount: i64| #[trigger] now.contains_key(amount) implies is_bucket(
            now[amount],
            banks@,
            amount as int,
        ) && by_date(now[amount], banks@) by {
            assert(full.dom().contains(amount));
            assert(full.contains_key(amount));
            assert(amounts@.contains(amount));
            let j = choose|j: int| 0 <= j < amounts@.len() && amounts@[j] == amount;
            assert(by_date(now[amounts@[j]], banks@));
        }
        assert forall|x: int| 0 <= x < banks@.len() implies now.contains_key(
            (#[trigger] banks@[x]).abs_amount_cents,
        ) by {
            assert(full.contains_key(banks@[x].abs_amount_cents));
            assert(now.dom().contains(banks@[x].abs_amount_cents));
        }
    }
    map
}

/// How many transactions of the list are earlier than `limit`, or at `limit` where `or_at`.
fn count_before(
    list: &Vec<usize>,
    banks: &[BankTransaction],
    limit: i64,
    or_at: bool,
) -> (count: usize)
    requires
        in_range(list@, banks@),
        by_date(list@, banks@),
    ensures
        count <= list@.len(),
        forall|i: int|
            0 <= i < list@.len() ==> (i < count <==> is_before(
                banks@[#[trigger] list@[i] as int],
                limit,
                or_at,
            )),
{
    let mut low: usize = 0;
    let mut high: usize = list.len();
    while low < high
        invariant
            in_range(list@, banks@),
            by_date(list@, banks@),
            low <= high <= list@.len(),
            forall|i: int|
                0 <= i < low ==> is_before(banks@[#[trigger] list@[i] as int], limit, or_at),
            forall|i: int|
                high <= i < list@.len() ==> !is_before(
                    banks@[#[trigger] list@[i] as int],
                    limit,
                    or_at,
                ),
        decreases high - low,
    {
        let mid = low + (high - low) / 2;
        let key = banks[list[mid]].datetime_key;
        if key < limit || (or_at && key == limit) {
            assert forall|i: int| 0 <= i < mid + 1 implies is_before(
                banks@[#[trigger] list@[i] as int],
                limit,
                or_at,
            ) by {
                if i < mid {
                    assert(banks@[list@[i] as int].datetime_key <= banks@[list@[mid as int] as int].datetime_key);
                }
            }
            low = mid + 1;
        } else {
            assert forall|i: int| mid <= i < list@.len() implies !is_before(
                banks@[#[trigger] list@[i] as int],
                limit,
                or_at,
            ) by {
                if mid < i {
                    assert(banks@[list@[mid as int] as int].datetime_key <= banks@[list@[i] as int].datetime_key);
                }
            }
            high = mid;
        }
    }
    low
}

spec fn is_before(bank: BankTransaction, limit: i64, or_at: bool) -> bool {
    bank.datetime_key < limit || (or_at && bank.datetime_key == limit)
}

/// The part of a bucket between two dates is a window.
proof fn lemma_window(
    bucket: Seq<usize>,
    banks: Seq<BankTransaction>,
    amount: int,
    key: i64,
    start: int,
    end: int,
)
    requires
        is_bucket(bucket, banks, amount),
        by_date(bucket, banks),
        i64::MIN <= key - DATE_WINDOW_MINUTES,
        key + DATE_WINDOW_MINUTES <= i64::MAX,
        0 <= start <= bucket.len(),
        0 <= end <= bucket.len(),
        forall|i: int|
            0 <= i < bucket.len() ==> (i < start <==> is_before(
                banks[#[trigger] bucket[i] as int],
                (key - DATE_WINDOW_MINUTES) as i64,
                false,
            )),
        forall|i: int|
            0 <= i < bucket.len() ==> (i < end <==> is_before(
                banks[#[trigger] bucket[i] as int],
                (key + DATE_WINDOW_MINUTES) as i64,
                true,
            )),
    ensures
        start <= end,
        is_window(bucket.subrange(start, end), banks, amount, key as int),
{
    if end < start {
        let bank = banks[bucket[end] as int];
        assert(is_before(bank, (key - DATE_WINDOW_MINUTES) as i64, false));
        assert(!is_before(bank, (key + DATE_WINDOW_MINUTES) as i64, true));
    }
    let part = bucket.subrange(start, end);
    assert forall|x: usize| #[trigger] part.contains(x) <==> x < banks.len()
        && banks[x as int].abs_amount_cents == amount && minutes_between(
        banks[x as int].datetime_key as int,
        key as int,
    ) <= DATE_WINDOW_MINUTES by {
        if part.contains(x) {
            let i = choose|i: int| 0 <= i < part.len() && part[i] == x;
            assert(bucket[start + i] == x);
            assert(bucket.contains(x));
        }
        if x < banks.len() && banks[x as int].abs_amount_cents == amount && minutes_between(
            banks[x as int].datetime_key as int,
            key as int,
        ) <= DATE_WINDOW_MINUTES {
            assert(bucket.contains(x));
            let i = choose|i: int| 0 <= i < bucket.len() && bucket[i] == x;
            assert(banks[bucket[i] as int].datetime_key == banks[x as int].datetime_key);
            assert(start <= i < end);
            assert(part[i - start] == x);
        }
    }
    assert forall|i: int, j: int| 0 <= i < j < part.len() implies banks[#[trigger] part[i] as int].datetime_key
        <= banks[#[trigger] part[j] as int].datetime_key by {
        assert(banks[bucket[start + i] as int].datetime_key <= banks[bucket[start + j] as int].datetime_key);
    }
    assert forall|i: int, j: int| 0 <= i < part.len() && 0 <= j < part.len() && i != j implies part[i]
        != part[j] by {
        assert(bucket[start + i] != bucket[start + j]);
    }
}

/// Puts the transactions of this amount within the window around the date of the entry at the end
/// of `list`.
fn add_window(
    list: &mut Vec<usize>,
    map: &FxHashMap<i64, Vec<usize>>,
    banks: &[BankTransaction],
    amount: i64,
    entry: &JournalEntry,
) -> (window: Ghost<Seq<usize>>)
    requires
        is_index(buckets_held(*map), banks@),
        (exists|x: int| 0 <= x < banks@.len() && (#[trigger] banks@[x]).abs_amount_cents == amount)
            ==> window_fits(*entry),
    ensures
        is_window(window@, banks@, amount as int, entry.datetime_key as int),
        final(list)@ == old(list)@ + window@,
{
    let ghost held = buckets_held(*map);
    match get_bucket(map, amount) {
        None => {
            proof {
                let none = Seq::<usize>::empty();
                assert forall|x: usize| #[trigger] none.contains(x) <==> x < banks@.len()
                    && banks@[x as int].abs_amount_cents == amount && minutes_between(
                    banks@[x as int].datetime_key as int,
                    entry.datetime_key as int,
                ) <= DATE_WINDOW_MINUTES by {
                    if x < banks@.len() {
                        assert(held.contains_key(banks@[x as int].abs_amount_cents));
                    }
                }
                assert(list@ =~= list@ + none);
            }
            Ghost(Seq::empty())
        },
        Some(bucket) => {
            if bucket.len() == 0 {
                proof {
                    let none = Seq::<usize>::empty();
                    assert(bucket@ =~= none);
                    assert(list@ =~= list@ + none);
                    assert forall|x: usize| #[trigger] none.contains(x) <==> x < banks@.len()
                        && banks@[x as int].abs_amount_cents == amount && minutes_between(
                        banks@[x as int].datetime_key as int,
                        entry.datetime_key as int,
                    ) <= DATE_WINDOW_MINUTES by {
                        assert(bucket@.contains(x) <==> x < banks@.len()
                            && banks@[x as int].abs_amount_cents == amount);
                    }
                }
                return Ghost(Seq::empty());
            }
            assert(in_range(bucket@, banks@)) by {
                assert forall|i: int| 0 <= i < bucket@.len() implies #[trigger] bucket@[i]
                    < banks@.len() by {
                    assert(bucket@.contains(bucket@[i]));
                }
            }
            assert(window_fits(*entry)) by {
                assert(bucket@.contains(bucket@[0]));
                assert(banks@[bucket@[0] as int].abs_amount_cents == amount);
            }
            let min_time = entry.datetime_key - DATE_WINDOW_MINUTES;
            let max_time = entry.datetime_key + DATE_WINDOW_MINUTES;
            let start = count_before(bucket, banks, min_time, false);
            let end = count_before(bucket, banks, max_time, true);
            proof {
                lemma_window(
                    bucket@,
                    banks@,
                    amount as int,
                    entry.datetime_key,
                    start as int,
                    end as int,
                );
            }
            let ghost before = list@;
            for i in start..end
                invariant
                    start <= end <= bucket@.len(),
                    list@ == before + bucket@.subrange(start as int, i as int),
            {
                list.push(bucket[i]);
                assert(list@ =~= before + bucket@.subrange(start as int, i + 1));
            }
            Ghost(bucket@.subrange(start as int, end as int))
        },
    }
}

/// The candidates for an entry.
fn list_candidates(
    map: &FxHashMap<i64, Vec<usize>>,
    banks: &[BankTransaction],
    entry: &JournalEntry,
) -> (list: Vec<usize>)
    requires
        is_index(buckets_held(*map), banks@),
        (exists|x: int| 0 <= x < banks@.len() && amounts_agree(#[trigger] banks@[x], *entry))
            ==> window_fits(*entry),
    ensures
        is_listing(list@, banks@, *entry),
{
    let amounts = amount_bucket_range(entry.abs_amount_cents);
    let mut list: Vec<usize> = Vec::new();
    proof {
        assert forall|x: int| 0 <= x < banks@.len() && ((#[trigger] banks@[x]).abs_amount_cents
            == amounts@[0] || banks@[x].abs_amount_cents == amounts@[1]
            || banks@[x].abs_amount_cents == amounts@[2]) implies amounts_agree(
            banks@[x],
            *entry,
        ) by {}
    }
    let Ghost(low) = add_window(&mut list, map, banks, amounts[0], entry);
    let Ghost(same) = add_window(&mut list, map, banks, amounts[1], entry);
    let Ghost(high) = add_window(&mut list, map, banks, amounts[2], entry);
    proof {
        let key = entry.datetime_key as int;
        assert(list@ =~= low + same + high);
        assert(is_window(low, banks@, amount_below(entry.abs_amount_cents), key));
        assert(is_window(same, banks@, entry.abs_amount_cents as int, key));
        assert(is_window(high, banks@, amount_above(entry.abs_amount_cents), key));
    }
    list
}

/// `c` is candidate `x` for entry `g`, scored by `score`.
pub open spec fn is_scored<F: Fn(usize, usize) -> u32>(
    c: Candidate,
    x: usize,
    banks: Seq<BankTransaction>,
    g: usize,
    entry: JournalEntry,
    score: F,
) -> bool {
    &&& c.bank_idx == x
    &&& c.minute_gap == minutes_between(
        banks[x as int].datetime_key as int,
        entry.datetime_key as int,
    )
    &&& score.ensures((g, x), c.score_ppm)
}

/// `list` holds the candidates for entry `g`, scored by `score`.
pub open spec fn are_candidates<F: Fn(usize, usize) -> u32>(
    list: Seq<Candidate>,
    banks: Seq<BankTransaction>,
    g: usize,
    entry: JournalEntry,
    score: F,
) -> bool {
    exists|places: Seq<usize>| #[trigger]
        is_listing(places, banks, entry) && places.len() == list.len() && forall|k: int|
            0 <= k < list.len() ==> is_scored(
                #[trigger] list[k],
                places[k],
                banks,
                g,
                entry,
                score,
            )
}

/// The candidates for each journal entry. `score` is told the places of an entry and of a bank
/// transaction and says how well their descriptions agree.
pub fn build_candidates<F: Fn(usize, usize) -> u32>(
    bank_transactions: &[BankTransaction],
    journal_entries: &[JournalEntry],
    score: F,
) -> (gl_candidates: Vec<Vec<Candidate>>)
    requires
        forall|g: usize, x: usize|
            g < journal_entries@.len() && x < bank_transactions@.len() ==> #[trigger]
                score.requires((g, x)),
        windows_fit(bank_transactions@, journal_entries@),
    ensures
        gl_candidates@.len() == journal_entries@.len(),
        forall|g: usize|
            g < journal_entries@.len() ==> are_candidates(
                (#[trigger] gl_candidates@[g as int])@,
                bank_transactions@,
                g,
                journal_entries@[g as int],
                score,
            ),
{
    let bank_amount_index = index_by_amount(bank_transactions);
    let mut gl_candidates: Vec<Vec<Candidate>> = Vec::new();
    for gl_idx in 0..journal_entries.len()
        invariant
            is_index(buckets_held(bank_amount_index), bank_transactions@),
            forall|g: usize, x: usize|
                g < journal_entries@.len() && x < bank_transactions@.len() ==> #[trigger]
                    score.requires((g, x)),
            forall|g: int, x: int|
                #![trigger journal_entries@[g], bank_transactions@[x]]
                0 <= g < journal_entries@.len() && 0 <= x < bank_transactions@.len()
                    && amounts_agree(bank_transactions@[x], journal_entries@[g]) ==> window_fits(
                    journal_entries@[g],
                ),
            gl_candidates@.len() == gl_idx,
            forall|g: usize|
                g < gl_idx ==> are_candidates(
                    (#[trigger] gl_candidates@[g as int])@,
                    bank_transactions@,
                    g,
                    journal_entries@[g as int],
                    score,
                ),
    {
        let entry = &journal_entries[gl_idx];
        let places = list_candidates(&bank_amount_index, bank_transactions, entry);
        let mut candidates: Vec<Candidate> = Vec::new();
        for k in 0..places.len()
            invariant
                gl_idx < journal_entries@.len(),
                entry == journal_entries@[gl_idx as int],
                is_listing(places@, bank_transactions@, *entry),
                forall|g: usize, x: usize|
                    g < journal_entries@.len() && x < bank_transactions@.len() ==> #[trigger]
                        score.requires((g, x)),
                candidates@.len() == k,
                forall|j: int|
                    0 <= j < k ==> is_scored(
                        #[trigger] candidates@[j],
                        places@[j],
                        bank_transactions@,
                        gl_idx,
                        *entry,
                        score,
                    ),
        {
            let bank_idx = places[k];
            proof {
                lemma_listing_is_complete(places@, bank_transactions@, *entry);
                assert(places@.contains(bank_idx));
            }
            let bank = &bank_transactions[bank_idx];
            let minute_gap = abs_diff_i64(bank.datetime_key, entry.datetime_key);
            let score_ppm = score(gl_idx, bank_idx);
            candidates.push(Candidate { bank_idx, score_ppm, minute_gap });
        }
        assert(are_candidates(candidates@, bank_transactions@, gl_idx, *entry, score));
        gl_candidates.push(candidates);
    }
    gl_candidates
}

/// Whatever the scores, the candidates that are found can be matched: each names a transaction
/// that exists, and no gap is longer than the window. Matching by flows asks besides that entries
/// and transactions, with a source and a sink, can be numbered by an `i32`, and no more than that.
pub proof fn lemma_candidates_can_be_matched<F: Fn(usize, usize) -> u32>(
    gl_candidates: Seq<Vec<Candidate>>,
    banks: Seq<BankTransaction>,
    entries: Seq<JournalEntry>,
    score: F,
)
    requires
        gl_candidates.len() == entries.len() <= usize::MAX,
        forall|g: usize|
            g < entries.len() ==> are_candidates(
                (#[trigger] gl_candidates[g as int])@,
                banks,
                g,
                entries[g as int],
                score,
            ),
    ensures
        banks_in_range(lists(gl_candidates), banks.len() as int),
        gaps_fit(lists(gl_candidates)),
        fits(lists(gl_candidates), banks.len() as int) <==> entries.len() + banks.len() + 2
            <= i32::MAX,
        forall|g: int, k: int|
            #![trigger lists(gl_candidates)[g][k]]
            0 <= g < entries.len() && 0 <= k < lists(gl_candidates)[g].len() ==> 0 <= lists(
                gl_candidates,
            )[g][k].minute_gap <= DATE_WINDOW_MINUTES,
{
    let cands = lists(gl_candidates);
    assert forall|g: int, k: int|
        #![trigger cands[g][k]]
        0 <= g < cands.len() && 0 <= k < cands[g].len() implies cands[g][k].bank_idx < banks.len()
        && 0 <= cands[g][k].minute_gap <= DATE_WINDOW_MINUTES by {
        let entry = entries[g];
        let list = gl_candidates[g as usize as int]@;
        assert(are_candidates(list, banks, g as usize, entry, score));
        let places = choose|places: Seq<usize>| #[trigger]
            is_listing(places, banks, entry) && places.len() == list.len() && forall|k: int|
                0 <= k < list.len() ==> is_scored(
                    #[trigger] list[k],
                    places[k],
                    banks,
                    g as usize,
                    entry,
                    score,
                );
        lemma_listing_is_complete(places, banks, entry);
        assert(places.contains(places[k]));
        assert(is_scored(list[k], places[k], banks, g as usize, entry, score));
    }
    if entries.len() + banks.len() + 2 <= i32::MAX {
        assert forall|g: int, k: int|
            #![trigger cands[g][k]]
            0 <= g < cands.len() && 0 <= k < cands[g].len() implies cost_fits(cands[g][k]) by {
            assert(cands[g][k].bank_idx < banks.len());
        }
    }
}

/// Whatever is matched follows the rules: the amounts of an entry and of its bank transaction agree
/// within a cent, the dates are within fifteen days, and the gap is the time between them.
pub proof fn lemma_matches_follow_the_rules<F: Fn(usize, usize) -> u32>(
    gl_candidates: Seq<Vec<Candidate>>,
    banks: Seq<BankTransaction>,
    entries: Seq<JournalEntry>,
    score: F,
    a: Seq<Option<Assignment>>,
    g: int,
)
    requires
        gl_candidates.len() == entries.len() <= usize::MAX,
        forall|g: usize|
            g < entries.len() ==> are_candidates(
                (#[trigger] gl_candidates[g as int])@,
                banks,
                g,
                entries[g as int],
                score,
            ),
        valid_matching(lists(gl_candidates), a),
        0 <= g < a.len(),
        a[g] is Some,
    ensures
        ({
            let bank = banks[a[g]->0.bank_idx as int];
            let gap = minutes_between(bank.datetime_key as int, entries[g].datetime_key as int);
            &&& a[g]->0.bank_idx < banks.len()
            &&& amounts_agree(bank, entries[g])
            &&& gap <= DATE_WINDOW_MINUTES
            &&& a[g]->0.minute_gap == gap
        }),
{
    let cands = lists(gl_candidates);
    let entry = entries[g];
    let k = choose|k: int| 0 <= k < cands[g].len() && #[trigger] cands[g][k].taken() == a[g]->0;
    let list = gl_candidates[g as usize as int]@;
    assert(are_candidates(list, banks, g as usize, entry, score));
    let places = choose|places: Seq<usize>| #[trigger]
        is_listing(places, banks, entry) && places.len() == list.len() && forall|k: int|
            0 <= k < list.len() ==> is_scored(
                #[trigger] list[k],
                places[k],
                banks,
                g as usize,
                entry,
                score,
            );
    lemma_listing_is_complete(places, banks, entry);
    assert(places.contains(places[k]));
    assert(is_scored(list[k], places[k], banks, g as usize, entry, score));
}

proof fn lemma_windows_agree(
    a: Seq<usize>,
    b: Seq<usize>,
    banks: Seq<BankTransaction>,
    amount: int,
    key: int,
)
    requires
        is_window(a, banks, amount, key),
        is_window(b, banks, amount, key),
    ensures
        a.to_multiset() == b.to_multiset(),
{
    assert forall|x: usize| #[trigger] a.contains(x) <==> b.contains(x) by {}
    lemma_same_contents(a, b);
}

/// Two listings for one entry hold the same.
proof fn lemma_listings_agree(
    a: Seq<usize>,
    b: Seq<usize>,
    banks: Seq<BankTransaction>,
    entry: JournalEntry,
)
    requires
        is_listing(a, banks, entry),
        is_listing(b, banks, entry),
    ensures
        a.to_multiset() == b.to_multiset(),
{
    let key = entry.datetime_key as int;
    let below = amount_below(entry.abs_amount_cents);
    let amount = entry.abs_amount_cents as int;
    let above = amount_above(entry.abs_amount_cents);
    let (low, same, high) = choose|low: Seq<usize>, same: Seq<usize>, high: Seq<usize>|
        {
            &&& a == low + same + high
            &&& #[trigger] is_window(low, banks, below, key)
            &&& #[trigger] is_window(same, banks, amount, key)
            &&& #[trigger] is_window(high, banks, above, key)
        };
    let (low2, same2, high2) = choose|low: Seq<usize>, same: Seq<usize>, high: Seq<usize>|
        {
            &&& b == low + same + high
            &&& #[trigger] is_window(low, banks, below, key)
            &&& #[trigger] is_window(same, banks, amount, key)
            &&& #[trigger] is_window(high, banks, above, key)
        };
    lemma_windows_agree(low, low2, banks, below, key);
    lemma_windows_agree(same, same2, banks, amount, key);
    lemma_windows_agree(high, high2, banks, above, key);
    vstd::seq_lib::lemma_multiset_commutative(low, same);
    vstd::seq_lib::lemma_multiset_commutative(low + same, high);
    vstd::seq_lib::lemma_multiset_commutative(low2, same2);
    vstd::seq_lib::lemma_multiset_commutative(low2 + same2, high2);
}

/// What `score` says of an entry and a transaction is always the same.
pub open spec fn is_steady<F: Fn(usize, usize) -> u32>(score: F) -> bool {
    forall|g: usize, x: usize, s: u32, t: u32| #[trigger]
        score.ensures((g, x), s) && #[trigger] score.ensures((g, x), t) ==> s == t
}

/// The candidate that transaction `x` is for entry `g`.
spec fn candidate_for<F: Fn(usize, usize) -> u32>(
    x: usize,
    banks: Seq<BankTransaction>,
    g: usize,
    entry: JournalEntry,
    score: F,
) -> Candidate {
    choose|c: Candidate| is_scored(c, x, banks, g, entry, score)
}

/// Candidates are what their listing makes of them.
proof fn lemma_candidates_of_listing<F: Fn(usize, usize) -> u32>(
    list: Seq<Candidate>,
    places: Seq<usize>,
    banks: Seq<BankTransaction>,
    g: usize,
    entry: JournalEntry,
    score: F,
)
    requires
        is_steady(score),
        places.len() == list.len(),
        forall|k: int|
            0 <= k < list.len() ==> is_scored(
                #[trigger] list[k],
                places[k],
                banks,
                g,
                entry,
                score,
            ),
    ensures
        list == places.map_values(|x: usize| candidate_for(x, banks, g, entry, score)),
{
    let made = places.map_values(|x: usize| candidate_for(x, banks, g, entry, score));
    assert forall|k: int| 0 <= k < list.len() implies #[trigger] list[k] == made[k] by {
        assert(is_scored(list[k], places[k], banks, g, entry, score));
        assert(is_scored(made[k], places[k], banks, g, entry, score));
    }
    assert(list =~= made);
}

/// With a score that is always the same, the candidates that are found for an entry may differ in
/// their order only, and the greedy matching not at all.
pub proof fn lemma_candidates_differ_in_order_only<F: Fn(usize, usize) -> u32>(
    a: Seq<Vec<Candidate>>,
    b: Seq<Vec<Candidate>>,
    banks: Seq<BankTransaction>,
    entries: Seq<JournalEntry>,
    score: F,
)
    requires
        is_steady(score),
        a.len() == b.len() == entries.len() <= usize::MAX,
        forall|g: usize|
            g < entries.len() ==> are_candidates(
                (#[trigger] a[g as int])@,
                banks,
                g,
                entries[g as int],
                score,
            ),
        forall|g: usize|
            g < entries.len() ==> are_candidates(
                (#[trigger] b[g as int])@,
                banks,
                g,
                entries[g as int],
                score,
            ),
    ensures
        same_candidates(lists(a), lists(b)),
        greedy(lists(a), banks.len()) == greedy(lists(b), banks.len()),
{
    assert forall|i: int| 0 <= i < a.len() implies #[trigger] lists(a)[i].to_multiset() == lists(b)[i].to_multiset() by {
        let g = i as usize;
        let entry = entries[i];
        assert(are_candidates(a[g as int]@, banks, g, entry, score));
        assert(are_candidates(b[g as int]@, banks, g, entry, score));
        let list = a[i]@;
        let other = b[i]@;
        let places = choose|places: Seq<usize>| #[trigger]
            is_listing(places, banks, entry) && places.len() == list.len() && forall|k: int|
                0 <= k < list.len() ==> is_scored(
                    #[trigger] list[k],
                    places[k],
                    banks,
                    g,
                    entry,
                    score,
                );
        let others = choose|places: Seq<usize>| #[trigger]
            is_listing(places, banks, entry) && places.len() == other.len() && forall|k: int|
                0 <= k < other.len() ==> is_scored(
                    #[trigger] other[k],
                    places[k],
                    banks,
                    g,
                    entry,
                    score,
                );
        lemma_candidates_of_listing(list, places, banks, g, entry, score);
        lemma_candidates_of_listing(other, others, banks, g, entry, score);
        lemma_listings_agree(places, others, banks, entry);
        lemma_map_ignores_order(
            places,
            others,
            |x: usize| candidate_for(x, banks, g, entry, score),
        );
    }
    assert(same_candidates(lists(a), lists(b))) by {
        assert forall|i: int|
            #![trigger lists(a)[i]]
            #![trigger lists(b)[i]]
            0 <= i < a.len() implies lists(a)[i].to_multiset() == lists(b)[i].to_multiset() by {}
    }
    lemma_greedy_ignores_order(lists(a), lists(b), banks.len());
}

/// Which transactions are candidates for an entry, and what a candidate says: those whose amount,
/// without its sign, is that of the entry or a cent more or less, and whose date is at most
/// 21,600 minutes, fifteen days, before or after. A candidate has the place of the transaction,
/// the minutes between the dates, and the score that was asked for.
pub proof fn lemma_candidates_by_fields<F: Fn(usize, usize) -> u32>(
    list: Seq<Candidate>,
    banks: Seq<BankTransaction>,
    g: usize,
    entry: JournalEntry,
    score: F,
    x: int,
)
    requires
        are_candidates(list, banks, g, entry, score),
        0 <= x < banks.len() <= usize::MAX,
    ensures
        ({
            let bank = banks[x];
            let apart = bank.datetime_key - entry.datetime_key;
            let near = -1 <= bank.abs_amount_cents - entry.abs_amount_cents <= 1 && -21_600
                <= apart <= 21_600;
            &&& near <==> exists|k: int| 0 <= k < list.len() && (#[trigger] list[k]).bank_idx == x
            &&& forall|k: int|
                0 <= k < list.len() && (#[trigger] list[k]).bank_idx == x ==> {
                    &&& list[k].minute_gap >= 0
                    &&& list[k].minute_gap == apart || list[k].minute_gap == -apart
                    &&& score.ensures((g, x as usize), list[k].score_ppm)
                }
        }),
        forall|k: int| 0 <= k < list.len() ==> (#[trigger] list[k]).bank_idx < banks.len(),
        i64::MIN < entry.abs_amount_cents < i64::MAX ==> forall|k: int, m: int|
            0 <= k < m < list.len() ==> (#[trigger] list[k]).bank_idx != (
            #[trigger] list[m]).bank_idx,
{
    let places = choose|places: Seq<usize>| #[trigger]
        is_listing(places, banks, entry) && places.len() == list.len() && forall|k: int|
            0 <= k < list.len() ==> is_scored(
                #[trigger] list[k],
                places[k],
                banks,
                g,
                entry,
                score,
            );
    lemma_listing_is_complete(places, banks, entry);
    assert forall|k: int| 0 <= k < list.len() implies (#[trigger] list[k]).bank_idx
        < banks.len() by {
        assert(is_scored(list[k], places[k], banks, g, entry, score));
        assert(places.contains(places[k]));
    }
    assert forall|k: int| 0 <= k < list.len() && (#[trigger] list[k]).bank_idx == x implies ({
        let apart = banks[x].datetime_key - entry.datetime_key;
        &&& list[k].minute_gap >= 0
        &&& list[k].minute_gap == apart || list[k].minute_gap == -apart
        &&& score.ensures((g, x as usize), list[k].score_ppm)
    }) by {
        assert(is_scored(list[k], places[k], banks, g, entry, score));
    }
    let near = -1 <= banks[x].abs_amount_cents - entry.abs_amount_cents <= 1 && -21_600
        <= banks[x].datetime_key - entry.datetime_key <= 21_600;
    if near {
        assert(places.contains(x as usize));
        let k = choose|k: int| 0 <= k < places.len() && places[k] == x as usize;
        assert(is_scored(list[k], places[k], banks, g, entry, score));
        assert(list[k].bank_idx == x);
    }
    if exists|k: int| 0 <= k < list.len() && (#[trigger] list[k]).bank_idx == x {
        let k = choose|k: int| 0 <= k < list.len() && (#[trigger] list[k]).bank_idx == x;
        assert(is_scored(list[k], places[k], banks, g, entry, score));
        assert(places.contains(places[k]));
    }
    if i64::MIN < entry.abs_amount_cents < i64::MAX {
        assert forall|k: int, m: int| 0 <= k < m < list.len() implies (
        #[trigger] list[k]).bank_idx != (#[trigger] list[m]).bank_idx by {
            assert(is_scored(list[k], places[k], banks, g, entry, score));
            assert(is_scored(list[m], places[m], banks, g, entry, score));
            assert(places[k] != places[m]);
        }
    }
}

/// In which order the candidates of an entry are listed: those with the smaller amount first, and
/// those with the same amount by their dates.
pub proof fn lemma_candidates_in_order<F: Fn(usize, usize) -> u32>(
    list: Seq<Candidate>,
    banks: Seq<BankTransaction>,
    g: usize,
    entry: JournalEntry,
    score: F,
    k: int,
    m: int,
)
    requires
        are_candidates(list, banks, g, entry, score),
        0 <= k < m < list.len(),
    ensures
        ({
            let a = banks[list[k].bank_idx as int];
            let b = banks[list[m].bank_idx as int];
            &&& a.abs_amount_cents <= b.abs_amount_cents
            &&& a.abs_amount_cents == b.abs_amount_cents && i64::MIN < entry.abs_amount_cents
                < i64::MAX ==> a.datetime_key <= b.datetime_key
        }),
{
    let places = choose|places: Seq<usize>| #[trigger]
        is_listing(places, banks, entry) && places.len() == list.len() && forall|k: int|
            0 <= k < list.len() ==> is_scored(
                #[trigger] list[k],
                places[k],
                banks,
                g,
                entry,
                score,
            );
    assert(is_scored(list[k], places[k], banks, g, entry, score));
    assert(is_scored(list[m], places[m], banks, g, entry, score));
    let key = entry.datetime_key as int;
    let (low, same, high) = choose|low: Seq<usize>, same: Seq<usize>, high: Seq<usize>|
        {
            &&& places == low + same + high
            &&& #[trigger] is_window(low, banks, amount_below(entry.abs_amount_cents), key)
            &&& #[trigger] is_window(same, banks, entry.abs_amount_cents as int, key)
            &&& #[trigger] is_window(high, banks, amount_above(entry.abs_amount_cents), key)
        };
    lemma_amount_of(low, same, high, banks, entry, k);
    lemma_amount_of(low, same, high, banks, entry, m);
    let n = low.len() as int;
    let s = same.len() as int;
    if m < n {
        assert(low[k] == places[k] && low[m] == places[m]);
        assert(banks[low[k] as int].datetime_key <= banks[low[m] as int].datetime_key);
    } else if n <= k && m < n + s {
        assert(same[k - n] == places[k] && same[m - n] == places[m]);
        assert(banks[same[k - n] as int].datetime_key <= banks[same[m - n] as int].datetime_key);
    } else if n + s <= k {
        assert(high[k - n - s] == places[k] && high[m - n - s] == places[m]);
        assert(banks[high[k - n - s] as int].datetime_key
            <= banks[high[m - n - s] as int].datetime_key);
    }
}

/// Dates that are fifteen days away from the first and the last that there are fit, whatever the
/// amounts.
pub proof fn lemma_windows_fit(banks: Seq<BankTransaction>, entries: Seq<JournalEntry>)
    requires
        forall|g: int|
            0 <= g < entries.len() ==> i64::MIN + 21_600 <= (#[trigger] entries[g]).datetime_key
                <= i64::MAX - 21_600,
    ensures
        windows_fit(banks, entries),
{
}

} // verus!
