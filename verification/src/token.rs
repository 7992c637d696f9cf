//! The words of a description, and the numbers that stand for them.
use core::cmp::Ordering;

use rustc_hash::FxHashMap;
use vstd::prelude::*;
use vstd::utf8::encode_utf8;

use crate::order::{not_after, order_of, orders_by, sort_unstable_by};
use crate::places::{count_places, get_place, no_places, places_held, put_place};
use crate::text::{
    ascii_lower, chars_of, is_ascii_alpha, is_ascii_number, lower, lowered, lowered_chars,
    mentions, occurs_in, same_text,
};

verus! {

/// Words that say nothing.
pub open spec fn is_stopword(word: Seq<char>) -> bool {
    ||| word == "a"@
    ||| word == "at"@
    ||| word == "bank"@
    ||| word == "by"@
    ||| word == "com"@
    ||| word == "dda"@
    ||| word == "for"@
    ||| word == "from"@
    ||| word == "in"@
    ||| word == "inc"@
    ||| word == "ll"@
    ||| word == "llc"@
    ||| word == "on"@
    ||| word == "svc"@
    ||| word == "tax"@
    ||| word == "to"@
    ||| word == "transferred"@
    ||| word == "usataxpymt"@
}

/// The byte is an ASCII letter.
pub open spec fn is_letter(b: u8) -> bool {
    65 <= b <= 90 || 97 <= b <= 122
}

/// Some byte is an ASCII letter.
pub open spec fn has_letter(bytes: Seq<u8>) -> bool {
    exists|i: int| 0 <= i < bytes.len() && is_letter(#[trigger] bytes[i])
}

/// Some byte is an ASCII digit.
pub open spec fn has_digit(bytes: Seq<u8>) -> bool {
    exists|i: int| 0 <= i < bytes.len() && crate::digits::is_digit(#[trigger] bytes[i])
}

/// A word is kept unless it is a single character, a stopword, a number of more than four digits,
/// or a mixture of letters and digits of more than eight.
pub open spec fn is_kept(word: Seq<char>) -> bool {
    let bytes = encode_utf8(word);
    &&& bytes.len() > 1
    &&& !is_stopword(word)
    &&& !(has_digit(bytes) && !has_letter(bytes) && bytes.len() > 4)
    &&& !(has_letter(bytes) && has_digit(bytes) && bytes.len() > 8)
}

/// The word that stands for this one.
pub open spec fn alias(word: Seq<char>) -> Seq<char> {
    if word == "payments"@ || word == "payables"@ || word == "payable"@ {
        "payment"@
    } else if word == "deposits"@ {
        "deposit"@
    } else if word == "credits"@ {
        "credit"@
    } else if word == "debits"@ {
        "debit"@
    } else if word == "quickbooks"@ || word == "intuit"@ {
        "intuit"@
    } else if word == "systemrecorded"@ || word == "systemgenerated"@ || word == "systemcreated"@ {
        "system"@
    } else {
        word
    }
}

fn stopword(word: &str) -> (is: bool)
    ensures
        is == is_stopword(word@),
{
    same_text(word, "a") || same_text(word, "at") || same_text(word, "bank") || same_text(
        word,
        "by",
    ) || same_text(word, "com") || same_text(word, "dda") || same_text(word, "for") || same_text(
        word,
        "from",
    ) || same_text(word, "in") || same_text(word, "inc") || same_text(word, "ll") || same_text(
        word,
        "llc",
    ) || same_text(word, "on") || same_text(word, "svc") || same_text(word, "tax") || same_text(
        word,
        "to",
    ) || same_text(word, "transferred") || same_text(word, "usataxpymt")
}

/// Whether a word is kept.
pub fn keep_token(token: &str) -> (kept: bool)
    ensures
        kept == is_kept(token@),
{
    let bytes = token.as_bytes();
    if bytes.len() <= 1 || stopword(token) {
        return false;
    }
    let mut has_alpha = false;
    let mut has_number = false;
    for i in 0..bytes.len()
        invariant
            has_alpha == has_letter(bytes@.take(i as int)),
            has_number == has_digit(bytes@.take(i as int)),
    {
        let b = bytes[i];
        proof {
            let now = bytes@.take(i as int);
            let next = bytes@.take(i + 1);
            assert(next[i as int] == b);
            if has_letter(now) {
                let j = choose|j: int| 0 <= j < now.len() && is_letter(#[trigger] now[j]);
                assert(is_letter(next[j]));
            }
            if has_digit(now) {
                let j = choose|j: int|
                    0 <= j < now.len() && crate::digits::is_digit(#[trigger] now[j]);
                assert(crate::digits::is_digit(next[j]));
            }
            assert forall|j: int| 0 <= j < i implies now[j] == #[trigger] next[j] by {}
        }
        if (65 <= b && b <= 90) || (97 <= b && b <= 122) {
            has_alpha = true;
        }
        if 48 <= b && b <= 57 {
            has_number = true;
        }
    }
    assert(bytes@.take(bytes@.len() as int) =~= bytes@);
    if has_number && !has_alpha && bytes.len() > 4 {
        return false;
    }
    if has_alpha && has_number && bytes.len() > 8 {
        return false;
    }
    true
}

/// The word that stands for `token`, if it is kept.
pub fn canonicalize_token<'a>(token: &'a str) -> (canonical: Option<&'a str>)
    ensures
        match canonical {
            Some(word) => word@ == alias(token@) && is_kept(alias(token@)),
            None => !is_kept(alias(token@)),
        },
{
    let normalized = if same_text(token, "payments") || same_text(token, "payables") || same_text(
        token,
        "payable",
    ) {
        "payment"
    } else if same_text(token, "deposits") {
        "deposit"
    } else if same_text(token, "credits") {
        "credit"
    } else if same_text(token, "debits") {
        "debit"
    } else if same_text(token, "quickbooks") || same_text(token, "intuit") {
        "intuit"
    } else if same_text(token, "systemrecorded") || same_text(token, "systemgenerated")
        || same_text(token, "systemcreated") {
        "system"
    } else {
        token
    };
    if keep_token(normalized) {
        Some(normalized)
    } else {
        None
    }
}

/// The words that have ended in `text`, and the one that has not: runs of ASCII letters and
/// digits, capitals made small.
pub open spec fn word_scan(text: Seq<char>) -> (Seq<Seq<char>>, Seq<char>)
    decreases text.len(),
{
    if text.len() == 0 {
        (Seq::empty(), Seq::empty())
    } else {
        let (ended, open) = word_scan(text.drop_last());
        let c = text.last();
        if is_ascii_alpha(c) || is_ascii_number(c) {
            (ended, open.push(ascii_lower(c)))
        } else {
            (with_kept(ended, open), Seq::empty())
        }
    }
}

/// `tokens` with the word that stands for `word` at the end, if it is kept.
pub open spec fn with_kept(tokens: Seq<Seq<char>>, word: Seq<char>) -> Seq<Seq<char>> {
    if word.len() > 0 && is_kept(alias(word)) {
        tokens.push(alias(word))
    } else {
        tokens
    }
}

/// The tokens that are words of the text.
pub open spec fn word_tokens(text: Seq<char>) -> Seq<Seq<char>> {
    let (ended, open) = word_scan(text);
    with_kept(ended, open)
}

/// `token`, where `holds`.
pub open spec fn token_if(holds: bool, token: Seq<char>) -> Seq<Seq<char>> {
    if holds {
        seq![token]
    } else {
        Seq::empty()
    }
}

/// The tokens that stand for phrases of the text.
pub open spec fn phrase_tokens(text: Seq<char>) -> Seq<Seq<char>> {
    let lower = lowered(text);
    let intuit = occurs_in(lower, "quickbooks"@) || occurs_in(lower, "intuit"@);
    let paid = occurs_in(lower, "payment"@) || occurs_in(lower, "deposit"@);
    token_if(intuit, "intuit"@) + token_if(intuit && paid, "intuit_payment"@) + token_if(
        occurs_in(lower, "bill.com"@) || occurs_in(lower, "bill com"@),
        "billcom"@,
    ) + token_if(occurs_in(lower, "mobile deposit"@), "mobile_deposit"@) + token_if(
        occurs_in(lower, "incoming wire"@),
        "incoming_wire"@,
    ) + token_if(occurs_in(lower, "ach credit"@), "ach_credit"@) + token_if(
        occurs_in(lower, "ach debit"@),
        "ach_debit"@,
    ) + token_if(occurs_in(lower, "internet transfer"@), "internet_transfer"@) + token_if(
        occurs_in(lower, "apple.com/bill"@) || occurs_in(lower, "apple.com/bil"@),
        "apple_bill"@,
    )
}

/// The tokens of a description.
pub open spec fn tokens_of(text: Seq<char>) -> Seq<Seq<char>> {
    word_tokens(text) + phrase_tokens(text)
}

/// The vocabulary with a place for `token`, the next one where it had none.
pub open spec fn with_token(known: Map<Seq<char>, usize>, token: Seq<char>) -> Map<
    Seq<char>,
    usize,
> {
    if known.contains_key(token) {
        known
    } else {
        known.insert(token, known.dom().len() as usize)
    }
}

/// The vocabulary after all of `tokens`.
pub open spec fn with_tokens(known: Map<Seq<char>, usize>, tokens: Seq<Seq<char>>) -> Map<
    Seq<char>,
    usize,
>
    decreases tokens.len(),
{
    if tokens.len() == 0 {
        known
    } else {
        with_token(with_tokens(known, tokens.drop_last()), tokens.last())
    }
}

/// The number of the token at this place, one of 32 bits.
pub open spec fn id_at(place: usize) -> u32 {
    #[verifier::truncate]
    (place as u32)
}

/// The numbers of tokens that the vocabulary holds.
pub open spec fn ids_of(known: Map<Seq<char>, usize>, tokens: Seq<Seq<char>>) -> Seq<u32> {
    Seq::new(tokens.len(), |i: int| id_at(known[tokens[i]]))
}

/// `ids` is the set of the numbers of `tokens`, in increasing order.
pub open spec fn are_ids_of(
    ids: Seq<u32>,
    known: Map<Seq<char>, usize>,
    tokens: Seq<Seq<char>>,
) -> bool {
    &&& increasing(ids)
    &&& forall|id: u32| #[trigger] ids.contains(id) <==> ids_of(known, tokens).contains(id)
}

/// The numbers go up.
pub open spec fn increasing(ids: Seq<u32>) -> bool {
    forall|i: int, j: int| 0 <= i < j < ids.len() ==> #[trigger] ids[i] < #[trigger] ids[j]
}

/// Whoever has a place keeps it, and each new token has one.
pub proof fn lemma_tokens_keep_places(known: Map<Seq<char>, usize>, tokens: Seq<Seq<char>>)
    ensures
        is_kept_in(known, with_tokens(known, tokens)),
        knows(with_tokens(known, tokens), tokens),
    decreases tokens.len(),
{
    if tokens.len() > 0 {
        let init = tokens.drop_last();
        lemma_tokens_keep_places(known, init);
        assert forall|i: int| 0 <= i < tokens.len() implies with_tokens(
            known,
            tokens,
        ).contains_key(#[trigger] tokens[i]) by {
            if i < init.len() {
                assert(init[i] == tokens[i]);
            }
        }
    }
}

/// The vocabulary has a place for each of `tokens`.
pub open spec fn knows(known: Map<Seq<char>, usize>, tokens: Seq<Seq<char>>) -> bool {
    forall|i: int| 0 <= i < tokens.len() ==> known.contains_key(#[trigger] tokens[i])
}

/// What is known in `known` is known in `more`, at the same place.
pub open spec fn is_kept_in(known: Map<Seq<char>, usize>, more: Map<Seq<char>, usize>) -> bool {
    forall|t: Seq<char>| #[trigger]
        known.contains_key(t) ==> more.contains_key(t) && more[t] == known[t]
}

/// Numbers that have been given stay as they are when more is learned.
pub proof fn lemma_ids_stay(
    ids: Seq<u32>,
    known: Map<Seq<char>, usize>,
    more: Map<Seq<char>, usize>,
    tokens: Seq<Seq<char>>,
)
    requires
        are_ids_of(ids, known, tokens),
        knows(known, tokens),
        is_kept_in(known, more),
    ensures
        are_ids_of(ids, more, tokens),
        knows(more, tokens),
{
    assert(ids_of(known, tokens) =~= ids_of(more, tokens)) by {
        assert forall|i: int| 0 <= i < tokens.len() implies more[#[trigger] tokens[i]]
            == known[tokens[i]] by {
            assert(known.contains_key(tokens[i]));
        }
    }
    assert forall|i: int| 0 <= i < tokens.len() implies more.contains_key(#[trigger] tokens[i]) by {
        assert(known.contains_key(tokens[i]));
    }
}

/// The places of the vocabulary are the numbers below its size, each taken once.
pub open spec fn is_orderly(known: Map<Seq<char>, usize>) -> bool {
    &&& known.dom().finite()
    &&& forall|t: Seq<char>| #[trigger] known.contains_key(t) ==> known[t] < known.dom().len()
    &&& forall|s: Seq<char>, t: Seq<char>| #[trigger]
        known.contains_key(s) && #[trigger] known.contains_key(t) && known[s] == known[t] ==> s == t
}

/// Learning tokens keeps the vocabulary orderly, as long as its size can be held.
pub proof fn lemma_tokens_stay_orderly(known: Map<Seq<char>, usize>, tokens: Seq<Seq<char>>)
    requires
        is_orderly(known),
        known.dom().len() + tokens.len() <= usize::MAX,
    ensures
        is_orderly(with_tokens(known, tokens)),
        with_tokens(known, tokens).dom().len() <= known.dom().len() + tokens.len(),
    decreases tokens.len(),
{
    if tokens.len() > 0 {
        let init = tokens.drop_last();
        lemma_tokens_stay_orderly(known, init);
        let m = with_tokens(known, init);
        let t = tokens.last();
        if !m.contains_key(t) {
            let next = with_token(m, t);
            assert(next.dom() =~= m.dom().insert(t));
        }
    }
}

/// In an orderly vocabulary of up to 2^32 tokens two tokens have the same number only if they are
/// the same, and every number is below the size of the vocabulary.
pub proof fn lemma_ids_tell_tokens_apart(known: Map<Seq<char>, usize>, s: Seq<char>, t: Seq<char>)
    requires
        is_orderly(known),
        known.dom().len() <= 0x1_0000_0000,
        known.contains_key(s),
        known.contains_key(t),
    ensures
        id_at(known[s]) < known.dom().len(),
        id_at(known[s]) == id_at(known[t]) <==> s == t,
{
}

/// The numbers of known tokens are below the size of an orderly vocabulary of up to 2^32 tokens.
pub proof fn lemma_ids_are_below(
    ids: Seq<u32>,
    known: Map<Seq<char>, usize>,
    tokens: Seq<Seq<char>>,
)
    requires
        is_orderly(known),
        known.dom().len() <= 0x1_0000_0000,
        knows(known, tokens),
        are_ids_of(ids, known, tokens),
    ensures
        forall|i: int| 0 <= i < ids.len() ==> #[trigger] ids[i] < known.dom().len(),
{
    assert forall|i: int| 0 <= i < ids.len() implies #[trigger] ids[i] < known.dom().len() by {
        assert(ids.contains(ids[i]));
        let all = ids_of(known, tokens);
        let k = choose|k: int| 0 <= k < all.len() && all[k] == ids[i];
        assert(known.contains_key(tokens[k]));
    }
}

/// What is known already is not learned again: the same description has the same tokens.
pub proof fn lemma_tokens_are_learned_once(known: Map<Seq<char>, usize>, tokens: Seq<Seq<char>>)
    requires
        knows(known, tokens),
    ensures
        with_tokens(known, tokens) == known,
    decreases tokens.len(),
{
    if tokens.len() > 0 {
        let init = tokens.drop_last();
        assert(knows(known, init)) by {
            assert forall|i: int| 0 <= i < init.len() implies known.contains_key(
                #[trigger] init[i],
            ) by {
                assert(known.contains_key(tokens[i]));
            }
        }
        lemma_tokens_are_learned_once(known, init);
        assert(known.contains_key(tokens[tokens.len() - 1]));
    }
}

/// Two descriptions that mention QuickBooks or Intuit, each either of them, share a token.
pub proof fn lemma_quickbooks_is_intuit(
    a: Seq<char>,
    b: Seq<char>,
    known: Map<Seq<char>, usize>,
    ids_a: Seq<u32>,
    ids_b: Seq<u32>,
)
    requires
        occurs_in(lowered(a), "quickbooks"@) || occurs_in(lowered(a), "intuit"@),
        occurs_in(lowered(b), "quickbooks"@) || occurs_in(lowered(b), "intuit"@),
        are_ids_of(ids_a, known, tokens_of(a)),
        are_ids_of(ids_b, known, tokens_of(b)),
    ensures
        ids_a.contains(id_at(known["intuit"@])),
        ids_b.contains(id_at(known["intuit"@])),
{
    lemma_intuit_token(a, known);
    lemma_intuit_token(b, known);
}

proof fn lemma_intuit_token(text: Seq<char>, known: Map<Seq<char>, usize>)
    requires
        occurs_in(lowered(text), "quickbooks"@) || occurs_in(lowered(text), "intuit"@),
    ensures
        ids_of(known, tokens_of(text)).contains(id_at(known["intuit"@])),
{
    let n = word_tokens(text).len() as int;
    assert(phrase_tokens(text)[0] == "intuit"@);
    assert(tokens_of(text)[n] == "intuit"@);
    assert(ids_of(known, tokens_of(text))[n] == id_at(known["intuit"@]));
}

/// Gives each token a number.
pub struct TokenInterner {
    ids: FxHashMap<String, usize>,
}

impl TokenInterner {
    /// The places of the tokens that have been seen.
    pub closed spec fn view(&self) -> Map<Seq<char>, usize> {
        places_held(self.ids)
    }

    /// The numbers of the tokens of a description.
    #[verifier::rlimit(40)]
    pub fn tokenize(&mut self, text: &str) -> (ids: Vec<u32>)
        ensures
            final(self)@ == with_tokens(old(self)@, tokens_of(text@)),
            are_ids_of(ids@, final(self)@, tokens_of(text@)),
    {
        let ghost start = self@;
        let mut ids: Vec<u32> = Vec::new();
        let mut token = String::new();
        let chars = chars_of(text);
        for i in 0..chars.len()
            invariant
                chars@ == text@,
                token@ == word_scan(text@.take(i as int)).1,
                self@ == with_tokens(start, word_scan(text@.take(i as int)).0),
                ids@ == ids_of(self@, word_scan(text@.take(i as int)).0),
        {
            let c = chars[i];
            proof {
                let next = text@.take(i + 1);
                assert(next.drop_last() =~= text@.take(i as int));
                assert(next.last() == c);
            }
            if ('a' <= c && c <= 'z') || ('A' <= c && c <= 'Z') || ('0' <= c && c <= '9') {
                token.push(lower(c));
            } else {
                let ghost tokens = word_scan(text@.take(i as int)).0;
                let ghost word = token@;
                let ghost before = self@;
                self.flush_token(&mut token, &mut ids);
                proof {
                    lemma_flush(start, tokens, word, before, self@);
                }
            }
        }
        assert(text@.take(text@.len() as int) =~= text@);
        let ghost tokens = word_scan(text@).0;
        let ghost word = token@;
        let ghost before = self@;
        self.flush_token(&mut token, &mut ids);
        proof {
            lemma_flush(start, tokens, word, before, self@);
        }
        let ghost middle = self@;
        self.add_synthetic_tokens(text, &mut ids);
        proof {
            lemma_with_tokens_add(start, word_tokens(text@), phrase_tokens(text@));
            lemma_tokens_keep_places(middle, phrase_tokens(text@));
            lemma_tokens_keep_places(start, word_tokens(text@));
            assert(ids@ =~= ids_of(self@, tokens_of(text@)));
        }
        sort_ids(&mut ids);
        distinct(&ids)
    }

    /// Ends a word: if it is kept, its number is put at the end of `ids`.
    pub fn flush_token(&mut self, token: &mut String, ids: &mut Vec<u32>)
        ensures
            final(token)@.len() == 0,
            final(self)@ == with_tokens(old(self)@, with_kept(Seq::empty(), old(token)@)),
            final(ids)@ == old(ids)@ + ids_of(
                final(self)@,
                with_kept(Seq::empty(), old(token)@),
            ),
    {
        proof {
            reveal_with_fuel(with_tokens, 2);
        }
        if !token.as_str().is_empty() {
            if let Some(normalized) = canonicalize_token(token.as_str()) {
                ids.push(self.intern_token(normalized));
                proof {
                    let one = with_kept(Seq::empty(), old(token)@);
                    assert(one.drop_last() =~= Seq::<Seq<char>>::empty());
                    assert(one.last() == alias(old(token)@));
                    assert(ids@ =~= old(ids)@ + ids_of(self@, one));
                }
            } else {
                assert(ids@ =~= old(ids)@ + ids_of(self@, Seq::empty()));
            }
        } else {
            assert(ids@ =~= old(ids)@ + ids_of(self@, Seq::empty()));
        }
        *token = String::new();
    }

    /// Puts the numbers of the tokens that stand for phrases at the end of `ids`.
    #[verifier::rlimit(40)]
    pub fn add_synthetic_tokens(&mut self, text: &str, ids: &mut Vec<u32>)
        ensures
            final(self)@ == with_tokens(old(self)@, phrase_tokens(text@)),
            final(ids)@ == old(ids)@ + ids_of(final(self)@, phrase_tokens(text@)),
    {
        let lower = lowered_chars(text);
        let intuit = mentions(&lower, "quickbooks") || mentions(&lower, "intuit");
        let paid = mentions(&lower, "payment") || mentions(&lower, "deposit");
        let ghost start = self@;
        let ghost first = ids@;
        let ghost mut tokens: Seq<Seq<char>> = Seq::empty();
        assert(ids@ =~= first + ids_of(self@, tokens));
        self.add_if(intuit, "intuit", ids, Ghost(start), Ghost(first), Ghost(tokens));
        proof {
            tokens = tokens + token_if(intuit, "intuit"@);
            assert(tokens =~= token_if(intuit, "intuit"@));
        }
        self.add_if(
            intuit && paid,
            "intuit_payment",
            ids,
            Ghost(start),
            Ghost(first),
            Ghost(tokens),
        );
        proof {
            tokens = tokens + token_if(intuit && paid, "intuit_payment"@);
        }
        let billcom = mentions(&lower, "bill.com") || mentions(&lower, "bill com");
        self.add_if(billcom, "billcom", ids, Ghost(start), Ghost(first), Ghost(tokens));
        proof {
            tokens = tokens + token_if(billcom, "billcom"@);
        }
        let mobile = mentions(&lower, "mobile deposit");
        self.add_if(mobile, "mobile_deposit", ids, Ghost(start), Ghost(first), Ghost(tokens));
        proof {
            tokens = tokens + token_if(mobile, "mobile_deposit"@);
        }
        let wire = mentions(&lower, "incoming wire");
        self.add_if(wire, "incoming_wire", ids, Ghost(start), Ghost(first), Ghost(tokens));
        proof {
            tokens = tokens + token_if(wire, "incoming_wire"@);
        }
        let credit = mentions(&lower, "ach credit");
        self.add_if(credit, "ach_credit", ids, Ghost(start), Ghost(first), Ghost(tokens));
        proof {
            tokens = tokens + token_if(credit, "ach_credit"@);
        }
        let debit = mentions(&lower, "ach debit");
        self.add_if(debit, "ach_debit", ids, Ghost(start), Ghost(first), Ghost(tokens));
        proof {
            tokens = tokens + token_if(debit, "ach_debit"@);
        }
        let transfer = mentions(&lower, "internet transfer");
        self.add_if(transfer, "internet_transfer", ids, Ghost(start), Ghost(first), Ghost(tokens));
        proof {
            tokens = tokens + token_if(transfer, "internet_transfer"@);
        }
        let apple = mentions(&lower, "apple.com/bill") || mentions(&lower, "apple.com/bil");
        self.add_if(apple, "apple_bill", ids, Ghost(start), Ghost(first), Ghost(tokens));
        proof {
            tokens = tokens + token_if(apple, "apple_bill"@);
            assert(tokens == phrase_tokens(text@));
        }
    }

    /// Puts the number of `token` at the end of `ids`, where `holds`.
    fn add_if(
        &mut self,
        holds: bool,
        token: &str,
        ids: &mut Vec<u32>,
        Ghost(start): Ghost<Map<Seq<char>, usize>>,
        Ghost(first): Ghost<Seq<u32>>,
        Ghost(tokens): Ghost<Seq<Seq<char>>>,
    )
        requires
            old(self)@ == with_tokens(start, tokens),
            old(ids)@ == first + ids_of(old(self)@, tokens),
        ensures
            final(self)@ == with_tokens(start, tokens + token_if(holds, token@)),
            final(ids)@ == first + ids_of(final(self)@, tokens + token_if(holds, token@)),
    {
        let ghost more = tokens + token_if(holds, token@);
        if holds {
            ids.push(self.intern_token(token));
            proof {
                assert(more.drop_last() =~= tokens);
                assert(more.last() == token@);
                lemma_tokens_keep_places(start, tokens);
                assert forall|i: int| 0 <= i < tokens.len() implies self@[#[trigger] tokens[i]]
                    == old(self)@[tokens[i]] by {
                    assert(old(self)@.contains_key(tokens[i]));
                }
                assert(ids@ =~= first + ids_of(self@, more));
            }
        } else {
            assert(more =~= tokens);
        }
    }

    /// The number of the token, a new one where it has none.
    pub fn intern_token(&mut self, token: &str) -> (id: u32)
        ensures
            final(self)@ == with_token(old(self)@, token@),
            id == id_at(final(self)@[token@]),
    {
        if let Some(place) = get_place(&self.ids, token) {
            return #[verifier::truncate]
            (place as u32);
        }
        let place = count_places(&self.ids);
        put_place(&mut self.ids, token.to_owned(), place);
        #[verifier::truncate]
        (place as u32)
    }

    /// How many tokens have been seen.
    pub fn len(&self) -> (count: usize)
        ensures
            count == self@.dom().len(),
    {
        count_places(&self.ids)
    }
}

impl Default for TokenInterner {
    fn default() -> (interner: TokenInterner)
        ensures
            interner@ == Map::<Seq<char>, usize>::empty(),
    {
        TokenInterner { ids: no_places() }
    }
}

/// What a word that ends adds to the tokens before it.
proof fn lemma_flush(
    start: Map<Seq<char>, usize>,
    tokens: Seq<Seq<char>>,
    word: Seq<char>,
    before: Map<Seq<char>, usize>,
    after: Map<Seq<char>, usize>,
)
    requires
        before == with_tokens(start, tokens),
        after == with_tokens(before, with_kept(Seq::empty(), word)),
    ensures
        after == with_tokens(start, with_kept(tokens, word)),
        ids_of(before, tokens) + ids_of(after, with_kept(Seq::empty(), word)) == ids_of(
            after,
            with_kept(tokens, word),
        ),
{
    let one = with_kept(Seq::empty(), word);
    lemma_with_tokens_add(start, tokens, one);
    lemma_tokens_keep_places(start, tokens);
    lemma_tokens_keep_places(before, one);
    assert(tokens + one =~= with_kept(tokens, word));
    assert forall|i: int| 0 <= i < tokens.len() implies after[#[trigger] tokens[i]]
        == before[tokens[i]] by {
        assert(before.contains_key(tokens[i]));
    }
    assert(ids_of(before, tokens) + ids_of(after, one) =~= ids_of(after, with_kept(tokens, word)));
}

/// Tokens can be learned in two parts.
pub proof fn lemma_with_tokens_add(
    known: Map<Seq<char>, usize>,
    tokens: Seq<Seq<char>>,
    more: Seq<Seq<char>>,
)
    ensures
        with_tokens(known, tokens + more) == with_tokens(with_tokens(known, tokens), more),
    decreases more.len(),
{
    if more.len() == 0 {
        assert(tokens + more =~= tokens);
    } else {
        lemma_with_tokens_add(known, tokens, more.drop_last());
        assert((tokens + more).drop_last() =~= tokens + more.drop_last());
        assert((tokens + more).last() == more.last());
    }
}

spec fn nondecreasing(ids: Seq<u32>) -> bool {
    forall|i: int, j: int| 0 <= i < j < ids.len() ==> #[trigger] ids[i] <= #[trigger] ids[j]
}

spec fn id_key(id: u32) -> Seq<int> {
    seq![id as int]
}

/// Puts the numbers in order.
fn sort_ids(ids: &mut Vec<u32>)
    ensures
        nondecreasing(final(ids)@),
        forall|id: u32| #[trigger] final(ids)@.contains(id) <==> old(ids)@.contains(id),
{
    broadcast use vstd::seq_lib::group_to_multiset_ensures;

    let ghost start = ids@;
    let ghost key = |id: u32| id_key(id);
    let compare = |left: &u32, right: &u32| -> (order: Ordering)
        ensures
            order == order_of(id_key(*left), id_key(*right)),
        {
            proof {
                reveal_with_fuel(crate::order::before_from, 2);
            }
            if *left < *right {
                Ordering::Less
            } else if *right < *left {
                Ordering::Greater
            } else {
                Ordering::Equal
            }
        };
    assert(orders_by(compare, key, start));
    sort_unstable_by(ids, compare);
    proof {
        let leq = not_after(key);
        assert forall|i: int, j: int| 0 <= i < j < ids@.len() implies #[trigger] ids@[i]
            <= #[trigger] ids@[j] by {
            assert(leq(ids@[i], ids@[j]));
            reveal_with_fuel(crate::order::before_from, 2);
            assert(id_key(ids@[j])[0] == ids@[j] && id_key(ids@[i])[0] == ids@[i]);
        }
        assert forall|id: u32| #[trigger] ids@.contains(id) <==> start.contains(id) by {
            assert(ids@.to_multiset().count(id) == start.to_multiset().count(id));
        }
    }
}

/// The numbers without repetitions.
fn distinct(ids: &Vec<u32>) -> (out: Vec<u32>)
    requires
        nondecreasing(ids@),
    ensures
        increasing(out@),
        forall|id: u32| #[trigger] out@.contains(id) <==> ids@.contains(id),
{
    let mut out: Vec<u32> = Vec::new();
    for i in 0..ids.len()
        invariant
            nondecreasing(ids@),
            increasing(out@),
            out@.len() == 0 <==> i == 0,
            i > 0 ==> out@.last() == ids@[i - 1],
            forall|id: u32| #[trigger] out@.contains(id) <==> ids@.take(i as int).contains(id),
    {
        let id = ids[i];
        let ghost before = out@;
        let ghost old_ids = ids@.take(i as int);
        let ghost new_ids = ids@.take(i + 1);
        proof {
            assert(new_ids =~= old_ids.push(id));
            if i > 0 {
                assert(ids@[i - 1] <= ids@[i as int]);
                assert forall|j: int| 0 <= j < before.len() implies #[trigger] before[j]
                    <= before.last() by {
                    if j < before.len() - 1 {
                        assert(before[j] < before[before.len() - 1]);
                    }
                }
            }
        }
        if i == 0 || id != ids[i - 1] {
            out.push(id);
            proof {
                assert forall|x: u32| #[trigger] out@.contains(x) <==> new_ids.contains(x) by {
                    lemma_push_contains(before, id, x);
                    lemma_push_contains(old_ids, id, x);
                    assert(before.contains(x) <==> old_ids.contains(x));
                }
            }
        } else {
            proof {
                assert forall|x: u32| #[trigger] out@.contains(x) <==> new_ids.contains(x) by {
                    lemma_push_contains(old_ids, id, x);
                    assert(before.contains(x) <==> old_ids.contains(x));
                    assert(before[before.len() - 1] == id);
                    assert(before.contains(id));
                }
            }
        }
    }
    assert(ids@.take(ids@.len() as int) =~= ids@);
    out
}

proof fn lemma_push_contains(s: Seq<u32>, a: u32, x: u32)
    ensures
        s.push(a).contains(x) <==> s.contains(x) || x == a,
{
    let t = s.push(a);
    if s.contains(x) {
        let i = choose|i: int| 0 <= i < s.len() && s[i] == x;
        assert(t[i] == x);
    }
    assert(t[s.len() as int] == a);
    if t.contains(x) {
        let i = choose|i: int| 0 <= i < t.len() && t[i] == x;
        if i < s.len() {
            assert(s[i] == x);
        }
    }
}

/// The characters from `i` up to `j` are a word of the text: ASCII letters and digits, with none
/// directly before or behind.
pub open spec fn is_word_at(text: Seq<char>, i: int, j: int) -> bool {
    &&& 0 <= i < j <= text.len()
    &&& forall|m: int| i <= m < j ==> in_words(#[trigger] text[m])
    &&& i > 0 ==> !in_words(text[i - 1])
    &&& j < text.len() ==> !in_words(text[j])
}

/// An ASCII letter or digit.
pub open spec fn in_words(c: char) -> bool {
    let n = c as u32;
    48 <= n <= 57 || 65 <= n <= 90 || 97 <= n <= 122
}

/// The token that the word from `i` up to `j` is read as.
pub open spec fn read_as(text: Seq<char>, i: int, j: int) -> Seq<char> {
    alias(lowered(text.subrange(i, j)))
}

proof fn lemma_in_words(c: char)
    ensures
        in_words(c) == (is_ascii_alpha(c) || is_ascii_number(c)),
{
    let n = c as u32;
    assert('0' as u32 == 48 && '9' as u32 == 57);
    assert('a' as u32 == 97 && 'z' as u32 == 122);
    assert('A' as u32 == 65 && 'Z' as u32 == 90);
    assert(('0' <= c) == (48 <= n));
    assert((c <= '9') == (n <= 57));
    assert(('a' <= c) == (97 <= n));
    assert((c <= 'z') == (n <= 122));
    assert(('A' <= c) == (65 <= n));
    assert((c <= 'Z') == (n <= 90));
}

/// Where the word that has not ended starts.
spec fn open_from(text: Seq<char>) -> int
    decreases text.len(),
{
    if text.len() > 0 && in_words(text.last()) {
        open_from(text.drop_last())
    } else {
        text.len() as int
    }
}

proof fn lemma_open_word(text: Seq<char>)
    ensures
        ({
            let s = open_from(text);
            &&& 0 <= s <= text.len()
            &&& forall|m: int| s <= m < text.len() ==> in_words(#[trigger] text[m])
            &&& s > 0 ==> !in_words(text[s - 1])
            &&& word_scan(text).1 == lowered(text.subrange(s, text.len() as int))
        }),
    decreases text.len(),
{
    let s = open_from(text);
    if text.len() > 0 {
        let init = text.drop_last();
        let c = text.last();
        lemma_in_words(c);
        lemma_open_word(init);
        if in_words(c) {
            assert forall|m: int| s <= m < text.len() implies in_words(#[trigger] text[m]) by {
                if m < init.len() {
                    assert(init[m] == text[m]);
                }
            }
            assert(word_scan(text).1 =~= lowered(text.subrange(s, text.len() as int)));
        } else {
            assert(word_scan(text).1 =~= lowered(text.subrange(s, text.len() as int)));
        }
    } else {
        assert(word_scan(text).1 =~= lowered(text.subrange(s, text.len() as int)));
    }
}

/// A word of a text that is kept and read as `t`, and that ends before `end`.
spec fn word_before(text: Seq<char>, t: Seq<char>, end: int) -> bool {
    exists|i: int, j: int|
        #[trigger] is_word_at(text, i, j) && j < end && read_as(text, i, j) == t && is_kept(t)
}

proof fn lemma_word_of_prefix(text: Seq<char>, i: int, j: int)
    requires
        text.len() > 0,
        j < text.len() - 1,
    ensures
        is_word_at(text, i, j) <==> is_word_at(text.drop_last(), i, j),
        0 <= i <= j ==> read_as(text, i, j) == read_as(text.drop_last(), i, j),
{
    let init = text.drop_last();
    if 0 <= i <= j {
        assert(init.subrange(i, j) =~= text.subrange(i, j));
    }
    assert forall|m: int| 0 <= m < init.len() implies #[trigger] init[m] == text[m] by {}
    if is_word_at(text, i, j) {
        assert forall|m: int| i <= m < j implies in_words(#[trigger] init[m]) by {
            assert(in_words(text[m]));
        }
    }
    if is_word_at(init, i, j) {
        assert forall|m: int| i <= m < j implies in_words(#[trigger] text[m]) by {
            assert(in_words(init[m]));
        }
    }
}

proof fn lemma_with_kept(tokens: Seq<Seq<char>>, word: Seq<char>, t: Seq<char>)
    ensures
        with_kept(tokens, word).contains(t) <==> tokens.contains(t) || (word.len() > 0 && is_kept(
            alias(word),
        ) && t == alias(word)),
{
    let out = with_kept(tokens, word);
    if tokens.contains(t) {
        let i = choose|i: int| 0 <= i < tokens.len() && tokens[i] == t;
        assert(out[i] == t);
    }
    if word.len() > 0 && is_kept(alias(word)) {
        assert(out[tokens.len() as int] == alias(word));
    }
    if out.contains(t) {
        let i = choose|i: int| 0 <= i < out.len() && out[i] == t;
        if i < tokens.len() {
            assert(tokens[i] == t);
        }
    }
}

/// The open word is the only one that ends where the text does.
proof fn lemma_last_word(text: Seq<char>, i: int)
    ensures
        is_word_at(text, i, text.len() as int) <==> i == open_from(text) && i < text.len(),
{
    lemma_open_word(text);
    let s = open_from(text);
    if is_word_at(text, i, text.len() as int) {
        if i < s {
            assert(in_words(text[s - 1]));
        } else if s < i {
            assert(in_words(text[i - 1]));
        }
    }
}

proof fn lemma_ended_words(text: Seq<char>, t: Seq<char>)
    ensures
        word_scan(text).0.contains(t) <==> word_before(text, t, text.len() as int),
    decreases text.len(),
{
    let n = text.len() as int;
    if n == 0 {
        assert(!word_scan(text).0.contains(t));
    } else {
        let init = text.drop_last();
        let c = text.last();
        lemma_in_words(c);
        lemma_ended_words(init, t);
        lemma_open_word(init);
        let (ended, open) = word_scan(init);
        let s = open_from(init);
        if !in_words(c) {
            lemma_with_kept(ended, open, t);
        }
        if word_scan(text).0.contains(t) {
            if ended.contains(t) {
                let (i, j) = choose|i: int, j: int|
                    #[trigger] is_word_at(init, i, j) && j < n - 1 && read_as(init, i, j) == t
                        && is_kept(t);
                lemma_word_of_prefix(text, i, j);
                assert(is_word_at(text, i, j));
            } else {
                assert(init.subrange(s, n - 1) =~= text.subrange(s, n - 1));
                assert forall|m: int| s <= m < n - 1 implies in_words(#[trigger] text[m]) by {
                    assert(in_words(init[m]));
                }
                if s > 0 {
                    assert(init[s - 1] == text[s - 1]);
                }
                assert(is_word_at(text, s, n - 1));
            }
        }
        if word_before(text, t, n) {
            let (i, j) = choose|i: int, j: int|
                #[trigger] is_word_at(text, i, j) && j < n && read_as(text, i, j) == t && is_kept(t);
            if j < n - 1 {
                lemma_word_of_prefix(text, i, j);
                assert(is_word_at(init, i, j));
                assert(ended.contains(t));
                let k = choose|k: int| 0 <= k < ended.len() && ended[k] == t;
                if in_words(c) {
                    assert(word_scan(text).0[k] == t);
                }
            } else {
                assert(!in_words(text[n - 1]));
                assert(is_word_at(init, i, n - 1)) by {
                    assert forall|m: int| i <= m < n - 1 implies in_words(#[trigger] init[m]) by {
                        assert(in_words(text[m]));
                    }
                    if i > 0 {
                        assert(init[i - 1] == text[i - 1]);
                    }
                }
                lemma_last_word(init, i);
                assert(init.subrange(s, n - 1) =~= text.subrange(s, n - 1));
                assert(open == lowered(text.subrange(i, j)));
            }
        }
    }
}

/// The words of a description are its runs of ASCII letters and digits, each as long as can be:
/// what any of them is read as is a token of the description, if it is kept, and no other word is.
/// Whatever is neither letter nor digit ends a word.
pub proof fn lemma_words_are_runs(text: Seq<char>, t: Seq<char>)
    ensures
        word_tokens(text).contains(t) <==> is_kept(t) && exists|i: int, j: int|
            {
                &&& 0 <= i < j <= text.len()
                &&& forall|m: int|
                    i <= m < j ==> {
                        let n = #[trigger] text[m] as u32;
                        48 <= n <= 57 || 65 <= n <= 90 || 97 <= n <= 122
                    }
                &&& i > 0 ==> {
                    let n = text[i - 1] as u32;
                    !(48 <= n <= 57 || 65 <= n <= 90 || 97 <= n <= 122)
                }
                &&& j < text.len() ==> {
                    let n = text[j] as u32;
                    !(48 <= n <= 57 || 65 <= n <= 90 || 97 <= n <= 122)
                }
                &&& alias(lowered(#[trigger] text.subrange(i, j))) == t
            },
        word_tokens(text).contains(t) ==> tokens_of(text).contains(t),
        tokens_of(text).contains(t) ==> word_tokens(text).contains(t) || phrase_tokens(
            text,
        ).contains(t),
{
    let n = text.len() as int;
    let (ended, open) = word_scan(text);
    let s = open_from(text);
    lemma_ended_words(text, t);
    lemma_open_word(text);
    lemma_with_kept(ended, open, t);
    if word_tokens(text).contains(t) {
        let (i, j) = if ended.contains(t) {
            choose|i: int, j: int|
                #[trigger] is_word_at(text, i, j) && j < n && read_as(text, i, j) == t && is_kept(t)
        } else {
            (s, n)
        };
        lemma_last_word(text, s);
        assert(is_word_at(text, i, j));
        assert(alias(lowered(text.subrange(i, j))) == t);
        assert forall|m: int| i <= m < j implies ({
            let n = #[trigger] text[m] as u32;
            48 <= n <= 57 || 65 <= n <= 90 || 97 <= n <= 122
        }) by {
            assert(in_words(text[m]));
        }
    }
    if is_kept(t) {
        if exists|i: int, j: int|
            {
                &&& 0 <= i < j <= text.len()
                &&& forall|m: int|
                    i <= m < j ==> {
                        let n = #[trigger] text[m] as u32;
                        48 <= n <= 57 || 65 <= n <= 90 || 97 <= n <= 122
                    }
                &&& i > 0 ==> {
                    let n = text[i - 1] as u32;
                    !(48 <= n <= 57 || 65 <= n <= 90 || 97 <= n <= 122)
                }
                &&& j < text.len() ==> {
                    let n = text[j] as u32;
                    !(48 <= n <= 57 || 65 <= n <= 90 || 97 <= n <= 122)
                }
                &&& alias(lowered(#[trigger] text.subrange(i, j))) == t
            } {
            let (i, j) = choose|i: int, j: int|
                {
                    &&& 0 <= i < j <= text.len()
                    &&& forall|m: int|
                        i <= m < j ==> {
                            let n = #[trigger] text[m] as u32;
                            48 <= n <= 57 || 65 <= n <= 90 || 97 <= n <= 122
                        }
                    &&& i > 0 ==> {
                        let n = text[i - 1] as u32;
                        !(48 <= n <= 57 || 65 <= n <= 90 || 97 <= n <= 122)
                    }
                    &&& j < text.len() ==> {
                        let n = text[j] as u32;
                        !(48 <= n <= 57 || 65 <= n <= 90 || 97 <= n <= 122)
                    }
                    &&& alias(lowered(#[trigger] text.subrange(i, j))) == t
                };
            assert(is_word_at(text, i, j));
            if j < n {
                assert(word_before(text, t, n));
            } else {
                lemma_last_word(text, i);
            }
        }
    }
    lemma_concat_contains(word_tokens(text), phrase_tokens(text), t);
}

proof fn lemma_concat_contains(a: Seq<Seq<char>>, b: Seq<Seq<char>>, t: Seq<char>)
    ensures
        (a + b).contains(t) <==> a.contains(t) || b.contains(t),
{
    let s = a + b;
    if a.contains(t) {
        let i = choose|i: int| 0 <= i < a.len() && a[i] == t;
        assert(s[i] == t);
    }
    if b.contains(t) {
        let i = choose|i: int| 0 <= i < b.len() && b[i] == t;
        assert(s[a.len() + i] == t);
    }
    if s.contains(t) {
        let i = choose|i: int| 0 <= i < s.len() && s[i] == t;
        if i < a.len() {
            assert(a[i] == t);
        } else {
            assert(b[i - a.len()] == t);
        }
    }
}

proof fn lemma_ascii(c: char)
    ensures
        c as u32 <= 127 ==> '\0' <= c <= '\u{7f}' && c as u8 as u32 == c as u32,
{
    let n = c as u32;
    assert('\0' as u32 == 0 && '\u{7f}' as u32 == 127);
    assert(('\0' <= c) == (0 <= n));
    assert((c <= '\u{7f}') == (n <= 127));
}

/// Which words are kept, of those made of small letters and digits: not a single character, not
/// one of the eighteen that say nothing, no number of more than four digits, and no mixture of
/// letters and digits of more than eight characters; all others are.
pub proof fn lemma_kept_words(word: Seq<char>)
    requires
        forall|m: int|
            0 <= m < word.len() ==> {
                let n = #[trigger] word[m] as u32;
                48 <= n <= 57 || 97 <= n <= 122
            },
    ensures
        ({
            let digits = exists|m: int| 0 <= m < word.len() && 48 <= #[trigger] word[m] as u32 <= 57;
            let letters = exists|m: int|
                0 <= m < word.len() && 97 <= #[trigger] word[m] as u32 <= 122;
            let said = {
                &&& word != "a"@ && word != "at"@ && word != "bank"@ && word != "by"@
                &&& word != "com"@ && word != "dda"@ && word != "for"@ && word != "from"@
                &&& word != "in"@ && word != "inc"@ && word != "ll"@ && word != "llc"@
                &&& word != "on"@ && word != "svc"@ && word != "tax"@ && word != "to"@
                &&& word != "transferred"@ && word != "usataxpymt"@
            };
            is_kept(word) <==> {
                &&& 2 <= word.len()
                &&& said
                &&& digits && !letters ==> word.len() <= 4
                &&& digits && letters ==> word.len() <= 8
            }
        }),
{
    let bytes = encode_utf8(word);
    assert(vstd::utf8::is_ascii_chars(word)) by {
        assert forall|m: int| 0 <= m < word.len() implies '\0' <= #[trigger] word[m] <= '\u{7f}' by {
            lemma_ascii(word[m]);
        }
    }
    vstd::utf8::is_ascii_chars_encode_utf8(word);
    assert forall|m: int| 0 <= m < word.len() implies #[trigger] bytes[m] as u32 == word[m] as u32 by {
        lemma_ascii(word[m]);
        assert(bytes[m] == word[m] as u8);
    }
    let digits = exists|m: int| 0 <= m < word.len() && 48 <= #[trigger] word[m] as u32 <= 57;
    let letters = exists|m: int| 0 <= m < word.len() && 97 <= #[trigger] word[m] as u32 <= 122;
    if digits {
        let m = choose|m: int| 0 <= m < word.len() && 48 <= #[trigger] word[m] as u32 <= 57;
        assert(crate::digits::is_digit(bytes[m]));
    }
    if has_digit(bytes) {
        let m = choose|m: int|
            0 <= m < bytes.len() && crate::digits::is_digit(#[trigger] bytes[m]);
        assert(48 <= word[m] as u32 <= 57);
    }
    if letters {
        let m = choose|m: int| 0 <= m < word.len() && 97 <= #[trigger] word[m] as u32 <= 122;
        assert(is_letter(bytes[m]));
    }
    if has_letter(bytes) {
        let m = choose|m: int| 0 <= m < bytes.len() && is_letter(#[trigger] bytes[m]);
        assert(97 <= word[m] as u32 <= 122);
    }
}

/// Which words stand for which: payments and payables for a payment, deposits, credits and debits
/// for one of them, QuickBooks for Intuit, and what the system did for the system; any other word
/// for itself, and so each of these.
pub proof fn lemma_aliases(word: Seq<char>)
    ensures
        alias("payments"@) == "payment"@,
        alias("payables"@) == "payment"@,
        alias("payable"@) == "payment"@,
        alias("deposits"@) == "deposit"@,
        alias("credits"@) == "credit"@,
        alias("debits"@) == "debit"@,
        alias("quickbooks"@) == "intuit"@,
        alias("systemrecorded"@) == "system"@,
        alias("systemgenerated"@) == "system"@,
        alias("systemcreated"@) == "system"@,
        word == "payments"@ || word == "payables"@ || word == "payable"@ || word == "deposits"@
            || word == "credits"@ || word == "debits"@ || word == "quickbooks"@ || word
            == "systemrecorded"@ || word == "systemgenerated"@ || word == "systemcreated"@
            || alias(word) == word,
        alias(alias(word)) == alias(word),
{
    reveal_strlit("payments");
    reveal_strlit("payables");
    reveal_strlit("payable");
    reveal_strlit("payment");
    reveal_strlit("deposits");
    reveal_strlit("deposit");
    reveal_strlit("credits");
    reveal_strlit("credit");
    reveal_strlit("debits");
    reveal_strlit("debit");
    reveal_strlit("quickbooks");
    reveal_strlit("intuit");
    reveal_strlit("systemrecorded");
    reveal_strlit("systemgenerated");
    reveal_strlit("systemcreated");
    reveal_strlit("system");
    assert("payments"@.len() == 8 && "payables"@.len() == 8 && "deposits"@.len() == 8);
    assert("payable"@.len() == 7 && "payment"@.len() == 7 && "deposit"@.len() == 7);
    assert("credits"@.len() == 7 && "credit"@.len() == 6 && "debits"@.len() == 6);
    assert("debit"@.len() == 5 && "quickbooks"@.len() == 10);
    assert("intuit"@.len() == 6 && "system"@.len() == 6);
    // of the same length, but for a letter
    assert("payments"@[3] != "payables"@[3]);
    assert("payments"@[0] != "deposits"@[0]);
    assert("payables"@[0] != "deposits"@[0]);
    assert("payable"@[3] != "payment"@[3]);
    assert("payable"@[0] != "credits"@[0]);
    assert("deposit"@[0] != "payable"@[0] && "deposit"@[0] != "credits"@[0]);
    assert("payment"@[0] != "credits"@[0]);
    assert("credit"@[0] != "debits"@[0] && "credit"@[0] != "intuit"@[0]);
    assert("debits"@[0] != "intuit"@[0] && "debits"@[0] != "system"@[0]);
    assert("system"@[0] != "intuit"@[0]);
    assert("systemrecorded"@.len() == 14);
    assert("systemgenerated"@.len() == 15);
    assert("systemcreated"@.len() == 13);
}

/// The phrase stands in the text, in small letters or capitals.
pub open spec fn says(text: Seq<char>, phrase: Seq<char>) -> bool {
    exists|i: int|
        0 <= i && i + phrase.len() <= text.len() && lowered(
            #[trigger] text.subrange(i, i + phrase.len()),
        ) == phrase
}

proof fn lemma_says(text: Seq<char>, phrase: Seq<char>)
    ensures
        says(text, phrase) <==> occurs_in(lowered(text), phrase),
{
    let low = lowered(text);
    let n = phrase.len() as int;
    if says(text, phrase) {
        let i = choose|i: int|
            0 <= i && i + n <= text.len() && lowered(#[trigger] text.subrange(i, i + n)) == phrase;
        assert(low.subrange(i, i + n) =~= lowered(text.subrange(i, i + n)));
        assert(crate::text::stands_at(low, phrase, i));
    }
    if occurs_in(low, phrase) {
        let i = choose|i: int| crate::text::stands_at(low, phrase, i);
        assert(low.subrange(i, i + n) =~= lowered(text.subrange(i, i + n)));
        assert(lowered(text.subrange(i, i + n)) == phrase);
    }
}

proof fn lemma_token_if(holds: bool, token: Seq<char>, t: Seq<char>)
    ensures
        token_if(holds, token).contains(t) <==> holds && t == token,
{
    if holds {
        assert(token_if(holds, token)[0] == token);
    }
}

/// Which phrases a description may say, and which tokens they add.
pub proof fn lemma_phrases(text: Seq<char>, t: Seq<char>)
    ensures
        ({
            let intuit = says(text, "quickbooks"@) || says(text, "intuit"@);
            let paid = says(text, "payment"@) || says(text, "deposit"@);
            phrase_tokens(text).contains(t) <==> {
                ||| t == "intuit"@ && intuit
                ||| t == "intuit_payment"@ && intuit && paid
                ||| t == "billcom"@ && (says(text, "bill.com"@) || says(text, "bill com"@))
                ||| t == "mobile_deposit"@ && says(text, "mobile deposit"@)
                ||| t == "incoming_wire"@ && says(text, "incoming wire"@)
                ||| t == "ach_credit"@ && says(text, "ach credit"@)
                ||| t == "ach_debit"@ && says(text, "ach debit"@)
                ||| t == "internet_transfer"@ && says(text, "internet transfer"@)
                ||| t == "apple_bill"@ && (says(text, "apple.com/bill"@) || says(
                    text,
                    "apple.com/bil"@,
                ))
            }
        }),
{
    lemma_says(text, "quickbooks"@);
    lemma_says(text, "intuit"@);
    lemma_says(text, "payment"@);
    lemma_says(text, "deposit"@);
    lemma_says(text, "bill.com"@);
    lemma_says(text, "bill com"@);
    lemma_says(text, "mobile deposit"@);
    lemma_says(text, "incoming wire"@);
    lemma_says(text, "ach credit"@);
    lemma_says(text, "ach debit"@);
    lemma_says(text, "internet transfer"@);
    lemma_says(text, "apple.com/bill"@);
    lemma_says(text, "apple.com/bil"@);
    let intuit = says(text, "quickbooks"@) || says(text, "intuit"@);
    let paid = says(text, "payment"@) || says(text, "deposit"@);
    let s1 = token_if(intuit, "intuit"@);
    let s2 = token_if(intuit && paid, "intuit_payment"@);
    let s3 = token_if(says(text, "bill.com"@) || says(text, "bill com"@), "billcom"@);
    let s4 = token_if(says(text, "mobile deposit"@), "mobile_deposit"@);
    let s5 = token_if(says(text, "incoming wire"@), "incoming_wire"@);
    let s6 = token_if(says(text, "ach credit"@), "ach_credit"@);
    let s7 = token_if(says(text, "ach debit"@), "ach_debit"@);
    let s8 = token_if(says(text, "internet transfer"@), "internet_transfer"@);
    let s9 = token_if(
        says(text, "apple.com/bill"@) || says(text, "apple.com/bil"@),
        "apple_bill"@,
    );
    lemma_token_if(intuit, "intuit"@, t);
    lemma_token_if(intuit && paid, "intuit_payment"@, t);
    lemma_token_if(says(text, "bill.com"@) || says(text, "bill com"@), "billcom"@, t);
    lemma_token_if(says(text, "mobile deposit"@), "mobile_deposit"@, t);
    lemma_token_if(says(text, "incoming wire"@), "incoming_wire"@, t);
    lemma_token_if(says(text, "ach credit"@), "ach_credit"@, t);
    lemma_token_if(says(text, "ach debit"@), "ach_debit"@, t);
    lemma_token_if(says(text, "internet transfer"@), "internet_transfer"@, t);
    lemma_token_if(
        says(text, "apple.com/bill"@) || says(text, "apple.com/bil"@),
        "apple_bill"@,
        t,
    );
    lemma_concat_contains(s1, s2, t);
    lemma_concat_contains(s1 + s2, s3, t);
    lemma_concat_contains(s1 + s2 + s3, s4, t);
    lemma_concat_contains(s1 + s2 + s3 + s4, s5, t);
    lemma_concat_contains(s1 + s2 + s3 + s4 + s5, s6, t);
    lemma_concat_contains(s1 + s2 + s3 + s4 + s5 + s6, s7, t);
    lemma_concat_contains(s1 + s2 + s3 + s4 + s5 + s6 + s7, s8, t);
    lemma_concat_contains(s1 + s2 + s3 + s4 + s5 + s6 + s7 + s8, s9, t);
    assert(phrase_tokens(text) == s1 + s2 + s3 + s4 + s5 + s6 + s7 + s8 + s9);
}

/// The numbers of a description stand for its tokens and for no others: a token that is known is
/// one of the description if and only if its number is among them. They go up, so none is there
/// twice.
pub proof fn lemma_numbers_stand_for_tokens(
    ids: Seq<u32>,
    known: Map<Seq<char>, usize>,
    tokens: Seq<Seq<char>>,
    t: Seq<char>,
)
    requires
        is_orderly(known),
        known.dom().len() <= 0x1_0000_0000,
        knows(known, tokens),
        are_ids_of(ids, known, tokens),
        known.contains_key(t),
    ensures
        exists|id: u32| id as int == known[t] as int && (#[trigger] ids.contains(id) <==> tokens.contains(t)),
        forall|i: int, j: int| 0 <= i < j < ids.len() ==> #[trigger] ids[i] < #[trigger] ids[j],
{
    let id = id_at(known[t]);
    let all = ids_of(known, tokens);
    assert(id as int == known[t] as int);
    if tokens.contains(t) {
        let i = choose|i: int| 0 <= i < tokens.len() && tokens[i] == t;
        assert(all[i] == id);
        assert(all.contains(id));
    }
    if ids.contains(id) {
        assert(all.contains(id));
        let i = choose|i: int| 0 <= i < all.len() && all[i] == id;
        assert(known.contains_key(tokens[i]));
        lemma_ids_tell_tokens_apart(known, tokens[i], t);
        assert(tokens[i] == t);
    }
}

/// Learning tokens one after the other: one that is known already changes nothing; a new one gets
/// the next number, that of those that are known, and the others keep theirs.
pub proof fn lemma_next_number(known: Map<Seq<char>, usize>, tokens: Seq<Seq<char>>, t: Seq<char>)
    ensures
        with_tokens(known, Seq::empty()) == known,
        ({
            let now = with_tokens(known, tokens);
            let next = with_tokens(known, tokens.push(t));
            &&& now.contains_key(t) ==> next == now
            &&& !now.contains_key(t) ==> next == now.insert(t, now.dom().len() as usize)
        }),
{
    assert(tokens.push(t).drop_last() =~= tokens);
}

/// Which words are kept, whatever they are made of, by the bytes that they are written with.
pub proof fn lemma_kept_by_bytes(word: Seq<char>)
    ensures
        ({
            let bytes = encode_utf8(word);
            let digits = exists|m: int| 0 <= m < bytes.len() && 48 <= #[trigger] bytes[m] <= 57;
            let letters = exists|m: int|
                0 <= m < bytes.len() && (65 <= #[trigger] bytes[m] <= 90 || 97 <= bytes[m] <= 122);
            &&& is_kept(word) ==> 2 <= bytes.len()
            &&& is_kept(word) && digits ==> bytes.len() <= 8
            &&& is_kept(word) && digits && !letters ==> bytes.len() <= 4
            &&& !is_kept(word) && bytes.len() >= 2 && !is_stopword(word) ==> digits && bytes.len()
                > (if letters {
                8int
            } else {
                4int
            })
            &&& is_stopword(word) ==> !is_kept(word)
        }),
{
    let bytes = encode_utf8(word);
    let digits = exists|m: int| 0 <= m < bytes.len() && 48 <= #[trigger] bytes[m] <= 57;
    let letters = exists|m: int|
        0 <= m < bytes.len() && (65 <= #[trigger] bytes[m] <= 90 || 97 <= bytes[m] <= 122);
    if digits {
        let m = choose|m: int| 0 <= m < bytes.len() && 48 <= #[trigger] bytes[m] <= 57;
        assert(crate::digits::is_digit(bytes[m]));
    }
    if has_digit(bytes) {
        let m = choose|m: int|
            0 <= m < bytes.len() && crate::digits::is_digit(#[trigger] bytes[m]);
        assert(48 <= bytes[m] <= 57);
    }
    if letters {
        let m = choose|m: int|
            0 <= m < bytes.len() && (65 <= #[trigger] bytes[m] <= 90 || 97 <= bytes[m] <= 122);
        assert(is_letter(bytes[m]));
    }
    if has_letter(bytes) {
        let m = choose|m: int| 0 <= m < bytes.len() && is_letter(#[trigger] bytes[m]);
        assert(65 <= bytes[m] <= 90 || 97 <= bytes[m] <= 122);
    }
}

} // verus!
