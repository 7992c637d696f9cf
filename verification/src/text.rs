//! Text: comparing, searching, trimming.
use vstd::prelude::*;

verus! {

/// An ASCII capital made small; anything else as it is.
pub open spec fn ascii_lower(c: char) -> char {
    if 'A' <= c && c <= 'Z' {
        (c as u32 + 32) as char
    } else {
        c
    }
}

/// An ASCII letter.
pub open spec fn is_ascii_alpha(c: char) -> bool {
    ('a' <= c && c <= 'z') || ('A' <= c && c <= 'Z')
}

/// An ASCII digit.
pub open spec fn is_ascii_number(c: char) -> bool {
    '0' <= c && c <= '9'
}

/// The text with ASCII capitals made small.
pub open spec fn lowered(text: Seq<char>) -> Seq<char> {
    text.map_values(|c: char| ascii_lower(c))
}

/// `part` stands in `text` at place `i`.
pub open spec fn stands_at(text: Seq<char>, part: Seq<char>, i: int) -> bool {
    0 <= i && i + part.len() <= text.len() && text.subrange(i, i + part.len()) == part
}

/// `part` stands somewhere in `text`.
pub open spec fn occurs_in(text: Seq<char>, part: Seq<char>) -> bool {
    exists|i: int| stands_at(text, part, i)
}

/// An ASCII capital made small; anything else as it is.
pub(crate) fn lower(c: char) -> (l: char)
    ensures
        l == ascii_lower(c),
{
    if 'A' <= c && c <= 'Z' {
        (c as u8 + 32) as char
    } else {
        c
    }
}

/// The characters of `text`.
pub(crate) fn chars_of(text: &str) -> (chars: Vec<char>)
    ensures
        chars@ == text@,
{
    let mut chars: Vec<char> = Vec::new();
    for c in iter: text.chars()
        invariant
            chars@ == text@.take(iter.index() as int),
            iter.seq() == text@,
    {
        chars.push(c);
    }
    assert(text@.take(text@.len() as int) =~= text@);
    chars
}

/// `String::push`: the character is put at the end.
pub assume_specification[ String::push ](text: &mut String, c: char)
    ensures
        final(text)@ == old(text)@.push(c),
;

/// The characters from place `from` up to place `to`.
pub(crate) fn text_of(chars: &Vec<char>, from: usize, to: usize) -> (text: String)
    requires
        from <= to <= chars@.len(),
    ensures
        text@ == chars@.subrange(from as int, to as int),
{
    let mut text = String::new();
    for i in from..to
        invariant
            from <= to <= chars@.len(),
            text@ == chars@.subrange(from as int, i as int),
    {
        text.push(chars[i]);
    }
    text
}

/// Whether the two texts are the same.
pub(crate) fn same_text(left: &str, right: &str) -> (same: bool)
    ensures
        same == (left@ == right@),
{
    let a = left.as_bytes();
    let b = right.as_bytes();
    proof {
        vstd::utf8::encode_utf8_decode_utf8(left@);
        vstd::utf8::encode_utf8_decode_utf8(right@);
    }
    if a.len() != b.len() {
        return false;
    }
    for i in 0..a.len()
        invariant
            a@ == vstd::utf8::encode_utf8(left@),
            b@ == vstd::utf8::encode_utf8(right@),
            a@.len() == b@.len(),
            forall|j: int| 0 <= j < i ==> a@[j] == b@[j],
    {
        if a[i] != b[i] {
            return false;
        }
    }
    assert(a@ =~= b@);
    true
}

/// The text with ASCII capitals made small.
pub(crate) fn lowered_chars(text: &str) -> (chars: Vec<char>)
    ensures
        chars@ == lowered(text@),
{
    let original = chars_of(text);
    let mut chars: Vec<char> = Vec::new();
    for i in 0..original.len()
        invariant
            original@ == text@,
            chars@ == lowered(text@).take(i as int),
    {
        chars.push(lower(original[i]));
    }
    assert(lowered(text@).take(text@.len() as int) =~= lowered(text@));
    chars
}

/// Whether `part` stands in `text` at place `at`.
fn part_at(text: &Vec<char>, part: &Vec<char>, at: usize) -> (found: bool)
    requires
        at + part@.len() <= text@.len(),
    ensures
        found == stands_at(text@, part@, at as int),
{
    let end = text.len();
    for i in 0..part.len()
        invariant
            end == text@.len(),
            at + part@.len() <= end,
            forall|j: int| 0 <= j < i ==> text@[at + j] == part@[j],
    {
        if text[at + i] != part[i] {
            proof {
                let there = text@.subrange(at as int, at + part@.len());
                assert(there[i as int] == text@[at + i]);
            }
            return false;
        }
    }
    assert(text@.subrange(at as int, at + part@.len()) =~= part@);
    true
}

/// Whether `text` starts with `prefix`.
pub(crate) fn has_prefix(text: &Vec<char>, prefix: &str) -> (found: bool)
    ensures
        found == stands_at(text@, prefix@, 0),
{
    let part = chars_of(prefix);
    part.len() <= text.len() && part_at(text, &part, 0)
}

/// Whether `wanted` stands somewhere in `text`.
pub(crate) fn mentions(text: &Vec<char>, wanted: &str) -> (found: bool)
    ensures
        found == occurs_in(text@, wanted@),
{
    let part = chars_of(wanted);
    if part.len() > text.len() {
        return false;
    }
    let last = text.len() - part.len();
    let mut at: usize = 0;
    while at <= last
        invariant
            part@ == wanted@,
            last == text@.len() - part@.len(),
            at <= last + 1,
            forall|i: int| 0 <= i < at ==> !#[trigger] stands_at(text@, part@, i),
        decreases last + 1 - at,
    {
        if part_at(text, &part, at) {
            return true;
        }
        if at == last {
            return false;
        }
        at += 1;
    }
    false
}

/// Whether Unicode counts the character as white space.
pub open spec fn is_white(c: char) -> bool {
    let n = c as u32;
    ||| 0x9 <= n <= 0xd
    ||| n == 0x20
    ||| n == 0x85
    ||| n == 0xa0
    ||| n == 0x1680
    ||| 0x2000 <= n <= 0x200a
    ||| n == 0x2028
    ||| n == 0x2029
    ||| n == 0x202f
    ||| n == 0x205f
    ||| n == 0x3000
}

/// The text without the white space that it starts with.
pub open spec fn trimmed_start(text: Seq<char>) -> Seq<char>
    decreases text.len(),
{
    if text.len() > 0 && is_white(text[0]) {
        trimmed_start(text.drop_first())
    } else {
        text
    }
}

/// The text without the white space that it ends with.
pub open spec fn trimmed_end(text: Seq<char>) -> Seq<char>
    decreases text.len(),
{
    if text.len() > 0 && is_white(text.last()) {
        trimmed_end(text.drop_last())
    } else {
        text
    }
}

/// The text without white space around it.
pub open spec fn trimmed(text: Seq<char>) -> Seq<char> {
    trimmed_end(trimmed_start(text))
}

fn white(c: char) -> (is: bool)
    ensures
        is == is_white(c),
{
    let n = c as u32;
    (0x9 <= n && n <= 0xd) || n == 0x20 || n == 0x85 || n == 0xa0 || n == 0x1680 || (0x2000 <= n
        && n <= 0x200a) || n == 0x2028 || n == 0x2029 || n == 0x202f || n == 0x205f || n == 0x3000
}

/// The text without white space around it.
pub(crate) fn trim(text: &str) -> (inner: String)
    ensures
        inner@ == trimmed(text@),
{
    let chars = chars_of(text);
    let mut from: usize = 0;
    assert(text@.skip(0) =~= text@);
    while from < chars.len() && white(chars[from])
        invariant
            chars@ == text@,
            from <= chars@.len(),
            trimmed_start(text@) == trimmed_start(text@.skip(from as int)),
        decreases chars@.len() - from,
    {
        assert(text@.skip(from as int).drop_first() =~= text@.skip(from + 1));
        from += 1;
    }
    let ghost rest = text@.skip(from as int);
    assert(trimmed_start(text@) == rest);
    let mut to: usize = chars.len();
    assert(rest.take(to - from) =~= rest);
    while from < to && white(chars[to - 1])
        invariant
            chars@ == text@,
            from <= to <= chars@.len(),
            rest == text@.skip(from as int),
            trimmed_end(rest) == trimmed_end(rest.take(to - from)),
        decreases to,
    {
        assert(rest.take(to - from).drop_last() =~= rest.take(to - from - 1));
        assert(rest.take(to - from).last() == chars@[to - 1]);
        to -= 1;
    }
    proof {
        if from < to {
            assert(rest.take(to - from).last() == chars@[to - 1]);
        }
        assert(rest.take(to - from) =~= chars@.subrange(from as int, to as int));
    }
    text_of(&chars, from, to)
}

/// A digit as a character.
pub open spec fn digit_char(d: int) -> char {
    (48 + d) as char
}

/// The number written in decimal.
pub open spec fn decimal(n: nat) -> Seq<char>
    decreases n,
{
    if n < 10 {
        seq![digit_char(n as int)]
    } else {
        decimal(n / 10).push(digit_char((n % 10) as int))
    }
}

/// The number written in decimal.
pub(crate) fn decimal_text(n: usize) -> (text: String)
    ensures
        text@ == decimal(n as nat),
    decreases n,
{
    let digit = (48 + (n % 10) as u8) as char;
    let mut text = if n < 10 {
        String::new()
    } else {
        decimal_text(n / 10)
    };
    text.push(digit);
    text
}

/// Making letters small keeps the length of a text and each of its characters but for the 26
/// capitals, which become the letters 32 places on; doing it twice is doing it once.
pub proof fn lemma_lowered(text: Seq<char>, i: int)
    requires
        0 <= i < text.len(),
    ensures
        lowered(text).len() == text.len(),
        65 <= text[i] as u32 <= 90 ==> lowered(text)[i] as u32 == text[i] as u32 + 32,
        !(65 <= text[i] as u32 <= 90) ==> lowered(text)[i] == text[i],
        lowered(lowered(text)) == lowered(text),
{
    let c = text[i];
    if 65 <= c as u32 <= 90 {
        assert(ascii_lower(c) as u32 == c as u32 + 32);
    }
    assert forall|j: int| 0 <= j < text.len() implies lowered(lowered(text))[j] == lowered(
        text,
    )[j] by {
        let d = text[j];
        if 'A' <= d && d <= 'Z' {
            assert(ascii_lower(d) as u32 == d as u32 + 32);
        }
    }
    assert(lowered(lowered(text)) =~= lowered(text));
}

/// The white space characters: six of ASCII, and the ones that Unicode adds.
pub proof fn lemma_white(c: char)
    ensures
        c as u32 <= 127 ==> (is_white(c) <==> c == ' ' || c == '\t' || c == '\n' || c == '\r' || c as u32
            == 11 || c as u32 == 12),
        c as u32 > 127 ==> (is_white(c) <==> {
            let n = c as u32;
            ||| n == 133
            ||| n == 160
            ||| n == 5760
            ||| 8192 <= n <= 8202
            ||| n == 8232
            ||| n == 8233
            ||| n == 8239
            ||| n == 8287
            ||| n == 12288
        }),
{
}

proof fn lemma_trimmed_start(text: Seq<char>) -> (i: int)
    ensures
        0 <= i <= text.len(),
        trimmed_start(text) == text.subrange(i, text.len() as int),
        forall|j: int| 0 <= j < i ==> is_white(#[trigger] text[j]),
        i < text.len() ==> !is_white(text[i]),
    decreases text.len(),
{
    if text.len() > 0 && is_white(text[0]) {
        let rest = text.drop_first();
        let i = lemma_trimmed_start(rest);
        assert(rest.subrange(i, rest.len() as int) =~= text.subrange(i + 1, text.len() as int));
        assert forall|j: int| 0 <= j < i + 1 implies is_white(#[trigger] text[j]) by {
            if j > 0 {
                assert(rest[j - 1] == text[j]);
            }
        }
        i + 1
    } else {
        assert(text.subrange(0, text.len() as int) =~= text);
        0
    }
}

proof fn lemma_trimmed_end(text: Seq<char>) -> (i: int)
    ensures
        0 <= i <= text.len(),
        trimmed_end(text) == text.subrange(0, i),
        forall|j: int| i <= j < text.len() ==> is_white(#[trigger] text[j]),
        i > 0 ==> !is_white(text[i - 1]),
    decreases text.len(),
{
    if text.len() > 0 && is_white(text.last()) {
        let rest = text.drop_last();
        let i = lemma_trimmed_end(rest);
        assert(rest.subrange(0, i) =~= text.subrange(0, i));
        assert forall|j: int| i <= j < text.len() implies is_white(#[trigger] text[j]) by {
            if j < rest.len() {
                assert(rest[j] == text[j]);
            }
        }
        i
    } else {
        assert(text.subrange(0, text.len() as int) =~= text);
        text.len() as int
    }
}

/// Trimming takes white space away from both ends, and nothing else: a text that neither starts
/// nor ends with white space is what is left of any text that has white space around it.
pub proof fn lemma_trimmed(text: Seq<char>)
    ensures
        exists|i: int, j: int|
            {
                &&& 0 <= i <= j <= text.len()
                &&& trimmed(text) == #[trigger] text.subrange(i, j)
                &&& forall|m: int| 0 <= m < i || j <= m < text.len() ==> is_white(#[trigger] text[m])
            },
        trimmed(text).len() > 0 ==> !is_white(trimmed(text)[0]) && !is_white(trimmed(text).last()),
        trimmed(trimmed(text)) == trimmed(text),
{
    let i = lemma_trimmed_start(text);
    let rest = trimmed_start(text);
    let j = lemma_trimmed_end(rest);
    let inner = trimmed(text);
    assert(rest.subrange(0, j) =~= text.subrange(i, i + j));
    assert forall|m: int| 0 <= m < i || i + j <= m < text.len() implies is_white(
        #[trigger] text[m],
    ) by {
        if m >= i + j {
            assert(rest[m - i] == text[m]);
        }
    }
    assert(inner == text.subrange(i, i + j));
    if inner.len() > 0 {
        assert(inner[0] == text[i]);
        assert(inner.last() == rest[j - 1]);
    }
}

/// A part occurs in a text if its characters stand there one after the other.
pub proof fn lemma_occurs(text: Seq<char>, part: Seq<char>)
    ensures
        occurs_in(text, part) <==> exists|i: int|
            0 <= i && i + part.len() <= text.len() && #[trigger] text.subrange(i, i + part.len())
                == part,
{
    if occurs_in(text, part) {
        let i = choose|i: int| stands_at(text, part, i);
        assert(text.subrange(i, i + part.len()) == part);
    }
    if exists|i: int|
        0 <= i && i + part.len() <= text.len() && #[trigger] text.subrange(i, i + part.len())
            == part {
        let i = choose|i: int|
            0 <= i && i + part.len() <= text.len() && #[trigger] text.subrange(i, i + part.len())
                == part;
        assert(stands_at(text, part, i));
    }
}

/// A number is written with its digits, the last one that of its remainder by ten, and without
/// zeros in front.
pub proof fn lemma_decimal(n: nat)
    ensures
        decimal(n).len() > 0,
        forall|i: int| 0 <= i < decimal(n).len() ==> 48 <= #[trigger] decimal(n)[i] as u32 <= 57,
        decimal(n).last() as u32 == 48 + n % 10,
        n >= 10 ==> decimal(n).drop_last() == decimal(n / 10) && decimal(n)[0] as u32 != 48,
        n < 10 ==> decimal(n).len() == 1,
    decreases n,
{
    if n >= 10 {
        lemma_decimal(n / 10);
        let rest = decimal(n / 10);
        let text = decimal(n);
        lemma_digit_char((n % 10) as int);
        assert(text.drop_last() =~= rest);
        assert forall|i: int| 0 <= i < text.len() implies 48 <= #[trigger] text[i] as u32 <= 57 by {
            if i < rest.len() {
                assert(text[i] == rest[i]);
            }
        }
        assert(text[0] == rest[0]);
        if n / 10 < 10 {
            assert(rest[0] == rest.last());
        }
    } else {
        lemma_digit_char(n as int);
    }
}

proof fn lemma_digit_char(d: int)
    requires
        0 <= d <= 9,
    ensures
        digit_char(d) as u32 == 48 + d,
{
}

} // verus!
