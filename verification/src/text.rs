//! Searching and slicing of text.
//!
//! Text is modelled as the sequence of its characters. The executable functions work on the
//! UTF-8 bytes and are proved against that model.
use crate::search::{bytes_at, is_next};
use vstd::prelude::*;
use vstd::string::*;
use vstd::utf8::*;

verus! {

broadcast use vstd::utf8::encode_utf8_valid_utf8;

/// What an optional text holds.
pub open spec fn str_text(text: Option<&str>) -> Option<Seq<char>> {
    match text {
        Some(text) => Some(text@),
        None => None,
    }
}

/// `pattern` stands in `text` from position `at` on.
pub open spec fn occurs_at(text: Seq<char>, pattern: Seq<char>, at: int) -> bool {
    &&& 0 <= at <= text.len() - pattern.len()
    &&& text.subrange(at, at + pattern.len()) == pattern
}

/// `at` is the first position of `text` at which `pattern` stands.
pub open spec fn first_at(text: Seq<char>, pattern: Seq<char>, at: int) -> bool {
    &&& occurs_at(text, pattern, at)
    &&& forall|i: int| 0 <= i < at ==> !occurs_at(text, pattern, i)
}

/// `pattern` stands somewhere in `text`.
pub open spec fn contains(text: Seq<char>, pattern: Seq<char>) -> bool {
    exists|at: int| occurs_at(text, pattern, at)
}

/// The characters of `part` stand in `whole` at the positions `at`, one behind the other.
pub open spec fn picks(whole: Seq<char>, at: Seq<int>, part: Seq<char>) -> bool {
    &&& at.len() == part.len()
    &&& forall|i: int|
        0 <= i < at.len() ==> 0 <= (#[trigger] at[i]) < whole.len() && whole[at[i]] == part[i]
    &&& forall|i: int, j: int| 0 <= i < j < at.len() ==> (#[trigger] at[i]) < (#[trigger] at[j])
}

/// `part` is `whole` with some characters left out: nothing is added, and nothing changes places.
pub open spec fn is_subsequence(part: Seq<char>, whole: Seq<char>) -> bool {
    exists|at: Seq<int>| picks(whole, at, part)
}

/// The first position at which `pattern` stands in `text`.
pub open spec fn find(text: Seq<char>, pattern: Seq<char>) -> Option<int> {
    if contains(text, pattern) {
        Some(choose|at: int| first_at(text, pattern, at))
    } else {
        None
    }
}

/// Where a pattern stands at all, there is a first position of it.
pub proof fn lemma_find_is_first(text: Seq<char>, pattern: Seq<char>)
    ensures
        match find(text, pattern) {
            Some(at) => first_at(text, pattern, at),
            None => forall|i: int| !occurs_at(text, pattern, i),
        },
{
    if contains(text, pattern) {
        let at = choose|at: int| occurs_at(text, pattern, at);
        lemma_first_below(text, pattern, at);
    }
}

proof fn lemma_first_below(text: Seq<char>, pattern: Seq<char>, at: int)
    requires
        occurs_at(text, pattern, at),
    ensures
        exists|i: int| first_at(text, pattern, i),
    decreases at,
{
    if exists|i: int| 0 <= i < at && occurs_at(text, pattern, i) {
        let i = choose|i: int| 0 <= i < at && occurs_at(text, pattern, i);
        lemma_first_below(text, pattern, i);
    } else {
        assert(first_at(text, pattern, at));
    }
}

/// The first position is unique, so it is what `find` gives.
pub proof fn lemma_find_at(text: Seq<char>, pattern: Seq<char>, at: int)
    requires
        first_at(text, pattern, at),
    ensures
        find(text, pattern) == Some(at),
{
    lemma_find_is_first(text, pattern);
    assert(contains(text, pattern));
    let other = find(text, pattern)->0;
    if at < other {
        assert(!occurs_at(text, pattern, at));
    } else if other < at {
        assert(!occurs_at(text, pattern, other));
    }
}

pub(crate) proof fn lemma_encode_concat(left: Seq<char>, right: Seq<char>)
    ensures
        encode_utf8(left + right) == encode_utf8(left) + encode_utf8(right),
    decreases left.len(),
{
    if left.len() == 0 {
        assert(left + right =~= right);
        assert(encode_utf8(left) =~= Seq::<u8>::empty());
        assert(encode_utf8(left) + encode_utf8(right) =~= encode_utf8(right));
    } else {
        assert((left + right).drop_first() =~= left.drop_first() + right);
        lemma_encode_concat(left.drop_first(), right);
        assert(encode_utf8(left + right) =~= encode_utf8(left) + encode_utf8(right));
    }
}

pub(crate) proof fn lemma_encode_injective(left: Seq<char>, right: Seq<char>)
    requires
        encode_utf8(left) == encode_utf8(right),
    ensures
        left == right,
{
    encode_utf8_decode_utf8(left);
    encode_utf8_decode_utf8(right);
}

/// Two pieces of text whose bytes make up the bytes of a whole make up that whole.
proof fn lemma_pieces(whole: Seq<char>, left: Seq<char>, right: Seq<char>)
    requires
        encode_utf8(left) + encode_utf8(right) == encode_utf8(whole),
    ensures
        whole == left + right,
{
    lemma_encode_concat(left, right);
    lemma_encode_injective(whole, left + right);
}

proof fn lemma_leading_byte(text: Seq<char>)
    requires
        text.len() > 0,
    ensures
        encode_utf8(text).len() > 0,
        !is_continuation_byte(encode_utf8(text)[0]),
{
    let bytes = encode_utf8(text);
    assert(encode_scalar(text[0] as u32).len() > 0);
    assert(bytes.len() > 0);
    assert(valid_utf8(bytes));
    assert(valid_first_scalar(bytes));
}

/// The end of a prefix is a boundary between characters.
pub(crate) proof fn lemma_prefix_boundary(left: Seq<char>, right: Seq<char>)
    ensures
        is_char_boundary(encode_utf8(left + right), encode_utf8(left).len() as int),
{
    let bytes = encode_utf8(left + right);
    let mid = encode_utf8(left).len() as int;
    lemma_encode_concat(left, right);
    if right.len() == 0 {
        assert(encode_utf8(right) =~= Seq::<u8>::empty());
        assert(mid == bytes.len());
        is_char_boundary_start_end_of_seq(bytes);
    } else {
        lemma_leading_byte(right);
        assert(bytes[mid] == encode_utf8(right)[0]);
        is_char_boundary_iff_not_is_continuation_byte(bytes, mid);
    }
}

/// The bytes of a pattern stand in the bytes of a text where the pattern stands in the text.
pub(crate) proof fn lemma_occurrence_bytes(text: Seq<char>, pattern: Seq<char>, at: int)
    requires
        occurs_at(text, pattern, at),
    ensures
        bytes_at(
            encode_utf8(text),
            encode_utf8(pattern),
            encode_utf8(text.take(at)).len() as int,
        ),
{
    let rest = text.skip(at + pattern.len());
    assert(text =~= text.take(at) + pattern + rest);
    lemma_encode_concat(text.take(at) + pattern, rest);
    lemma_encode_concat(text.take(at), pattern);
    let start = encode_utf8(text.take(at)).len() as int;
    let end = start + encode_utf8(pattern).len();
    assert(encode_utf8(text).subrange(start, end) =~= encode_utf8(pattern));
}

/// Where the bytes of a pattern stand in the bytes of a text, the pattern stands in the text.
pub(crate) proof fn lemma_bytes_occurrence(text: Seq<char>, pattern: Seq<char>, start: int) -> (at: int)
    requires
        pattern.len() > 0,
        bytes_at(encode_utf8(text), encode_utf8(pattern), start),
    ensures
        occurs_at(text, pattern, at),
        encode_utf8(text.take(at)).len() == start,
        encode_utf8(text.take(at)) == encode_utf8(text).subrange(0, start),
{
    let bytes = encode_utf8(text);
    let len = encode_utf8(pattern).len() as int;
    lemma_leading_byte(pattern);
    assert(bytes[start] == bytes.subrange(start, start + len)[0]);
    is_char_boundary_iff_not_is_continuation_byte(bytes, start);
    valid_utf8_split(bytes, start);
    let left = bytes.subrange(0, start);
    let tail = bytes.subrange(start, bytes.len() as int);
    let rest = tail.subrange(len, tail.len() as int);
    assert(tail.subrange(0, len) =~= encode_utf8(pattern));
    if !valid_utf8(rest) {
        partial_valid_partial_invalid_utf8(tail, len);
    }
    decode_utf8_encode_utf8(left);
    decode_utf8_encode_utf8(rest);
    let before = decode_utf8(left);
    let after = decode_utf8(rest);
    assert(tail =~= encode_utf8(pattern) + rest);
    lemma_encode_concat(pattern, after);
    assert(bytes =~= left + tail);
    lemma_pieces(text, before, pattern + after);
    let at = before.len() as int;
    assert(text.take(at) =~= before);
    assert(text.subrange(at, at + pattern.len()) =~= pattern);
    at
}

/// Where the bytes of a pattern do not stand in the bytes of a text, the pattern does not stand in
/// the text.
pub(crate) proof fn lemma_absent(text: Seq<char>, pattern: Seq<char>)
    requires
        forall|j: int| !#[trigger] bytes_at(encode_utf8(text), encode_utf8(pattern), j),
    ensures
        find(text, pattern) is None,
        !contains(text, pattern),
{
    if contains(text, pattern) {
        let k = choose|k: int| occurs_at(text, pattern, k);
        lemma_occurrence_bytes(text, pattern, k);
    }
}

/// Longer prefixes have more bytes.
proof fn lemma_prefix_bytes_grow(text: Seq<char>, short: int, long: int)
    requires
        0 <= short < long <= text.len(),
    ensures
        encode_utf8(text.take(short)).len() < encode_utf8(text.take(long)).len(),
{
    let between = text.subrange(short, long);
    assert(text.take(long) =~= text.take(short) + between);
    lemma_encode_concat(text.take(short), between);
    lemma_leading_byte(between);
}

/// The first position of an ASCII character is the first position of its byte.
pub(crate) proof fn lemma_first_byte(text: Seq<char>, pattern: Seq<char>, at: int)
    requires
        pattern.len() == 1,
        is_ascii_chars(pattern),
        find(text, pattern) == Some(at),
    ensures
        is_next(
            encode_utf8(text),
            pattern[0] as u8,
            0,
            encode_utf8(text.take(at)).len() as int,
        ),
{
    let bytes = encode_utf8(text);
    let mark = encode_utf8(pattern);
    let start = encode_utf8(text.take(at)).len() as int;
    lemma_find_is_first(text, pattern);
    is_ascii_chars_encode_utf8(pattern);
    assert(mark.len() == 1 && mark[0] == pattern[0] as u8);
    lemma_occurrence_bytes(text, pattern, at);
    assert(bytes.subrange(start, start + 1)[0] == bytes[start]);
    assert forall|i: int| 0 <= i < start implies bytes[i] != pattern[0] as u8 by {
        if bytes[i] == pattern[0] as u8 {
            assert(bytes.subrange(i, i + 1) =~= mark);
            let other = lemma_bytes_occurrence(text, pattern, i);
            if other < at {
                assert(!occurs_at(text, pattern, other));
            } else if at < other {
                lemma_prefix_bytes_grow(text, at, other);
            }
        }
    }
}

/// Whether the bytes `pattern` stand in `bytes` from `at` on.
fn bytes_match_at(bytes: &[u8], pattern: &[u8], at: usize) -> (res: bool)
    requires
        at + pattern@.len() <= bytes@.len(),
    ensures
        res == (bytes@.subrange(at as int, at + pattern@.len()) == pattern@),
{
    let len: usize = bytes.len();
    let mut i: usize = 0;
    while i < pattern.len()
        invariant
            i <= pattern@.len(),
            at + pattern@.len() <= len,
            len == bytes@.len(),
            forall|j: int| 0 <= j < i ==> bytes@[at + j] == pattern@[j],
        decreases pattern@.len() - i,
    {
        if bytes[at + i] != pattern[i] {
            assert(bytes@.subrange(at as int, at + pattern@.len())[i as int] != pattern@[i as int]);
            return false;
        }
        i += 1;
    }
    assert(bytes@.subrange(at as int, at + pattern@.len()) =~= pattern@);
    true
}

/// Splits `text` at the byte offset `mid`.
pub(crate) fn split_bytes<'a>(text: &'a str, mid: usize) -> (res: (&'a str, &'a str))
    requires
        is_char_boundary(encode_utf8(text@), mid as int),
        mid <= encode_utf8(text@).len(),
    ensures
        text@ == res.0@ + res.1@,
        encode_utf8(res.0@) == encode_utf8(text@).subrange(0, mid as int),
        encode_utf8(res.1@) == encode_utf8(text@).subrange(
            mid as int,
            encode_utf8(text@).len() as int,
        ),
{
    let (left, right) = text.split_at(mid);
    proof {
        assert(encode_utf8(left@) + encode_utf8(right@) =~= encode_utf8(text@));
        lemma_pieces(text@, left@, right@);
    }
    (left, right)
}

/// Next to an ASCII character there are boundaries between characters.
pub(crate) proof fn lemma_ascii_boundary(text: Seq<char>, at: int)
    requires
        0 <= at < encode_utf8(text).len(),
        encode_utf8(text)[at] < 0x80,
    ensures
        is_char_boundary(encode_utf8(text), at),
        is_char_boundary(encode_utf8(text), at + 1),
{
    let bytes = encode_utf8(text);
    is_char_boundary_iff_not_is_continuation_byte(bytes, at);
    valid_utf8_split(bytes, at);
    let tail = bytes.subrange(at, bytes.len() as int);
    assert(tail[0] == bytes[at]);
    let rest = pop_first_scalar(tail);
    assert(valid_utf8(rest));
    if at + 1 == bytes.len() {
        is_char_boundary_start_end_of_seq(bytes);
    } else {
        assert(rest[0] == bytes[at + 1]);
        assert(valid_first_scalar(rest));
        is_char_boundary_iff_not_is_continuation_byte(bytes, at + 1);
    }
}

/// The part of `text` between two byte offsets.
pub(crate) fn slice_bytes<'a>(text: &'a str, start: usize, end: usize) -> (res: &'a str)
    requires
        start <= end <= encode_utf8(text@).len(),
        is_char_boundary(encode_utf8(text@), start as int),
        is_char_boundary(encode_utf8(text@), end as int),
    ensures
        encode_utf8(res@) == encode_utf8(text@).subrange(start as int, end as int),
{
    let (front, _) = split_bytes(text, end);
    proof {
        let bytes = encode_utf8(front@);
        if start == end {
            is_char_boundary_start_end_of_seq(bytes);
        } else {
            is_char_boundary_iff_not_is_continuation_byte(encode_utf8(text@), start as int);
            assert(bytes[start as int] == encode_utf8(text@)[start as int]);
            is_char_boundary_iff_not_is_continuation_byte(bytes, start as int);
        }
    }
    let (_, res) = split_bytes(front, start);
    assert(encode_utf8(res@) =~= encode_utf8(text@).subrange(start as int, end as int));
    res
}

/// Splits `text` behind a prefix of it.
fn split_behind<'a>(text: &'a str, prefix: &str) -> (res: (&'a str, &'a str))
    requires
        prefix@.is_prefix_of(text@),
    ensures
        res.0@ == prefix@,
        res.1@ == text@.skip(prefix@.len() as int),
{
    let mid: usize = prefix.as_bytes().len();
    let ghost rest = text@.skip(prefix@.len() as int);
    proof {
        assert(text@ =~= prefix@ + rest);
        lemma_prefix_boundary(prefix@, rest);
        lemma_encode_concat(prefix@, rest);
    }
    let (left, right) = split_bytes(text, mid);
    proof {
        assert(encode_utf8(text@).subrange(0, mid as int) =~= encode_utf8(prefix@));
        lemma_encode_injective(left@, prefix@);
        assert(right@ =~= rest);
    }
    (left, right)
}

/// Whether two texts are the same.
pub fn same_text(left: &str, right: &str) -> (res: bool)
    ensures
        res == (left@ == right@),
{
    let a = left.as_bytes();
    let b = right.as_bytes();
    if a.len() != b.len() {
        return false;
    }
    let res = bytes_match_at(a, b, 0);
    proof {
        assert(a@.subrange(0, b@.len() as int) =~= a@);
        if res {
            lemma_encode_injective(left@, right@);
        }
    }
    res
}

/// Whether `text` begins with `prefix`.
pub fn starts_with(text: &str, prefix: &str) -> (res: bool)
    ensures
        res == prefix@.is_prefix_of(text@),
{
    let bytes = text.as_bytes();
    let needle = prefix.as_bytes();
    if prefix.is_empty() {
        return true;
    }
    if needle.len() > bytes.len() {
        proof {
            if prefix@.is_prefix_of(text@) {
                lemma_occurrence_bytes(text@, prefix@, 0);
            }
        }
        return false;
    }
    let res = bytes_match_at(bytes, needle, 0);
    proof {
        assert(text@.take(0) =~= Seq::<char>::empty());
        if res {
            let at = lemma_bytes_occurrence(text@, prefix@, 0);
            if at > 0 {
                lemma_prefix_bytes_grow(text@, 0, at);
            }
        } else if prefix@.is_prefix_of(text@) {
            lemma_occurrence_bytes(text@, prefix@, 0);
        }
    }
    res
}

/// Whether `text` ends with `suffix`.
pub fn ends_with(text: &str, suffix: &str) -> (res: bool)
    ensures
        res == suffix@.is_suffix_of(text@),
{
    let bytes = text.as_bytes();
    let needle = suffix.as_bytes();
    if suffix.is_empty() {
        assert(suffix@ =~= text@.skip(text@.len() as int));
        return true;
    }
    let ghost last = text@.len() - suffix@.len();
    proof {
        if suffix@.is_suffix_of(text@) {
            assert(text@ =~= text@.take(last) + suffix@);
            lemma_encode_concat(text@.take(last), suffix@);
            lemma_occurrence_bytes(text@, suffix@, last);
        }
    }
    if needle.len() > bytes.len() {
        return false;
    }
    let start: usize = bytes.len() - needle.len();
    let res = bytes_match_at(bytes, needle, start);
    proof {
        if res {
            let at = lemma_bytes_occurrence(text@, suffix@, start as int);
            if at < last {
                let end = at + suffix@.len();
                assert(text@.take(end) =~= text@.take(at) + suffix@);
                lemma_encode_concat(text@.take(at), suffix@);
                lemma_prefix_bytes_grow(text@, end, text@.len() as int);
                assert(text@.take(text@.len() as int) =~= text@);
            }
            assert(suffix@ =~= text@.skip(last));
        }
    }
    res
}

/// What follows `prefix` in `text`, where `text` begins with it.
pub fn strip_prefix<'a>(text: &'a str, prefix: &str) -> (res: Option<&'a str>)
    ensures
        match res {
            Some(rest) => prefix@.is_prefix_of(text@) && rest@ == text@.skip(prefix@.len() as int),
            None => !prefix@.is_prefix_of(text@),
        },
{
    if starts_with(text, prefix) {
        let (_, rest) = split_behind(text, prefix);
        Some(rest)
    } else {
        None
    }
}

/// What precedes `suffix` in `text`, where `text` ends with it.
pub fn strip_suffix<'a>(text: &'a str, suffix: &str) -> (res: Option<&'a str>)
    ensures
        match res {
            Some(rest) => suffix@.is_suffix_of(text@) && rest@ == text@.take(
                text@.len() - suffix@.len(),
            ),
            None => !suffix@.is_suffix_of(text@),
        },
{
    if ends_with(text, suffix) {
        let ghost kept = text@.take(text@.len() - suffix@.len());
        proof {
            assert(text@ =~= kept + suffix@);
            lemma_prefix_boundary(kept, suffix@);
            lemma_encode_concat(kept, suffix@);
        }
        let mid: usize = text.as_bytes().len() - suffix.as_bytes().len();
        let (rest, _) = split_bytes(text, mid);
        proof {
            assert(encode_utf8(text@).subrange(0, mid as int) =~= encode_utf8(kept));
            lemma_encode_injective(rest@, kept);
        }
        Some(rest)
    } else {
        None
    }
}

/// Splits `text` around the first occurrence of `pattern`, which stands at the byte offset `at`.
pub(crate) fn split_found<'a>(text: &'a str, pattern: &str, at: usize) -> (res: (&'a str, &'a str))
    requires
        pattern@.len() > 0,
        bytes_at(encode_utf8(text@), encode_utf8(pattern@), at as int),
        forall|j: int|
            0 <= j < at ==> !#[trigger] bytes_at(encode_utf8(text@), encode_utf8(pattern@), j),
    ensures
        first_at(text@, pattern@, res.0@.len() as int),
        find(text@, pattern@) == Some(res.0@.len() as int),
        res.0@ == text@.take(res.0@.len() as int),
        res.1@ == text@.skip((res.0@.len() + pattern@.len()) as int),
        encode_utf8(res.0@) == encode_utf8(text@).subrange(0, at as int),
        encode_utf8(res.1@) == encode_utf8(text@).skip(at + encode_utf8(pattern@).len()),
{
    let ghost mut k: int = 0;
    proof {
        k = lemma_bytes_occurrence(text@, pattern@, at as int);
        assert(text@ =~= text@.take(k) + text@.skip(k));
        lemma_prefix_boundary(text@.take(k), text@.skip(k));
    }
    let (before, tail) = split_bytes(text, at);
    proof {
        lemma_encode_injective(before@, text@.take(k));
        assert(tail@ =~= text@.skip(k));
        assert(pattern@ =~= tail@.take(pattern@.len() as int));
    }
    let (_, after) = split_behind(tail, pattern);
    proof {
        assert(after@ =~= text@.skip((before@.len() + pattern@.len()) as int));
        assert(tail@ =~= pattern@ + after@);
        lemma_encode_concat(pattern@, after@);
        let len = encode_utf8(pattern@).len() as int;
        assert(encode_utf8(after@) =~= encode_utf8(tail@).skip(len));
        assert(encode_utf8(tail@).skip(len) =~= encode_utf8(text@).skip(at + len));
        assert forall|i: int| 0 <= i < k implies !occurs_at(text@, pattern@, i) by {
            if occurs_at(text@, pattern@, i) {
                lemma_occurrence_bytes(text@, pattern@, i);
                lemma_prefix_bytes_grow(text@, i, k);
            }
        }
        lemma_find_at(text@, pattern@, k);
    }
    (before, after)
}

/// Splits `text` around the first occurrence of `pattern`.
pub fn split_first<'a>(text: &'a str, pattern: &str) -> (res: Option<(&'a str, &'a str)>)
    requires
        pattern@.len() > 0,
    ensures
        match res {
            Some((before, after)) => {
                &&& first_at(text@, pattern@, before@.len() as int)
                &&& find(text@, pattern@) == Some(before@.len() as int)
                &&& before@ == text@.take(before@.len() as int)
                &&& after@ == text@.skip((before@.len() + pattern@.len()) as int)
            },
            None => find(text@, pattern@) is None && !contains(text@, pattern@),
        },
{
    let bytes = text.as_bytes();
    let needle = pattern.as_bytes();
    proof {
        lemma_leading_byte(pattern@);
    }
    let mut i: usize = 0;
    while i < bytes.len() && needle.len() <= bytes.len() - i
        invariant
            bytes@ == encode_utf8(text@),
            needle@ == encode_utf8(pattern@),
            pattern@.len() > 0,
            needle@.len() > 0,
            i <= bytes@.len(),
            forall|j: int| 0 <= j < i ==> !#[trigger] bytes_at(bytes@, needle@, j),
        decreases bytes@.len() - i,
    {
        if bytes_match_at(bytes, needle, i) {
            return Some(split_found(text, pattern, i));
        }
        i += 1;
    }
    proof {
        lemma_absent(text@, pattern@);
    }
    None
}

/// Whether `pattern` stands somewhere in `text`.
pub fn contains_text(text: &str, pattern: &str) -> (res: bool)
    ensures
        res == contains(text@, pattern@),
{
    if pattern.is_empty() {
        proof {
            assert(text@.subrange(0, 0) =~= pattern@);
            assert(occurs_at(text@, pattern@, 0));
        }
        return true;
    }
    match split_first(text, pattern) {
        Some((before, _)) => {
            assert(occurs_at(text@, pattern@, before@.len() as int));
            true
        },
        None => false,
    }
}

/// The characters with the Unicode property `White_Space`.
pub open spec fn is_space(c: char) -> bool {
    ||| '\u{9}' <= c <= '\u{d}'
    ||| c == ' '
    ||| c == '\u{85}'
    ||| c == '\u{a0}'
    ||| c == '\u{1680}'
    ||| '\u{2000}' <= c <= '\u{200a}'
    ||| c == '\u{2028}'
    ||| c == '\u{2029}'
    ||| c == '\u{202f}'
    ||| c == '\u{205f}'
    ||| c == '\u{3000}'
}

/// Whether a character is white space.
pub fn is_space_char(c: char) -> (res: bool)
    ensures
        res == is_space(c),
{
    ('\u{9}' <= c && c <= '\u{d}') || c == ' ' || c == '\u{85}' || c == '\u{a0}' || c
        == '\u{1680}' || ('\u{2000}' <= c && c <= '\u{200a}') || c == '\u{2028}' || c
        == '\u{2029}' || c == '\u{202f}' || c == '\u{205f}' || c == '\u{3000}'
}

/// A text with nothing but white space in it.
pub open spec fn is_blank(text: Seq<char>) -> bool {
    forall|i: int| 0 <= i < text.len() ==> is_space(#[trigger] text[i])
}

/// `text` without the white space that it begins with.
pub open spec fn trim_start(text: Seq<char>) -> Seq<char>
    decreases text.len(),
{
    if text.len() > 0 && is_space(text[0]) {
        trim_start(text.drop_first())
    } else {
        text
    }
}

/// `text` without the white space that it ends with.
pub open spec fn trim_end(text: Seq<char>) -> Seq<char>
    decreases text.len(),
{
    if text.len() > 0 && is_space(text.last()) {
        trim_end(text.drop_last())
    } else {
        text
    }
}

/// `text` without white space at either end.
pub open spec fn trim(text: Seq<char>) -> Seq<char> {
    trim_end(trim_start(text))
}

pub(crate) proof fn lemma_trim_start(text: Seq<char>, start: int)
    requires
        0 <= start <= text.len(),
        forall|i: int| 0 <= i < start ==> is_space(#[trigger] text[i]),
        start < text.len() ==> !is_space(text[start]),
    ensures
        trim_start(text) == text.skip(start),
    decreases start,
{
    if start == 0 {
        assert(text.skip(0) =~= text);
    } else {
        assert forall|i: int| 0 <= i < start - 1 implies is_space(
            #[trigger] text.drop_first()[i],
        ) by {
            assert(is_space(text[i + 1]));
        }
        lemma_trim_start(text.drop_first(), start - 1);
        assert(text.drop_first().skip(start - 1) =~= text.skip(start));
    }
}

pub(crate) proof fn lemma_trim_end(text: Seq<char>, end: int)
    requires
        0 <= end <= text.len(),
        forall|i: int| end <= i < text.len() ==> is_space(#[trigger] text[i]),
        end > 0 ==> !is_space(text[end - 1]),
    ensures
        trim_end(text) == text.take(end),
    decreases text.len() - end,
{
    if end == text.len() {
        assert(text.take(end) =~= text);
    } else {
        assert(is_space(text[text.len() - 1]));
        lemma_trim_end(text.drop_last(), end);
        assert(text.drop_last().take(end) =~= text.take(end));
    }
}

/// Whether a text holds nothing but white space.
pub fn is_blank_text(text: &str) -> (res: bool)
    ensures
        res == is_blank(text@),
{
    for c in it: text.chars()
        invariant
            it.seq() == text@,
            forall|i: int| 0 <= i < it.index() ==> is_space(#[trigger] text@[i]),
    {
        if !is_space_char(c) {
            return false;
        }
    }
    true
}

/// `text` without white space at either end.
pub fn trim_text(text: &str) -> (res: &str)
    ensures
        res@ == trim(text@),
{
    let len: usize = text.unicode_len();
    let mut at: usize = 0;
    let mut start: usize = 0;
    let mut end: usize = 0;
    for c in it: text.chars()
        invariant
            it.seq() == text@,
            len == text@.len(),
            at == it.index(),
            start <= end <= at <= len,
            forall|i: int| 0 <= i < start ==> is_space(#[trigger] text@[i]),
            forall|i: int| end <= i < at ==> is_space(#[trigger] text@[i]),
            end > start ==> !is_space(text@[start as int]) && !is_space(text@[end - 1]),
            end == start ==> start == at,
    {
        if is_space_char(c) {
            if start == end {
                start = start + 1;
                end = start;
            }
        } else {
            end = at + 1;
        }
        at = at + 1;
    }
    proof {
        lemma_trim_start(text@, start as int);
        let tail = text@.skip(start as int);
        lemma_trim_end(tail, end - start);
        assert(tail.take(end - start) =~= text@.subrange(start as int, end as int));
    }
    text.substring_char(start, end)
}

/// `line` without a carriage return at its end.
pub open spec fn without_carriage_return(line: Seq<char>) -> Seq<char> {
    if line.len() > 0 && line.last() == '\r' {
        line.drop_last()
    } else {
        line
    }
}

/// The text of a line feed.
pub open spec fn newline() -> Seq<char> {
    seq!['\n']
}

/// The lines of `text`: each ends at a line feed, or at a carriage return and a line feed,
/// which are left out. What follows the last line feed is a line too, unless it is empty.
pub open spec fn lines(text: Seq<char>) -> Seq<Seq<char>>
    decreases text.len(),
{
    if text.len() == 0 {
        Seq::empty()
    } else {
        match find(text, newline()) {
            Some(at) => {
                proof {
                    lemma_find_is_first(text, newline());
                }
                seq![without_carriage_return(text.take(at))] + lines(text.skip(at + 1))
            },
            None => seq![text],
        }
    }
}

/// What stands in a part of a text stands in the text.
pub(crate) proof fn lemma_contains_part(whole: Seq<char>, part: Seq<char>, piece: Seq<char>)
    requires
        contains(whole, part),
        contains(part, piece),
    ensures
        contains(whole, piece),
{
    let i = choose|i: int| occurs_at(whole, part, i);
    let j = choose|j: int| occurs_at(part, piece, j);
    assert(whole.subrange(i + j, i + j + piece.len()) =~= part.subrange(j, j + piece.len()));
    assert(occurs_at(whole, piece, i + j));
}

/// The lines of a text stand in it, and hold no line feed.
pub(crate) proof fn lemma_line_in_text(text: Seq<char>, k: int)
    requires
        0 <= k < lines(text).len(),
    ensures
        contains(text, lines(text)[k]),
        !lines(text)[k].contains('\n'),
    decreases text.len(),
{
    lemma_find_is_first(text, newline());
    match find(text, newline()) {
        Some(at) => {
            let rest = text.skip(at + 1);
            if k == 0 {
                let line = lines(text)[0];
                assert(line =~= text.subrange(0, line.len() as int));
                assert(occurs_at(text, line, 0));
                assert forall|i: int| 0 <= i < line.len() implies line[i] != '\n' by {
                    if line[i] == '\n' {
                        assert(text.subrange(i, i + 1) =~= newline());
                        assert(occurs_at(text, newline(), i));
                    }
                }
            } else {
                lemma_line_in_text(rest, k - 1);
                assert(lines(text)[k] == lines(rest)[k - 1]);
                assert(text.subrange(at + 1, text.len() as int) =~= rest);
                assert(occurs_at(text, rest, at + 1));
                lemma_contains_part(text, rest, lines(text)[k]);
            }
        },
        None => {
            assert(text.subrange(0, text.len() as int) =~= text);
            assert(occurs_at(text, text, 0));
            assert forall|i: int| 0 <= i < text.len() implies text[i] != '\n' by {
                if text[i] == '\n' {
                    assert(text.subrange(i, i + 1) =~= newline());
                    assert(occurs_at(text, newline(), i));
                }
            }
        },
    }
}

/// The lines of two texts are those of the first and those of the second, where the first one ends
/// in a line feed.
pub proof fn lemma_lines_concat(first: Seq<char>, second: Seq<char>)
    requires
        first.len() == 0 || first.last() == '\n',
    ensures
        lines(first + second) == lines(first) + lines(second),
    decreases first.len(),
{
    let whole = first + second;
    if first.len() == 0 {
        assert(whole =~= second);
        assert(lines(first) + lines(second) =~= lines(second));
    } else {
        let last = first.len() - 1;
        assert(first.subrange(last, last + 1) =~= newline());
        assert(occurs_at(first, newline(), last));
        lemma_find_is_first(first, newline());
        let at = find(first, newline())->0;
        assert(whole.subrange(at, at + 1) =~= first.subrange(at, at + 1));
        assert forall|i: int| 0 <= i < at implies !occurs_at(whole, newline(), i) by {
            if occurs_at(whole, newline(), i) {
                assert(first.subrange(i, i + 1) =~= whole.subrange(i, i + 1));
                assert(occurs_at(first, newline(), i));
            }
        }
        assert(first_at(whole, newline(), at));
        lemma_find_at(whole, newline(), at);
        let rest = first.skip(at + 1);
        assert(whole.take(at) =~= first.take(at));
        assert(whole.skip(at + 1) =~= rest + second);
        assert(rest.len() > 0 ==> rest.last() == first.last());
        lemma_lines_concat(rest, second);
        let line = seq![without_carriage_return(first.take(at))];
        assert(line + (lines(rest) + lines(second)) =~= line + lines(rest) + lines(second));
    }
}

/// A text that begins with a line and a line feed has that line first.
pub(crate) proof fn lemma_lines_first(line: Seq<char>, rest: Seq<char>)
    requires
        !line.contains('\n'),
    ensures
        lines(line + newline() + rest) == seq![without_carriage_return(line)] + lines(rest),
{
    let text = line + newline() + rest;
    let at = line.len() as int;
    assert(text.subrange(at, at + 1) =~= newline());
    assert forall|i: int| 0 <= i < at implies !occurs_at(text, newline(), i) by {
        if occurs_at(text, newline(), i) {
            assert(text.subrange(i, i + 1)[0] == line[i]);
        }
    }
    assert(first_at(text, newline(), at));
    lemma_find_at(text, newline(), at);
    assert(text.take(at) =~= line);
    assert(text.skip(at + 1) =~= rest);
}

/// The lines of `text`.
pub fn lines_of(text: &str) -> (res: Vec<&str>)
    ensures
        res@.len() == lines(text@).len(),
        forall|i: int| 0 <= i < res@.len() ==> (#[trigger] res@[i])@ == lines(text@)[i],
{
    let mut res: Vec<&str> = Vec::new();
    let mut rest = text;
    proof {
        reveal_strlit("\n");
        reveal_strlit("\r");
        assert("\n"@ =~= newline());
    }
    while !rest.is_empty()
        invariant
            "\n"@ == newline(),
            "\r"@ == seq!['\r'],
            res@.len() + lines(rest@).len() == lines(text@).len(),
            forall|i: int| 0 <= i < res@.len() ==> (#[trigger] res@[i])@ == lines(text@)[i],
            forall|i: int|
                0 <= i < lines(rest@).len() ==> #[trigger] lines(rest@)[i] == lines(text@)[res@.len()
                    + i],
        decreases rest@.len(),
    {
        match split_first(rest, "\n") {
            Some((line, after)) => {
                let bare = match strip_suffix(line, "\r") {
                    Some(bare) => bare,
                    None => line,
                };
                let ghost before = res@;
                res.push(bare);
                proof {
                    let tail = lines(after@);
                    assert(lines(rest@) == seq![without_carriage_return(line@)] + tail);
                    assert(bare@ =~= without_carriage_return(line@)) by {
                        let len = line@.len() as int;
                        if len > 0 {
                            let end = line@.subrange(len - 1, len);
                            assert(end[0] == line@.last());
                            assert(line@.last() == '\r' ==> seq!['\r'] =~= end);
                        }
                    }
                    assert(lines(rest@)[0] == lines(text@)[before.len() as int]);
                    assert forall|i: int| 0 <= i < tail.len() implies #[trigger] tail[i] == lines(
                        text@,
                    )[res@.len() + i] by {
                        assert(lines(rest@)[i + 1] == tail[i]);
                    }
                }
                rest = after;
            },
            None => {
                proof {
                    assert(lines(rest@) == seq![rest@]);
                    assert(lines(rest@)[0] == lines(text@)[res@.len() as int]);
                }
                res.push(rest);
                rest = "";
                proof {
                    reveal_strlit("");
                }
            },
        }
    }
    res
}

/// The texts of a list of strings.
pub open spec fn string_texts(texts: Seq<String>) -> Seq<Seq<char>> {
    texts.map_values(|text: String| text@)
}

/// The pieces of text, with a separator between each two of them.
pub open spec fn joined(pieces: Seq<Seq<char>>, separator: Seq<char>) -> Seq<char>
    decreases pieces.len(),
{
    if pieces.len() == 0 {
        Seq::empty()
    } else if pieces.len() == 1 {
        pieces[0]
    } else {
        joined(pieces.drop_last(), separator) + separator + pieces.last()
    }
}

/// Joins pieces of text.
pub fn join_text(pieces: &Vec<String>, separator: &str) -> (res: String)
    ensures
        res@ == joined(string_texts(pieces@), separator@),
{
    let ghost texts = string_texts(pieces@);
    let mut res = String::new();
    let mut i: usize = 0;
    while i < pieces.len()
        invariant
            texts == string_texts(pieces@),
            i <= pieces@.len(),
            res@ == joined(texts.take(i as int), separator@),
        decreases pieces@.len() - i,
    {
        if i > 0 {
            res.append(separator);
        }
        res.append(pieces[i].as_str());
        proof {
            let more = texts.take(i + 1);
            assert(more.drop_last() =~= texts.take(i as int));
            assert(more.last() == pieces@[i as int]@);
            if i == 0 {
                assert(res@ =~= more[0]);
            }
        }
        i += 1;
    }
    assert(texts.take(i as int) =~= texts);
    res
}

/// A line ends at a line feed, or at a carriage return and a line feed, which are no part of it.
/// What follows the last line feed is a line unless it is empty.
pub proof fn lemma_lines_one_by_one(line: Seq<char>, rest: Seq<char>)
    requires
        !line.contains('\n'),
    ensures
        line.len() == 0 || line.last() != '\r' ==> lines(line + seq!['\n'] + rest) == seq![line]
            + lines(rest),
        lines(line + seq!['\r', '\n'] + rest) == seq![line] + lines(rest),
        line.len() > 0 ==> lines(line) == seq![line],
        line.len() == 0 ==> lines(line) == Seq::<Seq<char>>::empty(),
{
    lemma_lines_first(line, rest);
    let long = line.push('\r');
    assert forall|i: int| 0 <= i < long.len() implies long[i] != '\n' by {
        if i < line.len() {
            assert(line.contains(line[i]));
        }
    }
    lemma_lines_first(long, rest);
    assert(long.drop_last() =~= line);
    assert(long + newline() + rest =~= line + seq!['\r', '\n'] + rest);
    assert forall|i: int| !occurs_at(line, newline(), i) by {
        if occurs_at(line, newline(), i) {
            assert(line.subrange(i, i + 1)[0] == line[i]);
            assert(line.contains('\n'));
        }
    }
    assert(find(line, newline()) is None);
}

/// A pattern stands in a text if and only if the text is made of something, the pattern and
/// something else.
pub proof fn lemma_contains_is_between(text: Seq<char>, pattern: Seq<char>)
    ensures
        contains(text, pattern) <==> exists|before: Seq<char>, after: Seq<char>|
            #[trigger] (before + pattern + after) == text,
{
    if contains(text, pattern) {
        let at = choose|at: int| occurs_at(text, pattern, at);
        assert(text.take(at) + pattern + text.skip(at + pattern.len()) =~= text);
    }
    if exists|before: Seq<char>, after: Seq<char>| #[trigger] (before + pattern + after) == text {
        let (before, after) = choose|before: Seq<char>, after: Seq<char>|
            #[trigger] (before + pattern + after) == text;
        let at = before.len() as int;
        assert(text.subrange(at, at + pattern.len()) =~= pattern);
        assert(occurs_at(text, pattern, at));
    }
}

/// A pattern is found behind the shortest text that can stand before it, and only where it stands
/// at all.
pub proof fn lemma_find_is_shortest(text: Seq<char>, pattern: Seq<char>)
    ensures
        find(text, pattern) is Some <==> contains(text, pattern),
        forall|before: Seq<char>, after: Seq<char>|
            #[trigger] (before + pattern + after) == text ==> find(text, pattern) is Some && find(
                text,
                pattern,
            )->0 <= before.len(),
        find(text, pattern) is Some ==> {
            let at = find(text, pattern)->0;
            &&& 0 <= at
            &&& at + pattern.len() <= text.len()
            &&& text.take(at) + pattern + text.skip(at + pattern.len()) == text
        },
{
    lemma_find_is_first(text, pattern);
    assert forall|before: Seq<char>, after: Seq<char>|
        #[trigger] (before + pattern + after) == text implies find(text, pattern) is Some && find(
        text,
        pattern,
    )->0 <= before.len() by {
        let at = before.len() as int;
        assert(text.subrange(at, at + pattern.len()) =~= pattern);
        assert(occurs_at(text, pattern, at));
    }
    if let Some(at) = find(text, pattern) {
        assert(text.take(at) + pattern + text.skip(at + pattern.len()) =~= text);
    }
}

/// The ASCII characters that are white space.
pub proof fn lemma_ascii_space(c: char)
    requires
        c <= '\u{7f}',
    ensures
        is_space(c) <==> c == ' ' || c == '\t' || c == '\n' || c == '\r' || c == '\u{b}' || c
            == '\u{c}',
{
}

proof fn lemma_trim_start_parts(text: Seq<char>) -> (cut: int)
    ensures
        0 <= cut <= text.len(),
        trim_start(text) == text.skip(cut),
        forall|i: int| 0 <= i < cut ==> is_space(#[trigger] text[i]),
        cut < text.len() ==> !is_space(text[cut]),
    decreases text.len(),
{
    if text.len() > 0 && is_space(text[0]) {
        let rest = text.drop_first();
        let cut = lemma_trim_start_parts(rest);
        assert(rest.skip(cut) =~= text.skip(cut + 1));
        assert forall|i: int| 0 <= i < cut + 1 implies is_space(#[trigger] text[i]) by {
            if i > 0 {
                assert(rest[i - 1] == text[i]);
            }
        }
        cut + 1
    } else {
        assert(text.skip(0) =~= text);
        0
    }
}

pub(crate) proof fn lemma_trim_end_parts(text: Seq<char>) -> (end: int)
    ensures
        0 <= end <= text.len(),
        trim_end(text) == text.take(end),
        forall|i: int| end <= i < text.len() ==> is_space(#[trigger] text[i]),
        end > 0 ==> !is_space(text[end - 1]),
    decreases text.len(),
{
    if text.len() > 0 && is_space(text.last()) {
        let rest = text.drop_last();
        let end = lemma_trim_end_parts(rest);
        assert(rest.take(end) =~= text.take(end));
        assert forall|i: int| end <= i < text.len() implies is_space(#[trigger] text[i]) by {
            if i < rest.len() {
                assert(rest[i] == text[i]);
            }
        }
        end
    } else {
        assert(text.take(text.len() as int) =~= text);
        text.len() as int
    }
}

/// Trimming takes white space, and nothing else, from both ends of a text, and leaves none there.
pub proof fn lemma_trim_takes_white_space(text: Seq<char>)
    ensures
        exists|before: Seq<char>, after: Seq<char>|
            is_blank(before) && is_blank(after) && #[trigger] (before + trim(text) + after) == text,
        trim(text).len() > 0 ==> !is_space(trim(text)[0]) && !is_space(trim(text).last()),
        is_blank(text) <==> trim(text).len() == 0,
        is_blank(text) <==> forall|i: int| 0 <= i < text.len() ==> is_space(#[trigger] text[i]),
{
    let cut = lemma_trim_start_parts(text);
    let rest = text.skip(cut);
    let end = lemma_trim_end_parts(rest);
    let before = text.take(cut);
    let after = rest.skip(end);
    assert(before + trim(text) + after =~= text);
    assert forall|i: int| 0 <= i < after.len() implies is_space(#[trigger] after[i]) by {
        assert(after[i] == rest[i + end]);
    }
    if end > 0 {
        assert(trim(text)[0] == text[cut]);
        assert(trim(text).last() == rest[end - 1]);
    } else {
        assert forall|i: int| 0 <= i < text.len() implies is_space(#[trigger] text[i]) by {
            if i >= cut {
                assert(rest[i - cut] == text[i]);
            }
        }
    }
}

/// Joined pieces come one behind the other, with the separator between each two of them and
/// nowhere else.
pub proof fn lemma_joined_one_by_one(pieces: Seq<Seq<char>>, last: Seq<char>, separator: Seq<char>)
    ensures
        joined(Seq::empty(), separator) == Seq::<char>::empty(),
        joined(seq![last], separator) == last,
        pieces.len() > 0 ==> joined(pieces.push(last), separator) == joined(pieces, separator)
            + separator + last,
{
    assert(pieces.push(last).drop_last() =~= pieces);
}

/// The code points of the characters that are white space.
pub open spec fn space_codes() -> Seq<u32> {
    seq![
        0x09u32, 0x0a, 0x0b, 0x0c, 0x0d, 0x20, 0x85, 0xa0, 0x1680, 0x2000, 0x2001, 0x2002, 0x2003,
        0x2004, 0x2005, 0x2006, 0x2007, 0x2008, 0x2009, 0x200a, 0x2028, 0x2029, 0x202f, 0x205f,
        0x3000,
    ]
}

/// A character is white space if and only if its code point is one of those.
pub proof fn lemma_space_codes(c: char)
    ensures
        is_space(c) <==> space_codes().contains(c as u32),
{
    let codes = space_codes();
    let code = c as u32;
    assert(forall|i: int| 0 <= i < codes.len() && codes[i] == code ==> codes.contains(code));
    assert(codes[0] == 0x09 && codes[1] == 0x0a && codes[2] == 0x0b && codes[3] == 0x0c && codes[4]
        == 0x0d && codes[5] == 0x20 && codes[6] == 0x85 && codes[7] == 0xa0 && codes[8] == 0x1680);
    assert(forall|i: int| 9 <= i <= 19 ==> #[trigger] codes[i] == 0x2000 + (i - 9));
    if 0x2000 <= code <= 0x200a {
        assert(codes[9 + (code - 0x2000)] == code);
    }
    assert(codes[20] == 0x2028 && codes[21] == 0x2029 && codes[22] == 0x202f && codes[23] == 0x205f
        && codes[24] == 0x3000);
}

} // verus!
