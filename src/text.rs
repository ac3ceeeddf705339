//! Character-level facts: whitespace, words, and decoding of line records.

use vstd::prelude::*;
use vstd::string::StringSliceAdditionalSpecFns;
use vstd::utf8::{decode_utf8, encode_utf8, encode_utf8_decode_utf8, valid_utf8};

verus! {

/// The Unicode `White_Space` characters, which split words.
pub open spec fn is_space(c: char) -> bool {
    ||| c == ' '
    ||| ('\u{9}' <= c && c <= '\u{d}')
    ||| c == '\u{85}'
    ||| c == '\u{a0}'
    ||| c == '\u{1680}'
    ||| ('\u{2000}' <= c && c <= '\u{200a}')
    ||| c == '\u{2028}'
    ||| c == '\u{2029}'
    ||| c == '\u{202f}'
    ||| c == '\u{205f}'
    ||| c == '\u{3000}'
}

/// Position `i` of `s` begins a word: a non-space character at the start of
/// the text or right after a space.
pub open spec fn starts_word(s: Seq<char>, i: int) -> bool {
    &&& !is_space(s[i])
    &&& (i == 0 || is_space(s[i - 1]))
}

/// The number of maximal runs of non-space characters in `s`.
pub open spec fn words_in(s: Seq<char>) -> nat
    decreases s.len(),
{
    if s.len() == 0 {
        0
    } else {
        words_in(s.drop_last()) + if starts_word(s, s.len() - 1) { 1nat } else { 0nat }
    }
}

/// `s` without one trailing newline, if it has one.
pub open spec fn without_newline(s: Seq<char>) -> Seq<char> {
    if s.len() > 0 && s.last() == '\n' {
        s.drop_last()
    } else {
        s
    }
}

/// Whether `c` is whitespace, as `char::is_whitespace` decides it.
pub fn is_whitespace(c: char) -> (r: bool)
    ensures
        r == is_space(c),
{
    c == ' ' || ('\u{9}' <= c && c <= '\u{d}') || c == '\u{85}' || c == '\u{a0}' || c
        == '\u{1680}' || ('\u{2000}' <= c && c <= '\u{200a}') || c == '\u{2028}' || c
        == '\u{2029}' || c == '\u{202f}' || c == '\u{205f}' || c == '\u{3000}'
}

/// The characters of `s`, in order.
pub fn chars_of(s: &str) -> (r: Vec<char>)
    ensures
        r@ == s@,
{
    let mut r: Vec<char> = Vec::new();
    for c in it: s.chars()
        invariant
            it.seq() == s@,
            r@ == it.seq().take(it.index() as int),
    {
        r.push(c);
    }
    r
}

/// The number of Unicode scalar values in `s`.
pub fn char_count(s: &str) -> (r: usize)
    ensures
        r == s@.len(),
{
    let v = chars_of(s);
    v.len()
}

/// The number of words in `cs`, counted in one pass.
pub fn words_in_chars(cs: &[char]) -> (r: usize)
    ensures
        r == words_in(cs@),
{
    let n = cs.len();
    let mut count: usize = 0;
    let mut i: usize = 0;
    while i < n
        invariant
            n == cs@.len(),
            i <= n,
            count <= i,
            count == words_in(cs@.take(i as int)),
        decreases n - i,
    {
        let c = cs[i];
        let start = !is_whitespace(c) && (i == 0 || is_whitespace(cs[i - 1]));
        proof {
            let t = cs@.take(i + 1);
            assert(t.drop_last() =~= cs@.take(i as int));
            assert(starts_word(t, i as int) == starts_word(cs@, i as int));
        }
        if start {
            count = count + 1;
        }
        i = i + 1;
    }
    assert(cs@.take(n as int) =~= cs@);
    count
}

/// The number of whitespace-separated words in `s`.
pub fn word_count(s: &str) -> (r: usize)
    ensures
        r == words_in(s@),
{
    let v = chars_of(s);
    words_in_chars(v.as_slice())
}

/// The length of the longest valid UTF-8 prefix of `b.take(j)`.
pub open spec fn valid_prefix_len(b: Seq<u8>, j: int) -> nat
    decreases j,
{
    if j <= 0 {
        0
    } else if valid_utf8(b.take(j)) {
        j as nat
    } else {
        valid_prefix_len(b, j - 1)
    }
}

/// The text a line record stands for: the characters of its longest valid
/// UTF-8 prefix. Bytes after the first invalid sequence give no characters.
pub open spec fn decoded(b: Seq<u8>) -> Seq<char> {
    decode_utf8(b.take(valid_prefix_len(b, b.len() as int) as int))
}

proof fn lemma_valid_prefix_len(b: Seq<u8>, k: int, j: int)
    requires
        0 <= k <= j <= b.len(),
        valid_utf8(b.take(k)),
        forall|i: int| k < i <= b.len() ==> !valid_utf8(#[trigger] b.take(i)),
    ensures
        valid_prefix_len(b, j) == k,
    decreases j,
{
    if j > k {
        lemma_valid_prefix_len(b, k, j - 1);
    }
}

/// A valid record decodes whole.
pub proof fn lemma_decoded_valid(b: Seq<u8>)
    requires
        valid_utf8(b),
    ensures
        decoded(b) == decode_utf8(b),
{
    assert(b.take(b.len() as int) =~= b);
    lemma_valid_prefix_len(b, b.len() as int, b.len() as int);
}

/// Relies on `std::str::from_utf8`: it succeeds exactly on valid UTF-8 and
/// then views the same bytes as text; on failure `Utf8Error::valid_up_to`
/// gives the largest length of a prefix that would decode.
#[verifier::external_body]
fn from_utf8(b: &[u8]) -> (r: Result<&str, usize>)
    ensures
        match r {
            Ok(s) => s.spec_bytes() == b@,
            Err(k) => {
                &&& !valid_utf8(b@)
                &&& k < b@.len()
                &&& valid_utf8(b@.take(k as int))
                &&& forall|i: int| k < i <= b@.len() ==> !valid_utf8(#[trigger] b@.take(i))
            },
        },
{
    std::str::from_utf8(b).map_err(|e| e.valid_up_to())
}

proof fn lemma_encode_len(cs: Seq<char>)
    ensures
        cs.len() <= encode_utf8(cs).len(),
    decreases cs.len(),
{
    if cs.len() > 0 {
        lemma_encode_len(cs.drop_first());
    }
}

/// Decodes a line record: the text of its longest valid UTF-8 prefix.
pub fn decode_record(b: &[u8]) -> (r: &str)
    ensures
        r@ == decoded(b@),
        r@.len() <= b@.len(),
        valid_utf8(b@) ==> r@ == decode_utf8(b@),
{
    broadcast use vstd::utf8::encode_utf8_valid_utf8;

    match from_utf8(b) {
        Ok(s) => {
            proof {
                encode_utf8_decode_utf8(s@);
                assert(b@.take(b@.len() as int) =~= b@);
                lemma_valid_prefix_len(b@, b@.len() as int, b@.len() as int);
                lemma_encode_len(s@);
            }
            s
        },
        Err(k) => {
            let head = vstd::slice::slice_subrange(b, 0, k);
            proof {
                lemma_valid_prefix_len(b@, k as int, b@.len() as int);
                assert(head@ =~= b@.take(k as int));
            }
            match from_utf8(head) {
                Ok(s) => {
                    proof {
                        encode_utf8_decode_utf8(s@);
                        lemma_encode_len(s@);
                    }
                    s
                },
                Err(_) => "",
            }
        },
    }
}

} // verus!
