//! The counters of one or more scanned streams, and the scanner itself.

use vstd::prelude::*;
use crate::text::{
    chars_of, decode_record, decoded, lemma_decoded_valid, words_in, words_in_chars,
    without_newline,
};
use vstd::utf8::{
    decode_first_scalar, decode_utf8, is_char_boundary_iff_not_is_continuation_byte,
    length_of_first_scalar, pop_first_scalar, valid_first_scalar, valid_utf8, valid_utf8_split,
};

verus! {

/// The byte that ends a line record.
pub const NEWLINE: u8 = 10;

/// What a `Counts` value stands for.
pub ghost struct Tally {
    pub inputs: nat,
    pub bytes: nat,
    pub chars: nat,
    pub words: nat,
    pub lines: nat,
    pub max_line_length: nat,
}

/// A tally with every counter zero but the number of inputs.
pub open spec fn empty_tally(inputs: nat) -> Tally {
    Tally { inputs, bytes: 0, chars: 0, words: 0, lines: 0, max_line_length: 0 }
}

/// The combination rule: sums for every counter, maximum for the longest line.
pub open spec fn combine(a: Tally, b: Tally) -> Tally {
    Tally {
        inputs: a.inputs + b.inputs,
        bytes: a.bytes + b.bytes,
        chars: a.chars + b.chars,
        words: a.words + b.words,
        lines: a.lines + b.lines,
        max_line_length: if a.max_line_length >= b.max_line_length {
            a.max_line_length
        } else {
            b.max_line_length
        },
    }
}

/// What one line record adds: its bytes, one line, and the characters, words
/// and width (newline left out) of the text it decodes to.
pub open spec fn record_tally(record: Seq<u8>) -> Tally {
    Tally {
        inputs: 0,
        bytes: record.len(),
        chars: decoded(record).len(),
        words: words_in(decoded(record)),
        lines: 1,
        max_line_length: without_newline(decoded(record)).len(),
    }
}

/// The length of the first line record of `b`: up to and including the first
/// newline, or all of `b` when it holds none.
pub open spec fn line_end(b: Seq<u8>) -> int
    decreases b.len(),
{
    if b.len() == 0 {
        0
    } else if b[0] == NEWLINE {
        1
    } else {
        1 + line_end(b.drop_first())
    }
}

/// The counters of the line records of `b`, with no input counted.
pub open spec fn scan_tally(b: Seq<u8>) -> Tally
    decreases b.len(),
{
    let k = line_end(b);
    if b.len() == 0 || k <= 0 || k > b.len() {
        empty_tally(0)
    } else {
        combine(record_tally(b.take(k)), scan_tally(b.skip(k)))
    }
}

/// The result of scanning the whole stream `b`: one input.
pub open spec fn scanned(b: Seq<u8>) -> Tally {
    combine(empty_tally(1), scan_tally(b))
}

/// The first line record of a non-empty `b` is non-empty, holds no newline
/// but possibly its last byte, and ends in a newline unless it reaches the end.
pub proof fn lemma_line_end(b: Seq<u8>)
    requires
        b.len() > 0,
    ensures
        1 <= line_end(b) <= b.len(),
        forall|i: int| 0 <= i < line_end(b) - 1 ==> b[i] != NEWLINE,
        line_end(b) == b.len() || b[line_end(b) - 1] == NEWLINE,
    decreases b.len(),
{
    if b[0] != NEWLINE {
        let t = b.drop_first();
        if t.len() > 0 {
            lemma_line_end(t);
            assert forall|i: int| 0 <= i < line_end(b) - 1 implies b[i] != NEWLINE by {
                if i > 0 {
                    assert(b[i] == t[i - 1]);
                }
            }
        } else {
            assert(line_end(t) == 0);
        }
    }
}

/// Those properties pin the first line record down.
pub proof fn lemma_line_end_unique(b: Seq<u8>, k: int)
    requires
        1 <= k <= b.len(),
        forall|i: int| 0 <= i < k - 1 ==> b[i] != NEWLINE,
        k == b.len() || b[k - 1] == NEWLINE,
    ensures
        line_end(b) == k,
    decreases b.len(),
{
    if b[0] != NEWLINE {
        let t = b.drop_first();
        if k > 1 {
            assert forall|i: int| 0 <= i < k - 2 implies t[i] != NEWLINE by {
                assert(t[i] == b[i + 1]);
            }
            lemma_line_end_unique(t, k - 1);
        } else {
            assert(line_end(t) == 0);
        }
    }
}

/// Counters of streams, records or totals.
pub struct Counts {
    pub count: usize,
    pub bytes: usize,
    pub chars: usize,
    pub words: usize,
    pub lines: usize,
    pub maxln: usize,
}

impl View for Counts {
    type V = Tally;

    open spec fn view(&self) -> Tally {
        Tally {
            inputs: self.count as nat,
            bytes: self.bytes as nat,
            chars: self.chars as nat,
            words: self.words as nat,
            lines: self.lines as nat,
            max_line_length: self.maxln as nat,
        }
    }
}

/// Whether the combination of `a` and `b` fits the counters' machine type.
pub open spec fn combinable(a: Tally, b: Tally) -> bool {
    &&& a.inputs + b.inputs <= usize::MAX
    &&& a.bytes + b.bytes <= usize::MAX
    &&& a.chars + b.chars <= usize::MAX
    &&& a.words + b.words <= usize::MAX
    &&& a.lines + b.lines <= usize::MAX
}

impl Default for Counts {
    /// All counters zero: the start of a running total.
    fn default() -> (r: Counts)
        ensures
            r@ == empty_tally(0),
    {
        Counts { count: 0, bytes: 0, chars: 0, words: 0, lines: 0, maxln: 0 }
    }
}

impl Counts {
    /// The counters at the start of a scan: one input, nothing counted yet.
    pub fn new_scan() -> (r: Counts)
        ensures
            r@ == empty_tally(1),
    {
        Counts { count: 1, bytes: 0, chars: 0, words: 0, lines: 0, maxln: 0 }
    }

    /// Whether a total row is due: more than one input went into `self`.
    pub fn needs_total_row(&self) -> (r: bool)
        ensures
            r == (self@.inputs > 1),
    {
        self.count > 1
    }

    /// Adds one line record, as read from the stream, to the counters.
    pub fn add_record(&mut self, record: &[u8])
        requires
            combinable(old(self)@, record_tally(record@)),
        ensures
            final(self)@ == combine(old(self)@, record_tally(record@)),
    {
        let r = record_counts(record);
        *self = combine_counts(self, &r);
    }
}

/// Whether `c0` and `c1` can be combined without overflow.
pub fn can_combine(c0: &Counts, c1: &Counts) -> (r: bool)
    ensures
        r == combinable(c0@, c1@),
{
    c0.count <= usize::MAX - c1.count && c0.bytes <= usize::MAX - c1.bytes && c0.chars
        <= usize::MAX - c1.chars && c0.words <= usize::MAX - c1.words && c0.lines
        <= usize::MAX - c1.lines
}

/// Folds `c1` into `c0`: counters summed, longest line the larger of the two.
pub fn combine_counts(c0: &Counts, c1: &Counts) -> (r: Counts)
    requires
        combinable(c0@, c1@),
    ensures
        r@ == combine(c0@, c1@),
{
    Counts {
        count: c0.count + c1.count,
        bytes: c0.bytes + c1.bytes,
        chars: c0.chars + c1.chars,
        words: c0.words + c1.words,
        lines: c0.lines + c1.lines,
        maxln: if c0.maxln >= c1.maxln {
            c0.maxln
        } else {
            c1.maxln
        },
    }
}

/// The counters of one line record, with no input counted. Each is at most
/// the record's length.
pub fn record_counts(record: &[u8]) -> (r: Counts)
    ensures
        r@ == record_tally(record@),
        r.bytes <= record@.len(),
        r.chars <= record@.len(),
        r.words <= record@.len(),
        r.maxln <= record@.len(),
{
    let text = decode_record(record);
    let cs = chars_of(text);
    let words = words_in_chars(cs.as_slice());
    proof {
        lemma_words_bound(cs@);
    }
    let n = cs.len();
    let width = if n > 0 && cs[n - 1] == '\n' {
        n - 1
    } else {
        n
    };
    proof {
        if n > 0 && cs@[n - 1] == '\n' {
            assert(without_newline(cs@) =~= cs@.drop_last());
        }
    }
    Counts { count: 0, bytes: record.len(), chars: n, words, lines: 1, maxln: width }
}

/// A text has no more words than characters.
pub proof fn lemma_words_bound(s: Seq<char>)
    ensures
        words_in(s) <= s.len(),
    decreases s.len(),
{
    if s.len() > 0 {
        lemma_words_bound(s.drop_last());
    }
}

/// The end of the line record that starts at `pos`: one past the first
/// newline from there, or the end of `data`.
pub fn find_line_end(data: &[u8], pos: usize) -> (end: usize)
    requires
        pos < data@.len(),
    ensures
        pos < end <= data@.len(),
        end - pos == line_end(data@.skip(pos as int)),
{
    let n = data.len();
    let mut i: usize = pos;
    while i < n && data[i] != NEWLINE
        invariant
            n == data@.len(),
            pos <= i <= n,
            forall|j: int| pos <= j < i ==> data@[j] != NEWLINE,
        decreases n - i,
    {
        i = i + 1;
    }
    let end = if i < n {
        i + 1
    } else {
        n
    };
    proof {
        let t = data@.skip(pos as int);
        assert forall|j: int| 0 <= j < end - pos - 1 implies t[j] != NEWLINE by {
            assert(t[j] == data@[pos + j]);
        }
        if end < n {
            assert(t[end - pos - 1] == data@[end - 1]);
        }
        lemma_line_end_unique(t, end - pos);
    }
    end
}

/// Scans a whole stream: splits it into line records and counts them, as one
/// input.
pub fn scan(data: &[u8]) -> (r: Counts)
    ensures
        r@ == scanned(data@),
{
    let n = data.len();
    let mut acc = Counts::new_scan();
    let mut pos: usize = 0;
    proof {
        assert(data@.skip(0) =~= data@);
    }
    while pos < n
        invariant
            n == data@.len(),
            pos <= n,
            acc.count == 1,
            acc.bytes <= pos,
            acc.chars <= pos,
            acc.words <= pos,
            acc.lines <= pos,
            acc.maxln <= pos,
            combine(acc@, scan_tally(data@.skip(pos as int))) == scanned(data@),
        decreases n - pos,
    {
        let end = find_line_end(data, pos);
        let record = vstd::slice::slice_subrange(data, pos, end);
        let rc = record_counts(record);
        proof {
            let t = data@.skip(pos as int);
            let k = end - pos;
            assert(t.take(k) =~= record@);
            assert(t.skip(k) =~= data@.skip(end as int));
            assert(scan_tally(t) == combine(record_tally(record@), scan_tally(data@.skip(end as int))));
        }
        acc = combine_counts(&acc, &rc);
        pos = end;
    }
    proof {
        assert(scan_tally(data@.skip(n as int)) == empty_tally(0));
    }
    acc
}

/// Whether `a` ends where a line record ends: it is empty or its last byte is
/// a newline.
pub open spec fn ends_at_line_boundary(a: Seq<u8>) -> bool {
    a.len() == 0 || a.last() == NEWLINE
}

proof fn lemma_scan_concat(a: Seq<u8>, b: Seq<u8>)
    requires
        ends_at_line_boundary(a),
    ensures
        scan_tally(a + b) == combine(scan_tally(a), scan_tally(b)),
    decreases a.len(),
{
    if a.len() == 0 {
        assert(a + b =~= b);
    } else {
        let ab = a + b;
        let k = line_end(a);
        lemma_line_end(a);
        assert forall|i: int| 0 <= i < k - 1 implies ab[i] != NEWLINE by {
            assert(ab[i] == a[i]);
        }
        assert(ab[k - 1] == a[k - 1]);
        lemma_line_end_unique(ab, k);
        let rest = a.skip(k);
        assert(ab.take(k) =~= a.take(k));
        assert(ab.skip(k) =~= rest + b);
        if rest.len() > 0 {
            assert(rest.last() == a.last());
        }
        lemma_scan_concat(rest, b);
    }
}

proof fn lemma_scan_bytes(b: Seq<u8>)
    ensures
        scan_tally(b).bytes == b.len(),
    decreases b.len(),
{
    if b.len() > 0 {
        lemma_line_end(b);
        lemma_scan_bytes(b.skip(line_end(b)));
    }
}

/// Decoding distributes over the concatenation of two valid encodings.
pub proof fn lemma_decode_concat(x: Seq<u8>, y: Seq<u8>)
    requires
        valid_utf8(x),
        valid_utf8(y),
    ensures
        valid_utf8(x + y),
        decode_utf8(x + y) == decode_utf8(x) + decode_utf8(y),
    decreases x.len(),
{
    let xy = x + y;
    if x.len() == 0 {
        assert(xy =~= y);
        assert(decode_utf8(x) + decode_utf8(y) =~= decode_utf8(y));
    } else {
        assert(forall|i: int| 0 <= i < x.len() ==> xy[i] == x[i]);
        assert(valid_first_scalar(xy));
        assert(decode_first_scalar(xy) == decode_first_scalar(x));
        assert(length_of_first_scalar(xy) == length_of_first_scalar(x));
        let rest = pop_first_scalar(x);
        assert(pop_first_scalar(xy) =~= rest + y);
        lemma_decode_concat(rest, y);
        assert(decode_utf8(xy) =~= decode_utf8(x) + decode_utf8(y));
    }
}

/// A valid stream splits after a newline into two valid parts that decode
/// to the two halves of its text.
proof fn lemma_newline_split(b: Seq<u8>, k: int)
    requires
        valid_utf8(b),
        1 <= k < b.len(),
        b[k - 1] == NEWLINE,
    ensures
        valid_utf8(b.take(k)),
        valid_utf8(b.skip(k)),
        decode_utf8(b) == decode_utf8(b.take(k)) + decode_utf8(b.skip(k)),
{
    let j = k - 1;
    is_char_boundary_iff_not_is_continuation_byte(b, j);
    valid_utf8_split(b, j);
    let head = b.subrange(0, j);
    let t = b.subrange(j, b.len() as int);
    assert(t[0] == NEWLINE);
    assert(pop_first_scalar(t) =~= b.skip(k));
    let nl = seq![NEWLINE];
    assert(pop_first_scalar(nl) =~= Seq::<u8>::empty());
    assert(valid_utf8(Seq::<u8>::empty()));
    assert(valid_first_scalar(nl));
    assert(valid_utf8(nl));
    lemma_decode_concat(head, nl);
    assert(b.take(k) =~= head + nl);
    lemma_decode_concat(b.take(k), b.skip(k));
    assert(b =~= b.take(k) + b.skip(k));
}

/// On a valid stream, the characters counted are those of its text.
proof fn lemma_scan_chars(b: Seq<u8>)
    requires
        valid_utf8(b),
    ensures
        scan_tally(b).chars == decode_utf8(b).len(),
    decreases b.len(),
{
    if b.len() > 0 {
        lemma_line_end(b);
        let k = line_end(b);
        assert(scan_tally(b) == combine(record_tally(b.take(k)), scan_tally(b.skip(k))));
        if k == b.len() {
            assert(b.take(k) =~= b);
            assert(b.skip(k) =~= Seq::<u8>::empty());
            assert(scan_tally(b.skip(k)) == empty_tally(0));
            lemma_decoded_valid(b);
        } else {
            lemma_newline_split(b, k);
            lemma_decoded_valid(b.take(k));
            lemma_scan_chars(b.skip(k));
        }
    }
}

/// Scanning two streams one after the other and combining the results counts
/// the same bytes as scanning them as one stream. Where the first ends at a
/// line boundary, characters, words, lines and the longest line agree too;
/// where both are valid UTF-8, the characters agree wherever the split falls.
pub proof fn lemma_scan_additive(a: Seq<u8>, b: Seq<u8>)
    ensures
        combine(scanned(a), scanned(b)).bytes == scanned(a + b).bytes,
        ends_at_line_boundary(a) ==> {
            let c = combine(scanned(a), scanned(b));
            let s = scanned(a + b);
            &&& c.chars == s.chars
            &&& c.words == s.words
            &&& c.lines == s.lines
            &&& c.max_line_length == s.max_line_length
        },
        valid_utf8(a) && valid_utf8(b) ==> combine(scanned(a), scanned(b)).chars == scanned(
            a + b,
        ).chars,
{
    lemma_scan_bytes(a);
    lemma_scan_bytes(b);
    lemma_scan_bytes(a + b);
    if ends_at_line_boundary(a) {
        lemma_scan_concat(a, b);
    }
    if valid_utf8(a) && valid_utf8(b) {
        lemma_decode_concat(a, b);
        lemma_scan_chars(a);
        lemma_scan_chars(b);
        lemma_scan_chars(a + b);
    }
}

/// Scanning an empty stream counts one input and nothing else.
pub proof fn lemma_scan_empty()
    ensures
        scanned(Seq::<u8>::empty()) == empty_tally(1),
{
}

} // verus!
