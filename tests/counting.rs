use wc::counts::{can_combine, combine_counts, record_counts, scan, Counts};
use wc::report::Selection;
use wc::text::{char_count, decode_record, is_whitespace, word_count};

fn fields(c: &Counts) -> (usize, usize, usize, usize, usize, usize) {
    (c.count, c.lines, c.words, c.chars, c.bytes, c.maxln)
}

#[test]
fn scan_two_lines() {
    let c = scan("foo bar\nbaz\n".as_bytes());
    assert_eq!(fields(&c), (1, 2, 3, 12, 12, 7));
}

#[test]
fn total_of_two_inputs() {
    let a = scan("a\n".as_bytes());
    let b = scan("b\nc\n".as_bytes());
    assert_eq!(fields(&a), (1, 1, 1, 2, 2, 1));
    assert_eq!(fields(&b), (1, 2, 2, 4, 4, 1));
    let mut total = Counts::default();
    assert!(can_combine(&total, &a));
    total = combine_counts(&total, &a);
    assert!(!total.needs_total_row());
    assert!(can_combine(&total, &b));
    total = combine_counts(&total, &b);
    assert!(total.needs_total_row());
    assert_eq!(fields(&total), (2, 3, 3, 6, 6, 1));
}

#[test]
fn unterminated_fragment() {
    let c = scan("x".as_bytes());
    assert_eq!(fields(&c), (1, 1, 1, 1, 1, 1));
}

#[test]
fn empty_stream() {
    let c = scan(b"");
    assert_eq!(fields(&c), (1, 0, 0, 0, 0, 0));
}

#[test]
fn single_input_has_no_total_row() {
    let mut total = Counts::default();
    total = combine_counts(&total, &scan(b"one two\n"));
    assert!(!total.needs_total_row());
    assert_eq!(fields(&total), (1, 1, 2, 8, 8, 7));
}

#[test]
fn three_inputs_total_row() {
    let mut total = Counts::default();
    for data in [&b"ab\n"[..], &b"abcd e\n\n"[..], &b""[..]] {
        total = combine_counts(&total, &scan(data));
    }
    assert!(total.needs_total_row());
    assert_eq!(fields(&total), (3, 3, 3, 11, 11, 6));
}

#[test]
fn additivity_at_line_boundary() {
    let a = b"one two\nthree\n";
    let b = b"four  five\nsix";
    let mut joined = a.to_vec();
    joined.extend_from_slice(b);
    let c = combine_counts(&scan(a), &scan(b));
    let s = scan(&joined);
    assert_eq!((c.bytes, c.chars, c.words, c.lines, c.maxln), (s.bytes, s.chars, s.words, s.lines, s.maxln));
    assert_eq!(c.count, 2);
}

#[test]
fn bytes_additive_mid_line() {
    let c = combine_counts(&scan(b"x"), &scan(b"y\n"));
    let s = scan(b"xy\n");
    assert_eq!(c.bytes, s.bytes);
    assert_eq!((c.lines, s.lines), (2, 1));
    assert_eq!((c.words, s.words), (2, 1));
}

#[test]
fn multibyte_characters() {
    let c = scan("héllo wörld\n日本\n".as_bytes());
    assert_eq!(c.lines, 2);
    assert_eq!(c.words, 3);
    assert_eq!(c.chars, 15);
    assert_eq!(c.bytes, 21);
    assert_eq!(c.maxln, 11);
}

#[test]
fn unicode_whitespace_splits_words() {
    assert_eq!(word_count("a\u{3000}b\u{a0}c\td"), 4);
    assert!(is_whitespace('\u{2028}'));
    assert!(is_whitespace('\u{85}'));
    assert!(!is_whitespace('x'));
    assert!(!is_whitespace('\u{200b}'));
}

#[test]
fn word_and_char_counts() {
    assert_eq!(word_count("  leading and trailing  "), 3);
    assert_eq!(word_count(""), 0);
    assert_eq!(word_count(" \t\n"), 0);
    assert_eq!(char_count("añb"), 3);
    assert_eq!(char_count(""), 0);
}

#[test]
fn invalid_utf8_counts_valid_prefix() {
    assert_eq!(decode_record(&[b'a', b'b', 0xff, b'c', b'\n']), "ab");
    assert_eq!(decode_record("é\n".as_bytes()), "é\n");
    let r = record_counts(&[b'a', b' ', b'b', 0xc3, b'\n']);
    assert_eq!(fields(&r), (0, 1, 2, 3, 5, 3));
}

#[test]
fn longest_line_drops_only_newline() {
    let c = scan(b"ab  \nabcdefg\n\n");
    assert_eq!(c.maxln, 7);
    let d = scan(b"trailing   \n");
    assert_eq!(d.maxln, 11);
}

#[test]
fn add_record_matches_scan() {
    let mut c = Counts::new_scan();
    c.add_record(b"foo bar\n");
    c.add_record(b"baz\n");
    assert_eq!(fields(&c), fields(&scan(b"foo bar\nbaz\n")));
}

#[test]
fn cannot_combine_on_overflow() {
    let mut big = Counts::new_scan();
    big.bytes = usize::MAX;
    assert!(!can_combine(&big, &scan(b"x")));
    assert!(can_combine(&big, &scan(b"")));
}

#[test]
fn default_selection() {
    let s = Selection::from_flags(false, false, false, false, false);
    assert_eq!(s, Selection { lines: true, words: true, chars: true, bytes: false, maxln: false });
    let c = scan(b"foo bar\nbaz\n");
    assert_eq!(s.row_values(&c), vec![2, 3, 12]);
}

#[test]
fn explicit_selection_order() {
    let c = scan(b"foo bar\nbaz\n");
    let s = Selection::from_flags(false, false, false, true, true);
    assert_eq!(s.row_values(&c), vec![12, 7]);
    let all = Selection::from_flags(true, true, true, true, true);
    assert_eq!(all.row_values(&c), vec![2, 3, 12, 12, 7]);
}

#[test]
fn toggling_a_flag_keeps_values() {
    let c = scan(b"a bb\nccc\n");
    let with_words = Selection::from_flags(true, true, false, false, false);
    let without = Selection::from_flags(true, false, false, false, false);
    assert_eq!(with_words.row_values(&c), vec![2, 3]);
    assert_eq!(without.row_values(&c), vec![2]);
    assert_eq!(fields(&c), fields(&scan(b"a bb\nccc\n")));
}

#[test]
fn chars_additive_for_valid_text_mid_line() {
    let a = "añ".as_bytes();
    let b = "ö x\n".as_bytes();
    let mut joined = a.to_vec();
    joined.extend_from_slice(b);
    let c = combine_counts(&scan(a), &scan(b));
    let s = scan(&joined);
    assert_eq!((c.chars, s.chars), (6, 6));
    assert_eq!((c.bytes, s.bytes), (8, 8));
}
