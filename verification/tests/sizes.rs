use wordgram_vocab::sizes::{parse_ngram_sizes, smallest_size};

#[test]
fn default_sizes() {
    assert_eq!(parse_ngram_sizes("2,3"), vec![2, 3]);
    assert_eq!(parse_ngram_sizes("2,3,4"), vec![2, 3, 4]);
}

#[test]
fn pieces_are_trimmed_and_bad_ones_skipped() {
    assert_eq!(parse_ngram_sizes(" 2 , 3,x,,+4, -1, 5a,+"), vec![2, 3, 4]);
    assert_eq!(parse_ngram_sizes("\u{3000}7\u{A0}"), vec![7]);
}

#[test]
fn nothing_to_read() {
    assert!(parse_ngram_sizes("").is_empty());
    assert!(parse_ngram_sizes(",,").is_empty());
    assert!(parse_ngram_sizes("two,three").is_empty());
}

#[test]
fn overflowing_numbers_are_skipped() {
    let max = usize::MAX.to_string();
    assert_eq!(parse_ngram_sizes(&max), vec![usize::MAX]);
    assert!(parse_ngram_sizes("99999999999999999999999999").is_empty());
    assert_eq!(parse_ngram_sizes("007"), vec![7]);
}

#[test]
fn sizes_agree_with_std_parse() {
    for s in ["1", " 12 ", "+3", "-3", "3.0", "0", "4,5", "٣"] {
        let expected: Vec<usize> = s.split(',').filter_map(|t| t.trim().parse().ok()).collect();
        assert_eq!(parse_ngram_sizes(s), expected, "{:?}", s);
    }
}

#[test]
fn smallest_size_or_two() {
    assert_eq!(smallest_size(&[]), 2);
    assert_eq!(smallest_size(&[3, 2, 4]), 2);
    assert_eq!(smallest_size(&[5]), 5);
    assert_eq!(smallest_size(&[4, 0, 9]), 0);
}
