use wordgram_vocab::count_table::CountTable;
use wordgram_vocab::vocab::{build_vocab, bytes_less, count_entries_of_size, count_separators, ngram_label, sort_entries};

fn table(entries: &[(&str, u64)]) -> CountTable {
    let mut t = CountTable::new();
    for (k, v) in entries {
        t.increment(k.as_bytes(), 0, *v);
    }
    t
}

fn owned(entries: &[(&str, u64)]) -> Vec<(Vec<u8>, u64)> {
    entries.iter().map(|(k, v)| (k.as_bytes().to_vec(), *v)).collect()
}

#[test]
fn byte_order() {
    assert!(bytes_less(b"a", b"b"));
    assert!(bytes_less(b"ab", b"abc"));
    assert!(!bytes_less(b"abc", b"ab"));
    assert!(!bytes_less(b"x", b"x"));
    assert!(bytes_less(b"", b"a"));
    assert!(!bytes_less(b"", b""));
    assert!(bytes_less(&[0x7F], &[0x80]));
}

#[test]
fn vocabulary_is_most_frequent_first_then_bytes() {
    let t = table(&[("b", 5), ("a", 5), ("c", 9), ("d", 1), ("e", 2)]);
    let v = build_vocab(t, 2, 0);
    assert_eq!(v, owned(&[("c", 9), ("a", 5), ("b", 5), ("e", 2)]));
}

#[test]
fn vocabulary_is_cut_to_the_maximum() {
    let t = table(&[("b", 5), ("a", 5), ("c", 9), ("d", 1), ("e", 2)]);
    assert_eq!(build_vocab(t, 1, 2), owned(&[("c", 9), ("a", 5)]));
    let t = table(&[("x", 3)]);
    assert_eq!(build_vocab(t, 2, 10), owned(&[("x", 3)]));
}

#[test]
fn empty_vocabulary() {
    assert!(build_vocab(CountTable::new(), 2, 0).is_empty());
    let t = table(&[("x", 1)]);
    assert!(build_vocab(t, 2, 0).is_empty());
}

#[test]
fn sorting_matches_std_order() {
    let mut items = Vec::new();
    for i in 0..200u64 {
        items.push((format!("k{}", (i * 37) % 101).into_bytes(), i % 7));
    }
    let mut expected = items.clone();
    expected.sort_by(|a, b| b.1.cmp(&a.1).then_with(|| a.0.cmp(&b.0)));
    assert_eq!(sort_entries(items), expected);
}

#[test]
fn separator_occurrences() {
    assert_eq!(count_separators("а_б_в".as_bytes(), b"_"), 2);
    assert_eq!(count_separators(b"aaa", b"aa"), 2);
    assert_eq!(count_separators(b"a", b"__"), 0);
    assert_eq!(count_separators("x▁y".as_bytes(), "▁".as_bytes()), 1);
}

#[test]
fn entries_by_number_of_words() {
    let items = owned(&[("а_б", 3), ("а_б_в", 2), ("в_г", 2), ("д", 1)]);
    assert_eq!(count_entries_of_size(&items, b"_", 2), 2);
    assert_eq!(count_entries_of_size(&items, b"_", 3), 1);
    assert_eq!(count_entries_of_size(&items, b"_", 4), 0);
    assert_eq!(count_entries_of_size(&items, b"_", 1), 1);
    assert_eq!(count_entries_of_size(&items, b"_", 0), 0);
}

#[test]
fn labels_of_sizes() {
    assert_eq!(ngram_label(2), "пары");
    assert_eq!(ngram_label(3), "тройки");
    assert_eq!(ngram_label(4), "четвёрки");
    assert_eq!(ngram_label(5), "n-граммы");
    assert_eq!(ngram_label(0), "n-граммы");
}
