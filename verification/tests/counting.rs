use wordgram_vocab::bloom::BloomFilter;
use wordgram_vocab::count_table::{bytes_equal, CountTable};
use wordgram_vocab::local_state::ThreadLocal;

fn sorted_entries(t: CountTable) -> Vec<(Vec<u8>, u64)> {
    let mut e = t.into_entries();
    e.sort();
    e
}

#[test]
fn byte_equality() {
    assert!(bytes_equal(b"abc", b"abc"));
    assert!(!bytes_equal(b"abc", b"abd"));
    assert!(!bytes_equal(b"ab", b"abc"));
    assert!(bytes_equal(b"", b""));
}

#[test]
fn increment_starts_and_adds() {
    let mut t = CountTable::new();
    assert_eq!(t.get(b"a"), None);
    t.increment(b"a", 1, 1);
    assert_eq!(t.get(b"a"), Some(2));
    t.increment(b"a", 1, 1);
    assert_eq!(t.get(b"a"), Some(3));
    t.increment(b"b", 0, 5);
    assert_eq!(t.get(b"b"), Some(5));
    assert_eq!(t.get(b"a"), Some(3));
}

#[test]
fn increment_wraps_modulo_two_to_the_64() {
    let mut t = CountTable::new();
    t.increment(b"k", u64::MAX, 1);
    assert_eq!(t.get(b"k"), Some(0));
    t.increment(b"k", 7, u64::MAX);
    assert_eq!(t.get(b"k"), Some(u64::MAX));
}

#[test]
fn many_keys_keep_their_counts() {
    let mut t = CountTable::new();
    for i in 0..300u64 {
        for _ in 0..(i % 5) {
            t.increment(format!("k{}", i).as_bytes(), 0, 1);
        }
    }
    for i in 0..300u64 {
        let expected = if i % 5 == 0 { None } else { Some(i % 5) };
        assert_eq!(t.get(format!("k{}", i).as_bytes()), expected);
    }
    assert_eq!(t.into_entries().len(), 240);
}

#[test]
fn entries_hold_each_key_once() {
    let mut t = CountTable::new();
    t.increment(b"x", 0, 2);
    t.increment(b"y", 0, 3);
    t.increment(b"x", 0, 4);
    assert_eq!(sorted_entries(t), vec![(b"x".to_vec(), 6), (b"y".to_vec(), 3)]);
    assert!(CountTable::new().into_entries().is_empty());
}

#[test]
fn merge_adds_counts_key_by_key() {
    let mut a = CountTable::new();
    a.increment(b"x", 0, 2);
    a.increment(b"y", 0, 3);
    let mut b = CountTable::new();
    b.increment(b"y", 0, 10);
    b.increment(b"z", 0, 1);
    a.merge(b);
    assert_eq!(
        sorted_entries(a),
        vec![(b"x".to_vec(), 2), (b"y".to_vec(), 13), (b"z".to_vec(), 1)]
    );
}

#[test]
fn observe_counts_from_the_second_sighting() {
    let mut local = ThreadLocal::new(BloomFilter::with_params(1 << 16, 7));
    local.observe(b"g");
    assert!(local.bloom().contains(b"g"));
    let counts = local.into_counts();
    assert_eq!(counts.get(b"g"), None);

    let mut local = ThreadLocal::new(BloomFilter::with_params(1 << 16, 7));
    for _ in 0..3 {
        local.observe(b"g");
    }
    local.observe(b"h");
    let counts = local.into_counts();
    assert_eq!(counts.get(b"g"), Some(3));
    assert_eq!(counts.get(b"h"), None);
}

#[test]
fn observe_counts_a_false_positive_once_more() {
    // A filter of 64 bits with one hash: find a key whose only bit another key already set.
    let mut local = ThreadLocal::new(BloomFilter::with_params(64, 1));
    local.observe(b"seed");
    let mut fp = None;
    for i in 0..10_000 {
        let k = format!("other{}", i);
        if local.bloom().contains(k.as_bytes()) {
            fp = Some(k);
            break;
        }
    }
    let k = fp.expect("some key collides in a 64-bit filter");
    local.observe(k.as_bytes());
    local.observe(k.as_bytes());
    let counts = local.into_counts();
    assert_eq!(counts.get(k.as_bytes()), Some(3));
}

#[test]
fn process_line_reads_json_and_plain_text() {
    let mut local = ThreadLocal::new(BloomFilter::with_params(1 << 16, 7));
    let json = r#"{"id": 1, "text": "Кот и пёс. Кот и пёс."}"#;
    local.process_line(json, "text", true, 0, &[2], "_", 2);
    local.process_line("кот и пёс", "text", false, 0, &[2], "_", 2);
    let counts = local.into_counts();
    assert_eq!(counts.get("кот_и".as_bytes()), Some(3));
    assert_eq!(counts.get("и_пёс".as_bytes()), Some(3));
    assert_eq!(counts.get("пёс_кот".as_bytes()), None);
    assert_eq!(counts.get("Кот_и".as_bytes()), None);
}

#[test]
fn process_line_skips_short_and_empty_texts() {
    let mut local = ThreadLocal::new(BloomFilter::with_params(1 << 16, 7));
    for _ in 0..3 {
        local.process_line("один два", "text", false, 0, &[2, 3], "_", 3);
        local.process_line(r#"{"text": ""}"#, "text", false, 0, &[2], "_", 0);
    }
    assert!(local.into_counts().into_entries().is_empty());
}

#[test]
fn json_line_without_the_field_is_read_whole() {
    let mut local = ThreadLocal::new(BloomFilter::with_params(1 << 16, 7));
    let line = r#"{"body": "да нет"}"#;
    local.process_line(line, "text", false, 0, &[2], "_", 2);
    local.process_line(line, "text", false, 0, &[2], "_", 2);
    assert_eq!(local.into_counts().get("да_нет".as_bytes()), Some(2));
}

#[test]
fn chunks_and_merges_count_like_one_pass() {
    let lines: Vec<String> = vec!["а б в", "б в г", "а б"].into_iter().map(String::from).collect();
    let mut one = ThreadLocal::new(BloomFilter::with_params(1 << 16, 7));
    one.process_chunk(&lines, "text", false, 0, &[2], "_", 2);
    let c = one.into_counts();
    assert_eq!(c.get("а_б".as_bytes()), Some(2));
    assert_eq!(c.get("б_в".as_bytes()), Some(2));
    assert_eq!(c.get("в_г".as_bytes()), None);

    let mut left = ThreadLocal::new(BloomFilter::with_params(1 << 16, 7));
    let mut right = ThreadLocal::new(BloomFilter::with_params(1 << 16, 7));
    let doubled: Vec<String> = lines.iter().chain(lines.iter()).cloned().collect();
    left.process_chunk(&doubled, "text", false, 0, &[2], "_", 2);
    right.process_chunk(&doubled, "text", false, 0, &[2], "_", 2);
    left.merge(right);
    assert!(left.bloom().contains("в_г".as_bytes()));
    let merged = left.into_counts();
    assert_eq!(merged.get("а_б".as_bytes()), Some(8));
    assert_eq!(merged.get("в_г".as_bytes()), Some(4));
}
