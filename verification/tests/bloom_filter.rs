use wordgram_vocab::bloom::BloomFilter;

fn expected_positions(item: &[u8], num_bits: usize, num_hashes: u32) -> Vec<usize> {
    let h1 = fxhash::hash64(item);
    let mut buf = item.to_vec();
    buf.push(0xFF);
    let h2 = fxhash::hash64(buf.as_slice());
    (0..num_hashes)
        .map(|i| (h1.wrapping_add((i as u64).wrapping_mul(h2)) % num_bits as u64) as usize)
        .collect()
}

#[test]
fn sized_num_bits_has_a_floor_of_64() {
    assert_eq!(BloomFilter::sized_num_bits(0), 64);
    assert_eq!(BloomFilter::sized_num_bits(10), 64);
    assert_eq!(BloomFilter::sized_num_bits(64), 64);
    assert_eq!(BloomFilter::sized_num_bits(1000), 1000);
}

#[test]
fn with_params_clamps_and_rounds_up_to_words() {
    let f = BloomFilter::with_params(1000, 7);
    assert_eq!(f.num_bits(), 1000);
    assert_eq!(f.num_hashes(), 7);
    assert_eq!(f.words().len(), 16);
    assert_eq!(f.count_ones(), 0);

    let small = BloomFilter::with_params(3, 0);
    assert_eq!(small.num_bits(), 64);
    assert_eq!(small.num_hashes(), 1);
    assert_eq!(small.words().len(), 1);

    let many = BloomFilter::with_params(129, 99);
    assert_eq!(many.num_hashes(), 16);
    assert_eq!(many.words().len(), 3);
}

#[test]
fn hash_positions_follow_double_hashing() {
    let f = BloomFilter::with_params(1000, 7);
    let item = "мир_труд".as_bytes();
    let got = f.hash_positions(item);
    assert_eq!(got, expected_positions(item, 1000, 7));
    assert!(got.iter().all(|&p| p < 1000));
    let other = f.hash_positions(b"another");
    assert_ne!(got, other);
}

#[test]
fn inserted_item_is_contained() {
    let mut f = BloomFilter::with_params(4096, 5);
    assert!(!f.contains(b"alpha"));
    f.insert(b"alpha");
    assert!(f.contains(b"alpha"));
    let ones = f.count_ones();
    assert!(ones >= 1 && ones <= 5);
    let mut distinct = f.hash_positions(b"alpha");
    distinct.sort();
    distinct.dedup();
    assert_eq!(ones, distinct.len());
}

#[test]
fn insertion_keeps_earlier_items() {
    let mut f = BloomFilter::with_params(4096, 4);
    let items: Vec<Vec<u8>> = (0..50).map(|i| format!("слово{}", i).into_bytes()).collect();
    for (i, it) in items.iter().enumerate() {
        f.insert(it);
        for earlier in &items[..=i] {
            assert!(f.contains(earlier));
        }
    }
}

#[test]
fn insert_sets_exactly_the_item_bits() {
    let mut f = BloomFilter::with_params(200, 3);
    f.insert(b"x");
    let positions = expected_positions(b"x", 200, 3);
    for p in 0..256usize {
        let bit = (f.words()[p / 64] >> (p % 64)) & 1 == 1;
        assert_eq!(bit, positions.contains(&p), "bit {}", p);
    }
}

#[test]
fn union_contains_both() {
    let mut a = BloomFilter::with_params(2048, 3);
    let mut b = BloomFilter::with_params(2048, 3);
    a.insert(b"left");
    b.insert(b"right");
    let before = a.words().clone();
    a.union_with(&b);
    assert!(a.contains(b"left"));
    assert!(a.contains(b"right"));
    for (w, word) in a.words().iter().enumerate() {
        assert_eq!(*word, before[w] | b.words()[w]);
    }
}

#[test]
fn union_with_a_smaller_filter_touches_its_words_only() {
    let mut big = BloomFilter::with_params(640, 2);
    let mut small = BloomFilter::with_params(64, 2);
    small.insert(b"q");
    let small_word = small.words()[0];
    big.union_with(&small);
    assert_eq!(big.words()[0], small_word);
    assert!(big.words()[1..].iter().all(|&w| w == 0));

    let mut small2 = BloomFilter::with_params(64, 2);
    let mut big2 = BloomFilter::with_params(640, 2);
    big2.insert(b"z");
    let first = big2.words()[0];
    small2.union_with(&big2);
    assert_eq!(small2.words().len(), 1);
    assert_eq!(small2.words()[0], first);
}

#[test]
fn count_ones_counts_every_set_bit() {
    let mut f = BloomFilter::with_params(512, 16);
    for i in 0..20 {
        f.insert(format!("{}", i).as_bytes());
    }
    let expected: usize = f.words().iter().map(|w| w.count_ones() as usize).sum();
    assert_eq!(f.count_ones(), expected);
}

#[test]
fn insert_raises_count_ones_by_at_most_the_hash_count() {
    let mut f = BloomFilter::with_params(300, 6);
    for i in 0..40 {
        let before = f.count_ones();
        f.insert(format!("g{}", i).as_bytes());
        let after = f.count_ones();
        assert!(before <= after && after <= before + 6);
    }
}

#[test]
fn count_ones_is_the_number_of_distinct_positions() {
    let mut f = BloomFilter::with_params(500, 4);
    assert_eq!(f.count_ones(), 0);
    let mut all: Vec<usize> = Vec::new();
    for i in 0..25 {
        let item = format!("слово{}", i);
        all.extend(f.hash_positions(item.as_bytes()));
        f.insert(item.as_bytes());
        let mut distinct = all.clone();
        distinct.sort();
        distinct.dedup();
        assert_eq!(f.count_ones(), distinct.len());
        assert!(f.count_ones() <= 500.min((i + 1) * 4));
    }
}
