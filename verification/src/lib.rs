//! Frequency vocabularies of word n-grams (pairs, triples, ... of Cyrillic words)
//! drawn from a corpus of text lines.
//!
//! The library holds the verified logic: word extraction, n-gram building, the
//! bloom filter that keeps n-grams seen once out of the count table, the count
//! table itself, and the filtering and ordering of the final vocabulary.

mod hashing;
pub mod bloom;
pub mod count_table;
pub mod words;
pub mod json_text;
pub mod ngrams;
pub mod local_state;
pub mod vocab;
pub mod sizes;
