# wordgram_vocab

Builds a frequency vocabulary of word n-grams (pairs, triples, quadruples of
Cyrillic words, pre-reform letters included) from a JSONL or plain-text corpus,
optionally zstd-compressed, and writes it as TSV (`n-gram<TAB>count`), most
frequent first.

An n-gram seen once only goes into a bloom filter; from its second sighting on
it is counted in a table. Workers count chunks of lines in parallel and their
states are merged at the end.

Layout:

- `src/` — the verified library (Verus):
  - `hashing.rs` — the FxHash of byte strings (the `fxhash` crate);
  - `bloom.rs` — the bloom filter and its laws (no false negatives, unions);
  - `count_table.rs` — the table of counts keyed by byte strings;
  - `words.rs` — Cyrillic word characters and word extraction;
  - `json_text.rs` — extraction of a string field from a JSON line;
  - `ngrams.rs` — word n-grams as UTF-8 bytes;
  - `local_state.rs` — one worker's state, line and chunk processing, merging,
    and the law that counts follow occurrences;
  - `vocab.rs` — filtering, ordering and cutting the vocabulary, statistics;
  - `sizes.rs` — reading the list of n-gram sizes.
- `app/main.rs` — command line, file reading and decompression, the bloom
  filter sizing formula (floating point), parallel scheduling, output.
- `tests/` — tests of the library.
