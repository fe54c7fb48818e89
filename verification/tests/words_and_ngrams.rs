use wordgram_vocab::ngrams::word_ngrams;
use wordgram_vocab::words::{extract_words, is_cyrillic, is_word_char};

fn strings(v: &[&str]) -> Vec<String> {
    v.iter().map(|s| s.to_string()).collect()
}

#[test]
fn cyrillic_blocks() {
    assert!(is_cyrillic('я'));
    assert!(is_cyrillic('Ѣ'));
    assert!(is_cyrillic('\u{0400}'));
    assert!(is_cyrillic('\u{052F}'));
    assert!(!is_cyrillic('\u{0530}'));
    assert!(is_cyrillic('\u{A640}'));
    assert!(is_cyrillic('\u{A69F}'));
    assert!(!is_cyrillic('\u{A6A0}'));
    assert!(is_cyrillic('\u{2DE0}'));
    assert!(is_cyrillic('\u{1C88}'));
    assert!(!is_cyrillic('\u{1C90}'));
    assert!(!is_cyrillic('a'));
    assert!(!is_cyrillic('1'));
}

#[test]
fn word_characters() {
    assert!(is_word_char('ж'));
    assert!(is_word_char('\''));
    assert!(is_word_char('-'));
    assert!(is_word_char('\u{2019}'));
    assert!(!is_word_char(' '));
    assert!(!is_word_char('z'));
    assert!(!is_word_char('.'));
}

#[test]
fn words_are_runs_of_word_characters() {
    let w = extract_words("Привѣтъ, міръ! a-b Ѣ'x", false, 0);
    assert_eq!(w, strings(&["Привѣтъ", "міръ", "-", "Ѣ'"]));
}

#[test]
fn words_on_empty_and_separator_only_text() {
    assert!(extract_words("", false, 0).is_empty());
    assert!(extract_words("abc, 123 !", true, 0).is_empty());
}

#[test]
fn words_lowercased() {
    let w = extract_words("ПРИВѢТЪ Мiръ", true, 0);
    assert_eq!(w, strings(&["привѣтъ", "м", "ръ"]));
}

#[test]
fn words_shorter_than_minimum_are_dropped() {
    let w = extract_words("я мы они все", false, 3);
    assert_eq!(w, strings(&["они", "все"]));
    let w = extract_words("я мы они", false, 1);
    assert_eq!(w, strings(&["я", "мы", "они"]));
    let last = extract_words("они я", false, 2);
    assert_eq!(last, strings(&["они"]));
}

#[test]
fn ngrams_in_size_then_position_order() {
    let words = strings(&["а", "бы", "в"]);
    let grams = word_ngrams(&words, &[2, 3], "_");
    let expected: Vec<Vec<u8>> = vec!["а_бы".into(), "бы_в".into(), "а_бы_в".into()];
    assert_eq!(grams, expected);
}

#[test]
fn ngrams_larger_than_the_text_give_nothing() {
    let words = strings(&["а", "б"]);
    assert!(word_ngrams(&words, &[3, 4], "_").is_empty());
    let one = word_ngrams(&words, &[1], "▁");
    assert_eq!(one, vec![b"\xd0\xb0".to_vec(), "б".as_bytes().to_vec()]);
}

#[test]
fn ngrams_of_size_zero_are_empty() {
    let words = strings(&["а", "б"]);
    let grams = word_ngrams(&words, &[0], "_");
    assert_eq!(grams, vec![Vec::<u8>::new(), Vec::new(), Vec::new()]);
}

#[test]
fn ngrams_with_multibyte_separator() {
    let words = strings(&["x", "y", "z"]);
    let grams = word_ngrams(&words, &[3, 2], "▁");
    let expected: Vec<Vec<u8>> = vec!["x▁y▁z".into(), "x▁y".into(), "y▁z".into()];
    assert_eq!(grams, expected);
}

#[test]
fn lowercased_words_are_plain_words_lowercased() {
    let text = "ПРИВѢТЪ, Міръ! Кто-ТО Ѣ'Ж";
    for min in [0usize, 1, 3] {
        let lower = extract_words(text, true, min);
        let plain: Vec<String> = extract_words(text, false, min).iter().map(|w| w.to_lowercase()).collect();
        assert_eq!(lower, plain);
    }
}

#[test]
fn words_joined_by_spaces_come_back() {
    let text = "Жили-были, дѣдъ да баба! ok 42 ’ѣ";
    for min in [0usize, 2, 4] {
        let r = extract_words(text, false, min);
        assert_eq!(extract_words(&r.join(" "), false, min), r);
    }
    let none = extract_words("abc", false, 0);
    assert_eq!(extract_words(&none.join(" "), false, 0), none);
}
