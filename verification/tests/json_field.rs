use wordgram_vocab::json_text::{chars_of, extract_text_fast, is_whitespace};

#[test]
fn field_text_is_found() {
    let line = r#"{"id": 7, "text" : "Привѣтъ \"міръ\"", "x": 2}"#;
    assert_eq!(extract_text_fast(line, "text"), Some(r#"Привѣтъ \"міръ\""#));
}

#[test]
fn compact_field() {
    assert_eq!(extract_text_fast(r#"{"text":"abc"}"#, "text"), Some("abc"));
    assert_eq!(extract_text_fast(r#"{"text":""}"#, "text"), Some(""));
}

#[test]
fn first_occurrence_of_the_key_decides() {
    let line = r#"{"text": 5, "text": "later"}"#;
    assert_eq!(extract_text_fast(line, "text"), None);
    let line = r#"{"note": "x", "a":"text", "text": "body"}"#;
    assert_eq!(extract_text_fast(line, "text"), None);
    let line = r#"{"meta": "the \"text\" key", "text": "body"}"#;
    assert_eq!(extract_text_fast(line, "text"), Some("body"));
}

#[test]
fn missing_pieces_give_none() {
    assert_eq!(extract_text_fast(r#"{"body": "x"}"#, "text"), None);
    assert_eq!(extract_text_fast(r#"{"text" "x"}"#, "text"), None);
    assert_eq!(extract_text_fast(r#"{"text": x}"#, "text"), None);
    assert_eq!(extract_text_fast(r#"{"text": "unclosed"#, "text"), None);
    assert_eq!(extract_text_fast(r#"{"text":"#, "text"), None);
}

#[test]
fn escapes_are_followed() {
    assert_eq!(extract_text_fast(r#"{"text": "a\\", "b": 1}"#, "text"), Some(r#"a\\"#));
    assert_eq!(extract_text_fast(r#"{"text": "a\\\"b"}"#, "text"), Some(r#"a\\\"b"#));
}

#[test]
fn unicode_white_space_around_the_colon() {
    let line = "{\"text\"\u{3000}:\u{00A0}\t\"да\"}";
    assert_eq!(extract_text_fast(line, "text"), Some("да"));
}

#[test]
fn white_space_characters() {
    for c in ['\t', '\n', '\u{0B}', '\u{0C}', '\r', ' ', '\u{85}', '\u{A0}', '\u{1680}', '\u{2000}', '\u{200A}', '\u{2028}', '\u{2029}', '\u{202F}', '\u{205F}', '\u{3000}'] {
        assert!(is_whitespace(c), "{:?}", c);
        assert!(c.is_whitespace());
    }
    for c in ['a', 'я', '\u{200B}', '\u{1F}', ':'] {
        assert!(!is_whitespace(c));
        assert_eq!(is_whitespace(c), c.is_whitespace());
    }
}

#[test]
fn chars_in_order() {
    assert_eq!(chars_of("аb"), vec!['а', 'b']);
    assert!(chars_of("").is_empty());
}
