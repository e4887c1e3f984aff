use winswitch::text::{decode_title, decode_utf16_units, str_eq, title_lt};

#[test]
fn ascii_title_decodes_up_to_the_nul() {
    let buffer: Vec<u16> = vec![b'H' as u16, b'i' as u16, 0, b'x' as u16];
    assert_eq!(decode_title(&buffer), Some("Hi".to_string()));
}

#[test]
fn buffer_without_nul_decodes_whole() {
    let buffer: Vec<u16> = "Code".encode_utf16().collect();
    assert_eq!(decode_title(&buffer), Some("Code".to_string()));
}

#[test]
fn surrogate_pair_decodes_to_one_character() {
    // U+1D11E (musical symbol G clef) encodes as the pair D834 DD1E.
    let buffer: Vec<u16> = vec![0xD834, 0xDD1E, 0];
    let decoded = decode_title(&buffer).unwrap();
    assert_eq!(decoded.chars().count(), 1);
    assert_eq!(decoded.chars().next(), Some('\u{1D11E}'));
}

#[test]
fn lone_high_surrogate_does_not_decode() {
    assert_eq!(decode_utf16_units(&[0x41, 0xD834, 0x42]), None);
}

#[test]
fn lone_low_surrogate_does_not_decode() {
    assert_eq!(decode_utf16_units(&[0xDD1E]), None);
}

#[test]
fn non_ascii_bmp_text_round_trips() {
    let original = "Code — main.rs";
    let units: Vec<u16> = original.encode_utf16().collect();
    assert_eq!(decode_utf16_units(&units), Some(original.to_string()));
}

#[test]
fn empty_buffer_decodes_to_empty_title() {
    assert_eq!(decode_title(&vec![0]), Some(String::new()));
    assert_eq!(decode_title(&Vec::new()), Some(String::new()));
}

#[test]
fn title_order_is_lexicographic_by_code_point() {
    assert!(title_lt("Calculator", "Code"));
    assert!(title_lt("Code", "Notepad"));
    assert!(!title_lt("Notepad", "Notepad"));
    assert!(title_lt("abc", "abcd"));
    assert!(!title_lt("abcd", "abc"));
}

#[test]
fn text_equality_compares_characters() {
    assert!(str_eq("Untitled", "Untitled"));
    assert!(!str_eq("Untitled", "untitled"));
    assert!(!str_eq("ab", "abc"));
}
