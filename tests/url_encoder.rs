use geogetter::hex::format_escape;
use geogetter::url_encoder::{build_table, encode_char, split_lines};
use geogetter::{encode_str, table_from_text, EncodeError, EncodingTable};
use std::collections::HashMap;

/// The table source for the printable ASCII range, starting at the space.
fn ascii_source() -> String {
    let mut text = String::from("space\n");
    for b in 33u8..=126u8 {
        text.push(b as char);
        text.push('\n');
    }
    text
}

fn ascii_table() -> EncodingTable {
    table_from_text(&ascii_source())
}

fn as_map(table: &EncodingTable) -> HashMap<String, String> {
    table.entries().into_iter().collect()
}

fn lines(items: &[&str]) -> Vec<String> {
    items.iter().map(|s| s.to_string()).collect()
}

#[test]
fn test_generate_lookup() {
    let text = "space\na\nb\nc\nd\n";
    let expected_lookup: HashMap<String, String> = [
        (" ".to_string(), "%20".to_string()),
        ("a".to_string(), "%21".to_string()),
        ("b".to_string(), "%22".to_string()),
        ("c".to_string(), "%23".to_string()),
        ("d".to_string(), "%24".to_string()),
    ]
    .iter()
    .cloned()
    .collect();

    let lookup_map = table_from_text(text);

    assert_eq!(lookup_map.len(), 5);
    assert_eq!(as_map(&lookup_map), expected_lookup);
}

#[test]
fn test_encode_string() {
    let input = " abcd";
    let expected_output = String::from("%20%61%62%63%64");

    assert_eq!(encode_str(input, false, &ascii_table()), Ok(expected_output));
}

#[test]
fn test_encode_str_skip_alphanumeric() {
    assert_eq!(
        encode_str("Lebork, Polska", true, &ascii_table()),
        Ok("Lebork%2C%20Polska".to_string())
    )
}

#[test]
fn build_table_from_lines_matches_text() {
    let table = build_table(&lines(&["space", "a", "b", "c", "d"]));
    assert_eq!(as_map(&table), as_map(&table_from_text("space\na\nb\nc\nd\n")));
}

#[test]
fn encode_with_small_table() {
    let table = table_from_text("space\na\nb\nc\nd\n");
    assert_eq!(encode_str(" abcd", false, &table), Ok("%20%21%22%23%24".to_string()));
}

#[test]
fn duplicate_line_keeps_later_code() {
    let table = build_table(&lines(&["a", "a"]));
    assert_eq!(table.len(), 1);
    assert_eq!(table.get(&"a".to_string()), Some("%21".to_string()));
}

#[test]
fn duplicate_after_space_keeps_later_code() {
    let table = build_table(&lines(&["space", "a", "a"]));
    assert_eq!(table.len(), 2);
    assert_eq!(table.get(&"a".to_string()), Some("%22".to_string()));
    assert_eq!(table.get(&" ".to_string()), Some("%20".to_string()));
}

#[test]
fn distinct_lines_give_one_key_each() {
    let table = build_table(&lines(&["x", "space", "y", "z"]));
    assert_eq!(table.len(), 4);
    assert_eq!(table.get(&"x".to_string()), Some("%20".to_string()));
    assert_eq!(table.get(&" ".to_string()), Some("%21".to_string()));
    assert_eq!(table.get(&"y".to_string()), Some("%22".to_string()));
    assert_eq!(table.get(&"z".to_string()), Some("%23".to_string()));
}

#[test]
fn space_token_is_not_a_key() {
    let table = table_from_text("space\n");
    assert_eq!(table.get(&"space".to_string()), None);
    assert_eq!(table.get(&" ".to_string()), Some("%20".to_string()));
}

#[test]
fn empty_source_gives_empty_table() {
    let table = table_from_text("");
    assert_eq!(table.len(), 0);
    assert!(table.entries().is_empty());
}

#[test]
fn empty_input_encodes_to_empty_string() {
    let table = ascii_table();
    assert_eq!(encode_str("", false, &table), Ok(String::new()));
    assert_eq!(encode_str("", true, &table), Ok(String::new()));
    assert_eq!(encode_str("", false, &table_from_text("")), Ok(String::new()));
}

#[test]
fn encoding_twice_gives_same_output() {
    let table = ascii_table();
    let first = encode_str("Hello, World!", true, &table);
    let second = encode_str("Hello, World!", true, &table);
    assert_eq!(first, second);
    assert_eq!(first, Ok("Hello%2C%20World%21".to_string()));
}

#[test]
fn missing_entry_is_reported() {
    let table = table_from_text("space\na\n");
    assert_eq!(encode_str("a b", false, &table), Err(EncodeError::LookupMiss('b')));
    assert_eq!(encode_str("xy", false, &table), Err(EncodeError::LookupMiss('x')));
}

#[test]
fn unicode_letters_pass_through() {
    let table = ascii_table();
    assert_eq!(encode_str("Lębork, 7", true, &table), Ok("Lębork%2C%207".to_string()));
    assert_eq!(encode_str("ę", false, &table), Err(EncodeError::LookupMiss('ę')));
}

#[test]
fn encode_char_cases() {
    let table = table_from_text("space\n");
    assert_eq!(encode_char(' ', false, &table), Ok("%20".to_string()));
    assert_eq!(encode_char('q', true, &table), Ok("q".to_string()));
    assert_eq!(encode_char('q', false, &table), Err(EncodeError::LookupMiss('q')));
}

#[test]
fn escape_codes_are_uppercase_without_padding() {
    assert_eq!(format_escape(32), "%20");
    assert_eq!(format_escape(10), "%A");
    assert_eq!(format_escape(0), "%0");
    assert_eq!(format_escape(126), "%7E");
    assert_eq!(format_escape(300), "%12C");
}

#[test]
fn lines_are_split_like_buffered_reading() {
    assert_eq!(split_lines("a\r\nb\nc"), lines(&["a", "b", "c"]));
    assert_eq!(split_lines("a\n\nb\n"), lines(&["a", "", "b"]));
    assert_eq!(split_lines(""), lines(&[]));
    assert_eq!(split_lines("a\r"), lines(&["a\r"]));
}

#[test]
fn later_source_lines_reach_two_hex_digits() {
    let table = ascii_table();
    assert_eq!(table.len(), 95);
    assert_eq!(table.get(&"~".to_string()), Some("%7E".to_string()));
    assert_eq!(table.get(&",".to_string()), Some("%2C".to_string()));
}
