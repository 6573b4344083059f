use keydata::KeynoteFile;
use keydata::ensure_newline;
use keydata::is_alphabetic;

#[test]
fn build_entry_string_exact_form() {
    let line = KeynoteFile::build_entry_string("key", "value");
    assert_eq!(line, "\t<key>value<~>\n");
}

#[test]
fn get_entry_from_string_success() {
    let entry = KeynoteFile::get_entry_from_string("\t<k>v<~>");
    assert_eq!(entry, Some(("k", "v")));
}

#[test]
fn get_entry_from_string_ignores_trailing_newline() {
    let entry = KeynoteFile::get_entry_from_string("\t<key>value<~>\n");
    assert_eq!(entry, Some(("key", "value")));
}

#[test]
fn get_entry_from_string_rejects_non_entries() {
    assert!(KeynoteFile::get_entry_from_string("<header>").is_none());
    assert!(KeynoteFile::get_entry_from_string("\tno closing bracket").is_none());
    assert!(KeynoteFile::get_entry_from_string("plain text").is_none());
    assert!(KeynoteFile::get_entry_from_string("\t>").is_none());
}

#[test]
fn entry_round_trip_through_codec() {
    let line = KeynoteFile::build_entry_string("k1", "v a l");
    let entry = KeynoteFile::get_entry_from_string(&line);
    assert_eq!(entry, Some(("k1", "v a l")));
}

#[test]
fn entry_value_may_contain_angle_brackets() {
    let line = KeynoteFile::build_entry_string("k", "a > b < c");
    let entry = KeynoteFile::get_entry_from_string(&line);
    assert_eq!(entry, Some(("k", "a > b < c")));
}

#[test]
fn ensure_newline_appends_when_missing() {
    assert_eq!(ensure_newline("abc"), "abc\n");
}

#[test]
fn ensure_newline_keeps_existing_newline() {
    assert_eq!(ensure_newline("abc\n"), "abc\n");
}

#[test]
fn ensure_newline_leaves_empty_string_alone() {
    assert_eq!(ensure_newline(""), "");
}

#[test]
fn is_alphabetic_on_letters_only() {
    assert!(is_alphabetic("Hello"));
    assert!(is_alphabetic(""));
    assert!(!is_alphabetic("hello1"));
    assert!(!is_alphabetic("two words"));
    assert!(!is_alphabetic("tab\there"));
}

#[test]
fn is_alphabetic_accepts_letters_beyond_ascii() {
    assert!(is_alphabetic("caf\u{e9}"));
    assert!(!is_alphabetic("caf\u{e9}!"));
}
