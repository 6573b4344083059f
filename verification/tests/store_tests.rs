use keydata::KeynoteFile;
use keydata::KnError;

#[test]
fn keynotefile_test() {
    let mut test_file = KeynoteFile::new("kntest.dat");

    test_file.add_section("testsection").unwrap();
    test_file.add_section("sectiontwo").unwrap();

    assert_eq!(test_file.get_sections().len(), 2);

    test_file.add_key("sectiontwo", "keyone", "valueone").unwrap();
    test_file.add_key("sectiontwo", "keytwo", "valuetwo").unwrap();

    assert_eq!(test_file.get_section("sectiontwo").unwrap().data.len(), 2);

    test_file.add_key("testsection", "testkey", "testvalue").unwrap();
    test_file.remove_key("keyone").unwrap();

    assert_eq!(
        test_file.get_section("sectiontwo").unwrap().data.len(),
        test_file.get_section("testsection").unwrap().data.len()
    );

    test_file.remove_section("sectiontwo").unwrap();

    assert_eq!(test_file.get_sections().len(), 1);
    assert_eq!(test_file.get_value_from_key("testkey").unwrap(), "testvalue");
}

#[test]
fn get_section_success() {
    let mut test_file = KeynoteFile::new("");
    test_file.load_data("<test_section>\n").unwrap();

    let section = test_file.get_section("test_section");

    assert!(section.is_some());
    assert_eq!(section.unwrap().name, "test_section");
}

#[test]
fn get_section_not_found() {
    let test_file = KeynoteFile::new("");

    let result = test_file.get_section("nonexistant_section");

    assert!(result.is_none());
}

#[test]
fn reload_single_entry() {
    let mut store = KeynoteFile::new("notes.dat");
    store.add_section("fruits").unwrap();
    let content = store.add_key("fruits", "apple", "red").unwrap();

    let mut reloaded = KeynoteFile::new("notes.dat");
    reloaded.load_data(&content).unwrap();

    assert_eq!(reloaded.get_sections().len(), 1);
    let section = reloaded.get_section("fruits").unwrap();
    assert_eq!(section.data.len(), 1);
    assert_eq!(section.get("apple").unwrap(), "red");
}

#[test]
fn remove_section_drops_its_entries() {
    let mut store = KeynoteFile::new("notes.dat");
    store.add_section("a").unwrap();
    store.add_section("b").unwrap();
    store.add_key("b", "k", "v").unwrap();
    let content = store.remove_section("b").unwrap();

    let mut reloaded = KeynoteFile::new("notes.dat");
    reloaded.load_data(&content).unwrap();

    assert_eq!(reloaded.get_sections().len(), 1);
    assert!(reloaded.get_section("a").is_some());
    assert_eq!(reloaded.list_keys().len(), 0);
}

#[test]
fn duplicate_key_across_sections() {
    let mut store = KeynoteFile::new("notes.dat");
    store.add_section("a").unwrap();
    store.add_section("b").unwrap();
    let content = store.add_key("a", "x", "one").unwrap();

    let err = store.add_key("b", "x", "two").unwrap_err();

    assert_eq!(err, KnError::DuplicateKey);
    assert_eq!(content.matches("\t<x>").count(), 1);
    assert_eq!(store.get_section("b").unwrap().data.len(), 0);
    assert_eq!(store.get_value_from_key("x").unwrap(), "one");
}

#[test]
fn removal_failures_leave_store_unchanged() {
    let mut store = KeynoteFile::new("notes.dat");
    store.add_section("alpha").unwrap();
    store.add_key("alpha", "k", "v").unwrap();

    assert_eq!(store.remove_key("missing").unwrap_err(), KnError::KeyNotFound);
    assert_eq!(store.remove_section("missing").unwrap_err(), KnError::SectionNotFound);

    assert_eq!(store.get_sections().len(), 1);
    assert_eq!(store.get_section("alpha").unwrap().data.len(), 1);
    assert_eq!(store.get_value_from_key("k").unwrap(), "v");
}

#[test]
fn reload_after_operation_sequence_matches_memory() {
    let mut store = KeynoteFile::new("notes.dat");
    store.add_section("pets").unwrap();
    store.add_section("cars").unwrap();
    store.add_key("pets", "cat", "mia").unwrap();
    store.add_key("cars", "vw", "golf").unwrap();
    store.add_key("pets", "dog", "rex").unwrap();
    store.remove_key("cat").unwrap();
    let content = store.remove_section("cars").unwrap();

    let mut reloaded = KeynoteFile::new("notes.dat");
    reloaded.load_data(&content).unwrap();

    assert_eq!(reloaded.list_sections(), store.list_sections());
    assert_eq!(reloaded.list_keys(), store.list_keys());
    assert_eq!(reloaded.get_value_from_key("dog"), store.get_value_from_key("dog"));
}

#[test]
fn add_key_writes_entry_directly_under_header() {
    let mut store = KeynoteFile::new("notes.dat");
    store.add_section("a").unwrap();
    let first = store.add_key("a", "k1", "v1").unwrap();
    assert_eq!(first, "<a>\n\t<k1>v1<~>\n");

    let second = store.add_key("a", "k2", "v2").unwrap();
    assert_eq!(second, "<a>\n\t<k2>v2<~>\n\t<k1>v1<~>\n");
}

#[test]
fn add_section_returns_header_line() {
    let mut store = KeynoteFile::new("notes.dat");
    let line = store.add_section("notes").unwrap();
    assert_eq!(line, "<notes>\n");
}

#[test]
fn add_section_rejects_invalid_names() {
    let mut store = KeynoteFile::new("notes.dat");
    assert_eq!(store.add_section("").unwrap_err(), KnError::InvalidName);
    assert_eq!(store.add_section("abc1").unwrap_err(), KnError::InvalidName);
    assert_eq!(store.add_section("two words").unwrap_err(), KnError::InvalidName);
    assert_eq!(store.get_sections().len(), 0);
}

#[test]
fn add_section_rejects_duplicates() {
    let mut store = KeynoteFile::new("notes.dat");
    store.add_section("twice").unwrap();
    assert_eq!(store.add_section("twice").unwrap_err(), KnError::DuplicateSection);
    assert_eq!(store.get_sections().len(), 1);
}

#[test]
fn add_key_to_missing_section_fails() {
    let mut store = KeynoteFile::new("notes.dat");
    let err = store.add_key("nowhere", "k", "v").unwrap_err();
    assert_eq!(err, KnError::SectionNotFound);
}

#[test]
fn add_key_rejects_unencodable_pairs() {
    let mut store = KeynoteFile::new("notes.dat");
    store.add_section("a").unwrap();
    assert_eq!(store.add_key("a", "k>", "v").unwrap_err(), KnError::FormatError);
    assert_eq!(store.add_key("a", "k\n", "v").unwrap_err(), KnError::FormatError);
    assert_eq!(store.add_key("a", "k", "v<~>w").unwrap_err(), KnError::FormatError);
    assert_eq!(store.add_key("a", "k", "v\nw").unwrap_err(), KnError::FormatError);
    assert_eq!(store.get_section("a").unwrap().data.len(), 0);
}

#[test]
fn load_entry_before_any_header_is_corrupt() {
    let mut store = KeynoteFile::new("notes.dat");
    let err = store.load_data("\t<k>v<~>\n<a>\n").unwrap_err();
    assert_eq!(err, KnError::CorruptedFormat);
    assert_eq!(store.get_sections().len(), 0);
}

#[test]
fn load_skips_lines_that_are_neither_header_nor_entry() {
    let mut store = KeynoteFile::new("notes.dat");
    store.load_data("junk\n<a>\n\t<k>v<~>\nmore junk\n").unwrap();
    assert_eq!(store.get_sections().len(), 1);
    assert_eq!(store.get_value_from_key("k").unwrap(), "v");
}

#[test]
fn load_merges_into_loaded_store() {
    let mut store = KeynoteFile::new("notes.dat");
    store.load_data("<a>\n\t<k1>v1<~>\n").unwrap();
    store.load_data("<b>\n\t<k2>v2<~>\n").unwrap();
    assert_eq!(store.get_sections().len(), 2);
    assert_eq!(store.get_value_from_key("k1").unwrap(), "v1");
    assert_eq!(store.get_value_from_key("k2").unwrap(), "v2");
}

#[test]
fn load_repeated_header_empties_the_section() {
    let mut store = KeynoteFile::new("notes.dat");
    store.load_data("<a>\n\t<k1>v1<~>\n<a>\n\t<k2>v2<~>\n").unwrap();
    assert_eq!(store.get_sections().len(), 1);
    let section = store.get_section("a").unwrap();
    assert_eq!(section.data.len(), 1);
    assert_eq!(section.get("k2").unwrap(), "v2");
    assert!(section.get("k1").is_none());
}

#[test]
fn list_keys_pairs_keys_with_their_sections() {
    let mut store = KeynoteFile::new("notes.dat");
    store.add_section("a").unwrap();
    store.add_section("b").unwrap();
    store.add_key("a", "k1", "v1").unwrap();
    store.add_key("b", "k2", "v2").unwrap();
    let pairs = store.list_keys();
    assert_eq!(pairs.len(), 2);
    assert_eq!(pairs[0], (String::from("a"), String::from("k1")));
    assert_eq!(pairs[1], (String::from("b"), String::from("k2")));
}

#[test]
fn list_sections_in_file_order() {
    let mut store = KeynoteFile::new("notes.dat");
    store.add_section("first").unwrap();
    store.add_section("second").unwrap();
    assert_eq!(store.list_sections(), vec!["first".to_string(), "second".to_string()]);
}

#[test]
fn load_empty_content_gives_empty_store() {
    let mut store = KeynoteFile::new("notes.dat");
    store.load_data("").unwrap();
    assert_eq!(store.get_sections().len(), 0);
}

#[test]
fn empty_value_round_trips() {
    let mut store = KeynoteFile::new("notes.dat");
    store.add_section("a").unwrap();
    let content = store.add_key("a", "k", "").unwrap();
    assert_eq!(content, "<a>\n\t<k><~>\n");

    let mut reloaded = KeynoteFile::new("notes.dat");
    reloaded.load_data(&content).unwrap();
    assert_eq!(reloaded.get_value_from_key("k").unwrap(), "");
}

#[test]
fn contains_key_searches_every_section() {
    let mut store = KeynoteFile::new("notes.dat");
    store.add_section("a").unwrap();
    store.add_section("b").unwrap();
    store.add_key("b", "deep", "down").unwrap();
    assert!(store.contains_key("deep"));
    assert!(!store.contains_key("absent"));
}
