use keydata::Section;

#[test]
fn new_success() {
    let name = "section_name";

    let section = Section::new(name);

    assert_eq!(section.name, name);
    assert!(section.data.len() == 0);
}

#[test]
fn build_section_string_success() {
    let result = Section::build_section_string("test");
    assert_eq!(result, "<test>\n");
}

#[test]
fn get_section_name_from_string_success() {
    let result = Section::get_section_name_from_string("<test_section>\n");
    assert!(result.is_some());
    assert_eq!(result.unwrap(), "test_section");
}

#[test]
fn get_section_name_from_string_no_newline_expect_none() {
    let result = Section::get_section_name_from_string("<test_section>");
    assert!(result.is_some());
    assert_eq!(result.unwrap(), "test_section");
}

#[test]
fn get_section_name_from_string_invalid_start_expect_none() {
    let result = Section::get_section_name_from_string("test_section>");
    assert!(result.is_none());
}

#[test]
fn get_section_name_from_string_missing_piece_expect_none() {
    let result = Section::get_section_name_from_string("<test_section\n");
    assert!(result.is_none());
}

#[test]
fn add_entry_success() {
    let mut section = Section::new("test_section");
    assert!(section.data.len() == 0);

    section.add_entry("test_key", "test_value");

    assert!(section.data.len() == 1);
    assert_eq!(section.get("test_key").unwrap(), "test_value");
}

#[test]
fn section_test() {
    let mut section = Section::new("testsection");
    assert_eq!(section.name, "testsection");
    assert!(section.data.len() == 0);

    section.add_entry("one", "value_one");
    section.add_entry("two", "value_two");

    assert!(section.data.len() == 2);
    assert_eq!(section.get("one").unwrap(), "value_one");
}

#[test]
fn add_entry_overwrites_existing_key() {
    let mut section = Section::new("s");
    section.add_entry("k", "first");
    section.add_entry("k", "second");
    assert_eq!(section.data.len(), 1);
    assert_eq!(section.get("k").unwrap(), "second");
}

#[test]
fn header_round_trip_alphabetic_name() {
    let line = Section::build_section_string("roundtrip");
    let name = Section::get_section_name_from_string(&line);
    assert_eq!(name.unwrap(), "roundtrip");
}

#[test]
fn header_line_with_tab_is_no_header() {
    assert!(Section::get_section_name_from_string("<bad\tname>\n").is_none());
}
