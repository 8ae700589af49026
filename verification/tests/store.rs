//! Tests of the store format: exact encoding, round-tripping, and lenient
//! loading.

use student_records::model::Student;
use student_records::store::{decode_students, load_students, save_students};

fn record(id: &str, name: &str, email: &str, mobile: &str) -> Student {
    Student {
        id: id.to_string(),
        name: name.to_string(),
        email: email.to_string(),
        mobile: mobile.to_string(),
    }
}

fn same_fields(a: &Student, b: &Student) -> bool {
    a.id == b.id && a.name == b.name && a.email == b.email && a.mobile == b.mobile
}

#[test]
fn save_empty_document() {
    let out = save_students(&Vec::new());
    assert_eq!(out, "[]");
}

#[test]
fn save_exact_document() {
    let out = save_students(&vec![record("abc", "Bob", "b@example.com", "12")]);
    let expected = "[\n  {\n    \"id\": \"abc\",\n    \"name\": \"Bob\",\n    \"email\": \"b@example.com\",\n    \"mobile\": \"12\"\n  }\n]";
    assert_eq!(out, expected);
}

#[test]
fn save_escapes_specials() {
    let out = save_students(&vec![record("x", "a\"b\\c", "line\nbreak", "tab\there")]);
    let expected = "[\n  {\n    \"id\": \"x\",\n    \"name\": \"a\\\"b\\\\c\",\n    \"email\": \"line\\u000abreak\",\n    \"mobile\": \"tab\\u0009here\"\n  }\n]";
    assert_eq!(out, expected);
}

#[test]
fn save_two_records_exact() {
    let out = save_students(&vec![record("a", "n", "e", "m"), record("b", "n2", "e2", "m2")]);
    let expected = "[\n  {\n    \"id\": \"a\",\n    \"name\": \"n\",\n    \"email\": \"e\",\n    \"mobile\": \"m\"\n  },\n  {\n    \"id\": \"b\",\n    \"name\": \"n2\",\n    \"email\": \"e2\",\n    \"mobile\": \"m2\"\n  }\n]";
    assert_eq!(out, expected);
}

#[test]
fn round_trip_two_records() {
    let rs = vec![
        record("id-1", "Aman", "aman@example.com", "9876543210"),
        record("id-2", "Mia", "mia@example.com", "123"),
    ];
    let doc = save_students(&rs);
    let back = decode_students(&doc).expect("a saved document decodes");
    assert_eq!(back.len(), 2);
    assert!(same_fields(&back[0], &rs[0]));
    assert!(same_fields(&back[1], &rs[1]));
}

#[test]
fn round_trip_awkward_text() {
    let rs = vec![record(
        "k",
        "quote \" backslash \\ and \u{1} control",
        "newline\nand tab\t",
        "caf\u{e9} \u{1f600}",
    )];
    let doc = save_students(&rs);
    let back = decode_students(&doc).expect("a saved document decodes");
    assert_eq!(back.len(), 1);
    assert!(same_fields(&back[0], &rs[0]));
}

#[test]
fn round_trip_empty() {
    let doc = save_students(&Vec::new());
    let back = decode_students(&doc).expect("the empty document decodes");
    assert!(back.is_empty());
}

#[test]
fn load_missing_file_is_empty() {
    assert!(load_students(None).is_empty());
}

#[test]
fn load_corrupt_is_empty() {
    for doc in [
        "",
        "garbage",
        "{}",
        "[",
        "[\n",
        "[1, 2]",
        "[\n  {\n    \"id\": \"a\"",
        "[]trailing",
        "[\n  {\n    \"name\": \"missing id first\"\n  }\n]",
    ] {
        let loaded = load_students(Some(doc));
        assert!(loaded.is_empty(), "{doc:?} should load as empty");
    }
}

#[test]
fn load_saved_document() {
    let rs = vec![record("a", "n", "e", "m"), record("b", "n2", "e2", "m2")];
    let doc = save_students(&rs);
    let loaded = load_students(Some(&doc));
    assert_eq!(loaded.len(), 2);
    assert!(same_fields(&loaded[0], &rs[0]));
    assert!(same_fields(&loaded[1], &rs[1]));
}

#[test]
fn decode_rejects_non_canonical() {
    // Same data, but with keys in another order: not the canonical text.
    let doc = "[\n  {\n    \"name\": \"Bob\",\n    \"id\": \"abc\",\n    \"email\": \"e\",\n    \"mobile\": \"m\"\n  }\n]";
    assert!(decode_students(doc).is_none());
}
