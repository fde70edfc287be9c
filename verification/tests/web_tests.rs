use table_codec::error::TableError;
use table_codec::users::{role_allows, Claims, CreateUserInput, UpdateUserInput};
use table_codec::webtext::{append_port, push_origin, sanitize_filename};

#[test]
fn sanitize_keeps_safe_characters() {
    assert_eq!(sanitize_filename("report-2021_v1.xlsx"), "report-2021_v1.xlsx");
}

#[test]
fn sanitize_replaces_the_rest() {
    assert_eq!(sanitize_filename("a b?.xlsx"), "a_b_.xlsx");
    assert_eq!(sanitize_filename("päivä.csv"), "p_iv_.csv");
}

#[test]
fn sanitize_empty_name_falls_back() {
    assert_eq!(sanitize_filename(""), "export");
}

#[test]
fn append_port_adds_when_absent() {
    assert_eq!(append_port("http://localhost", "3000"), "http://localhost:3000");
}

#[test]
fn append_port_keeps_existing_numeric_port() {
    assert_eq!(append_port("http://localhost:8080", "3000"), "http://localhost:8080");
}

#[test]
fn append_port_skips_empty_and_zero() {
    assert_eq!(append_port("http://h", ""), "http://h");
    assert_eq!(append_port("http://h", "0"), "http://h");
}

#[test]
fn push_origin_trims_and_dedups() {
    let mut v: Vec<String> = vec!["http://a".to_string()];
    push_origin(&mut v, "  http://a  ");
    assert_eq!(v, vec!["http://a".to_string()]);
    push_origin(&mut v, " http://b ");
    assert_eq!(v, vec!["http://a".to_string(), "http://b".to_string()]);
    push_origin(&mut v, "   ");
    assert_eq!(v.len(), 2);
}

#[test]
fn role_rule() {
    assert!(role_allows("Admin", "Admin"));
    assert!(role_allows("SuperAdmin", "Admin"));
    assert!(!role_allows("User", "Admin"));
    let c = Claims { sub: "u".to_string(), role: "SuperAdmin".to_string(), exp: 0 };
    assert!(c.allows("SuperAdmin"));
    assert!(c.allows("Admin"));
}

#[test]
fn create_input_needs_both_fields() {
    let ok = CreateUserInput {
        login: "u".to_string(),
        password: "p".to_string(),
        role: "Admin".to_string(),
    };
    assert!(ok.is_complete());
    let blank = CreateUserInput {
        login: "  ".to_string(),
        password: "p".to_string(),
        role: "Admin".to_string(),
    };
    assert!(!blank.is_complete());
}

#[test]
fn update_input_needs_a_change() {
    let none = UpdateUserInput { id: 1, role: None, dashboards: None };
    assert!(!none.has_changes());
    let some = UpdateUserInput { id: 1, role: Some("Admin".to_string()), dashboards: None };
    assert!(some.has_changes());
}

#[test]
fn error_labels() {
    assert_eq!(TableError::MalformedContainer.label(), "malformed container");
    assert_eq!(TableError::MissingPart.label(), "missing part");
    assert_eq!(TableError::MalformedXml("x".to_string()).label(), "malformed xml");
    assert_eq!(TableError::Encoding.label(), "invalid encoding");
    assert_eq!(TableError::UnsupportedFormat.label(), "unsupported format");
    assert_eq!(TableError::EncodeFailure("xlsx".to_string()).label(), "encode failure");
}
