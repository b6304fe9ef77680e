use hidenv::mask::{extract_pairs, mask_line, parse_assignment};

#[test]
fn parses_simple_assignment() {
    assert_eq!(parse_assignment("KEY=value"), Some(("KEY", "value")));
}

#[test]
fn parses_export_prefix() {
    assert_eq!(parse_assignment("export KEY=value"), Some(("KEY", "value")));
}

#[test]
fn parses_spaces_around_equals() {
    assert_eq!(parse_assignment("KEY = value"), Some(("KEY", "value")));
}

#[test]
fn parses_leading_whitespace() {
    assert_eq!(parse_assignment("   KEY=value"), Some(("KEY", "value")));
}

#[test]
fn trims_value_and_newline() {
    assert_eq!(parse_assignment("KEY= value \n"), Some(("KEY", "value")));
}

#[test]
fn rejects_non_assignment_lines() {
    assert_eq!(parse_assignment("# comment"), None);
    assert_eq!(parse_assignment("just some text"), None);
    assert_eq!(parse_assignment(""), None);
}

#[test]
fn rejects_identifier_without_equals() {
    assert_eq!(parse_assignment("KEY only"), None);
}

#[test]
fn allows_empty_value() {
    assert_eq!(parse_assignment("KEY="), Some(("KEY", "")));
}

#[test]
fn keeps_underscore_and_digits_in_name() {
    assert_eq!(parse_assignment("A_B2=1"), Some(("A_B2", "1")));
}

#[test]
fn masks_assignment_line() {
    assert_eq!(mask_line("KEY=secret\n"), "KEY=###\n");
}

#[test]
fn masks_without_newline() {
    assert_eq!(mask_line("KEY=secret"), "KEY=###\n");
}

#[test]
fn passes_non_assignment_through() {
    assert_eq!(mask_line("# comment\n"), "# comment\n");
}

#[test]
fn extracts_pairs_from_joined_args() {
    let pairs = extract_pairs("MINHA_VAR=123 VAR2 = 2");
    assert_eq!(pairs, vec![("MINHA_VAR", "123"), ("VAR2", "2")]);
}

#[test]
fn extracts_no_pairs_from_plain_text() {
    assert!(extract_pairs("hello world").is_empty());
}
