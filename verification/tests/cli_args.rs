use hidenv::cli::{parse_args, CliError, Mode};
use hidenv::keys::KeySet;

fn args(list: &[&str]) -> Vec<String> {
    list.iter().map(|s| s.to_string()).collect()
}

#[test]
fn help_flags_request_help() {
    assert!(matches!(
        parse_args(&args(&["-h"])),
        Err(CliError::HelpRequested)
    ));
    assert!(matches!(
        parse_args(&args(&["--help"])),
        Err(CliError::HelpRequested)
    ));
}

#[test]
fn default_mode_is_mask() {
    let cfg = parse_args(&args(&["-"])).unwrap();
    assert_eq!(cfg.mode, Mode::Mask);
}

#[test]
fn keys_mode() {
    let cfg = parse_args(&args(&["-", "--keys"])).unwrap();
    assert_eq!(cfg.mode, Mode::Keys);
}

#[test]
fn all_mode() {
    let cfg = parse_args(&args(&["-", "--all"])).unwrap();
    assert_eq!(cfg.mode, Mode::All);
}

#[test]
fn show_mode_with_space() {
    let cfg = parse_args(&args(&["-", "--show", "A,B"])).unwrap();
    assert_eq!(cfg.mode, Mode::Show(KeySet::from_keys(&["A", "B"])));
}

#[test]
fn show_mode_with_equals() {
    let cfg = parse_args(&args(&["-", "--show=A"])).unwrap();
    assert_eq!(cfg.mode, Mode::Show(KeySet::from_keys(&["A"])));
}

#[test]
fn show_without_value_is_error() {
    assert!(matches!(
        parse_args(&args(&["-", "--show"])),
        Err(CliError::ShowMissingValue)
    ));
}

#[test]
fn unknown_flag_is_error() {
    assert!(matches!(
        parse_args(&args(&["--nope"])),
        Err(CliError::UnknownFlag(_))
    ));
}

#[test]
fn ssh_flag_collects_targets() {
    let cfg = parse_args(&args(&["-S", "user@host:/a/.env"])).unwrap();
    assert_eq!(cfg.ssh_targets, vec!["user@host:/a/.env"]);
    assert!(cfg.files.is_empty());
}

#[test]
fn ssh_long_flag_collects_targets() {
    let cfg = parse_args(&args(&["--ssh", "host:/a/.env"])).unwrap();
    assert_eq!(cfg.ssh_targets, vec!["host:/a/.env"]);
}

#[test]
fn ssh_targets_after_flag_only() {
    let cfg = parse_args(&args(&["file.txt", "-S", "host:/a/.env"])).unwrap();
    assert_eq!(cfg.ssh_targets, vec!["host:/a/.env"]);
    assert!(cfg.var_text.is_some());
}

#[test]
fn ssh_identity_flag() {
    let cfg = parse_args(&args(&["-S", "-i", "key.pem", "host:/a/.env"])).unwrap();
    assert_eq!(cfg.ssh_identity.as_deref(), Some("key.pem"));
}

#[test]
fn ssh_identity_without_value_is_error() {
    assert!(matches!(
        parse_args(&args(&["-S", "-i"])),
        Err(CliError::MissingValue("-i"))
    ));
}

#[test]
fn ssh_tty_flag() {
    let cfg = parse_args(&args(&["-S", "-t", "host:/a/.env"])).unwrap();
    assert!(cfg.ssh_tty);
}

#[test]
fn collects_files_and_var_text() {
    let cfg = parse_args(&args(&["-", "A=1"])).unwrap();
    assert_eq!(cfg.files, vec!["-"]);
    assert_eq!(cfg.var_text.as_deref(), Some("A=1"));
}

#[test]
fn joins_multiple_var_parts() {
    let cfg = parse_args(&args(&["A=1", "B = 2"])).unwrap();
    assert_eq!(cfg.files.len(), 0);
    assert_eq!(cfg.var_text.as_deref(), Some("A=1 B = 2"));
}
