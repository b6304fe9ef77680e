use hidenv::cli::{parse_args, split_positionals, CliError, Mode, HELP};
use hidenv::disclose::{missing_keys, reveal_entry, reveal_lines, reveal_pairs};
use hidenv::keys::{compare_keys, KeyOrder, KeySet};
use hidenv::mask::{extract_pairs, mask_line, mask_pairs, parse_assignment};
use hidenv::plan::{record_outcome, reveal_warning, sort_by_name, sources, Progress, Source};
use std::borrow::Cow;
use hidenv::ssh::{
    check_target, invalid_target_message, parse_target, ssh_failure_detail, ssh_invocation, Remote,
};

fn args(list: &[&str]) -> Vec<String> {
    list.iter().map(|s| s.to_string()).collect()
}

fn lines(list: &[&str]) -> Vec<String> {
    list.iter().map(|s| s.to_string()).collect()
}

const SAMPLE: &[&str] = &[
    "DB_HOST=localhost\n",
    "DB_PASSWORD=supersecret\n",
    "API_KEY=abc123\n",
    "# a comment\n",
];

#[test]
fn masking_a_sample_file_hides_every_value() {
    let out: String = SAMPLE.iter().map(|l| mask_line(l).into_owned()).collect();
    assert_eq!(out, "DB_HOST=###\nDB_PASSWORD=###\nAPI_KEY=###\n# a comment\n");
}

#[test]
fn masking_twice_changes_nothing() {
    for line in ["KEY=secret\n", "export A = b c", "# note", "", "X=###\n"] {
        let once = mask_line(line).into_owned();
        let twice = mask_line(&once).into_owned();
        assert_eq!(once, twice);
    }
}

#[test]
fn masks_of_the_same_name_agree_whatever_the_value() {
    assert_eq!(mask_line("TOKEN=one"), mask_line("  export TOKEN =   two  \n"));
}

#[test]
fn parse_gives_back_name_and_trimmed_value() {
    assert_eq!(parse_assignment("NAME=  a b  "), Some(("NAME", "a b")));
    assert_eq!(parse_assignment("export NAME=x=y"), Some(("NAME", "x=y")));
}

#[test]
fn export_alone_is_a_name() {
    assert_eq!(parse_assignment("export=1"), Some(("export", "1")));
    assert_eq!(parse_assignment("exported=1"), Some(("exported", "1")));
}

#[test]
fn export_needs_ascii_whitespace_after_it() {
    assert_eq!(parse_assignment("export\u{0b}KEY=1"), None);
    assert_eq!(parse_assignment("export\tKEY=1"), Some(("KEY", "1")));
}

#[test]
fn unicode_whitespace_is_trimmed_from_values() {
    assert_eq!(parse_assignment("\u{3000}KEY=\u{a0}v\u{2003}"), Some(("KEY", "v")));
}

#[test]
fn names_are_ascii_only() {
    assert_eq!(parse_assignment("KÉY=1"), None);
    assert_eq!(parse_assignment("1KEY=1"), None);
    assert_eq!(parse_assignment("_k9=é"), Some(("_k9", "é")));
}

#[test]
fn extracted_pairs_have_names_and_unbroken_values() {
    let pairs = extract_pairs("é A=1 B=two words C\t=\t3 =4 D");
    assert_eq!(pairs, vec![("A", "1"), ("B", "two"), ("C", "3")]);
}

#[test]
fn extract_pairs_resumes_after_a_name_without_equals() {
    assert_eq!(extract_pairs("A.B=1"), vec![("B", "1")]);
    assert_eq!(extract_pairs("X= "), vec![("X", "")]);
}

#[test]
fn masked_inline_pairs() {
    assert_eq!(mask_pairs("MINHA_VAR=123"), vec!["MINHA_VAR=###"]);
    assert_eq!(mask_pairs("A=1 B = 2"), vec!["A=###", "B=###"]);
    assert!(mask_pairs("hello world").is_empty());
}

#[test]
fn keys_mode_lists_only_names() {
    let out = reveal_lines(&lines(SAMPLE), &Mode::Keys);
    assert_eq!(out.lines, vec!["DB_HOST", "DB_PASSWORD", "API_KEY"]);
    assert!(out.missing.is_empty());
}

#[test]
fn all_mode_shows_every_value() {
    let out = reveal_lines(&lines(SAMPLE), &Mode::All);
    assert_eq!(
        out.lines,
        vec!["DB_HOST=localhost", "DB_PASSWORD=supersecret", "API_KEY=abc123"]
    );
}

#[test]
fn show_mode_shows_only_requested_values() {
    let mode = Mode::Show(KeySet::from_keys(&["API_KEY"]));
    let out = reveal_lines(&lines(SAMPLE), &mode);
    assert_eq!(out.lines, vec!["API_KEY=abc123"]);
    assert!(out.missing.is_empty());
}

#[test]
fn show_mode_reports_missing_keys_in_order() {
    let mode = Mode::Show(KeySet::from_keys(&["NOPE", "API_KEY", "ALSO_NOPE"]));
    let out = reveal_lines(&lines(SAMPLE), &mode);
    assert_eq!(out.lines, vec!["API_KEY=abc123"]);
    assert_eq!(out.missing, vec!["ALSO_NOPE", "NOPE"]);
}

#[test]
fn mask_mode_reveals_nothing() {
    let out = reveal_lines(&lines(SAMPLE), &Mode::Mask);
    assert!(out.lines.is_empty());
    assert!(out.missing.is_empty());
}

#[test]
fn reveal_pairs_from_environment_entries() {
    let mode = Mode::Show(KeySet::from_keys(&["HOME", "PATH"]));
    let out = reveal_pairs(&[("HOME", "/root"), ("USER", "me")], &mode);
    assert_eq!(out.lines, vec!["HOME=/root"]);
    assert_eq!(out.missing, vec!["PATH"]);
}

#[test]
fn reveal_entry_records_found_keys() {
    let mode = Mode::Show(KeySet::from_keys(&["A"]));
    let mut seen = KeySet::new();
    assert_eq!(reveal_entry("B", "2", &mode, &mut seen), None);
    assert_eq!(reveal_entry("A", "1", &mode, &mut seen), Some("A=1".to_string()));
    assert!(seen.contains("A"));
    assert!(missing_keys(&mode, &seen).is_empty());
    assert_eq!(reveal_entry("A", "1", &Mode::Keys, &mut seen), Some("A".to_string()));
}

#[test]
fn show_keys_are_trimmed_sorted_and_unique() {
    let cfg = parse_args(&args(&["--show", " B , A,,B ,"])).unwrap();
    assert_eq!(cfg.mode, Mode::Show(KeySet::from_keys(&["A", "B"])));
    match &cfg.mode {
        Mode::Show(keys) => {
            assert_eq!(keys.len(), 2);
            assert_eq!(keys.get(0), "A");
            assert_eq!(keys.get(1), "B");
        }
        _ => unreachable!(),
    }
}

#[test]
fn show_with_only_commas_is_an_error() {
    assert!(matches!(
        parse_args(&args(&["--show", " , ,"])),
        Err(CliError::ShowRequiresKey)
    ));
    assert!(matches!(
        parse_args(&args(&["--show="])),
        Err(CliError::ShowRequiresKey)
    ));
}

#[test]
fn last_mode_flag_wins() {
    let cfg = parse_args(&args(&["--all", "--keys"])).unwrap();
    assert_eq!(cfg.mode, Mode::Keys);
}

#[test]
fn identity_value_is_taken_verbatim() {
    let cfg = parse_args(&args(&["-i", "--all"])).unwrap();
    assert_eq!(cfg.ssh_identity.as_deref(), Some("--all"));
    assert_eq!(cfg.mode, Mode::Mask);
}

#[test]
fn help_stops_before_later_errors_but_not_earlier_ones() {
    assert!(matches!(
        parse_args(&args(&["--help", "--nope"])),
        Err(CliError::HelpRequested)
    ));
    assert!(matches!(
        parse_args(&args(&["--nope", "--help"])),
        Err(CliError::UnknownFlag(_))
    ));
}

#[test]
fn error_messages() {
    assert_eq!(CliError::HelpRequested.message(), "help requested");
    assert_eq!(
        CliError::ShowMissingValue.message(),
        "--show requires at least one key"
    );
    assert_eq!(
        CliError::ShowRequiresKey.message(),
        "--show requires at least one key"
    );
    assert_eq!(CliError::MissingValue("-i").message(), "-i requires a value");
    assert_eq!(
        CliError::UnknownFlag("--nope".to_string()).message(),
        "unknown flag: --nope"
    );
}

#[test]
fn help_text_names_the_tool() {
    assert!(HELP.starts_with("hidenv - hides values of environment variables."));
    assert!(HELP.contains("--show KEY1,KEY2"));
}

#[test]
fn existing_files_are_files_and_the_rest_is_text() {
    let cfg = parse_args(&args(&["src/lib.rs", "A=1", "/", "-"])).unwrap();
    assert_eq!(cfg.files, vec!["src/lib.rs", "-"]);
    assert_eq!(cfg.var_text.as_deref(), Some("A=1 /"));
}

#[test]
fn split_positionals_follows_the_file_answers() {
    let ps = args(&["a", "-", "b", "c"]);
    let (files, text) = split_positionals(&ps, &vec![true, false, false, true]);
    assert_eq!(files, vec!["a", "-", "c"]);
    assert_eq!(text.as_deref(), Some("b"));
    let (files, text) = split_positionals(&args(&["-"]), &vec![false]);
    assert_eq!(files, vec!["-"]);
    assert_eq!(text, None);
}

#[test]
fn mask_falls_back_to_the_environment() {
    let cfg = parse_args(&args(&[])).unwrap();
    assert_eq!(sources(&cfg), vec![Source::Environment]);
    let cfg = parse_args(&args(&["A=1"])).unwrap();
    assert_eq!(sources(&cfg), vec![Source::Inline("A=1".to_string())]);
}

#[test]
fn reveal_ignores_inline_text() {
    let cfg = parse_args(&args(&["A=1", "--keys"])).unwrap();
    assert_eq!(sources(&cfg), vec![Source::Environment]);
    let cfg = parse_args(&args(&["-", "-S", "h:/p", "--all"])).unwrap();
    assert_eq!(
        sources(&cfg),
        vec![Source::File("-".to_string()), Source::Remote("h:/p".to_string())]
    );
}

#[test]
fn warnings_before_revealing() {
    let show = Mode::Show(KeySet::from_keys(&["KEY2", "KEY1"]));
    assert_eq!(
        reveal_warning(&show).unwrap(),
        "\u{26a0} hidenv: revealing real value of: KEY1, KEY2. Be careful when pasting into chat."
    );
    assert_eq!(
        reveal_warning(&Mode::All).unwrap(),
        "\u{26a0} hidenv: revealing ALL real values. Do not paste secrets into public chat or logs."
    );
    assert_eq!(reveal_warning(&Mode::Keys), None);
    assert_eq!(reveal_warning(&Mode::Mask), None);
}

#[test]
fn environment_is_sorted_by_name() {
    let vars = vec![
        ("PATH".to_string(), "/bin".to_string()),
        ("HOME".to_string(), "/root".to_string()),
        ("A_B".to_string(), "x".to_string()),
        ("AB".to_string(), "y".to_string()),
    ];
    let sorted = sort_by_name(&vars);
    let names: Vec<&str> = sorted.iter().map(|p| p.0.as_str()).collect();
    assert_eq!(names, vec!["AB", "A_B", "HOME", "PATH"]);
}

#[test]
fn key_order_is_by_code_point() {
    assert_eq!(compare_keys("a", "b"), KeyOrder::Less);
    assert_eq!(compare_keys("ab", "a"), KeyOrder::Greater);
    assert_eq!(compare_keys("Z", "a"), KeyOrder::Less);
    assert_eq!(compare_keys("é", "z"), KeyOrder::Greater);
    assert_eq!(compare_keys("same", "same"), KeyOrder::Equal);
}

#[test]
fn key_set_operations() {
    let mut s = KeySet::new();
    assert!(s.is_empty());
    assert!(s.insert("B".to_string()));
    assert!(s.insert("A".to_string()));
    assert!(!s.insert("B".to_string()));
    assert_eq!(s.len(), 2);
    assert!(s.contains("A") && !s.contains("C"));
    let other = KeySet::from_keys(&["B"]);
    assert_eq!(s.difference(&other), vec!["A"]);
}

#[test]
fn target_round_trip() {
    let remote = parse_target("me@box:/srv/a:b").unwrap();
    assert_eq!(
        remote,
        Remote::File {
            host: "me@box".into(),
            path: "/srv/a:b".into()
        }
    );
}

#[test]
fn invalid_target_error() {
    let err = parse_target(":missing-host").unwrap_err();
    assert_eq!(err.kind(), std::io::ErrorKind::InvalidInput);
    assert_eq!(
        err.to_string(),
        "invalid SSH target: :missing-host (expected user@host or user@host:/path)"
    );
    assert!(parse_target("").is_err());
    assert_eq!(
        invalid_target_message("x:"),
        "invalid SSH target: x: (expected user@host or user@host:/path)"
    );
}

#[test]
fn ssh_invocations() {
    let file = Remote::File {
        host: "h".into(),
        path: "/p".into(),
    };
    assert_eq!(
        ssh_invocation(&file, Some("k"), true),
        vec!["-i", "k", "-tt", "h", "--", "cat", "/p"]
    );
    let env = Remote::Env { host: "h".into() };
    assert_eq!(ssh_invocation(&env, None, false), vec!["h", "--", "env"]);
}

#[test]
fn ssh_failure_details() {
    assert_eq!(ssh_failure_detail("  \n"), None);
    assert_eq!(
        ssh_failure_detail("  Permission denied\n").as_deref(),
        Some("ssh: Permission denied")
    );
}

#[test]
fn key_sets_with_the_same_names_are_equal() {
    assert_eq!(
        KeySet::from_keys(&["B", "A", "B"]),
        KeySet::from_keys(&["A", "B"])
    );
    assert_ne!(KeySet::from_keys(&["A"]), KeySet::from_keys(&["A", "B"]));
}

#[test]
fn mode_flags_absent_means_masking() {
    let cfg = parse_args(&args(&["-S", "-t", "-i", "k", "h", "x"])).unwrap();
    assert_eq!(cfg.mode, Mode::Mask);
    assert_eq!(cfg.ssh_targets, vec!["h", "x"]);
}

#[test]
fn check_target_gives_the_message() {
    assert_eq!(
        check_target(":x"),
        Err("invalid SSH target: :x (expected user@host or user@host:/path)".to_string())
    );
    assert_eq!(
        check_target("h"),
        Ok(Remote::Env { host: "h".into() })
    );
}

#[test]
fn non_assignment_lines_come_back_borrowed() {
    assert!(matches!(mask_line("# note\n"), Cow::Borrowed("# note\n")));
    assert!(matches!(mask_line("A=1"), Cow::Owned(_)));
}

#[test]
fn sorting_keeps_the_order_of_equal_names() {
    let vars = vec![
        ("B".to_string(), "1".to_string()),
        ("A".to_string(), "2".to_string()),
        ("B".to_string(), "3".to_string()),
        ("A".to_string(), "4".to_string()),
    ];
    let sorted = sort_by_name(&vars);
    let values: Vec<&str> = sorted.iter().map(|p| p.1.as_str()).collect();
    assert_eq!(values, vec!["2", "4", "1", "3"]);
}

#[test]
fn help_after_arguments_that_parse() {
    for h in ["-h", "--help"] {
        assert!(matches!(
            parse_args(&args(&["-", "-S", "x", h, "--nope", "-i"])),
            Err(CliError::HelpRequested)
        ));
    }
}

#[test]
fn appended_mode_flag_changes_only_the_mode() {
    let base = parse_args(&args(&["-", "A=1", "-S", "-t", "h"])).unwrap();
    for (flag, mode) in [
        (vec!["--all"], Mode::All),
        (vec!["--keys"], Mode::Keys),
        (vec!["--show=K"], Mode::Show(KeySet::from_keys(&["K"]))),
        (vec!["--show", "K"], Mode::Show(KeySet::from_keys(&["K"]))),
    ] {
        let mut list = vec!["-", "A=1", "-S", "-t", "h"];
        list.extend(flag);
        let cfg = parse_args(&args(&list)).unwrap();
        assert_eq!(cfg.mode, mode);
        assert_eq!(cfg.files, base.files);
        assert_eq!(cfg.ssh_targets, base.ssh_targets);
        assert_eq!(cfg.ssh_identity, base.ssh_identity);
        assert_eq!(cfg.ssh_tty, base.ssh_tty);
        assert_eq!(cfg.var_text, base.var_text);
    }
}

#[test]
fn joined_pairs_extract_back() {
    let pairs = vec![("A", "1"), ("_B2", "x=y"), ("c", "é\u{a0}z")];
    let text = pairs
        .iter()
        .map(|(n, v)| format!("{n}={v}"))
        .collect::<Vec<_>>()
        .join(" ");
    assert_eq!(extract_pairs(&text), pairs);
}

#[test]
fn failure_policies() {
    assert_eq!(
        record_outcome(&Mode::Mask, true, false),
        Progress { go_on: false, all_ok: false }
    );
    assert_eq!(
        record_outcome(&Mode::Mask, true, true),
        Progress { go_on: true, all_ok: true }
    );
    assert_eq!(
        record_outcome(&Mode::Keys, true, false),
        Progress { go_on: true, all_ok: false }
    );
    assert_eq!(
        record_outcome(&Mode::All, false, true),
        Progress { go_on: true, all_ok: false }
    );
}
