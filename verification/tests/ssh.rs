use hidenv::ssh::{parse_target, ssh_args, Remote};

#[test]
fn parses_user_at_host_file() {
    assert_eq!(
        parse_target("deploy@server:/etc/app/.env").unwrap(),
        Remote::File {
            host: "deploy@server".into(),
            path: "/etc/app/.env".into(),
        }
    );
}

#[test]
fn parses_host_only_file() {
    assert_eq!(
        parse_target("server:/tmp/.env").unwrap(),
        Remote::File {
            host: "server".into(),
            path: "/tmp/.env".into(),
        }
    );
}

#[test]
fn parses_bare_host_as_env() {
    assert_eq!(
        parse_target("server").unwrap(),
        Remote::Env {
            host: "server".into()
        }
    );
}

#[test]
fn parses_user_at_host_as_env() {
    assert_eq!(
        parse_target("deploy@server").unwrap(),
        Remote::Env {
            host: "deploy@server".into()
        }
    );
}

#[test]
fn rejects_empty_host() {
    assert!(parse_target(":/tmp/.env").is_err());
}

#[test]
fn rejects_empty_path() {
    assert!(parse_target("server:").is_err());
}

#[test]
fn builds_plain_file_args() {
    let args = ssh_args("host", &["cat", "/tmp/.env"], None, false);
    assert_eq!(args, vec!["host", "--", "cat", "/tmp/.env"]);
}

#[test]
fn builds_env_args() {
    let args = ssh_args("host", &["env"], None, false);
    assert_eq!(args, vec!["host", "--", "env"]);
}

#[test]
fn builds_args_with_identity_and_tty() {
    let args = ssh_args("host", &["cat", "/tmp/.env"], Some("key.pem"), true);
    assert_eq!(
        args,
        vec!["-i", "key.pem", "-tt", "host", "--", "cat", "/tmp/.env"]
    );
}
