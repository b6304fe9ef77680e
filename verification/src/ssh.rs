//! Remote targets and the `ssh` command line that fetches them.
//!
//! Running `ssh` itself is I/O and stays with the caller; this module decides
//! what to run and how to read its outcome.

use std::io;
use vstd::prelude::*;
use crate::keys::views;
use crate::text::{CharClass, chars_of, leading, skip_class, skip_class_back, trim};

verus! {

/// `std::io::Error`, declared so that `parse_target` can return it; its
/// contents stay opaque to the proofs.
#[verifier::external_type_specification]
#[verifier::external_body]
pub struct ExIoError(io::Error);

/// What to fetch from the remote host.
#[derive(Debug, PartialEq, Eq)]
pub enum Remote {
    /// The remote shell environment (runs `ssh <host> -- env`).
    Env { host: String },
    /// A remote file (runs `ssh <host> -- cat <path>`).
    File { host: String, path: String },
}

/// A remote target, as text.
pub enum RemoteView {
    Env { host: Seq<char> },
    File { host: Seq<char>, path: Seq<char> },
}

impl View for Remote {
    type V = RemoteView;

    open spec fn view(&self) -> RemoteView {
        match self {
            Remote::Env { host } => RemoteView::Env { host: host@ },
            Remote::File { host, path } => RemoteView::File { host: host@, path: path@ },
        }
    }
}

/// The target that `arg` names: `host:path` names a file (split at the
/// first `:`), a bare `host` names the environment; neither part may be empty.
pub open spec fn spec_parse_target(arg: Seq<char>) -> Option<RemoteView> {
    let k = leading(arg, CharClass::NotColon);
    if k < arg.len() {
        let host = arg.take(k as int);
        let path = arg.skip(k + 1 as int);
        if host.len() == 0 || path.len() == 0 {
            None
        } else {
            Some(RemoteView::File { host, path })
        }
    } else if arg.len() == 0 {
        None
    } else {
        Some(RemoteView::Env { host: arg })
    }
}

/// The message of the error for an argument that names no target.
pub open spec fn spec_invalid_target_message(arg: Seq<char>) -> Seq<char> {
    "invalid SSH target: "@ + arg + " (expected user@host or user@host:/path)"@
}

/// The command that runs on the remote host for a target.
pub open spec fn spec_remote_command(remote: RemoteView) -> Seq<Seq<char>> {
    match remote {
        RemoteView::File { host, path } => seq!["cat"@, path],
        RemoteView::Env { host } => seq!["env"@],
    }
}

/// The host of a target.
pub open spec fn remote_host(remote: RemoteView) -> Seq<char> {
    match remote {
        RemoteView::File { host, path } => host,
        RemoteView::Env { host } => host,
    }
}

/// The text of an optional string.
pub open spec fn opt_view(o: Option<&str>) -> Option<Seq<char>> {
    match o {
        Some(s) => Some(s@),
        None => None,
    }
}

/// The arguments of `ssh`: `-i KEY` when an identity is given, `-tt` when a
/// terminal is forced, then the host, `--` and the remote command.
pub open spec fn spec_ssh_args(
    host: Seq<char>,
    remote_cmd: Seq<Seq<char>>,
    identity: Option<Seq<char>>,
    tty: bool,
) -> Seq<Seq<char>> {
    (match identity {
        Some(key) => seq!["-i"@, key],
        None => Seq::empty(),
    }) + (if tty {
        seq!["-tt"@]
    } else {
        Seq::empty()
    }) + seq![host, "--"@] + remote_cmd
}

/// Splits a `user@host:/path` argument into a file target, or a bare
/// `user@host` argument into an environment target.
///
/// An argument that names no target gives an `InvalidInput` error whose
/// message is the one [`check_target`] returns for it.
pub fn parse_target(arg: &str) -> (r: io::Result<Remote>)
    ensures
        r is Ok == spec_parse_target(arg@) is Some,
        r matches Ok(remote) ==> spec_parse_target(arg@) == Some(remote@),
{
    match check_target(arg) {
        Ok(remote) => Ok(remote),
        Err(msg) => Err(invalid_input_error(msg)),
    }
}

/// Splits a `user@host:/path` argument into a file target, or a bare
/// `user@host` argument into an environment target; an argument that names
/// no target gives the message that explains why.
pub fn check_target(arg: &str) -> (r: Result<Remote, String>)
    ensures
        r is Ok == spec_parse_target(arg@) is Some,
        r matches Ok(remote) ==> spec_parse_target(arg@) == Some(remote@),
        r matches Err(msg) ==> msg@ == spec_invalid_target_message(arg@),
{
    let chars = chars_of(arg);
    let k = skip_class(&chars, 0, CharClass::NotColon);
    assert(arg@.skip(0) =~= arg@);
    if k < chars.len() {
        if k == 0 || k + 1 == chars.len() {
            assert(arg@.take(k as int).len() == 0 || arg@.skip(k + 1).len() == 0);
            return Err(invalid_target_message(arg));
        }
        let host = arg.substring_char(0, k).to_owned();
        let path = arg.substring_char(k + 1, chars.len()).to_owned();
        assert(arg@.subrange(0, k as int) =~= arg@.take(k as int));
        assert(arg@.subrange(k + 1, chars@.len() as int) =~= arg@.skip(k + 1));
        Ok(Remote::File { host, path })
    } else {
        if chars.len() == 0 {
            return Err(invalid_target_message(arg));
        }
        Ok(Remote::Env { host: arg.to_owned() })
    }
}

/// The message that explains why `arg` names no target.
pub fn invalid_target_message(arg: &str) -> (m: String)
    ensures
        m@ == spec_invalid_target_message(arg@),
{
    let mut m = "invalid SSH target: ".to_owned();
    m.append(arg);
    m.append(" (expected user@host or user@host:/path)");
    m
}

/// Calls `std::io::Error::new` with `ErrorKind::InvalidInput` and `msg`.
/// Nothing is stated of the error it returns: an `io::Error` is opaque here,
/// so its kind and message are not visible to the proofs.
#[verifier::external_body]
fn invalid_input_error(msg: String) -> io::Error {
    io::Error::new(io::ErrorKind::InvalidInput, msg)
}

/// Builds the argument list for `ssh` given the target and options.
pub fn ssh_args(host: &str, remote_cmd: &[&str], identity: Option<&str>, tty: bool) -> (args: Vec<
    String,
>)
    ensures
        views(args@) == spec_ssh_args(
            host@,
            remote_cmd@.map_values(|s: &str| s@),
            opt_view(identity),
            tty,
        ),
{
    let mut args: Vec<String> = Vec::new();
    let ghost prefix: Seq<Seq<char>> = Seq::empty();
    if let Some(key) = identity {
        args.push("-i".to_owned());
        args.push(key.to_owned());
        proof {
            prefix = seq!["-i"@, key@];
        }
    }
    assert(views(args@) =~= prefix);
    if tty {
        args.push("-tt".to_owned());
        proof {
            prefix = prefix + seq!["-tt"@];
        }
    } else {
        proof {
            prefix = prefix + Seq::<Seq<char>>::empty();
        }
    }
    assert(views(args@) =~= prefix);
    args.push(host.to_owned());
    args.push("--".to_owned());
    proof {
        prefix = prefix + seq![host@, "--"@];
    }
    assert(views(args@) =~= prefix);
    let mut i: usize = 0;
    while i < remote_cmd.len()
        invariant
            i <= remote_cmd@.len(),
            views(args@) == prefix + remote_cmd@.take(i as int).map_values(|s: &str| s@),
        decreases remote_cmd@.len() - i,
    {
        let ghost before = args@;
        args.push(remote_cmd[i].to_owned());
        assert(views(args@) =~= views(before).push(remote_cmd@[i as int]@));
        assert(remote_cmd@.take(i + 1).map_values(|s: &str| s@) =~= remote_cmd@.take(
            i as int,
        ).map_values(|s: &str| s@).push(remote_cmd@[i as int]@));
        i = i + 1;
    }
    assert(remote_cmd@.take(remote_cmd@.len() as int) =~= remote_cmd@);
    args
}

/// The arguments of the `ssh` run that fetches `remote`: the remote command
/// is `cat <path>` for a file and `env` for the environment.
pub fn ssh_invocation(remote: &Remote, identity: Option<&str>, tty: bool) -> (args: Vec<String>)
    ensures
        views(args@) == spec_ssh_args(
            remote_host(remote@),
            spec_remote_command(remote@),
            opt_view(identity),
            tty,
        ),
{
    match remote {
        Remote::File { host, path } => {
            let cmd: Vec<&str> = vec!["cat", path.as_str()];
            assert(cmd@.map_values(|s: &str| s@) =~= seq!["cat"@, path@]);
            ssh_args(host.as_str(), cmd.as_slice(), identity, tty)
        },
        Remote::Env { host } => {
            let cmd: Vec<&str> = vec!["env"];
            assert(cmd@.map_values(|s: &str| s@) =~= seq!["env"@]);
            ssh_args(host.as_str(), cmd.as_slice(), identity, tty)
        },
    }
}

/// The message for a failed `ssh` run, from what it wrote to stderr:
/// `ssh: ` and that text trimmed, or `None` when the trimmed text is empty
/// (the caller then reports the exit status instead).
pub fn ssh_failure_detail(stderr: &str) -> (m: Option<String>)
    ensures
        m is None == (trim(stderr@).len() == 0),
        m matches Some(msg) ==> msg@ == "ssh: "@ + trim(stderr@),
{
    let chars = chars_of(stderr);
    let a = skip_class(&chars, 0, CharClass::Whitespace);
    let b = skip_class_back(&chars, a, chars.len(), CharClass::Whitespace);
    assert(stderr@.skip(0) =~= stderr@);
    assert(stderr@.skip(a as int) =~= chars@.subrange(a as int, chars@.len() as int));
    assert(trim(stderr@) =~= stderr@.subrange(a as int, b as int));
    if a == b {
        None
    } else {
        let mut m = "ssh: ".to_owned();
        m.append(stderr.substring_char(a, b));
        Some(m)
    }
}

} // verus!
