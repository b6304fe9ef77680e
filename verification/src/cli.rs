//! Command-line argument parsing.
//!
//! Turns the program's arguments into a [`Config`] describing what the user
//! wants hidenv to do.

use vstd::prelude::*;
use crate::keys::{KeySet, same_key, views};
use crate::text::{CharClass, chars_of, skip_class_back, skip_class_within, trim, trim_start};

verus! {

/// How the values should be presented.
#[derive(Debug, PartialEq, Eq)]
pub enum Mode {
    /// Mask every value (the default).
    Mask,
    /// Print only the key names.
    Keys,
    /// Print the real value of the requested keys.
    Show(KeySet),
    /// Print every real value.
    All,
}

/// A mode, with the requested keys as a set of names.
pub enum ModeView {
    Mask,
    Keys,
    Show(Set<Seq<char>>),
    All,
}

impl View for Mode {
    type V = ModeView;

    open spec fn view(&self) -> ModeView {
        match self {
            Mode::Mask => ModeView::Mask,
            Mode::Keys => ModeView::Keys,
            Mode::Show(keys) => ModeView::Show(keys@),
            Mode::All => ModeView::All,
        }
    }
}

impl Mode {
    /// The requested keys, if any, are a well-formed set.
    pub open spec fn wf(&self) -> bool {
        match self {
            Mode::Show(keys) => keys.wf(),
            _ => true,
        }
    }
}

/// Fully parsed invocation.
#[derive(Debug)]
pub struct Config {
    pub mode: Mode,
    /// File paths (or `-` for stdin) to process.
    pub files: Vec<String>,
    /// Remote `user@host:/path` targets to fetch over SSH.
    pub ssh_targets: Vec<String>,
    /// Identity file passed to `ssh -i` for SSH targets.
    pub ssh_identity: Option<String>,
    /// Force a pseudo-terminal (`ssh -t`) for SSH targets.
    pub ssh_tty: bool,
    /// Free-form `NAME=VALUE` text from positional arguments.
    pub var_text: Option<String>,
}

/// An invocation, as text.
pub struct ConfigView {
    pub mode: ModeView,
    pub files: Seq<Seq<char>>,
    pub ssh_targets: Seq<Seq<char>>,
    pub ssh_identity: Option<Seq<char>>,
    pub ssh_tty: bool,
    pub var_text: Option<Seq<char>>,
}

/// The text of an optional string.
pub open spec fn opt_string_view(o: Option<String>) -> Option<Seq<char>> {
    match o {
        Some(s) => Some(s@),
        None => None,
    }
}

impl View for Config {
    type V = ConfigView;

    open spec fn view(&self) -> ConfigView {
        ConfigView {
            mode: self.mode@,
            files: views(self.files@),
            ssh_targets: views(self.ssh_targets@),
            ssh_identity: opt_string_view(self.ssh_identity),
            ssh_tty: self.ssh_tty,
            var_text: opt_string_view(self.var_text),
        }
    }
}

impl Config {
    /// The mode is well formed.
    pub open spec fn wf(&self) -> bool {
        self.mode.wf()
    }
}

/// Reasons argument parsing can fail.
#[derive(Debug)]
pub enum CliError {
    /// Help was requested via `-h`/`--help`.
    HelpRequested,
    /// `--show` was given without a value.
    ShowMissingValue,
    /// `--show` was given an empty key list.
    ShowRequiresKey,
    /// A flag that expects a value (`-i`) was given without one.
    MissingValue(&'static str),
    /// An unrecognized flag was supplied.
    UnknownFlag(String),
}

/// A parse failure, as text.
pub enum CliErrorView {
    HelpRequested,
    ShowMissingValue,
    ShowRequiresKey,
    MissingValue(Seq<char>),
    UnknownFlag(Seq<char>),
}

impl View for CliError {
    type V = CliErrorView;

    open spec fn view(&self) -> CliErrorView {
        match self {
            CliError::HelpRequested => CliErrorView::HelpRequested,
            CliError::ShowMissingValue => CliErrorView::ShowMissingValue,
            CliError::ShowRequiresKey => CliErrorView::ShowRequiresKey,
            CliError::MissingValue(flag) => CliErrorView::MissingValue(flag@),
            CliError::UnknownFlag(flag) => CliErrorView::UnknownFlag(flag@),
        }
    }
}

/// The message that describes a parse failure.
pub open spec fn spec_error_message(e: CliErrorView) -> Seq<char> {
    match e {
        CliErrorView::HelpRequested => "help requested"@,
        CliErrorView::ShowMissingValue => "--show requires at least one key"@,
        CliErrorView::ShowRequiresKey => "--show requires at least one key"@,
        CliErrorView::MissingValue(flag) => flag + " requires a value"@,
        CliErrorView::UnknownFlag(flag) => "unknown flag: "@ + flag,
    }
}

impl CliError {
    /// The message that describes this failure.
    pub fn message(&self) -> (m: String)
        ensures
            m@ == spec_error_message(self@),
    {
        match self {
            CliError::HelpRequested => "help requested".to_owned(),
            CliError::ShowMissingValue => "--show requires at least one key".to_owned(),
            CliError::ShowRequiresKey => "--show requires at least one key".to_owned(),
            CliError::MissingValue(flag) => {
                let mut m = (*flag).to_owned();
                m.append(" requires a value");
                m
            },
            CliError::UnknownFlag(flag) => {
                let mut m = "unknown flag: ".to_owned();
                m.append(flag.as_str());
                m
            },
        }
    }
}

/// The usage text printed for `-h`/`--help`.
pub const HELP: &'static str = "\
hidenv - hides values of environment variables.

Usage:
    hidenv                            # masks the current shell environment
    hidenv file.txt                   # prints the file with values masked
    hidenv .env                       # same behavior
    hidenv MY_VAR=123                 # prints MY_VAR=###
    hidenv MY_VAR = 123               # also works
    hidenv VAR1=1 VAR2 = 2            # multiple variables
    cat .env | hidenv -               # read from stdin
    hidenv -S user@host:/path/.env    # read a remote .env over SSH (masked)
    hidenv -S user@host               # read the remote machine's env over SSH
    hidenv -S -i key.pem user@host:/path/.env   # SSH with a specific key
    hidenv -S -t user@host:/path/.env           # force a pseudo-terminal (ssh -tt)

Reveal (on demand):
    hidenv --keys                     # key names only (shell environment)
    hidenv .env --keys                # key names only (from a file)
    hidenv .env --show KEY1,KEY2      # real values of those keys
    hidenv .env --all                 # all real values
";

/// The pieces of `s` between commas, as `str::split(',')` yields them: one
/// more piece than there are commas, empty pieces included.
pub open spec fn split_commas(s: Seq<char>) -> Seq<Seq<char>>
    decreases s.len(),
{
    if s.len() == 0 {
        seq![Seq::empty()]
    } else {
        let p = split_commas(s.drop_last());
        if s.last() == ',' {
            p.push(Seq::empty())
        } else {
            p.update(p.len() - 1, p.last().push(s.last()))
        }
    }
}

/// The trimmed, non-empty pieces of a list of pieces, as a set.
pub open spec fn keys_of_pieces(pieces: Seq<Seq<char>>) -> Set<Seq<char>>
    decreases pieces.len(),
{
    if pieces.len() == 0 {
        Set::empty()
    } else {
        let rest = keys_of_pieces(pieces.drop_last());
        let k = trim(pieces.last());
        if k.len() > 0 {
            rest.insert(k)
        } else {
            rest
        }
    }
}

/// The keys that a `--show` value names: its comma-separated pieces,
/// trimmed, the empty ones left out.
pub open spec fn spec_show_keys(value: Seq<char>) -> Set<Seq<char>> {
    keys_of_pieces(split_commas(value))
}

/// The state of the scan over the arguments.
pub struct ScanState {
    pub mode: ModeView,
    pub ssh: bool,
    pub identity: Option<Seq<char>>,
    pub tty: bool,
    pub positionals: Seq<Seq<char>>,
    pub targets: Seq<Seq<char>>,
}

/// The state before the first argument: mask mode, no flag, nothing collected.
pub open spec fn scan_start() -> ScanState {
    ScanState {
        mode: ModeView::Mask,
        ssh: false,
        identity: None,
        tty: false,
        positionals: Seq::empty(),
        targets: Seq::empty(),
    }
}

/// `st` with another mode.
pub open spec fn with_mode(st: ScanState, mode: ModeView) -> ScanState {
    ScanState { mode, ..st }
}

/// The scan of `args[i..]` from state `st`, left to right.
///
/// `-h`/`--help` stops with a request for help; `--all`, `--keys` and
/// `--show` set the mode (the last one wins); `-S`/`--ssh` makes every later
/// positional argument an SSH target; `-t` forces a terminal; `-i` and
/// `--show` take the next argument as their value; `--show=KEYS` carries
/// its value; any other argument that starts with `-` (but `-` itself) is an
/// unknown flag; the rest are positional arguments.
pub open spec fn scan(args: Seq<Seq<char>>, i: int, st: ScanState) -> Result<
    ScanState,
    CliErrorView,
>
    decreases args.len() - i,
{
    if i < 0 || i >= args.len() {
        Ok(st)
    } else {
        let a = args[i];
        if a == "-h"@ || a == "--help"@ {
            Err(CliErrorView::HelpRequested)
        } else if a == "--all"@ {
            scan(args, i + 1, with_mode(st, ModeView::All))
        } else if a == "--keys"@ {
            scan(args, i + 1, with_mode(st, ModeView::Keys))
        } else if a == "-S"@ || a == "--ssh"@ {
            scan(args, i + 1, ScanState { ssh: true, ..st })
        } else if a == "-t"@ {
            scan(args, i + 1, ScanState { tty: true, ..st })
        } else if a == "-i"@ {
            if i + 1 < args.len() {
                scan(args, i + 2, ScanState { identity: Some(args[i + 1]), ..st })
            } else {
                Err(CliErrorView::MissingValue("-i"@))
            }
        } else if a == "--show"@ {
            if i + 1 < args.len() {
                let keys = spec_show_keys(args[i + 1]);
                if keys == Set::<Seq<char>>::empty() {
                    Err(CliErrorView::ShowRequiresKey)
                } else {
                    scan(args, i + 2, with_mode(st, ModeView::Show(keys)))
                }
            } else {
                Err(CliErrorView::ShowMissingValue)
            }
        } else if "--show="@.is_prefix_of(a) {
            let keys = spec_show_keys(a.skip("--show="@.len() as int));
            if keys == Set::<Seq<char>>::empty() {
                Err(CliErrorView::ShowRequiresKey)
            } else {
                scan(args, i + 1, with_mode(st, ModeView::Show(keys)))
            }
        } else if a.len() > 0 && a[0] == '-' && a != "-"@ {
            Err(CliErrorView::UnknownFlag(a))
        } else if st.ssh {
            scan(args, i + 1, ScanState { targets: st.targets.push(a), ..st })
        } else {
            scan(args, i + 1, ScanState { positionals: st.positionals.push(a), ..st })
        }
    }
}

/// The outcome of scanning all of `args`.
pub open spec fn spec_scan_args(args: Seq<Seq<char>>) -> Result<ScanState, CliErrorView> {
    scan(args, 0, scan_start())
}

/// Whether a positional argument is a file: `-` always is, any other when
/// the file system says so (`on_disk`).
pub open spec fn is_file_arg(arg: Seq<char>, on_disk: bool) -> bool {
    arg == "-"@ || on_disk
}

/// The positional arguments that are files (`files == true`) or that are
/// not (`files == false`), in order; `on_disk[i]` tells of `ps[i]`.
pub open spec fn pick(ps: Seq<Seq<char>>, on_disk: Seq<bool>, files: bool) -> Seq<Seq<char>>
    decreases ps.len(),
{
    if ps.len() == 0 {
        Seq::empty()
    } else {
        let rest = pick(ps.drop_last(), on_disk.drop_last(), files);
        if is_file_arg(ps.last(), on_disk.last()) == files {
            rest.push(ps.last())
        } else {
            rest
        }
    }
}

/// The parts joined with `sep` between them.
pub open spec fn join(parts: Seq<Seq<char>>, sep: Seq<char>) -> Seq<char>
    decreases parts.len(),
{
    if parts.len() == 0 {
        Seq::empty()
    } else if parts.len() == 1 {
        parts[0]
    } else {
        join(parts.drop_last(), sep) + sep + parts.last()
    }
}

/// The free-form text made of the positional arguments that are not files:
/// joined with single spaces, or none when there is no such argument.
pub open spec fn spec_var_text(ps: Seq<Seq<char>>, on_disk: Seq<bool>) -> Option<Seq<char>> {
    let parts = pick(ps, on_disk, false);
    if parts.len() == 0 {
        None
    } else {
        Some(join(parts, " "@))
    }
}

/// The invocation that a successful scan describes, given which positional
/// arguments are files on disk.
pub open spec fn assemble(st: ScanState, on_disk: Seq<bool>) -> ConfigView {
    ConfigView {
        mode: st.mode,
        files: pick(st.positionals, on_disk, true),
        ssh_targets: st.targets,
        ssh_identity: st.identity,
        ssh_tty: st.tty,
        var_text: spec_var_text(st.positionals, on_disk),
    }
}

/// The text of each argument.
pub open spec fn arg_views(args: &[String]) -> Seq<Seq<char>> {
    views(args@)
}

/// `answer` is what probing `path` with [`is_file`] gave: the probe was made
/// on a string with that text and returned `answer`.
pub closed spec fn disk_says_file(path: Seq<char>, answer: bool) -> bool {
    exists|s: &str| s@ == path && #[trigger] call_ensures(is_file, (s,), answer)
}

/// Calls `std::path::Path::is_file` on `path`. Nothing is stated of the
/// result: it depends on what is on disk when the call is made.
#[verifier::external_body]
fn is_file(path: &str) -> bool {
    std::path::Path::new(path).is_file()
}

/// Whether `s` starts with `prefix`.
fn has_prefix(s: &str, prefix: &str) -> (b: bool)
    ensures
        b == prefix@.is_prefix_of(s@),
{
    let x = chars_of(s);
    let p = chars_of(prefix);
    if p.len() > x.len() {
        return false;
    }
    let mut i: usize = 0;
    while i < p.len()
        invariant
            x@ == s@,
            p@ == prefix@,
            p@.len() <= x@.len(),
            i <= p@.len(),
            forall|j: int| 0 <= j < i ==> x@[j] == p@[j],
        decreases p@.len() - i,
    {
        if x[i] != p[i] {
            assert(s@.subrange(0, prefix@.len() as int)[i as int] != prefix@[i as int]);
            return false;
        }
        i = i + 1;
    }
    assert(prefix@ =~= s@.subrange(0, prefix@.len() as int));
    true
}

/// `split_commas` never yields an empty list.
pub proof fn lemma_split_commas_len(s: Seq<char>)
    ensures
        split_commas(s).len() >= 1,
    decreases s.len(),
{
    if s.len() > 0 {
        lemma_split_commas_len(s.drop_last());
    }
}

/// Splits a comma-separated `--show` value into an ordered set of keys.
fn parse_show(value: &str) -> (r: Result<KeySet, CliError>)
    ensures
        match r {
            Ok(keys) => keys.wf() && keys@ == spec_show_keys(value@) && keys@ != Set::<Seq<char>>::empty(),
            Err(e) => e@ == CliErrorView::ShowRequiresKey && spec_show_keys(value@) == Set::<
                Seq<char>,
            >::empty(),
        },
{
    let chars = chars_of(value);
    let n = chars.len();
    let ghost s = value@;
    let mut keys = KeySet::new();
    let mut piece_start: usize = 0;
    let mut i: usize = 0;
    assert(s.take(0) =~= Seq::<char>::empty());
    assert(split_commas(s.take(0)).drop_last() =~= Seq::<Seq<char>>::empty());
    while i < n
        invariant
            chars@ == s,
            s == value@,
            n == s.len(),
            piece_start <= i <= n,
            keys.wf(),
            split_commas(s.take(i as int)).len() >= 1,
            split_commas(s.take(i as int)).last() == s.subrange(piece_start as int, i as int),
            keys@ == keys_of_pieces(split_commas(s.take(i as int)).drop_last()),
        decreases n - i,
    {
        let ghost before = split_commas(s.take(i as int));
        assert(s.take(i + 1).drop_last() =~= s.take(i as int));
        assert(s.take(i + 1).last() == chars@[i as int]);
        if chars[i] == ',' {
            add_trimmed_piece(value, &chars, piece_start, i, &mut keys);
            proof {
                let after = split_commas(s.take(i + 1));
                assert(after == before.push(Seq::empty()));
                assert(after.drop_last() =~= before);
                assert(before =~= before.drop_last().push(before.last()));
            }
            piece_start = i + 1;
            assert(s.subrange(piece_start as int, piece_start as int) =~= Seq::<char>::empty());
        } else {
            proof {
                let after = split_commas(s.take(i + 1));
                assert(after == before.update(before.len() - 1, before.last().push(s[i as int])));
                assert(after.drop_last() =~= before.drop_last());
                assert(after.last() =~= s.subrange(piece_start as int, i + 1));
            }
        }
        i = i + 1;
    }
    add_trimmed_piece(value, &chars, piece_start, n, &mut keys);
    proof {
        let all = split_commas(s.take(n as int));
        assert(s.take(n as int) =~= s);
        assert(all =~= all.drop_last().push(all.last()));
    }
    if keys.is_empty() {
        Err(CliError::ShowRequiresKey)
    } else {
        Ok(keys)
    }
}

/// Adds `value[a..b]`, trimmed, to `keys` unless it is empty.
fn add_trimmed_piece(value: &str, chars: &Vec<char>, a: usize, b: usize, keys: &mut KeySet)
    requires
        chars@ == value@,
        a <= b <= chars@.len(),
        old(keys).wf(),
    ensures
        final(keys).wf(),
        final(keys)@ == ({
            let k = trim(value@.subrange(a as int, b as int));
            if k.len() > 0 {
                old(keys)@.insert(k)
            } else {
                old(keys)@
            }
        }),
{
    let ghost piece = value@.subrange(a as int, b as int);
    let x = skip_class_within(chars, a, b, CharClass::Whitespace);
    let y = skip_class_back(chars, x, b, CharClass::Whitespace);
    assert(trim_start(piece) =~= chars@.subrange(x as int, b as int));
    assert(trim(piece) =~= chars@.subrange(x as int, y as int));
    if x < y {
        keys.insert(value.substring_char(x, y).to_owned());
    }
}

/// The scan state that the variables of the parsing loop stand for.
pub open spec fn scan_state_of(
    mode: Mode,
    ssh: bool,
    identity: Option<String>,
    tty: bool,
    positionals: Seq<String>,
    targets: Seq<String>,
) -> ScanState {
    ScanState {
        mode: mode@,
        ssh,
        identity: opt_string_view(identity),
        tty,
        positionals: views(positionals),
        targets: views(targets),
    }
}

/// Parses the CLI arguments into a [`Config`].
///
/// `-h`/`--help` surfaces [`CliError::HelpRequested`]; the caller decides
/// the exit code and whether output goes to stdout.
///
/// Which positional arguments are files is asked of the file system: every
/// positional argument but `-` is probed with `Path::is_file`, and it is a
/// file exactly when the probe says so; `-` is always a file. The result is
/// the invocation that the scan describes for those answers.
pub fn parse_args(args: &[String]) -> (r: Result<Config, CliError>)
    ensures
        match r {
            Ok(cfg) => {
                &&& cfg.wf()
                &&& spec_scan_args(arg_views(args)) matches Ok(st)
                &&& exists|on_disk: Seq<bool>|
                    {
                        &&& on_disk.len() == st.positionals.len()
                        &&& forall|i: int|
                            0 <= i < on_disk.len() && st.positionals[i] != "-"@
                                ==> disk_says_file(#[trigger] st.positionals[i], on_disk[i])
                        &&& cfg@ == assemble(st, on_disk)
                    }
            },
            Err(e) => spec_scan_args(arg_views(args)) == Err::<ScanState, CliErrorView>(e@),
        },
{
    let mut mode = Mode::Mask;
    let mut ssh_mode = false;
    let mut ssh_identity: Option<String> = None;
    let mut ssh_tty = false;
    let mut positionals: Vec<String> = Vec::new();
    let mut ssh_targets: Vec<String> = Vec::new();
    let ghost argv = arg_views(args);
    assert(views(positionals@) =~= Seq::<Seq<char>>::empty());
    assert(views(ssh_targets@) =~= Seq::<Seq<char>>::empty());
    let mut i: usize = 0;
    while i < args.len()
        invariant
            argv == arg_views(args),
            i <= args@.len(),
            mode.wf(),
            spec_scan_args(argv) == scan(
                argv,
                i as int,
                scan_state_of(mode, ssh_mode, ssh_identity, ssh_tty, positionals@, ssh_targets@),
            ),
        decreases args@.len() - i,
    {
        let arg = args[i].as_str();
        assert(arg@ == argv[i as int]);
        let ghost st = scan_state_of(
            mode,
            ssh_mode,
            ssh_identity,
            ssh_tty,
            positionals@,
            ssh_targets@,
        );
        if same_key(arg, "-h") || same_key(arg, "--help") {
            return Err(CliError::HelpRequested);
        } else if same_key(arg, "--all") {
            mode = Mode::All;
        } else if same_key(arg, "--keys") {
            mode = Mode::Keys;
        } else if same_key(arg, "-S") || same_key(arg, "--ssh") {
            ssh_mode = true;
        } else if same_key(arg, "-t") {
            ssh_tty = true;
        } else if same_key(arg, "-i") {
            if i + 1 >= args.len() {
                return Err(CliError::MissingValue("-i"));
            }
            assert(args@[i + 1]@ == argv[i + 1]);
            ssh_identity = Some(args[i + 1].clone());
            i = i + 1;
        } else if same_key(arg, "--show") {
            if i + 1 >= args.len() {
                return Err(CliError::ShowMissingValue);
            }
            assert(args@[i + 1]@ == argv[i + 1]);
            match parse_show(args[i + 1].as_str()) {
                Ok(keys) => {
                    mode = Mode::Show(keys);
                },
                Err(e) => {
                    return Err(e);
                },
            }
            i = i + 1;
        } else if has_prefix(arg, "--show=") {
            proof {
                reveal_strlit("--show=");
            }
            let rest = arg.substring_char(7, arg.unicode_len());
            assert(rest@ =~= arg@.skip("--show="@.len() as int));
            match parse_show(rest) {
                Ok(keys) => {
                    mode = Mode::Show(keys);
                },
                Err(e) => {
                    return Err(e);
                },
            }
        } else if arg.unicode_len() > 0 && arg.get_char(0) == '-' && !same_key(arg, "-") {
            return Err(CliError::UnknownFlag(arg.to_owned()));
        } else if ssh_mode {
            let ghost before = ssh_targets@;
            ssh_targets.push(arg.to_owned());
            assert(views(ssh_targets@) =~= views(before).push(arg@));
        } else {
            let ghost before = positionals@;
            positionals.push(arg.to_owned());
            assert(views(positionals@) =~= views(before).push(arg@));
        }
        i = i + 1;
    }
    let ghost st = scan_state_of(mode, ssh_mode, ssh_identity, ssh_tty, positionals@, ssh_targets@);
    let mut on_disk: Vec<bool> = Vec::new();
    let mut k: usize = 0;
    while k < positionals.len()
        invariant
            k <= positionals@.len(),
            on_disk@.len() == k,
            forall|j: int|
                0 <= j < k && positionals@[j]@ != "-"@ ==> disk_says_file(
                    #[trigger] positionals@[j]@,
                    on_disk@[j],
                ),
        decreases positionals@.len() - k,
    {
        let p = positionals[k].as_str();
        let f = if same_key(p, "-") {
            true
        } else {
            is_file(p)
        };
        assert(!(p@ == "-"@) ==> disk_says_file(p@, f));
        on_disk.push(f);
        k = k + 1;
    }
    assert(forall|j: int|
        0 <= j < on_disk@.len() && st.positionals[j] != "-"@ ==> disk_says_file(
            #[trigger] st.positionals[j],
            on_disk@[j],
        )) by {
        assert forall|j: int|
            0 <= j < on_disk@.len() && st.positionals[j] != "-"@ implies disk_says_file(
            #[trigger] st.positionals[j],
            on_disk@[j],
        ) by {
            assert(st.positionals[j] == positionals@[j]@);
        }
    }
    let (files, var_text) = split_positionals(&positionals, &on_disk);
    let cfg = Config { mode, files, ssh_targets, ssh_identity, ssh_tty, var_text };
    assert(cfg@ == assemble(st, on_disk@));
    Ok(cfg)
}

/// Splits the positional arguments into files and the free-form text made
/// of the others; `on_disk[i]` tells whether `positionals[i]` is a file on
/// disk (`-`, standard input, always counts as a file).
pub fn split_positionals(positionals: &Vec<String>, on_disk: &Vec<bool>) -> (r: (
    Vec<String>,
    Option<String>,
))
    requires
        on_disk@.len() == positionals@.len(),
    ensures
        views(r.0@) == pick(views(positionals@), on_disk@, true),
        opt_string_view(r.1) == spec_var_text(views(positionals@), on_disk@),
{
    let ghost ps = views(positionals@);
    let mut files: Vec<String> = Vec::new();
    let mut others: Vec<String> = Vec::new();
    let mut k: usize = 0;
    assert(ps.take(0) =~= Seq::<Seq<char>>::empty());
    assert(views(files@) =~= Seq::<Seq<char>>::empty());
    assert(views(others@) =~= Seq::<Seq<char>>::empty());
    while k < positionals.len()
        invariant
            ps == views(positionals@),
            on_disk@.len() == positionals@.len(),
            k <= positionals@.len(),
            views(files@) == pick(ps.take(k as int), on_disk@.take(k as int), true),
            views(others@) == pick(ps.take(k as int), on_disk@.take(k as int), false),
        decreases positionals@.len() - k,
    {
        let p = &positionals[k];
        assert(p@ == ps[k as int]);
        assert(ps.take(k + 1).drop_last() =~= ps.take(k as int));
        assert(on_disk@.take(k + 1).drop_last() =~= on_disk@.take(k as int));
        if same_key(p.as_str(), "-") || on_disk[k] {
            let ghost before = files@;
            files.push(p.clone());
            assert(views(files@) =~= views(before).push(p@));
        } else {
            let ghost before = others@;
            others.push(p.clone());
            assert(views(others@) =~= views(before).push(p@));
        }
        k = k + 1;
    }
    assert(ps.take(k as int) =~= ps);
    assert(on_disk@.take(k as int) =~= on_disk@);
    if others.len() == 0 {
        (files, None)
    } else {
        (files, Some(join_with_spaces(&others)))
    }
}

/// The strings joined with single spaces between them.
fn join_with_spaces(parts: &Vec<String>) -> (s: String)
    requires
        parts@.len() > 0,
    ensures
        s@ == join(views(parts@), " "@),
{
    let ghost ps = views(parts@);
    let mut s = parts[0].clone();
    assert(ps.take(1) =~= seq![ps[0]]);
    let mut m: usize = 1;
    while m < parts.len()
        invariant
            ps == views(parts@),
            1 <= m <= parts@.len(),
            s@ == join(ps.take(m as int), " "@),
        decreases parts@.len() - m,
    {
        s.append(" ");
        s.append(parts[m].as_str());
        assert(ps.take(m + 1).drop_last() =~= ps.take(m as int));
        assert(ps.take(m + 1).last() == parts@[m as int]@);
        m = m + 1;
    }
    assert(ps.take(m as int) =~= ps);
    s
}

} // verus!
