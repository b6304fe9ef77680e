//! Properties of the library as a whole, proved over the specifications
//! that the functions' contracts use.

use vstd::prelude::*;
use crate::cli::{
    CliErrorView, ConfigView, Mode, ModeView, ScanState, assemble, is_file_arg, keys_of_pieces, pick,
    lemma_split_commas_len, scan, scan_start, spec_scan_args, spec_show_keys, split_commas,
    with_mode,
};
use crate::disclose::{revealed_lines, spec_missing};
use crate::keys::{
    KeySet, key_lt, lemma_key_lt_irreflexive, lemma_key_lt_trichotomy, strictly_increasing,
};
use crate::mask::{
    export_word, mask_suffix, name_len, spec_extract_pairs, spec_mask_line, spec_parse_assignment,
    strip_export,
};
use crate::plan::{SourceView, spec_sources};
use crate::ssh::{RemoteView, spec_parse_target, spec_ssh_args};
use crate::text::{
    CharClass, in_class, is_ascii_ws, is_ident_continue_char, is_ident_start_char,
    is_unicode_whitespace, leading, lemma_leading, lemma_leading_exact, lemma_trailing_exact,
    lemma_trim_idempotent, lemma_trim_subrange, trim, trim_end, trim_start,
};

verus! {

/// A variable name: an ASCII letter or `_`, then ASCII letters, digits and `_`.
pub open spec fn is_name(n: Seq<char>) -> bool {
    &&& n.len() > 0
    &&& is_ident_start_char(n[0])
    &&& forall|i: int| 0 <= i < n.len() ==> is_ident_continue_char(#[trigger] n[i])
}

/// The text of the assignment `name=value`.
pub open spec fn assignment_text(name: Seq<char>, value: Seq<char>) -> Seq<char> {
    name + seq!['='] + value
}

/// Characters of names are neither whitespace nor `=`.
proof fn lemma_name_char(c: char)
    requires
        is_ident_continue_char(c),
    ensures
        !is_unicode_whitespace(c),
        !is_ascii_ws(c),
        c != '=',
        c != ':',
{
}

/// A sequence that starts with a character outside the class has no run of it.
proof fn lemma_leading_zero(s: Seq<char>, k: CharClass)
    requires
        s.len() > 0,
        !in_class(s[0], k),
    ensures
        leading(s, k) == 0,
{
}

/// Parsing `name=value` gives back the name and the value without its
/// surrounding whitespace.
pub proof fn lemma_parse_assignment_text(name: Seq<char>, value: Seq<char>)
    requires
        is_name(name),
    ensures
        spec_parse_assignment(assignment_text(name, value)) == Some((name, trim(value))),
{
    let line = assignment_text(name, value);
    let n = name.len();
    assert(line[0] == name[0]);
    lemma_name_char(name[0]);
    lemma_leading_zero(line, CharClass::Whitespace);
    assert(trim_start(line) =~= line);
    lemma_strip_export_of_name(name, seq!['='] + value);
    assert(strip_export(line) == line);
    // the name runs to the `=`
    let d = line.drop_first();
    assert forall|i: int| 0 <= i < n - 1 implies in_class(#[trigger] d[i], CharClass::IdentContinue) by {
        assert(d[i] == name[i + 1]);
    }
    assert(d[n - 1] == '=');
    lemma_leading_exact(d, CharClass::IdentContinue, n - 1);
    assert(name_len(line) == n);
    let rest = line.skip(n as int);
    assert(rest[0] == '=');
    lemma_leading_zero(rest, CharClass::Whitespace);
    assert(trim_start(rest) =~= rest);
    assert(rest.skip(1) =~= value);
    assert(line.take(n as int) =~= name);
}

/// Text that starts with a name followed by anything else than a name
/// character carries no `export` prefix to strip, unless the name is
/// `export` itself and ASCII whitespace follows it.
proof fn lemma_strip_export_of_name(name: Seq<char>, tail: Seq<char>)
    requires
        is_name(name),
        tail.len() > 0,
        !is_ident_continue_char(tail[0]),
        name != export_word() || !is_ascii_ws(tail[0]),
    ensures
        strip_export(name + tail) == name + tail,
{
    let line = name + tail;
    if line.len() > 6 && line.take(6) == export_word() && is_ascii_ws(line[6]) {
        if name.len() > 6 {
            assert(line[6] == name[6]);
            lemma_name_char(name[6]);
        } else if name.len() == 6 {
            assert(line[6] == tail[0]);
            assert(line.take(6) =~= name);
        } else {
            let m = name.len() as int;
            assert(line[m] == tail[0]);
            assert(line.take(6)[m] == line[m]);
            assert(is_ident_continue_char(export_word()[m]));
        }
    }
}

/// Whitespace characters are not name characters.
proof fn lemma_whitespace_not_name_char(c: char)
    requires
        is_unicode_whitespace(c),
    ensures
        !is_ident_continue_char(c),
        c != '=',
{
    if is_ident_continue_char(c) {
        lemma_name_char(c);
    }
}

/// The run of whitespace that starts `w + rest` is `w` when `rest` starts
/// with anything else.
proof fn lemma_leading_whitespace_run(w: Seq<char>, rest: Seq<char>)
    requires
        forall|i: int| 0 <= i < w.len() ==> is_unicode_whitespace(#[trigger] w[i]),
        rest.len() > 0,
        !is_unicode_whitespace(rest[0]),
    ensures
        leading(w + rest, CharClass::Whitespace) == w.len(),
{
    let s = w + rest;
    assert forall|i: int| 0 <= i < w.len() implies in_class(#[trigger] s[i], CharClass::Whitespace) by {
        assert(s[i] == w[i]);
    }
    assert(s[w.len() as int] == rest[0]);
    lemma_leading_exact(s, CharClass::Whitespace, w.len() as int);
}

/// Any whitespace before a name and between the name and its `=` is
/// skipped: `w0 + name + w1 + "=" + value` parses to the name and the
/// trimmed value, and masks to `name=###` and a newline. (The name `export`
/// followed by whitespace reads as the `export` prefix instead.)
pub proof fn lemma_parse_spaced_assignment(
    w0: Seq<char>,
    name: Seq<char>,
    w1: Seq<char>,
    value: Seq<char>,
)
    requires
        is_name(name),
        forall|i: int| 0 <= i < w0.len() ==> is_unicode_whitespace(#[trigger] w0[i]),
        forall|i: int| 0 <= i < w1.len() ==> is_unicode_whitespace(#[trigger] w1[i]),
        name != export_word() || w1.len() == 0,
    ensures
        spec_parse_assignment(w0 + name + w1 + seq!['='] + value) == Some((name, trim(value))),
        spec_mask_line(w0 + name + w1 + seq!['='] + value) == name + mask_suffix(),
{
    let tail = w1 + seq!['='] + value;
    let t = name + tail;
    let line = w0 + name + w1 + seq!['='] + value;
    assert(line =~= w0 + t);
    lemma_name_char(name[0]);
    assert(t[0] == name[0]);
    lemma_leading_whitespace_run(w0, t);
    assert(trim_start(line) =~= t);
    // what follows the name: whitespace or the `=`
    if w1.len() > 0 {
        assert(tail[0] == w1[0]);
        lemma_whitespace_not_name_char(w1[0]);
    } else {
        assert(tail[0] == '=');
    }
    lemma_strip_export_of_name(name, tail);
    assert(strip_export(t) == t);
    // the name runs to the end of `name`
    let n = name.len() as int;
    let d = t.drop_first();
    assert forall|i: int| 0 <= i < n - 1 implies in_class(#[trigger] d[i], CharClass::IdentContinue) by {
        assert(d[i] == name[i + 1]);
    }
    assert(d[n - 1] == tail[0]);
    lemma_leading_exact(d, CharClass::IdentContinue, n - 1);
    assert(name_len(t) == n);
    assert(t.skip(n) =~= tail);
    assert(t.take(n) =~= name);
    // the whitespace after it runs to the `=`
    let eq_value = seq!['='] + value;
    assert(tail =~= w1 + eq_value);
    lemma_leading_whitespace_run(w1, eq_value);
    assert(trim_start(tail) =~= eq_value);
    assert(eq_value.skip(1) =~= value);
}

/// Parsing `export name=value` gives back the name and the trimmed value.
pub proof fn lemma_parse_exported_assignment(name: Seq<char>, value: Seq<char>)
    requires
        is_name(name),
    ensures
        spec_parse_assignment(export_word() + seq![' '] + assignment_text(name, value)) == Some(
            (name, trim(value)),
        ),
{
    let inner = assignment_text(name, value);
    let line = export_word() + seq![' '] + inner;
    lemma_parse_assignment_text(name, value);
    assert(line[0] == 'e');
    lemma_leading_zero(line, CharClass::Whitespace);
    assert(trim_start(line) =~= line);
    assert(line.take(6) =~= export_word());
    assert(line[6] == ' ');
    let after = line.skip(6);
    assert(after[0] == ' ');
    let d = after.drop_first();
    assert(d =~= inner);
    assert(inner[0] == name[0]);
    lemma_name_char(name[0]);
    lemma_leading_zero(inner, CharClass::Whitespace);
    assert(leading(after, CharClass::Whitespace) == 1);
    assert(trim_start(after) =~= inner);
    assert(strip_export(line) == inner);
    assert(strip_export(trim_start(inner)) == inner) by {
        assert(trim_start(inner) =~= inner);
    }
}

/// The name that parsing finds is a variable name.
pub proof fn lemma_parsed_name_is_name(line: Seq<char>)
    ensures
        spec_parse_assignment(line) matches Some((name, _)) ==> is_name(name),
{
    let r = strip_export(trim_start(line));
    if spec_parse_assignment(line) is Some {
        let n = name_len(r);
        let name = r.take(n as int);
        lemma_leading(r.drop_first(), CharClass::IdentContinue);
        assert forall|i: int| 0 <= i < name.len() implies is_ident_continue_char(
            #[trigger] name[i],
        ) by {
            if i > 0 {
                assert(name[i] == r.drop_first()[i - 1]);
                assert(in_class(r.drop_first()[i - 1], CharClass::IdentContinue));
            }
        }
    }
}

/// `###` and a newline, trimmed, is `###`.
proof fn lemma_trim_mask_value()
    ensures
        trim(seq!['#', '#', '#', '\n']) == seq!['#', '#', '#'],
{
    let s = seq!['#', '#', '#', '\n'];
    lemma_leading_zero(s, CharClass::Whitespace);
    assert(trim_start(s) =~= s);
    lemma_trailing_exact(s, CharClass::Whitespace, 1);
    assert(trim_end(s) =~= seq!['#', '#', '#']);
}

/// Masking is idempotent: a masked line masks to itself.
pub proof fn lemma_mask_idempotent(line: Seq<char>)
    ensures
        spec_mask_line(spec_mask_line(line)) == spec_mask_line(line),
{
    match spec_parse_assignment(line) {
        Some((name, _)) => {
            lemma_parsed_name_is_name(line);
            let m = name + mask_suffix();
            let v = seq!['#', '#', '#', '\n'];
            assert(m =~= assignment_text(name, v));
            lemma_parse_assignment_text(name, v);
            lemma_trim_mask_value();
        },
        None => {},
    }
}

/// Masking shows nothing of a value: two assignments to the same name mask
/// to the same line, whatever their values.
pub proof fn lemma_mask_hides_value(a: Seq<char>, b: Seq<char>, name: Seq<char>)
    requires
        spec_parse_assignment(a) matches Some((n, _)) && n == name,
        spec_parse_assignment(b) matches Some((n, _)) && n == name,
    ensures
        spec_mask_line(a) == spec_mask_line(b),
{
}

/// Masking `name=value` gives `name=###` and a newline.
pub proof fn lemma_mask_assignment_text(name: Seq<char>, value: Seq<char>)
    requires
        is_name(name),
    ensures
        spec_mask_line(assignment_text(name, value)) == name + mask_suffix(),
{
    lemma_parse_assignment_text(name, value);
}

/// A pair with a variable name and a value without ASCII whitespace.
pub open spec fn well_formed_pair(p: (Seq<char>, Seq<char>)) -> bool {
    &&& is_name(p.0)
    &&& forall|j: int| 0 <= j < p.1.len() ==> !is_ascii_ws(#[trigger] p.1[j])
}

/// Every pair found in free-form text has a variable name and a value
/// without ASCII whitespace.
pub proof fn lemma_extracted_pairs_well_formed(s: Seq<char>)
    ensures
        forall|i: int|
            0 <= i < spec_extract_pairs(s).len() ==> well_formed_pair(
                #[trigger] spec_extract_pairs(s)[i],
            ),
    decreases s.len(),
{
    if s.len() == 0 {
    } else if !is_ident_start_char(s[0]) {
        lemma_extracted_pairs_well_formed(s.drop_first());
        assert(spec_extract_pairs(s) == spec_extract_pairs(s.drop_first()));
    } else {
        let n = name_len(s);
        let after = s.skip(n as int);
        let w = leading(after, CharClass::AsciiWhitespace);
        lemma_leading(s.drop_first(), CharClass::IdentContinue);
        if w < after.len() && after[w as int] == '=' {
            let rest = after.skip(w + 1 as int);
            let val = rest.skip(leading(rest, CharClass::AsciiWhitespace) as int);
            let vl = leading(val, CharClass::NotAsciiWhitespace);
            lemma_leading(rest, CharClass::AsciiWhitespace);
            lemma_leading(val, CharClass::NotAsciiWhitespace);
            lemma_extracted_pairs_well_formed(val.skip(vl as int));
            assert(forall|i: int|
                0 <= i < spec_extract_pairs(val.skip(vl as int)).len() ==> well_formed_pair(
                    #[trigger] spec_extract_pairs(val.skip(vl as int))[i],
                ));
            let name = s.take(n as int);
            let v = val.take(vl as int);
            assert forall|i: int| 0 <= i < name.len() implies is_ident_continue_char(
                #[trigger] name[i],
            ) by {
                if i > 0 {
                    assert(name[i] == s.drop_first()[i - 1]);
                    assert(in_class(s.drop_first()[i - 1], CharClass::IdentContinue));
                }
            }
            assert forall|j: int| 0 <= j < v.len() implies !is_ascii_ws(#[trigger] v[j]) by {
                assert(v[j] == val[j]);
                assert(in_class(val[j], CharClass::NotAsciiWhitespace));
            }
            assert(well_formed_pair((name, v)));
            let tail = spec_extract_pairs(val.skip(vl as int));
            assert(spec_extract_pairs(s) == seq![(name, v)] + tail);
            assert forall|i: int| 0 <= i < spec_extract_pairs(s).len() implies well_formed_pair(
                #[trigger] spec_extract_pairs(s)[i],
            ) by {
                if i > 0 {
                    assert(spec_extract_pairs(s)[i] == tail[i - 1]);
                }
            }
        } else {
            lemma_extracted_pairs_well_formed(after);
            assert(spec_extract_pairs(s) == spec_extract_pairs(after));
        }
    }
}

/// In `--keys` mode only names are printed, one per assignment.
pub proof fn lemma_keys_mode_shows_names_only(entries: Seq<(Seq<char>, Seq<char>)>)
    ensures
        revealed_lines(entries, ModeView::Keys) == entries.map_values(
            |e: (Seq<char>, Seq<char>)| e.0,
        ),
    decreases entries.len(),
{
    if entries.len() > 0 {
        lemma_keys_mode_shows_names_only(entries.drop_last());
        assert(entries.map_values(|e: (Seq<char>, Seq<char>)| e.0) =~= entries.drop_last().map_values(
            |e: (Seq<char>, Seq<char>)| e.0,
        ).push(entries.last().0));
    } else {
        assert(entries.map_values(|e: (Seq<char>, Seq<char>)| e.0) =~= Seq::<Seq<char>>::empty());
    }
}

/// In mask mode nothing is revealed.
pub proof fn lemma_mask_mode_reveals_nothing(entries: Seq<(Seq<char>, Seq<char>)>)
    ensures
        revealed_lines(entries, ModeView::Mask) == Seq::<Seq<char>>::empty(),
    decreases entries.len(),
{
    if entries.len() > 0 {
        lemma_mask_mode_reveals_nothing(entries.drop_last());
    }
}

/// In `--show` mode exactly the assignments to requested names are
/// printed, as `name=value`, in order.
pub proof fn lemma_show_mode_reveals_requested(
    entries: Seq<(Seq<char>, Seq<char>)>,
    keys: Set<Seq<char>>,
)
    ensures
        revealed_lines(entries, ModeView::Show(keys)) == entries.filter(
            |e: (Seq<char>, Seq<char>)| keys.contains(e.0),
        ).map_values(|e: (Seq<char>, Seq<char>)| e.0 + "="@ + e.1),
    decreases entries.len(),
{
    reveal(Seq::filter);
    let f = |e: (Seq<char>, Seq<char>)| e.0 + "="@ + e.1;
    let p = |e: (Seq<char>, Seq<char>)| keys.contains(e.0);
    if entries.len() > 0 {
        lemma_show_mode_reveals_requested(entries.drop_last(), keys);
        let sub = entries.drop_last().filter(p);
        if p(entries.last()) {
            assert(sub.push(entries.last()).map_values(f) =~= sub.map_values(f).push(
                f(entries.last()),
            ));
        }
    } else {
        assert(entries.filter(p).map_values(f) =~= Seq::<Seq<char>>::empty());
    }
}

/// A filter leaves nothing exactly when no element passes it.
proof fn lemma_filter_empty(s: Seq<Seq<char>>, p: spec_fn(Seq<char>) -> bool)
    ensures
        (s.filter(p).len() == 0) == (forall|i: int| 0 <= i < s.len() ==> !p(#[trigger] s[i])),
    decreases s.len(),
{
    reveal(Seq::filter);
    if s.len() > 0 {
        lemma_filter_empty(s.drop_last(), p);
        s.drop_last().lemma_filter_len(p);
        if forall|i: int| 0 <= i < s.len() ==> !p(#[trigger] s[i]) {
            assert forall|i: int| 0 <= i < s.drop_last().len() implies !p(
                #[trigger] s.drop_last()[i],
            ) by {
                assert(s.drop_last()[i] == s[i]);
            }
        } else if !p(s.last()) {
            let i = choose|i: int| 0 <= i < s.len() && p(#[trigger] s[i]);
            assert(s.drop_last()[i] == s[i]);
        }
    }
}

/// A `--show` run succeeds, with no key reported missing, exactly when
/// every requested key was found.
pub proof fn lemma_show_succeeds_iff_all_found(mode: Mode, names: Set<Seq<char>>)
    requires
        mode is Show,
        mode.wf(),
    ensures
        (spec_missing(mode, names).len() == 0) == (mode->Show_0@.subset_of(names)),
{
    let keys = mode->Show_0;
    let o = keys.ordered();
    let p = |k: Seq<char>| !names.contains(k);
    lemma_filter_empty(o, p);
    if forall|i: int| 0 <= i < o.len() ==> !p(#[trigger] o[i]) {
        assert forall|k: Seq<char>| keys@.contains(k) implies names.contains(k) by {
            let i = choose|i: int| 0 <= i < o.len() && o[i] == k;
            assert(!p(o[i]));
        }
    }
    if keys@.subset_of(names) {
        assert forall|i: int| 0 <= i < o.len() implies !p(#[trigger] o[i]) by {
            assert(keys@.contains(o[i]));
        }
    }
}

/// Parsing a target takes it apart at its first `:`: a file target is its
/// host, `:` and its path, with a host that holds no `:`; an environment
/// target is its host, which holds no `:`.
pub proof fn lemma_target_parts(arg: Seq<char>)
    ensures
        match spec_parse_target(arg) {
            Some(RemoteView::File { host, path }) => {
                &&& arg == host + seq![':'] + path
                &&& !host.contains(':')
                &&& host.len() > 0
                &&& path.len() > 0
            },
            Some(RemoteView::Env { host }) => arg == host && !host.contains(':') && host.len() > 0,
            None => true,
        },
{
    let k = leading(arg, CharClass::NotColon);
    lemma_leading(arg, CharClass::NotColon);
    if k < arg.len() {
        let host = arg.take(k as int);
        let path = arg.skip(k + 1 as int);
        assert(arg =~= host + seq![':'] + path);
        assert forall|i: int| 0 <= i < host.len() implies host[i] != ':' by {
            assert(in_class(arg[i], CharClass::NotColon));
        }
    } else {
        assert forall|i: int| 0 <= i < arg.len() implies arg[i] != ':' by {
            assert(in_class(arg[i], CharClass::NotColon));
        }
    }
}

/// A host without `:` and a path, joined by `:`, parse back into that file
/// target; a host without `:` alone parses back into its environment target.
pub proof fn lemma_target_round_trip(host: Seq<char>, path: Seq<char>)
    requires
        host.len() > 0,
        !host.contains(':'),
    ensures
        path.len() > 0 ==> spec_parse_target(host + seq![':'] + path) == Some(
            RemoteView::File { host, path },
        ),
        spec_parse_target(host) == Some(RemoteView::Env { host }),
{
    let arg = host + seq![':'] + path;
    assert forall|i: int| 0 <= i < host.len() implies in_class(
        #[trigger] arg[i],
        CharClass::NotColon,
    ) by {
        assert(arg[i] == host[i]);
        if host[i] == ':' {
            assert(host.contains(':'));
        }
    }
    assert(arg[host.len() as int] == ':');
    lemma_leading_exact(arg, CharClass::NotColon, host.len() as int);
    assert(arg.take(host.len() as int) =~= host);
    assert(arg.skip(host.len() + 1 as int) =~= path);
    assert forall|i: int| 0 <= i < host.len() implies in_class(
        #[trigger] host[i],
        CharClass::NotColon,
    ) by {
        if host[i] == ':' {
            assert(host.contains(':'));
        }
    }
    lemma_leading_exact(host, CharClass::NotColon, host.len() as int);
}

/// An argument that selects no mode.
pub open spec fn selects_no_mode(a: Seq<char>) -> bool {
    a != "--all"@ && a != "--keys"@ && a != "--show"@ && !"--show="@.is_prefix_of(a)
}

/// The scan keeps the mode of its state when no argument selects one.
proof fn lemma_scan_keeps_mode(args: Seq<Seq<char>>, i: int, st: ScanState)
    requires
        forall|j: int| 0 <= j < args.len() ==> selects_no_mode(#[trigger] args[j]),
    ensures
        scan(args, i, st) matches Ok(end) ==> end.mode == st.mode,
    decreases args.len() - i,
{
    if 0 <= i < args.len() {
        assert(selects_no_mode(args[i]));
        if i + 1 < args.len() {
            lemma_scan_keeps_mode(args, i + 2, ScanState { identity: Some(args[i + 1]), ..st });
        }
        lemma_scan_keeps_mode(args, i + 1, ScanState { ssh: true, ..st });
        lemma_scan_keeps_mode(args, i + 1, ScanState { tty: true, ..st });
        lemma_scan_keeps_mode(args, i + 1, ScanState { targets: st.targets.push(args[i]), ..st });
        lemma_scan_keeps_mode(
            args,
            i + 1,
            ScanState { positionals: st.positionals.push(args[i]), ..st },
        );
    }
}

/// Masking is the default: without `--all`, `--keys` or `--show`, a
/// successful parse is in mask mode.
pub proof fn lemma_mask_is_default(args: Seq<Seq<char>>)
    requires
        forall|j: int| 0 <= j < args.len() ==> selects_no_mode(#[trigger] args[j]),
    ensures
        spec_scan_args(args) matches Ok(st) ==> st.mode == ModeView::Mask,
{
    lemma_scan_keeps_mode(args, 0, scan_start());
}

/// In `--all` mode every assignment is printed as `name=value`, in order.
pub proof fn lemma_all_mode_shows_everything(entries: Seq<(Seq<char>, Seq<char>)>)
    ensures
        revealed_lines(entries, ModeView::All) == entries.map_values(
            |e: (Seq<char>, Seq<char>)| e.0 + "="@ + e.1,
        ),
    decreases entries.len(),
{
    let f = |e: (Seq<char>, Seq<char>)| e.0 + "="@ + e.1;
    if entries.len() > 0 {
        lemma_all_mode_shows_everything(entries.drop_last());
        assert(entries.map_values(f) =~= entries.drop_last().map_values(f).push(
            f(entries.last()),
        ));
    } else {
        assert(entries.map_values(f) =~= Seq::<Seq<char>>::empty());
    }
}

/// No piece between commas holds a comma.
proof fn lemma_split_commas_no_comma(s: Seq<char>)
    ensures
        forall|i: int| 0 <= i < split_commas(s).len() ==> !(#[trigger] split_commas(s)[i]).contains(
            ',',
        ),
    decreases s.len(),
{
    if s.len() > 0 {
        let p = split_commas(s.drop_last());
        lemma_split_commas_no_comma(s.drop_last());
        lemma_split_commas_len(s.drop_last());
        if s.last() != ',' {
            let q = split_commas(s);
            assert forall|i: int| 0 <= i < q.len() implies !(#[trigger] q[i]).contains(',') by {
                if i == p.len() - 1 {
                    let x = p.last().push(s.last());
                    assert(q[i] == x);
                    if x.contains(',') {
                        let j = choose|j: int| 0 <= j < x.len() && x[j] == ',';
                        if j < x.len() - 1 {
                            assert(p.last()[j] == x[j]);
                            assert(p.last().contains(','));
                        }
                    }
                } else {
                    assert(q[i] == p[i]);
                }
            }
        } else {
            let q = split_commas(s);
            assert forall|i: int| 0 <= i < q.len() implies !(#[trigger] q[i]).contains(',') by {
                if i < p.len() {
                    assert(q[i] == p[i]);
                } else {
                    assert(q[i] =~= Seq::<char>::empty());
                }
            }
        }
    }
}

/// Every key of a list of pieces is one of the pieces, trimmed and non-empty.
proof fn lemma_keys_of_pieces(pieces: Seq<Seq<char>>, k: Seq<char>)
    requires
        keys_of_pieces(pieces).contains(k),
    ensures
        exists|i: int| 0 <= i < pieces.len() && trim(#[trigger] pieces[i]) == k && k.len() > 0,
    decreases pieces.len(),
{
    if pieces.len() > 0 {
        let rest = keys_of_pieces(pieces.drop_last());
        if rest.contains(k) {
            lemma_keys_of_pieces(pieces.drop_last(), k);
            let i = choose|i: int|
                0 <= i < pieces.drop_last().len() && trim(#[trigger] pieces.drop_last()[i]) == k
                    && k.len() > 0;
            assert(pieces[i] == pieces.drop_last()[i]);
        } else {
            assert(trim(pieces[pieces.len() - 1]) == k);
        }
    }
}

/// The keys that `--show` names are non-empty, carry no surrounding
/// whitespace and hold no comma.
pub proof fn lemma_show_keys_are_clean(value: Seq<char>, k: Seq<char>)
    requires
        spec_show_keys(value).contains(k),
    ensures
        k.len() > 0,
        trim(k) == k,
        !k.contains(','),
{
    let ps = split_commas(value);
    lemma_keys_of_pieces(ps, k);
    let i = choose|i: int| 0 <= i < ps.len() && trim(#[trigger] ps[i]) == k && k.len() > 0;
    lemma_split_commas_no_comma(value);
    assert(!ps[i].contains(','));
    lemma_trim_idempotent(ps[i]);
    lemma_trim_subrange(ps[i]);
    if k.contains(',') {
        let j = choose|j: int| 0 <= j < k.len() && k[j] == ',';
        let l = leading(ps[i], CharClass::Whitespace);
        assert(k[j] == ps[i][l + j]);
        assert(ps[i].contains(','));
    }
}

/// Two strictly increasing sequences with the same elements are equal.
proof fn lemma_increasing_unique(s: Seq<Seq<char>>, t: Seq<Seq<char>>)
    requires
        strictly_increasing(s),
        strictly_increasing(t),
        s.to_set() == t.to_set(),
    ensures
        s == t,
    decreases s.len(),
{
    if s.len() == 0 {
        if t.len() > 0 {
            assert(t.to_set().contains(t[0]));
        }
        assert(s =~= t);
    } else {
        assert(s.to_set().contains(s[0]));
        assert(t.to_set().contains(s[0]));
        let j = choose|j: int| 0 <= j < t.len() && t[j] == s[0];
        assert(t.to_set().contains(t[0]));
        assert(s.to_set().contains(t[0]));
        let i = choose|i: int| 0 <= i < s.len() && s[i] == t[0];
        // s[0] and t[0] are both the least element
        if j > 0 {
            assert(key_lt(t[0], t[j]));
            if i > 0 {
                assert(key_lt(s[0], s[i]));
                lemma_key_lt_trichotomy(s[0], t[0]);
            } else {
                lemma_key_lt_irreflexive(s[0]);
            }
        }
        assert(s[0] == t[0]);
        let s1 = s.drop_first();
        let t1 = t.drop_first();
        assert forall|x: Seq<char>| s1.to_set().contains(x) <==> t1.to_set().contains(x) by {
            if s1.to_set().contains(x) {
                let a = choose|a: int| 0 <= a < s1.len() && s1[a] == x;
                assert(s.to_set().contains(x)) by {
                    assert(s[a + 1] == x);
                }
                let b = choose|b: int| 0 <= b < t.len() && t[b] == x;
                assert(key_lt(s[0], s[a + 1]));
                if b == 0 {
                    lemma_key_lt_irreflexive(x);
                }
                assert(t1[b - 1] == x);
            }
            if t1.to_set().contains(x) {
                let a = choose|a: int| 0 <= a < t1.len() && t1[a] == x;
                assert(t.to_set().contains(x)) by {
                    assert(t[a + 1] == x);
                }
                let b = choose|b: int| 0 <= b < s.len() && s[b] == x;
                assert(key_lt(t[0], t[a + 1]));
                if b == 0 {
                    lemma_key_lt_irreflexive(x);
                }
                assert(s1[b - 1] == x);
            }
        }
        assert(s1.to_set() =~= t1.to_set());
        assert forall|a: int, b: int| 0 <= a < b < s1.len() implies key_lt(
            #[trigger] s1[a],
            #[trigger] s1[b],
        ) by {
            assert(s1[a] == s[a + 1] && s1[b] == s[b + 1]);
        }
        assert forall|a: int, b: int| 0 <= a < b < t1.len() implies key_lt(
            #[trigger] t1[a],
            #[trigger] t1[b],
        ) by {
            assert(t1[a] == t[a + 1] && t1[b] == t[b + 1]);
        }
        lemma_increasing_unique(s1, t1);
        assert(s =~= seq![s[0]] + s1);
        assert(t =~= seq![t[0]] + t1);
    }
}

/// A key set lists its names in one way only: two well-formed sets with the
/// same names list them in the same order.
pub proof fn lemma_key_set_order_determined(a: KeySet, b: KeySet)
    requires
        a.wf(),
        b.wf(),
        a@ == b@,
    ensures
        a.ordered() == b.ordered(),
{
    lemma_increasing_unique(a.ordered(), b.ordered());
}

/// A scan that gets through `p` from `i` without failing goes on over
/// `p + r` from where the scan of `p` ended, in the state it ended in.
proof fn lemma_scan_prefix(p: Seq<Seq<char>>, r: Seq<Seq<char>>, i: int, st: ScanState)
    requires
        0 <= i <= p.len(),
        scan(p, i, st) is Ok,
    ensures
        scan(p + r, i, st) == scan(p + r, p.len() as int, scan(p, i, st)->Ok_0),
    decreases p.len() - i,
{
    let args = p + r;
    if i < p.len() {
        let a = p[i];
        assert(args[i] == a);
        if i + 1 < p.len() {
            assert(args[i + 1] == p[i + 1]);
        }
        if a == "-h"@ || a == "--help"@ {
        } else if a == "--all"@ {
            lemma_scan_prefix(p, r, i + 1, with_mode(st, ModeView::All));
        } else if a == "--keys"@ {
            lemma_scan_prefix(p, r, i + 1, with_mode(st, ModeView::Keys));
        } else if a == "-S"@ || a == "--ssh"@ {
            lemma_scan_prefix(p, r, i + 1, ScanState { ssh: true, ..st });
        } else if a == "-t"@ {
            lemma_scan_prefix(p, r, i + 1, ScanState { tty: true, ..st });
        } else if a == "-i"@ {
            lemma_scan_prefix(p, r, i + 2, ScanState { identity: Some(p[i + 1]), ..st });
        } else if a == "--show"@ {
            let keys = spec_show_keys(p[i + 1]);
            lemma_scan_prefix(p, r, i + 2, with_mode(st, ModeView::Show(keys)));
        } else if "--show="@.is_prefix_of(a) {
            let keys = spec_show_keys(a.skip("--show="@.len() as int));
            lemma_scan_prefix(p, r, i + 1, with_mode(st, ModeView::Show(keys)));
        } else if a.len() > 0 && a[0] == '-' && a != "-"@ {
        } else if st.ssh {
            lemma_scan_prefix(p, r, i + 1, ScanState { targets: st.targets.push(a), ..st });
        } else {
            lemma_scan_prefix(
                p,
                r,
                i + 1,
                ScanState { positionals: st.positionals.push(a), ..st },
            );
        }
    }
}

/// A help flag ends parsing with a request for help, whatever follows it,
/// once the arguments before it parse.
pub proof fn lemma_help_ends_parsing(p: Seq<Seq<char>>, h: Seq<char>, q: Seq<Seq<char>>)
    requires
        spec_scan_args(p) is Ok,
        h == "-h"@ || h == "--help"@,
    ensures
        spec_scan_args(p + seq![h] + q) == Err::<ScanState, CliErrorView>(
            CliErrorView::HelpRequested,
        ),
{
    let args = p + seq![h] + q;
    assert(args =~= p + (seq![h] + q));
    lemma_scan_prefix(p, seq![h] + q, 0, scan_start());
    assert(args[p.len() as int] == h);
}

/// Every other flag differs from the mode flags, and the mode flags from one another.
proof fn lemma_flag_literals()
    ensures
        "--all"@ != "-h"@,
        "--all"@ != "--help"@,
        "--keys"@ != "-h"@,
        "--keys"@ != "--help"@,
        "--keys"@ != "--all"@,
        "--show"@ != "-h"@,
        "--show"@ != "--help"@,
        "--show"@ != "--all"@,
        "--show"@ != "--keys"@,
        "--show"@ != "-S"@,
        "--show"@ != "--ssh"@,
        "--show"@ != "-t"@,
        "--show"@ != "-i"@,
        "-h"@.len() < 7,
        "--help"@.len() < 7,
        "--all"@.len() < 7,
        "--keys"@.len() < 7,
        "-S"@.len() < 7,
        "--ssh"@.len() < 7,
        "-t"@.len() < 7,
        "-i"@.len() < 7,
        "--show"@.len() < 7,
        "--show="@.len() == 7,
{
    reveal_strlit("-h");
    reveal_strlit("--help");
    reveal_strlit("--all");
    reveal_strlit("--keys");
    reveal_strlit("--show");
    reveal_strlit("--show=");
    reveal_strlit("-S");
    reveal_strlit("--ssh");
    reveal_strlit("-t");
    reveal_strlit("-i");
    assert("--all"@.len() != "-h"@.len());
    assert("--all"@.len() != "--help"@.len());
    assert("--keys"@.len() != "-h"@.len());
    assert("--keys"@[2] != "--help"@[2]);
    assert("--keys"@.len() != "--all"@.len());
    assert("--show"@.len() != "-h"@.len());
    assert("--show"@[2] != "--help"@[2]);
    assert("--show"@.len() != "--all"@.len());
    assert("--show"@[2] != "--keys"@[2]);
    assert("--show"@.len() != "-S"@.len());
    assert("--show"@.len() != "--ssh"@.len());
    assert("--show"@.len() != "-t"@.len());
    assert("--show"@.len() != "-i"@.len());
}

/// Changing the mode of a scan state changes only the mode of the
/// invocation it describes.
proof fn lemma_assemble_with_mode(st: ScanState, m: ModeView)
    ensures
        forall|d: Seq<bool>|
            #[trigger] assemble(with_mode(st, m), d) == (ConfigView { mode: m, ..assemble(st, d) }),
{
}

/// A mode flag appended to arguments that parse sets the mode, the last one
/// winning, and changes nothing else: `--all`, `--keys`, and `--show` with
/// its value as the next argument or after `=` (an error when the value
/// names no key).
pub proof fn lemma_mode_flag_appended(p: Seq<Seq<char>>, v: Seq<char>)
    requires
        spec_scan_args(p) is Ok,
    ensures
        ({
            let st = spec_scan_args(p)->Ok_0;
            &&& spec_scan_args(p.push("--all"@)) == Ok::<ScanState, CliErrorView>(
                with_mode(st, ModeView::All),
            )
            &&& spec_scan_args(p.push("--keys"@)) == Ok::<ScanState, CliErrorView>(
                with_mode(st, ModeView::Keys),
            )
            &&& spec_scan_args(p.push("--show="@ + v)) == if spec_show_keys(v) == Set::<
                Seq<char>,
            >::empty() {
                Err::<ScanState, CliErrorView>(CliErrorView::ShowRequiresKey)
            } else {
                Ok(with_mode(st, ModeView::Show(spec_show_keys(v))))
            }
            &&& spec_scan_args(p + seq!["--show"@, v]) == if spec_show_keys(v) == Set::<
                Seq<char>,
            >::empty() {
                Err::<ScanState, CliErrorView>(CliErrorView::ShowRequiresKey)
            } else {
                Ok(with_mode(st, ModeView::Show(spec_show_keys(v))))
            }
            &&& forall|m: ModeView, d: Seq<bool>|
                #[trigger] assemble(with_mode(st, m), d) == (ConfigView {
                    mode: m,
                    ..assemble(st, d)
                })
        }),
{
    let st = spec_scan_args(p)->Ok_0;
    let n = p.len() as int;
    lemma_flag_literals();
    // `--all`
    let a1 = p.push("--all"@);
    assert(a1 =~= p + seq!["--all"@]);
    lemma_scan_prefix(p, seq!["--all"@], 0, scan_start());
    assert(a1[n] == "--all"@);
    assert(scan(a1, n, st) == scan(a1, n + 1, with_mode(st, ModeView::All)));
    // `--keys`
    let a2 = p.push("--keys"@);
    assert(a2 =~= p + seq!["--keys"@]);
    lemma_scan_prefix(p, seq!["--keys"@], 0, scan_start());
    assert(a2[n] == "--keys"@);
    assert(scan(a2, n, st) == scan(a2, n + 1, with_mode(st, ModeView::Keys)));
    // `--show=V`
    let w = "--show="@ + v;
    let a3 = p.push(w);
    assert(a3 =~= p + seq![w]);
    lemma_scan_prefix(p, seq![w], 0, scan_start());
    assert(a3[n] == w);
    assert("--show="@.is_prefix_of(w)) by {
        assert(w.subrange(0, 7) =~= "--show="@);
    }
    assert(w.skip("--show="@.len() as int) =~= v);
    assert(w.len() >= 7);
    let k = spec_show_keys(v);
    assert(w != "-h"@ && w != "--help"@ && w != "--all"@ && w != "--keys"@ && w != "-S"@ && w
        != "--ssh"@ && w != "-t"@ && w != "-i"@ && w != "--show"@);
    if k == Set::<Seq<char>>::empty() {
        assert(scan(a3, n, st) == Err::<ScanState, CliErrorView>(CliErrorView::ShowRequiresKey));
    } else {
        assert(scan(a3, n, st) == scan(a3, n + 1, with_mode(st, ModeView::Show(k))));
    }
    // `--show V`
    let a4 = p + seq!["--show"@, v];
    lemma_scan_prefix(p, seq!["--show"@, v], 0, scan_start());
    assert(a4[n] == "--show"@);
    assert(a4[n + 1] == v);
    if k == Set::<Seq<char>>::empty() {
        assert(scan(a4, n, st) == Err::<ScanState, CliErrorView>(CliErrorView::ShowRequiresKey));
    } else {
        assert(scan(a4, n, st) == scan(a4, n + 2, with_mode(st, ModeView::Show(k))));
    }
    assert forall|m: ModeView, d: Seq<bool>|
        #[trigger] assemble(with_mode(st, m), d) == (ConfigView {
            mode: m,
            ..assemble(st, d)
        }) by {
        lemma_assemble_with_mode(st, m);
    }
}

/// A pair that joins and extracts back: a variable name and a non-empty
/// value without ASCII whitespace.
pub open spec fn joinable_pair(p: (Seq<char>, Seq<char>)) -> bool {
    &&& is_name(p.0)
    &&& p.1.len() > 0
    &&& forall|j: int| 0 <= j < p.1.len() ==> !is_ascii_ws(#[trigger] p.1[j])
}

/// The pairs written as `NAME=VALUE` and joined with single spaces.
pub open spec fn pairs_text(ps: Seq<(Seq<char>, Seq<char>)>) -> Seq<char>
    decreases ps.len(),
{
    if ps.len() == 0 {
        Seq::empty()
    } else if ps.len() == 1 {
        assignment_text(ps[0].0, ps[0].1)
    } else {
        assignment_text(ps[0].0, ps[0].1) + seq![' '] + pairs_text(ps.drop_first())
    }
}

/// Joining pairs and extracting them gives the same pairs back, in order.
pub proof fn lemma_extract_pairs_round_trip(ps: Seq<(Seq<char>, Seq<char>)>)
    requires
        forall|i: int| 0 <= i < ps.len() ==> joinable_pair(#[trigger] ps[i]),
    ensures
        spec_extract_pairs(pairs_text(ps)) == ps,
    decreases ps.len(),
{
    if ps.len() == 0 {
        assert(spec_extract_pairs(pairs_text(ps)) =~= ps);
    } else {
        let name = ps[0].0;
        let v = ps[0].1;
        assert(joinable_pair(ps[0]));
        let tail = if ps.len() == 1 {
            Seq::<char>::empty()
        } else {
            seq![' '] + pairs_text(ps.drop_first())
        };
        let s = pairs_text(ps);
        let m = name.len() as int;
        assert(s =~= name + seq!['='] + v + tail);
        // the name
        assert(s[0] == name[0]);
        let d = s.drop_first();
        assert forall|i: int| 0 <= i < m - 1 implies in_class(
            #[trigger] d[i],
            CharClass::IdentContinue,
        ) by {
            assert(d[i] == name[i + 1]);
        }
        assert(d[m - 1] == '=');
        lemma_leading_exact(d, CharClass::IdentContinue, m - 1);
        assert(name_len(s) == m);
        // the `=` right after it
        let after = s.skip(m);
        assert(after[0] == '=');
        lemma_leading_zero(after, CharClass::AsciiWhitespace);
        // the value right after the `=`
        let rest = after.skip(1);
        assert(rest =~= v + tail);
        assert(rest[0] == v[0]);
        lemma_leading_zero(rest, CharClass::AsciiWhitespace);
        assert(rest.skip(0) =~= rest);
        assert forall|j: int| 0 <= j < v.len() implies in_class(
            #[trigger] rest[j],
            CharClass::NotAsciiWhitespace,
        ) by {
            assert(rest[j] == v[j]);
        }
        if tail.len() > 0 {
            assert(rest[v.len() as int] == ' ');
        }
        lemma_leading_exact(rest, CharClass::NotAsciiWhitespace, v.len() as int);
        assert(rest.take(v.len() as int) =~= v);
        assert(rest.skip(v.len() as int) =~= tail);
        assert(s.take(m) =~= name);
        assert(spec_extract_pairs(s) == seq![(name, v)] + spec_extract_pairs(tail));
        if ps.len() == 1 {
            assert(spec_extract_pairs(s) =~= ps);
        } else {
            let rest_pairs = ps.drop_first();
            assert forall|i: int| 0 <= i < rest_pairs.len() implies joinable_pair(
                #[trigger] rest_pairs[i],
            ) by {
                assert(rest_pairs[i] == ps[i + 1]);
            }
            lemma_extract_pairs_round_trip(rest_pairs);
            assert(tail[0] == ' ');
            assert(tail.drop_first() =~= pairs_text(rest_pairs));
            assert(spec_extract_pairs(tail) == spec_extract_pairs(tail.drop_first()));
            assert(spec_extract_pairs(s) =~= ps);
        }
    }
}

/// The layout of the `ssh` arguments: an identity, when given, comes first
/// as `-i` and the key, whether or not a terminal is forced; `-tt` comes next
/// exactly when a terminal is forced; then the host, `--` and the remote
/// command, argument for argument. Forcing a terminal only adds `-tt`.
pub proof fn lemma_ssh_args_layout(
    host: Seq<char>,
    cmd: Seq<Seq<char>>,
    identity: Option<Seq<char>>,
    tty: bool,
)
    ensures
        ({
            let a = spec_ssh_args(host, cmd, identity, tty);
            let k: int = if identity is Some {
                2
            } else {
                0
            };
            let t: int = if tty {
                1
            } else {
                0
            };
            &&& a.len() == k + t + 2 + cmd.len()
            &&& identity matches Some(key) ==> a[0] == "-i"@ && a[1] == key
            &&& tty ==> a[k] == "-tt"@
            &&& a[k + t] == host
            &&& a[k + t + 1] == "--"@
            &&& forall|j: int| 0 <= j < cmd.len() ==> a[k + t + 2 + j] == cmd[j]
            &&& spec_ssh_args(host, cmd, identity, true) == spec_ssh_args(
                host,
                cmd,
                identity,
                false,
            ).insert(k, "-tt"@)
        }),
{
    let a = spec_ssh_args(host, cmd, identity, tty);
    let k: int = if identity is Some {
        2
    } else {
        0
    };
    let t: int = if tty {
        1
    } else {
        0
    };
    let id_part: Seq<Seq<char>> = match identity {
        Some(key) => seq!["-i"@, key],
        None => Seq::empty(),
    };
    let tty_part: Seq<Seq<char>> = if tty {
        seq!["-tt"@]
    } else {
        Seq::empty()
    };
    assert(a == id_part + tty_part + seq![host, "--"@] + cmd);
    assert(a[k + t] == host);
    assert(a[k + t + 1] == "--"@);
    assert forall|j: int| 0 <= j < cmd.len() implies a[k + t + 2 + j] == cmd[j] by {}
    let with_tty = spec_ssh_args(host, cmd, identity, true);
    let without = spec_ssh_args(host, cmd, identity, false);
    assert(with_tty =~= id_part + seq!["-tt"@] + seq![host, "--"@] + cmd);
    assert(without =~= id_part + Seq::<Seq<char>>::empty() + seq![host, "--"@] + cmd);
    assert(with_tty =~= without.insert(k, "-tt"@));
}

/// Every file and every SSH target of an invocation is read, in order: the
/// files first, then the targets; masking then reads the free-form text, if
/// any. The shell environment is read exactly when there is nothing else to
/// read, and then it is the only source.
pub proof fn lemma_sources_read_everything(c: ConfigView)
    ensures
        ({
            let s = spec_sources(c);
            let nf = c.files.len() as int;
            let nt = c.ssh_targets.len() as int;
            let inline = c.mode == ModeView::Mask && c.var_text is Some;
            let nothing = nf == 0 && nt == 0 && !inline;
            &&& forall|i: int| 0 <= i < nf ==> s[i] == SourceView::File(c.files[i])
            &&& forall|j: int| 0 <= j < nt ==> s[nf + j] == SourceView::Remote(c.ssh_targets[j])
            &&& inline ==> s[nf + nt] == SourceView::Inline(c.var_text->Some_0)
            &&& s.len() == nf + nt + (if inline {
                1int
            } else {
                0int
            }) + (if nothing {
                1int
            } else {
                0int
            })
            &&& nothing ==> s == seq![SourceView::Environment]
            &&& !nothing ==> forall|i: int| 0 <= i < s.len() ==> s[i] != SourceView::Environment
        }),
{
    let s = spec_sources(c);
    let nf = c.files.len() as int;
    let nt = c.ssh_targets.len() as int;
    let listed = c.files.map_values(|f: Seq<char>| SourceView::File(f)) + c.ssh_targets.map_values(
        |t: Seq<char>| SourceView::Remote(t),
    );
    assert(listed.len() == nf + nt);
    assert forall|i: int| 0 <= i < listed.len() implies listed[i] != SourceView::Environment by {
        if i < nf {
            assert(listed[i] == SourceView::File(c.files[i]));
        } else {
            assert(listed[i] == SourceView::Remote(c.ssh_targets[i - nf]));
        }
    }
    match c.mode {
        ModeView::Mask => {
            match c.var_text {
                Some(t) => {
                    let all = listed + seq![SourceView::Inline(t)];
                    assert(s == all);
                    assert(all[nf + nt] == SourceView::Inline(t));
                    assert forall|i: int| 0 <= i < nf implies s[i] == SourceView::File(c.files[i]) by {
                        assert(all[i] == listed[i]);
                    }
                    assert forall|j: int| 0 <= j < nt implies s[nf + j] == SourceView::Remote(
                        c.ssh_targets[j],
                    ) by {
                        assert(all[nf + j] == listed[nf + j]);
                    }
                    assert forall|i: int| 0 <= i < s.len() implies s[i] != SourceView::Environment by {
                        if i < listed.len() {
                            assert(all[i] == listed[i]);
                        }
                    }
                },
                None => {
                    assert(listed + Seq::<SourceView>::empty() =~= listed);
                },
            }
        },
        _ => {},
    }
}

/// Splitting at a comma splits the pieces: the pieces of `a + "," + b` are
/// those of `a` followed by those of `b`.
proof fn lemma_split_commas_concat(a: Seq<char>, b: Seq<char>)
    ensures
        split_commas(a + seq![','] + b) == split_commas(a) + split_commas(b),
    decreases b.len(),
{
    let s = a + seq![','] + b;
    if b.len() == 0 {
        assert(s =~= (a + seq![',']));
        assert(s.drop_last() =~= a);
        assert(split_commas(b) =~= seq![Seq::<char>::empty()]);
        assert(split_commas(a).push(Seq::empty()) =~= split_commas(a) + seq![Seq::<char>::empty()]);
    } else {
        let b1 = b.drop_last();
        lemma_split_commas_concat(a, b1);
        lemma_split_commas_len(b1);
        assert(s.drop_last() =~= a + seq![','] + b1);
        assert(s.last() == b.last());
        let pa = split_commas(a);
        let pb = split_commas(b1);
        if b.last() == ',' {
            assert((pa + pb).push(Seq::empty()) =~= pa + pb.push(Seq::empty()));
        } else {
            let q = pa + pb;
            assert(q.last() == pb.last());
            assert(q.update(q.len() - 1, q.last().push(b.last())) =~= pa + pb.update(
                pb.len() - 1,
                pb.last().push(b.last()),
            ));
        }
    }
}

/// Text without a comma is a single piece.
proof fn lemma_split_commas_single(p: Seq<char>)
    requires
        !p.contains(','),
    ensures
        split_commas(p) == seq![p],
    decreases p.len(),
{
    if p.len() == 0 {
        assert(p =~= Seq::<char>::empty());
        assert(split_commas(p) =~= seq![p]);
    } else {
        let p1 = p.drop_last();
        assert(!p1.contains(',')) by {
            if p1.contains(',') {
                let j = choose|j: int| 0 <= j < p1.len() && p1[j] == ',';
                assert(p[j] == ',');
            }
        }
        lemma_split_commas_single(p1);
        assert(p.last() != ',') by {
            assert(p[p.len() - 1] == p.last());
        }
        assert(p1.push(p.last()) =~= p);
        assert(seq![p1].update(0, p1.push(p.last())) =~= seq![p]);
    }
}

/// Every piece of a list, trimmed, is a key when it is not empty.
proof fn lemma_keys_of_pieces_contains(pieces: Seq<Seq<char>>, i: int)
    requires
        0 <= i < pieces.len(),
        trim(pieces[i]).len() > 0,
    ensures
        keys_of_pieces(pieces).contains(trim(pieces[i])),
    decreases pieces.len(),
{
    if i < pieces.len() - 1 {
        assert(pieces.drop_last()[i] == pieces[i]);
        lemma_keys_of_pieces_contains(pieces.drop_last(), i);
    }
}

/// Every comma-separated piece of a `--show` value names a key once
/// trimmed, unless it is empty then: when `value` is `x + p + y` with no
/// comma in `p`, `x` empty or ending in a comma, and `y` empty or starting
/// with one, `trim(p)` is a key.
pub proof fn lemma_show_keys_complete(x: Seq<char>, p: Seq<char>, y: Seq<char>)
    requires
        !p.contains(','),
        x.len() == 0 || x.last() == ',',
        y.len() == 0 || y[0] == ',',
        trim(p).len() > 0,
    ensures
        spec_show_keys(x + p + y).contains(trim(p)),
{
    lemma_split_commas_single(p);
    // the pieces of `p + y`
    let right = if y.len() == 0 {
        assert(p + y =~= p);
        seq![p]
    } else {
        let y1 = y.drop_first();
        assert(p + y =~= p + seq![','] + y1);
        lemma_split_commas_concat(p, y1);
        seq![p] + split_commas(y1)
    };
    assert(split_commas(p + y) == right);
    assert(right[0] == p);
    // the pieces of `x + p + y`
    let all = if x.len() == 0 {
        assert(x + p + y =~= p + y);
        right
    } else {
        let x1 = x.drop_last();
        assert(x + p + y =~= x1 + seq![','] + (p + y));
        lemma_split_commas_concat(x1, p + y);
        split_commas(x1) + right
    };
    assert(split_commas(x + p + y) == all);
    let idx = all.len() - right.len();
    assert(all[idx] == p);
    lemma_keys_of_pieces_contains(all, idx);
}

/// The positional arguments paired with what the file system said of each.
pub open spec fn with_answers(ps: Seq<Seq<char>>, on_disk: Seq<bool>) -> Seq<(Seq<char>, bool)> {
    Seq::new(ps.len(), |i: int| (ps[i], on_disk[i]))
}

/// The files of an invocation are its positional arguments that are `-` or
/// that the file system called files, and the rest form its free-form text,
/// each side keeping the order of the command line.
pub proof fn lemma_files_are_the_file_arguments(ps: Seq<Seq<char>>, on_disk: Seq<bool>, files: bool)
    requires
        on_disk.len() == ps.len(),
    ensures
        pick(ps, on_disk, files) == with_answers(ps, on_disk).filter(
            |e: (Seq<char>, bool)| (e.0 == "-"@ || e.1) == files,
        ).map_values(|e: (Seq<char>, bool)| e.0),
    decreases ps.len(),
{
    reveal(Seq::filter);
    let sel = |e: (Seq<char>, bool)| (e.0 == "-"@ || e.1) == files;
    let first = |e: (Seq<char>, bool)| e.0;
    let z = with_answers(ps, on_disk);
    if ps.len() == 0 {
        assert(z.filter(sel).map_values(first) =~= Seq::<Seq<char>>::empty());
    } else {
        let ps1 = ps.drop_last();
        let d1 = on_disk.drop_last();
        lemma_files_are_the_file_arguments(ps1, d1, files);
        assert(z.drop_last() =~= with_answers(ps1, d1));
        assert(z.last() == (ps.last(), on_disk.last()));
        let sub = z.drop_last().filter(sel);
        if sel(z.last()) {
            assert(sub.push(z.last()).map_values(first) =~= sub.map_values(first).push(ps.last()));
        }
        assert(is_file_arg(ps.last(), on_disk.last()) == (ps.last() == "-"@ || on_disk.last()));
    }
}

} // verus!
