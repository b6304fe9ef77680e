//! Parsing and masking of environment assignments.
//!
//! Nothing here does I/O: a line goes in, its parsed or masked form comes out.

use std::borrow::Cow;
use vstd::prelude::*;
use crate::keys::views;
use crate::text::{
    CharClass, chars_of, is_ascii_whitespace, is_ascii_ws, is_ident_start, is_ident_start_char, leading,
    lemma_leading, skip_class, skip_class_back, trim, trim_start,
};

verus! {

/// The word that may prefix an assignment, as in `export KEY=value`.
pub open spec fn export_word() -> Seq<char> {
    seq!['e', 'x', 'p', 'o', 'r', 't']
}

/// What replaces the value of a masked line, the `=` and the newline included.
pub open spec fn mask_suffix() -> Seq<char> {
    seq!['=', '#', '#', '#', '\n']
}

/// The length of the variable name that starts `r`: an ASCII letter or `_`
/// followed by ASCII letters, digits and `_`; 0 when `r` starts with none.
pub open spec fn name_len(r: Seq<char>) -> nat {
    if r.len() > 0 && is_ident_start_char(r[0]) {
        1 + leading(r.drop_first(), CharClass::IdentContinue)
    } else {
        0
    }
}

/// `t` (already trimmed at its start) without an `export` prefix: the
/// prefix counts only when ASCII whitespace follows it, and the whitespace
/// after it goes too.
pub open spec fn strip_export(t: Seq<char>) -> Seq<char> {
    if t.len() > 6 && t.take(6) == export_word() && is_ascii_ws(t[6]) {
        trim_start(t.skip(6))
    } else {
        t
    }
}

/// The assignment that `line` holds, if it holds one: `(name, value)`.
///
/// Leading whitespace and an `export ` prefix are skipped; the name is
/// followed, after optional whitespace, by `=`; the value is the rest of the
/// line without surrounding whitespace.
pub open spec fn spec_parse_assignment(line: Seq<char>) -> Option<(Seq<char>, Seq<char>)> {
    let r = strip_export(trim_start(line));
    let n = name_len(r);
    let after = trim_start(r.skip(n as int));
    if n > 0 && after.len() > 0 && after[0] == '=' {
        Some((r.take(n as int), trim(after.skip(1))))
    } else {
        None
    }
}

/// A masked line: `NAME=###` and a newline for an assignment, the line
/// itself otherwise.
pub open spec fn spec_mask_line(line: Seq<char>) -> Seq<char> {
    match spec_parse_assignment(line) {
        Some((name, _)) => name + mask_suffix(),
        None => line,
    }
}

/// The `NAME=VALUE` pairs of free-form text, scanned from left to right.
///
/// A name starts at an ASCII letter or `_`; it counts as a pair when, after
/// optional ASCII whitespace, `=` follows it. The value then starts after
/// optional ASCII whitespace and ends before the next ASCII whitespace.
/// Scanning resumes after the value, or after the name when no `=` follows.
pub open spec fn spec_extract_pairs(s: Seq<char>) -> Seq<(Seq<char>, Seq<char>)>
    decreases s.len(),
{
    if s.len() == 0 {
        Seq::empty()
    } else if !is_ident_start_char(s[0]) {
        spec_extract_pairs(s.drop_first())
    } else {
        let n = name_len(s);
        let after = s.skip(n as int);
        let w = leading(after, CharClass::AsciiWhitespace);
        proof {
            lemma_leading(s.drop_first(), CharClass::IdentContinue);
        }
        if w < after.len() && after[w as int] == '=' {
            let rest = after.skip(w + 1 as int);
            let val = rest.skip(leading(rest, CharClass::AsciiWhitespace) as int);
            let vl = leading(val, CharClass::NotAsciiWhitespace);
            proof {
                lemma_leading(rest, CharClass::AsciiWhitespace);
                lemma_leading(val, CharClass::NotAsciiWhitespace);
            }
            seq![(s.take(n as int), val.take(vl as int))] + spec_extract_pairs(val.skip(vl as int))
        } else {
            spec_extract_pairs(after)
        }
    }
}

/// The names and values of a sequence of string pairs.
pub open spec fn pair_views(v: Seq<(&str, &str)>) -> Seq<(Seq<char>, Seq<char>)> {
    v.map_values(|p: (&str, &str)| (p.0@, p.1@))
}

/// How the scan of [`spec_extract_pairs`] proceeds at `s[i..]` when a name
/// starts there and ends at `e`, ASCII whitespace runs to `j`, and `s[j]`
/// is `=`: the pair of `s[i..e]` and `s[v0..v1]` comes next.
proof fn lemma_extract_pair_step(s: Seq<char>, i: int, e: int, j: int, v0: int, v1: int)
    requires
        0 <= i < e <= j < s.len(),
        is_ident_start_char(s[i]),
        s[j] == '=',
        e == i + 1 + leading(s.skip(i + 1), CharClass::IdentContinue),
        j == e + leading(s.skip(e), CharClass::AsciiWhitespace),
        v0 == j + 1 + leading(s.skip(j + 1), CharClass::AsciiWhitespace),
        v1 == v0 + leading(s.skip(v0), CharClass::NotAsciiWhitespace),
        v1 <= s.len(),
    ensures
        spec_extract_pairs(s.skip(i)) == seq![(s.subrange(i, e), s.subrange(v0, v1))]
            + spec_extract_pairs(s.skip(v1)),
{
    let t = s.skip(i);
    assert(t[0] == s[i]);
    assert(t.drop_first() =~= s.skip(i + 1));
    let after = t.skip(e - i);
    assert(after =~= s.skip(e));
    assert(after[j - e] == s[j]);
    let rest = after.skip(j - e + 1);
    assert(rest =~= s.skip(j + 1));
    let val = rest.skip(v0 - j - 1);
    assert(val =~= s.skip(v0));
    assert(val.take(v1 - v0) =~= s.subrange(v0, v1));
    assert(val.skip(v1 - v0) =~= s.skip(v1));
    assert(t.take(e - i) =~= s.subrange(i, e));
}

/// How the scan of [`spec_extract_pairs`] proceeds at `s[i..]` when a name
/// starts there and ends at `e` but no `=` follows it: it resumes at `e`.
proof fn lemma_extract_name_step(s: Seq<char>, i: int, e: int, j: int)
    requires
        0 <= i < e <= j <= s.len(),
        is_ident_start_char(s[i]),
        j == s.len() || s[j] != '=',
        e == i + 1 + leading(s.skip(i + 1), CharClass::IdentContinue),
        j == e + leading(s.skip(e), CharClass::AsciiWhitespace),
    ensures
        spec_extract_pairs(s.skip(i)) == spec_extract_pairs(s.skip(e)),
{
    let t = s.skip(i);
    assert(t[0] == s[i]);
    assert(t.drop_first() =~= s.skip(i + 1));
    let after = t.skip(e - i);
    assert(after =~= s.skip(e));
    if j < s.len() {
        assert(after[j - e] == s[j]);
    }
}

/// How the scan of [`spec_extract_pairs`] proceeds at `s[i..]` when no name
/// starts there: it moves one character on.
proof fn lemma_extract_skip_step(s: Seq<char>, i: int)
    requires
        0 <= i < s.len(),
        !is_ident_start_char(s[i]),
    ensures
        spec_extract_pairs(s.skip(i)) == spec_extract_pairs(s.skip(i + 1)),
{
    let t = s.skip(i);
    assert(t[0] == s[i]);
    assert(t.drop_first() =~= s.skip(i + 1));
}

/// Whether `lit` occurs in `chars` at `pos`.
fn occurs_at(chars: &Vec<char>, pos: usize, lit: &str) -> (b: bool)
    requires
        pos <= chars@.len(),
    ensures
        b == (pos + lit@.len() <= chars@.len() && chars@.subrange(
            pos as int,
            pos + lit@.len(),
        ) == lit@),
{
    let l = chars_of(lit);
    if l.len() > chars.len() - pos {
        return false;
    }
    let clen = chars.len();
    let mut i: usize = 0;
    while i < l.len()
        invariant
            l@ == lit@,
            clen == chars@.len(),
            pos <= chars@.len(),
            pos + l@.len() <= chars@.len(),
            i <= l@.len(),
            forall|j: int| 0 <= j < i ==> chars@[pos + j] == l@[j],
        decreases l@.len() - i,
    {
        if chars[pos + i] != l[i] {
            assert(chars@.subrange(pos as int, pos + lit@.len())[i as int] != lit@[i as int]);
            return false;
        }
        i = i + 1;
    }
    assert(chars@.subrange(pos as int, pos + lit@.len()) =~= lit@);
    true
}

/// Where the text after an `export` prefix starts in `chars[pos..]`, or
/// `pos` when there is no such prefix there.
fn skip_export(chars: &Vec<char>, pos: usize) -> (start: usize)
    requires
        pos <= chars@.len(),
    ensures
        pos <= start <= chars@.len(),
        chars@.skip(start as int) == strip_export(chars@.skip(pos as int)),
{
    let ghost t = chars@.skip(pos as int);
    proof {
        reveal_strlit("export");
        assert("export"@ =~= export_word());
    }
    if chars.len() - pos > 6 && occurs_at(chars, pos, "export") && is_ascii_whitespace(
        chars[pos + 6],
    ) {
        assert(t.take(6) =~= chars@.subrange(pos as int, pos + 6));
        assert(t[6] == chars@[pos + 6]);
        let start = skip_class(chars, pos + 6, CharClass::Whitespace);
        assert(t.skip(6) =~= chars@.skip(pos + 6));
        assert(chars@.skip(start as int) =~= trim_start(t.skip(6)));
        start
    } else {
        proof {
            if t.len() > 6 && t.take(6) == export_word() {
                assert(chars@.subrange(pos as int, pos + 6) =~= t.take(6));
                assert(t[6] == chars@[pos + 6]);
            }
        }
        pos
    }
}

/// Parses a single line as an `NAME=VALUE` assignment.
///
/// Accepts an optional `export ` prefix and whitespace around the `=`.
/// The returned value is trimmed of surrounding whitespace and the
/// trailing newline. Returns `None` when the line is not an assignment.
pub fn parse_assignment(line: &str) -> (r: Option<(&str, &str)>)
    ensures
        r is Some == spec_parse_assignment(line@) is Some,
        r matches Some((name, value)) ==> spec_parse_assignment(line@) == Some((name@, value@)),
{
    let chars = chars_of(line);
    let len = chars.len();
    let ghost s = line@;
    let s0 = skip_class(&chars, 0, CharClass::Whitespace);
    assert(s.skip(0) =~= s);
    let ghost t = trim_start(s);
    assert(t =~= s.skip(s0 as int));
    let start = skip_export(&chars, s0);
    let ghost r = strip_export(t);
    assert(r =~= s.skip(start as int));
    if start >= len || !is_ident_start(chars[start]) {
        return None;
    }
    let e = skip_class(&chars, start + 1, CharClass::IdentContinue);
    assert(r.drop_first() =~= s.skip(start + 1));
    assert(name_len(r) == e - start);
    let a = skip_class(&chars, e, CharClass::Whitespace);
    assert(r.skip(e - start) =~= s.skip(e as int));
    let ghost after = trim_start(r.skip(e - start));
    assert(after =~= s.skip(a as int));
    if a >= len || chars[a] != '=' {
        return None;
    }
    let v0 = skip_class(&chars, a + 1, CharClass::Whitespace);
    assert(after.skip(1) =~= s.skip(a + 1));
    assert(trim_start(after.skip(1)) =~= s.skip(v0 as int));
    let v1 = skip_class_back(&chars, v0, len, CharClass::Whitespace);
    assert(s.skip(v0 as int) =~= chars@.subrange(v0 as int, len as int));
    assert(trim(after.skip(1)) =~= s.subrange(v0 as int, v1 as int));
    assert(r.take(e - start) =~= s.subrange(start as int, e as int));
    let name = line.substring_char(start, e);
    let value = line.substring_char(v0, v1);
    Some((name, value))
}

/// Masks a single line. Assignment lines become `NAME=###`; every other
/// line is returned unchanged. The trailing newline is always preserved
/// as `\n`, so that masked output keeps one line per input line.
pub fn mask_line(line: &str) -> (r: Cow<'_, str>)
    ensures
        r@ == spec_mask_line(line@),
        spec_parse_assignment(line@) is None ==> (r matches Cow::Borrowed(b) && b == line),
        spec_parse_assignment(line@) is Some ==> r is Owned,
{
    match parse_assignment(line) {
        Some((name, _)) => {
            let mut masked = name.to_owned();
            masked.append("=###\n");
            proof {
                reveal_strlit("=###\n");
                assert("=###\n"@ =~= mask_suffix());
            }
            Cow::Owned(masked)
        },
        None => Cow::Borrowed(line),
    }
}

/// Extracts every `NAME=VALUE` pair from free-form text such as
/// `"MINHA_VAR=123 VAR2 = 2"`. Values end at the first whitespace.
pub fn extract_pairs(text: &str) -> (pairs: Vec<(&str, &str)>)
    ensures
        pair_views(pairs@) == spec_extract_pairs(text@),
{
    let chars = chars_of(text);
    let n = chars.len();
    let ghost s = text@;
    let mut pairs: Vec<(&str, &str)> = Vec::new();
    let mut i: usize = 0;
    assert(s.skip(0) =~= s);
    while i < n
        invariant
            chars@ == s,
            s == text@,
            n == s.len(),
            i <= n,
            pair_views(pairs@) + spec_extract_pairs(s.skip(i as int)) == spec_extract_pairs(s),
        decreases n - i,
    {
        if !is_ident_start(chars[i]) {
            proof {
                lemma_extract_skip_step(s, i as int);
            }
            i = i + 1;
        } else {
            let start = i;
            let e = skip_class(&chars, i + 1, CharClass::IdentContinue);
            let j = skip_class(&chars, e, CharClass::AsciiWhitespace);
            if j < n && chars[j] == '=' {
                let v0 = skip_class(&chars, j + 1, CharClass::AsciiWhitespace);
                let v1 = skip_class(&chars, v0, CharClass::NotAsciiWhitespace);
                proof {
                    lemma_extract_pair_step(s, start as int, e as int, j as int, v0 as int, v1 as int);
                }
                let name = text.substring_char(start, e);
                let value = text.substring_char(v0, v1);
                let ghost old_pairs = pairs@;
                pairs.push((name, value));
                assert(pair_views(pairs@) =~= pair_views(old_pairs).push((name@, value@)));
                assert(pair_views(pairs@) + spec_extract_pairs(s.skip(v1 as int)) =~= pair_views(
                    old_pairs,
                ) + spec_extract_pairs(s.skip(start as int)));
                i = v1;
            } else {
                proof {
                    lemma_extract_name_step(s, start as int, e as int, j as int);
                }
                i = e;
            }
        }
    }
    assert(s.skip(n as int) =~= Seq::<char>::empty());
    assert(pair_views(pairs@) + Seq::<(Seq<char>, Seq<char>)>::empty() =~= pair_views(pairs@));
    pairs
}

/// The masked lines for free-form text: `NAME=###` for every pair that
/// [`extract_pairs`] finds, in order, without a newline.
pub fn mask_pairs(text: &str) -> (lines: Vec<String>)
    ensures
        views(lines@) == spec_extract_pairs(text@).map_values(
            |p: (Seq<char>, Seq<char>)| p.0 + "=###"@,
        ),
{
    let pairs = extract_pairs(text);
    let ghost ps = spec_extract_pairs(text@);
    let mut lines: Vec<String> = Vec::new();
    let mut i: usize = 0;
    assert(views(lines@) =~= Seq::<Seq<char>>::empty());
    while i < pairs.len()
        invariant
            pair_views(pairs@) == ps,
            i <= pairs@.len(),
            views(lines@) == ps.take(i as int).map_values(
                |p: (Seq<char>, Seq<char>)| p.0 + "=###"@,
            ),
        decreases pairs@.len() - i,
    {
        let (name, _) = pairs[i];
        assert(ps[i as int].0 == name@);
        let mut l = name.to_owned();
        l.append("=###");
        let ghost before = lines@;
        lines.push(l);
        assert(views(lines@) =~= views(before).push(l@));
        assert(ps.take(i + 1).map_values(|p: (Seq<char>, Seq<char>)| p.0 + "=###"@) =~= ps.take(
            i as int,
        ).map_values(|p: (Seq<char>, Seq<char>)| p.0 + "=###"@).push(name@ + "=###"@));
        i = i + 1;
    }
    assert(ps.take(i as int) =~= ps);
    lines
}

} // verus!
