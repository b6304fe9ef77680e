//! What `--keys`, `--show` and `--all` print.
//!
//! Printing is left to the caller: these functions return the lines to print
//! and the requested keys that were not found.

use vstd::prelude::*;
use crate::cli::{Mode, ModeView};
use crate::keys::{KeySet, views};
use crate::mask::{parse_assignment, spec_parse_assignment};

verus! {

/// The line printed for the assignment `name=value` in mode `mode`: the name
/// alone for `--keys`, `name=value` for `--all`, and `name=value` for
/// `--show` when the name was requested; nothing otherwise.
pub open spec fn spec_reveal_entry(name: Seq<char>, value: Seq<char>, mode: ModeView) -> Option<
    Seq<char>,
> {
    match mode {
        ModeView::Keys => Some(name),
        ModeView::All => Some(name + "="@ + value),
        ModeView::Show(keys) => if keys.contains(name) {
            Some(name + "="@ + value)
        } else {
            None
        },
        ModeView::Mask => None,
    }
}

/// The lines printed for a sequence of assignments, in order.
pub open spec fn revealed_lines(entries: Seq<(Seq<char>, Seq<char>)>, mode: ModeView) -> Seq<
    Seq<char>,
>
    decreases entries.len(),
{
    if entries.len() == 0 {
        Seq::empty()
    } else {
        let rest = revealed_lines(entries.drop_last(), mode);
        match spec_reveal_entry(entries.last().0, entries.last().1, mode) {
            Some(line) => rest.push(line),
            None => rest,
        }
    }
}

/// The names of a sequence of assignments.
pub open spec fn entry_names(entries: Seq<(Seq<char>, Seq<char>)>) -> Set<Seq<char>> {
    entries.map_values(|e: (Seq<char>, Seq<char>)| e.0).to_set()
}

/// The requested keys that none of `names` matches, in increasing order;
/// none outside `--show`.
pub open spec fn spec_missing(mode: Mode, names: Set<Seq<char>>) -> Seq<Seq<char>> {
    match mode {
        Mode::Show(keys) => keys.ordered().filter(|k: Seq<char>| !names.contains(k)),
        _ => Seq::empty(),
    }
}

/// The requested keys that were found among `names`; none outside `--show`.
pub open spec fn found_keys(mode: ModeView, names: Set<Seq<char>>) -> Set<Seq<char>> {
    match mode {
        ModeView::Show(keys) => keys.intersect(names),
        _ => Set::empty(),
    }
}

/// The assignments that a sequence of lines holds, in order.
pub open spec fn assignments_of(lines: Seq<Seq<char>>) -> Seq<(Seq<char>, Seq<char>)>
    decreases lines.len(),
{
    if lines.len() == 0 {
        Seq::empty()
    } else {
        let rest = assignments_of(lines.drop_last());
        match spec_parse_assignment(lines.last()) {
            Some(e) => rest.push(e),
            None => rest,
        }
    }
}

/// The names and values of a sequence of string pairs.
pub open spec fn entry_views(v: Seq<(&str, &str)>) -> Seq<(Seq<char>, Seq<char>)> {
    v.map_values(|p: (&str, &str)| (p.0@, p.1@))
}

/// What a reveal prints: the lines for standard output and the requested
/// keys that were not found.
pub struct Revealed {
    pub lines: Vec<String>,
    pub missing: Vec<String>,
}

/// Prints a single name/value pair according to the active mode, recording
/// any requested key that was found: returns the line to print, if any.
pub fn reveal_entry(name: &str, value: &str, mode: &Mode, seen: &mut KeySet) -> (line: Option<
    String,
>)
    requires
        mode.wf(),
        old(seen).wf(),
    ensures
        final(seen).wf(),
        match line {
            Some(l) => spec_reveal_entry(name@, value@, mode@) == Some(l@),
            None => spec_reveal_entry(name@, value@, mode@) is None,
        },
        final(seen)@ == old(seen)@.union(found_keys(mode@, set![name@])),
{
    match mode {
        Mode::Keys => {
            assert(old(seen)@.union(Set::empty()) =~= old(seen)@);
            Some(name.to_owned())
        },
        Mode::All => {
            assert(old(seen)@.union(Set::empty()) =~= old(seen)@);
            let mut l = name.to_owned();
            l.append("=");
            l.append(value);
            Some(l)
        },
        Mode::Show(keys) => {
            if keys.contains(name) {
                seen.insert(name.to_owned());
                assert(keys@.intersect(set![name@]) =~= set![name@]);
                assert(old(seen)@.insert(name@) =~= old(seen)@.union(set![name@]));
                let mut l = name.to_owned();
                l.append("=");
                l.append(value);
                Some(l)
            } else {
                assert(keys@.intersect(set![name@]) =~= Set::empty());
                assert(old(seen)@.union(Set::empty()) =~= old(seen)@);
                None
            }
        },
        Mode::Mask => {
            assert(old(seen)@.union(Set::empty()) =~= old(seen)@);
            None
        },
    }
}

/// Two filters of one sequence agree when their predicates agree on its elements.
proof fn lemma_filter_congruent(
    s: Seq<Seq<char>>,
    p: spec_fn(Seq<char>) -> bool,
    q: spec_fn(Seq<char>) -> bool,
)
    requires
        forall|i: int| 0 <= i < s.len() ==> p(#[trigger] s[i]) == q(s[i]),
    ensures
        s.filter(p) == s.filter(q),
    decreases s.len(),
{
    reveal(Seq::filter);
    if s.len() > 0 {
        assert forall|i: int| 0 <= i < s.drop_last().len() implies p(
            #[trigger] s.drop_last()[i],
        ) == q(s.drop_last()[i]) by {
            assert(s.drop_last()[i] == s[i]);
        }
        lemma_filter_congruent(s.drop_last(), p, q);
    }
}

/// The requested keys (in `--show` mode) that are not in `seen`, in
/// increasing order; none in any other mode.
pub fn missing_keys(mode: &Mode, seen: &KeySet) -> (missing: Vec<String>)
    requires
        mode.wf(),
        seen.wf(),
    ensures
        views(missing@) == spec_missing(*mode, seen@),
{
    match mode {
        Mode::Show(keys) => keys.difference(seen),
        _ => {
            let v: Vec<String> = Vec::new();
            assert(views(v@) =~= Seq::<Seq<char>>::empty());
            v
        },
    }
}

/// Reveals a sequence of assignments according to the active mode: the
/// lines to print, and the requested keys that none of them names.
pub fn reveal_pairs(entries: &[(&str, &str)], mode: &Mode) -> (r: Revealed)
    requires
        mode.wf(),
    ensures
        views(r.lines@) == revealed_lines(entry_views(entries@), mode@),
        views(r.missing@) == spec_missing(*mode, entry_names(entry_views(entries@))),
{
    let ghost es = entry_views(entries@);
    let mut seen = KeySet::new();
    let mut lines: Vec<String> = Vec::new();
    let mut i: usize = 0;
    assert(es.take(0) =~= Seq::<(Seq<char>, Seq<char>)>::empty());
    assert(views(lines@) =~= Seq::<Seq<char>>::empty());
    assert(entry_names(es.take(0)) =~= Set::<Seq<char>>::empty());
    assert(found_keys(mode@, Set::empty()) =~= Set::<Seq<char>>::empty());
    while i < entries.len()
        invariant
            es == entry_views(entries@),
            i <= entries@.len(),
            mode.wf(),
            seen.wf(),
            views(lines@) == revealed_lines(es.take(i as int), mode@),
            seen@ == found_keys(mode@, entry_names(es.take(i as int))),
        decreases entries@.len() - i,
    {
        let (name, value) = entries[i];
        assert(es[i as int] == (name@, value@));
        let ghost before_lines = lines@;
        let ghost before_seen = seen@;
        let out = reveal_entry(name, value, mode, &mut seen);
        assert(es.take(i + 1).drop_last() =~= es.take(i as int));
        assert(es.take(i + 1).last() == (name@, value@));
        match out {
            Some(l) => {
                lines.push(l);
                assert(views(lines@) =~= views(before_lines).push(l@));
            },
            None => {},
        }
        proof {
            let names_before = entry_names(es.take(i as int));
            let names_after = entry_names(es.take(i + 1));
            assert(es.take(i + 1).map_values(|e: (Seq<char>, Seq<char>)| e.0) =~= es.take(
                i as int,
            ).map_values(|e: (Seq<char>, Seq<char>)| e.0).push(name@));
            es.take(i as int).map_values(
                |e: (Seq<char>, Seq<char>)| e.0,
            ).lemma_push_to_set_commute(name@);
            assert(names_after =~= names_before.insert(name@));
            assert(found_keys(mode@, names_after) =~= found_keys(mode@, names_before).union(
                found_keys(mode@, set![name@]),
            ));
        }
        i = i + 1;
    }
    assert(es.take(i as int) =~= es);
    let missing = missing_keys(mode, &seen);
    proof {
        let names = entry_names(es);
        match mode {
            Mode::Show(keys) => {
                let o = keys.ordered();
                assert forall|j: int| 0 <= j < o.len() implies (!seen@.contains(#[trigger] o[j]))
                    == (!names.contains(o[j])) by {
                    assert(keys@.contains(o[j]));
                }
                lemma_filter_congruent(
                    o,
                    |k: Seq<char>| !seen@.contains(k),
                    |k: Seq<char>| !names.contains(k),
                );
            },
            _ => {},
        }
    }
    Revealed { lines, missing }
}

/// Reveals the assignments of a sequence of lines, such as those of an
/// environment file, according to the active mode. Lines that hold no
/// assignment are skipped.
pub fn reveal_lines(lines: &[String], mode: &Mode) -> (r: Revealed)
    requires
        mode.wf(),
    ensures
        views(r.lines@) == revealed_lines(assignments_of(views(lines@)), mode@),
        views(r.missing@) == spec_missing(*mode, entry_names(assignments_of(views(lines@)))),
{
    let ghost ls = views(lines@);
    let mut entries: Vec<(&str, &str)> = Vec::new();
    let mut i: usize = 0;
    assert(ls.take(0) =~= Seq::<Seq<char>>::empty());
    assert(entry_views(entries@) =~= Seq::<(Seq<char>, Seq<char>)>::empty());
    while i < lines.len()
        invariant
            ls == views(lines@),
            i <= lines@.len(),
            entry_views(entries@) == assignments_of(ls.take(i as int)),
        decreases lines@.len() - i,
    {
        let line = lines[i].as_str();
        assert(line@ == ls[i as int]);
        assert(ls.take(i + 1).drop_last() =~= ls.take(i as int));
        assert(ls.take(i + 1).last() == line@);
        let ghost before = entries@;
        match parse_assignment(line) {
            Some(e) => {
                entries.push(e);
                assert(entry_views(entries@) =~= entry_views(before).push((e.0@, e.1@)));
            },
            None => {},
        }
        i = i + 1;
    }
    assert(ls.take(i as int) =~= ls);
    reveal_pairs(entries.as_slice(), mode)
}

} // verus!
