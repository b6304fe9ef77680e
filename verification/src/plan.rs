//! What an invocation reads, in which order, and what it warns about.
//!
//! The caller reads each source and prints; this module decides.

use vstd::prelude::*;
use crate::cli::{Config, ConfigView, Mode, ModeView, join};
use crate::keys::{
    KeyOrder, compare_keys, key_lt, lemma_key_lt_irreflexive, lemma_key_lt_transitive,
    lemma_key_lt_trichotomy,
};

verus! {

/// Something to read values from.
#[derive(Debug, PartialEq, Eq)]
pub enum Source {
    /// A local file, or standard input for `-`.
    File(String),
    /// An SSH target.
    Remote(String),
    /// Free-form `NAME=VALUE` text from the command line.
    Inline(String),
    /// The current shell environment.
    Environment,
}

/// A source, as text.
pub enum SourceView {
    File(Seq<char>),
    Remote(Seq<char>),
    Inline(Seq<char>),
    Environment,
}

impl View for Source {
    type V = SourceView;

    open spec fn view(&self) -> SourceView {
        match self {
            Source::File(p) => SourceView::File(p@),
            Source::Remote(t) => SourceView::Remote(t@),
            Source::Inline(t) => SourceView::Inline(t@),
            Source::Environment => SourceView::Environment,
        }
    }
}

/// The views of a sequence of sources.
pub open spec fn source_views(v: Seq<Source>) -> Seq<SourceView> {
    v.map_values(|s: Source| s@)
}

/// The files, then the SSH targets, of an invocation.
pub open spec fn listed_sources(c: ConfigView) -> Seq<SourceView> {
    c.files.map_values(|f: Seq<char>| SourceView::File(f)) + c.ssh_targets.map_values(
        |t: Seq<char>| SourceView::Remote(t),
    )
}

/// The sources of an invocation, in the order they are read.
///
/// Masking reads the files, the SSH targets and then the free-form text;
/// revealing reads the files and the SSH targets (free-form text plays no
/// part). Either falls back to the shell environment when it has nothing else.
pub open spec fn spec_sources(c: ConfigView) -> Seq<SourceView> {
    match c.mode {
        ModeView::Mask => {
            let all = listed_sources(c) + match c.var_text {
                Some(t) => seq![SourceView::Inline(t)],
                None => Seq::empty(),
            };
            if all.len() == 0 {
                seq![SourceView::Environment]
            } else {
                all
            }
        },
        _ => {
            let all = listed_sources(c);
            if all.len() == 0 {
                seq![SourceView::Environment]
            } else {
                all
            }
        },
    }
}

/// The warning printed before real values are revealed: the keys about to
/// be shown, in increasing order, for `--show`; a general one for `--all`;
/// none otherwise.
pub open spec fn spec_reveal_warning(mode: Mode) -> Option<Seq<char>> {
    match mode {
        Mode::Show(keys) => Some(
            "\u{26a0} hidenv: revealing real value of: "@ + join(keys.ordered(), ", "@)
                + ". Be careful when pasting into chat."@,
        ),
        Mode::All => Some(
            "\u{26a0} hidenv: revealing ALL real values. Do not paste secrets into public chat or logs."@,
        ),
        _ => None,
    }
}

/// The sources of an invocation, in the order they are read.
pub fn sources(config: &Config) -> (r: Vec<Source>)
    ensures
        source_views(r@) == spec_sources(config@),
{
    let ghost c = config@;
    let mut r: Vec<Source> = Vec::new();
    let mut i: usize = 0;
    assert(source_views(r@) =~= Seq::<SourceView>::empty());
    while i < config.files.len()
        invariant
            c == config@,
            i <= config.files@.len(),
            source_views(r@) == c.files.take(i as int).map_values(
                |f: Seq<char>| SourceView::File(f),
            ),
        decreases config.files@.len() - i,
    {
        let ghost before = r@;
        r.push(Source::File(config.files[i].clone()));
        assert(c.files[i as int] == config.files@[i as int]@);
        assert(source_views(r@) =~= source_views(before).push(SourceView::File(c.files[i as int])));
        assert(c.files.take(i + 1).map_values(|f: Seq<char>| SourceView::File(f)) =~= c.files.take(
            i as int,
        ).map_values(|f: Seq<char>| SourceView::File(f)).push(SourceView::File(c.files[i as int])));
        i = i + 1;
    }
    assert(c.files.take(i as int) =~= c.files);
    let ghost files_part = source_views(r@);
    let mut j: usize = 0;
    while j < config.ssh_targets.len()
        invariant
            c == config@,
            j <= config.ssh_targets@.len(),
            files_part == c.files.map_values(|f: Seq<char>| SourceView::File(f)),
            source_views(r@) == files_part + c.ssh_targets.take(j as int).map_values(
                |t: Seq<char>| SourceView::Remote(t),
            ),
        decreases config.ssh_targets@.len() - j,
    {
        let ghost before = r@;
        r.push(Source::Remote(config.ssh_targets[j].clone()));
        assert(c.ssh_targets[j as int] == config.ssh_targets@[j as int]@);
        assert(source_views(r@) =~= source_views(before).push(
            SourceView::Remote(c.ssh_targets[j as int]),
        ));
        assert(c.ssh_targets.take(j + 1).map_values(|t: Seq<char>| SourceView::Remote(t))
            =~= c.ssh_targets.take(j as int).map_values(|t: Seq<char>| SourceView::Remote(t)).push(
            SourceView::Remote(c.ssh_targets[j as int]),
        ));
        j = j + 1;
    }
    assert(c.ssh_targets.take(j as int) =~= c.ssh_targets);
    assert(source_views(r@) == listed_sources(c));
    match &config.mode {
        Mode::Mask => {
            match &config.var_text {
                Some(t) => {
                    let ghost before = r@;
                    r.push(Source::Inline(t.clone()));
                    assert(source_views(r@) =~= source_views(before) + seq![SourceView::Inline(t@)]);
                },
                None => {
                    assert(listed_sources(c) + Seq::<SourceView>::empty() =~= listed_sources(c));
                },
            }
        },
        _ => {},
    }
    if r.len() == 0 {
        r.push(Source::Environment);
        assert(source_views(r@) =~= seq![SourceView::Environment]);
    }
    r
}

/// The warning printed before real values are revealed, if any.
pub fn reveal_warning(mode: &Mode) -> (w: Option<String>)
    requires
        mode.wf(),
    ensures
        match w {
            Some(m) => spec_reveal_warning(*mode) == Some(m@),
            None => spec_reveal_warning(*mode) is None,
        },
{
    match mode {
        Mode::Show(keys) => {
            let mut m = "\u{26a0} hidenv: revealing real value of: ".to_owned();
            let n = keys.len();
            let ghost o = keys.ordered();
            let ghost prefix = m@;
            assert(o.take(0) =~= Seq::<Seq<char>>::empty());
            let mut i: usize = 0;
            while i < n
                invariant
                    n == o.len(),
                    o == keys.ordered(),
                    i <= n,
                    m@ == prefix + join(o.take(i as int), ", "@),
                decreases n - i,
            {
                if i > 0 {
                    m.append(", ");
                }
                m.append(keys.get(i));
                proof {
                    assert(o.take(i + 1).drop_last() =~= o.take(i as int));
                    assert(o.take(i + 1).last() == o[i as int]);
                    if i == 0 {
                        assert(o.take(1) =~= seq![o[0]]);
                    }
                }
                i = i + 1;
            }
            assert(o.take(n as int) =~= o);
            m.append(". Be careful when pasting into chat.");
            Some(m)
        },
        Mode::All => Some(
            "\u{26a0} hidenv: revealing ALL real values. Do not paste secrets into public chat or logs.".to_owned(),
        ),
        _ => None,
    }
}

/// Every name is at most the one after it: sorted by name, ties allowed.
pub open spec fn sorted_by_name(s: Seq<(String, String)>) -> bool {
    forall|i: int, j: int| 0 <= i < j < s.len() ==> !key_lt(#[trigger] s[j].0@, #[trigger] s[i].0@)
}

/// Inserting an element into a sequence adds it to the sequence's multiset.
proof fn lemma_insert_to_multiset<A>(s: Seq<A>, p: int, x: A)
    requires
        0 <= p <= s.len(),
    ensures
        s.insert(p, x).to_multiset() == s.to_multiset().insert(x),
{
    broadcast use vstd::multiset::group_multiset_axioms;

    let a = s.take(p);
    let b = s.skip(p);
    assert(s =~= a + b);
    assert(s.insert(p, x) =~= a + (seq![x] + b));
    vstd::seq_lib::lemma_multiset_commutative(a, b);
    vstd::seq_lib::lemma_multiset_commutative(a, seq![x] + b);
    vstd::seq_lib::lemma_multiset_commutative(seq![x], b);
    assert(seq![x] =~= Seq::<A>::empty().push(x));
    Seq::<A>::empty().to_multiset_ensures();
    assert(s.insert(p, x).to_multiset() =~= s.to_multiset().insert(x));
}

/// The pairs of `s` named `n`, in order.
pub open spec fn named(s: Seq<(String, String)>, n: Seq<char>) -> Seq<(String, String)> {
    s.filter(has_name(n))
}

/// Whether a pair is named `n`.
pub open spec fn has_name(n: Seq<char>) -> spec_fn((String, String)) -> bool {
    |p: (String, String)| p.0@ == n
}

/// Inserting a pair ahead of every pair of its name adds it at the end of
/// the pairs of that name and leaves the other names' pairs alone.
proof fn lemma_named_insert(s: Seq<(String, String)>, p: int, x: (String, String), n: Seq<char>)
    requires
        0 <= p <= s.len(),
        forall|j: int| p <= j < s.len() ==> (#[trigger] s[j]).0@ != x.0@,
    ensures
        named(s.insert(p, x), n) == if x.0@ == n {
            named(s, n).push(x)
        } else {
            named(s, n)
        },
{
    let pred = has_name(n);
    let a = s.take(p);
    let b = s.skip(p);
    assert(s =~= a + b);
    assert(s.insert(p, x) =~= a.push(x) + b);
    Seq::filter_distributes_over_add(a, b, pred);
    Seq::filter_distributes_over_add(a.push(x), b, pred);
    a.lemma_filter_push(x, pred);
    if x.0@ == n {
        assert forall|j: int| 0 <= j < b.len() implies !pred(#[trigger] b[j]) by {
            assert(b[j] == s[p + j]);
        }
        assert(b.all(|q: (String, String)| !pred(q)));
        b.lemma_all_neg_filter_empty(pred);
        assert(b.filter(pred) =~= Seq::<(String, String)>::empty());
        assert(a.filter(pred) + Seq::<(String, String)>::empty() =~= a.filter(pred));
        assert(a.filter(pred).push(x) + Seq::<(String, String)>::empty() =~= a.filter(pred).push(
            x,
        ));
    }
}

/// The pairs sorted by name, as the shell environment is listed. The sort is
/// stable: the pairs of each name come out in the order they came in.
pub fn sort_by_name(vars: &[(String, String)]) -> (out: Vec<(String, String)>)
    ensures
        sorted_by_name(out@),
        out@.to_multiset() == vars@.to_multiset(),
        forall|n: Seq<char>| #[trigger] named(out@, n) == named(vars@, n),
{
    let mut out: Vec<(String, String)> = Vec::new();
    let mut k: usize = 0;
    assert(vars@.take(0) =~= Seq::<(String, String)>::empty());
    while k < vars.len()
        invariant
            k <= vars@.len(),
            sorted_by_name(out@),
            out@.to_multiset() == vars@.take(k as int).to_multiset(),
            forall|n: Seq<char>| #[trigger] named(out@, n) == named(vars@.take(k as int), n),
        decreases vars@.len() - k,
    {
        let e = (vars[k].0.clone(), vars[k].1.clone());
        assert(e == vars@[k as int]);
        let mut p: usize = 0;
        while p < out.len()
            invariant
                p <= out@.len(),
                forall|i: int| 0 <= i < p ==> !key_lt(e.0@, #[trigger] out@[i].0@),
            ensures
                p <= out@.len(),
                forall|i: int| 0 <= i < p ==> !key_lt(e.0@, #[trigger] out@[i].0@),
                p < out@.len() ==> key_lt(e.0@, out@[p as int].0@),
            decreases out@.len() - p,
        {
            match compare_keys(e.0.as_str(), out[p].0.as_str()) {
                KeyOrder::Less => {
                    break;
                },
                _ => {},
            }
            p = p + 1;
        }
        let ghost before = out@;
        out.insert(p, e);
        proof {
            let after = out@;
            assert(after =~= before.insert(p as int, e));
            assert forall|i: int, j: int| 0 <= i < j < after.len() implies !key_lt(
                #[trigger] after[j].0@,
                #[trigger] after[i].0@,
            ) by {
                if j < p {
                } else if j == p {
                } else if i < p {
                    assert(after[j] == before[j - 1]);
                } else if i == p {
                    assert(after[j] == before[j - 1]);
                    // before[j - 1] is at least before[p], which is greater than e
                    if key_lt(before[j - 1].0@, e.0@) {
                        if j - 1 > p {
                            lemma_key_lt_trichotomy(before[p as int].0@, before[j - 1].0@);
                            lemma_key_lt_transitive(before[j - 1].0@, e.0@, before[p as int].0@);
                        } else {
                            lemma_key_lt_trichotomy(e.0@, before[p as int].0@);
                        }
                    }
                } else {
                    assert(after[i] == before[i - 1]);
                    assert(after[j] == before[j - 1]);
                }
            }
            lemma_insert_to_multiset(before, p as int, e);
            assert(vars@.take(k + 1) =~= vars@.take(k as int).push(e));
            vars@.take(k as int).to_multiset_ensures();
            // every pair from `p` on is named after `e`'s name, so by another name
            assert forall|j: int| p <= j < before.len() implies (#[trigger] before[j]).0@ != e.0@ by {
                if before[j].0@ == e.0@ {
                    lemma_key_lt_irreflexive(e.0@);
                    if j > p {
                        assert(!key_lt(before[j].0@, before[p as int].0@));
                    }
                }
            }
            assert forall|n: Seq<char>| #[trigger] named(after, n) == named(vars@.take(k + 1), n) by {
                lemma_named_insert(before, p as int, e, n);
                vars@.take(k as int).lemma_filter_push(e, has_name(n));
            }
        }
        k = k + 1;
    }
    assert(vars@.take(k as int) =~= vars@);
    out
}

/// Where a run stands after reading a source: whether to read the next
/// source, and whether every source so far went well.
#[derive(Debug, PartialEq, Eq)]
pub struct Progress {
    pub go_on: bool,
    pub all_ok: bool,
}

/// Records how reading a source went. Masking stops at the first source that
/// fails; revealing reads every source and succeeds when all of them did.
pub fn record_outcome(mode: &Mode, all_ok: bool, source_ok: bool) -> (p: Progress)
    ensures
        p.all_ok == (all_ok && source_ok),
        p.go_on == match mode {
            Mode::Mask => source_ok,
            _ => true,
        },
{
    match mode {
        Mode::Mask => Progress { go_on: source_ok, all_ok: all_ok && source_ok },
        _ => Progress { go_on: true, all_ok: all_ok && source_ok },
    }
}

} // verus!
