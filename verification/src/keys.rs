//! Variable names and ordered sets of them.
//!
//! Names are ordered as `String`s are: lexicographically. Because UTF-8
//! preserves the order of code points, comparing the bytes of two strings
//! gives the same answer as comparing their characters by code point, which
//! is what [`key_lt`] does.

use vstd::prelude::*;
use crate::text::chars_of;

verus! {

/// Strict lexicographic order on character sequences, characters compared by code point.
pub open spec fn key_lt(a: Seq<char>, b: Seq<char>) -> bool
    decreases a.len(),
{
    if a.len() == 0 {
        b.len() > 0
    } else if b.len() == 0 {
        false
    } else if a[0] != b[0] {
        a[0] < b[0]
    } else {
        key_lt(a.drop_first(), b.drop_first())
    }
}

/// Every element is smaller than every later one: sorted, with no repetition.
pub open spec fn strictly_increasing(s: Seq<Seq<char>>) -> bool {
    forall|i: int, j: int| 0 <= i < j < s.len() ==> key_lt(#[trigger] s[i], #[trigger] s[j])
}

/// The order is irreflexive.
pub proof fn lemma_key_lt_irreflexive(a: Seq<char>)
    ensures
        !key_lt(a, a),
    decreases a.len(),
{
    if a.len() > 0 {
        lemma_key_lt_irreflexive(a.drop_first());
    }
}

/// Any two sequences are equal or ordered one way, and never both ways.
pub proof fn lemma_key_lt_trichotomy(a: Seq<char>, b: Seq<char>)
    ensures
        a == b || key_lt(a, b) || key_lt(b, a),
        !(key_lt(a, b) && key_lt(b, a)),
        a == b ==> !key_lt(a, b),
    decreases a.len(),
{
    lemma_key_lt_irreflexive(a);
    if a.len() > 0 && b.len() > 0 {
        if a[0] == b[0] {
            lemma_key_lt_trichotomy(a.drop_first(), b.drop_first());
            if a.drop_first() == b.drop_first() {
                assert(a =~= seq![a[0]] + a.drop_first());
                assert(b =~= seq![b[0]] + b.drop_first());
            }
        }
    } else if a.len() == 0 && b.len() == 0 {
        assert(a =~= b);
    }
}

/// The order is transitive.
pub proof fn lemma_key_lt_transitive(a: Seq<char>, b: Seq<char>, c: Seq<char>)
    requires
        key_lt(a, b),
        key_lt(b, c),
    ensures
        key_lt(a, c),
    decreases a.len(),
{
    if a.len() > 0 && b.len() > 0 && c.len() > 0 {
        if a[0] == b[0] && b[0] == c[0] {
            lemma_key_lt_transitive(a.drop_first(), b.drop_first(), c.drop_first());
        }
    }
}

/// Comparing two sequences that agree on their first `i` characters comes
/// down to comparing what follows.
proof fn lemma_key_lt_common_prefix(a: Seq<char>, b: Seq<char>, i: int)
    requires
        0 <= i <= a.len(),
        i <= b.len(),
        forall|j: int| 0 <= j < i ==> a[j] == b[j],
    ensures
        key_lt(a, b) == key_lt(a.skip(i), b.skip(i)),
    decreases i,
{
    if i > 0 {
        assert forall|j: int| 0 <= j < i - 1 implies a.drop_first()[j] == b.drop_first()[j] by {
            assert(a.drop_first()[j] == a[j + 1]);
            assert(b.drop_first()[j] == b[j + 1]);
        }
        lemma_key_lt_common_prefix(a.drop_first(), b.drop_first(), i - 1);
        assert(a.drop_first().skip(i - 1) =~= a.skip(i));
        assert(b.drop_first().skip(i - 1) =~= b.skip(i));
    } else {
        assert(a.skip(0) =~= a);
        assert(b.skip(0) =~= b);
    }
}

/// The outcome of comparing two names.
#[derive(Clone, Copy, Debug, PartialEq, Eq)]
pub enum KeyOrder {
    Less,
    Equal,
    Greater,
}

/// Compares two names in the order of [`key_lt`].
pub fn compare_keys(a: &str, b: &str) -> (r: KeyOrder)
    ensures
        (r == KeyOrder::Less) == key_lt(a@, b@),
        (r == KeyOrder::Equal) == (a@ == b@),
        (r == KeyOrder::Greater) == key_lt(b@, a@),
{
    let x = chars_of(a);
    let y = chars_of(b);
    let mut i: usize = 0;
    while i < x.len() && i < y.len() && x[i] == y[i]
        invariant
            x@ == a@,
            y@ == b@,
            i <= x@.len(),
            i <= y@.len(),
            forall|j: int| 0 <= j < i ==> x@[j] == y@[j],
        decreases x@.len() - i,
    {
        i = i + 1;
    }
    proof {
        lemma_key_lt_common_prefix(a@, b@, i as int);
        assert forall|j: int| 0 <= j < i implies b@[j] == a@[j] by {}
        lemma_key_lt_common_prefix(b@, a@, i as int);
        lemma_key_lt_trichotomy(a@, b@);
    }
    if i == x.len() && i == y.len() {
        assert(a@ =~= b@);
        KeyOrder::Equal
    } else if i == x.len() {
        KeyOrder::Less
    } else if i == y.len() {
        KeyOrder::Greater
    } else if x[i] < y[i] {
        KeyOrder::Less
    } else {
        KeyOrder::Greater
    }
}

/// Whether two names are the same.
pub fn same_key(a: &str, b: &str) -> (r: bool)
    ensures
        r == (a@ == b@),
{
    match compare_keys(a, b) {
        KeyOrder::Equal => true,
        _ => false,
    }
}

/// A set of names, kept in increasing order without repetition.
#[derive(Debug, PartialEq, Eq)]
pub struct KeySet {
    keys: Vec<String>,
}

/// The names of a sequence of strings.
pub open spec fn views(v: Seq<String>) -> Seq<Seq<char>> {
    v.map_values(|s: String| s@)
}

impl View for KeySet {
    type V = Set<Seq<char>>;

    open spec fn view(&self) -> Set<Seq<char>> {
        self.ordered().to_set()
    }
}

impl KeySet {
    /// The names, in increasing order.
    pub closed spec fn ordered(&self) -> Seq<Seq<char>> {
        views(self.keys@)
    }

    /// The names are listed in increasing order, each once.
    pub open spec fn wf(&self) -> bool {
        strictly_increasing(self.ordered())
    }

    /// The empty set.
    pub fn new() -> (s: KeySet)
        ensures
            s.wf(),
            s.ordered() == Seq::<Seq<char>>::empty(),
            s@ == Set::<Seq<char>>::empty(),
    {
        let s = KeySet { keys: Vec::new() };
        assert(s.ordered() =~= Seq::<Seq<char>>::empty());
        assert(s@ =~= Set::<Seq<char>>::empty());
        s
    }

    /// The set of the given names.
    pub fn from_keys(keys: &[&str]) -> (s: KeySet)
        ensures
            s.wf(),
            s@ == keys@.map_values(|k: &str| k@).to_set(),
    {
        let mut s = KeySet::new();
        let mut i: usize = 0;
        while i < keys.len()
            invariant
                i <= keys@.len(),
                s.wf(),
                s@ == keys@.take(i as int).map_values(|k: &str| k@).to_set(),
            decreases keys@.len() - i,
        {
            let k = keys[i];
            s.insert(k.to_owned());
            proof {
                let before = keys@.take(i as int).map_values(|k: &str| k@);
                let after = keys@.take(i + 1).map_values(|k: &str| k@);
                assert(after =~= before.push(k@));
                before.lemma_push_to_set_commute(k@);
            }
            i = i + 1;
        }
        assert(keys@.take(keys@.len() as int) =~= keys@);
        s
    }

    /// The number of names.
    pub fn len(&self) -> (n: usize)
        ensures
            n == self.ordered().len(),
    {
        self.keys.len()
    }

    /// Whether the set holds no name.
    pub fn is_empty(&self) -> (b: bool)
        requires
            self.wf(),
        ensures
            b == (self@ == Set::<Seq<char>>::empty()),
            b == (self.ordered().len() == 0),
    {
        proof {
            if self.ordered().len() > 0 {
                assert(self@.contains(self.ordered()[0]));
            } else {
                assert(self@ =~= Set::<Seq<char>>::empty());
            }
        }
        self.keys.len() == 0
    }

    /// The `i`th name in increasing order.
    pub fn get(&self, i: usize) -> (k: &str)
        requires
            i < self.ordered().len(),
        ensures
            k@ == self.ordered()[i as int],
    {
        self.keys[i].as_str()
    }

    /// The position of the first name that is not smaller than `k`.
    fn lower_bound(&self, k: &str) -> (p: usize)
        requires
            self.wf(),
        ensures
            p <= self.ordered().len(),
            forall|j: int| 0 <= j < p ==> key_lt(#[trigger] self.ordered()[j], k@),
            p < self.ordered().len() ==> !key_lt(self.ordered()[p as int], k@),
    {
        let mut p: usize = 0;
        while p < self.keys.len()
            invariant
                p <= self.ordered().len(),
                self.ordered().len() == self.keys@.len(),
                forall|j: int| 0 <= j < p ==> key_lt(#[trigger] self.ordered()[j], k@),
            decreases self.keys@.len() - p,
        {
            assert(self.ordered()[p as int] == self.keys@[p as int]@);
            match compare_keys(self.keys[p].as_str(), k) {
                KeyOrder::Less => {},
                _ => {
                    return p;
                },
            }
            p = p + 1;
        }
        p
    }

    /// Whether `k` is one of the names.
    pub fn contains(&self, k: &str) -> (b: bool)
        requires
            self.wf(),
        ensures
            b == self@.contains(k@),
    {
        let p = self.lower_bound(k);
        if p < self.keys.len() && same_key(self.keys[p].as_str(), k) {
            assert(self.ordered()[p as int] == self.keys@[p as int]@);
            assert(self@.contains(self.ordered()[p as int]));
            true
        } else {
            proof {
                if p < self.ordered().len() {
                    assert(self.ordered()[p as int] == self.keys@[p as int]@);
                }
                if self@.contains(k@) {
                    let j = choose|j: int| 0 <= j < self.ordered().len() && self.ordered()[j] == k@;
                    lemma_key_lt_irreflexive(k@);
                    if j > p {
                        lemma_key_lt_trichotomy(self.ordered()[p as int], k@);
                    }
                }
            }
            false
        }
    }

    /// Adds `k`; returns whether it was new.
    pub fn insert(&mut self, k: String) -> (added: bool)
        requires
            old(self).wf(),
        ensures
            final(self).wf(),
            final(self)@ == old(self)@.insert(k@),
            added == !old(self)@.contains(k@),
    {
        let p = self.lower_bound(k.as_str());
        let ghost before = self.ordered();
        if p < self.keys.len() && same_key(self.keys[p].as_str(), k.as_str()) {
            assert(before[p as int] == self.keys@[p as int]@);
            assert(self@.contains(k@));
            assert(self@.insert(k@) =~= self@);
            return false;
        }
        proof {
            if p < before.len() {
                assert(before[p as int] == self.keys@[p as int]@);
                lemma_key_lt_trichotomy(before[p as int], k@);
            }
            assert forall|m: int| p <= m < before.len() implies key_lt(k@, #[trigger] before[m]) by {
                if m > p {
                    lemma_key_lt_transitive(k@, before[p as int], before[m]);
                }
            }
        }
        self.keys.insert(p, k);
        proof {
            let after = self.ordered();
            assert(after =~= before.insert(p as int, k@));
            assert forall|i: int, j: int| 0 <= i < j < after.len() implies key_lt(
                #[trigger] after[i],
                #[trigger] after[j],
            ) by {
                if i < p && j == p {
                } else if i < p && j > p {
                    assert(after[j] == before[j - 1]);
                    assert(key_lt(k@, before[j - 1]));
                    lemma_key_lt_transitive(after[i], k@, before[j - 1]);
                } else if i == p && j > p {
                    assert(after[j] == before[j - 1]);
                } else if i > p {
                    assert(after[i] == before[i - 1]);
                    assert(after[j] == before[j - 1]);
                }
            }
            assert(!before.to_set().contains(k@)) by {
                if before.to_set().contains(k@) {
                    let j = choose|j: int| 0 <= j < before.len() && before[j] == k@;
                    lemma_key_lt_irreflexive(k@);
                }
            }
            assert forall|x: Seq<char>| after.to_set().contains(x) <==> before.to_set().insert(
                k@,
            ).contains(x) by {
                if after.to_set().contains(x) {
                    let j = choose|j: int| 0 <= j < after.len() && after[j] == x;
                    if j < p {
                        assert(before[j] == x);
                    } else if j > p {
                        assert(before[j - 1] == x);
                    }
                }
                if before.to_set().contains(x) {
                    let j = choose|j: int| 0 <= j < before.len() && before[j] == x;
                    if j < p {
                        assert(after[j] == x);
                    } else {
                        assert(after[j + 1] == x);
                    }
                }
                if x == k@ {
                    assert(after[p as int] == x);
                }
            }
            assert(after.to_set() =~= before.to_set().insert(k@));
        }
        true
    }

    /// The names of `self` that `other` lacks, in increasing order.
    pub fn difference(&self, other: &KeySet) -> (d: Vec<String>)
        requires
            self.wf(),
            other.wf(),
        ensures
            views(d@) == self.ordered().filter(|k: Seq<char>| !other@.contains(k)),
    {
        let mut d: Vec<String> = Vec::new();
        let mut i: usize = 0;
        while i < self.keys.len()
            invariant
                i <= self.keys@.len(),
                self.ordered().len() == self.keys@.len(),
                other.wf(),
                views(d@) == self.ordered().take(i as int).filter(
                    |k: Seq<char>| !other@.contains(k),
                ),
            decreases self.keys@.len() - i,
        {
            let k = &self.keys[i];
            let ghost kv = self.ordered()[i as int];
            assert(kv == self.keys@[i as int]@);
            let ghost old_d = d@;
            if !other.contains(k.as_str()) {
                d.push(k.clone());
                assert(views(d@) =~= views(old_d).push(kv));
            }
            proof {
                let pred = |k: Seq<char>| !other@.contains(k);
                assert(self.ordered().take(i + 1) =~= self.ordered().take(i as int).push(kv));
                self.ordered().take(i as int).lemma_filter_push(kv, pred);
            }
            i = i + 1;
        }
        assert(self.ordered().take(self.keys@.len() as int) =~= self.ordered());
        d
    }
}

} // verus!
