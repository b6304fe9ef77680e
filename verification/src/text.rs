//! Character classes and scanning helpers shared by the parsers.
//!
//! Text is modelled as the sequence of its `char`s (`s@`). A scan over a
//! class of characters is described by [`leading`] (how many characters of
//! that class start a sequence) and [`trailing`] (how many end it).

use vstd::prelude::*;

verus! {

/// The classes of characters that the parsers of this crate skip over.
#[derive(Clone, Copy, Debug, PartialEq, Eq)]
pub enum CharClass {
    /// Unicode `White_Space`, as `char::is_whitespace` and `str::trim` use it.
    Whitespace,
    /// ASCII whitespace, as `u8::is_ascii_whitespace` defines it.
    AsciiWhitespace,
    /// Anything but ASCII whitespace.
    NotAsciiWhitespace,
    /// Characters that may continue a variable name: ASCII letters, digits and `_`.
    IdentContinue,
    /// Anything but `:`.
    NotColon,
}

/// Unicode `White_Space`: the characters that `char::is_whitespace` accepts.
pub open spec fn is_unicode_whitespace(c: char) -> bool {
    let u = c as u32;
    ||| 0x09 <= u <= 0x0d
    ||| u == 0x20
    ||| u == 0x85
    ||| u == 0xa0
    ||| u == 0x1680
    ||| 0x2000 <= u <= 0x200a
    ||| u == 0x2028
    ||| u == 0x2029
    ||| u == 0x202f
    ||| u == 0x205f
    ||| u == 0x3000
}

/// ASCII whitespace: space, tab, line feed, form feed and carriage return.
pub open spec fn is_ascii_ws(c: char) -> bool {
    c == ' ' || c == '\t' || c == '\n' || c == '\x0C' || c == '\r'
}

/// An ASCII letter or `_`: what may start a variable name.
pub open spec fn is_ident_start_char(c: char) -> bool {
    ('a' <= c && c <= 'z') || ('A' <= c && c <= 'Z') || c == '_'
}

/// An ASCII letter, an ASCII digit or `_`: what may continue a variable name.
pub open spec fn is_ident_continue_char(c: char) -> bool {
    is_ident_start_char(c) || ('0' <= c && c <= '9')
}

/// Membership of `c` in the class `k`.
pub open spec fn in_class(c: char, k: CharClass) -> bool {
    match k {
        CharClass::Whitespace => is_unicode_whitespace(c),
        CharClass::AsciiWhitespace => is_ascii_ws(c),
        CharClass::NotAsciiWhitespace => !is_ascii_ws(c),
        CharClass::IdentContinue => is_ident_continue_char(c),
        CharClass::NotColon => c != ':',
    }
}

/// The number of characters of class `k` that start `s`.
pub open spec fn leading(s: Seq<char>, k: CharClass) -> nat
    decreases s.len(),
{
    if s.len() > 0 && in_class(s[0], k) {
        1 + leading(s.drop_first(), k)
    } else {
        0
    }
}

/// The number of characters of class `k` that end `s`.
pub open spec fn trailing(s: Seq<char>, k: CharClass) -> nat
    decreases s.len(),
{
    if s.len() > 0 && in_class(s.last(), k) {
        1 + trailing(s.drop_last(), k)
    } else {
        0
    }
}

/// `s` without its leading Unicode whitespace (`str::trim_start`).
pub open spec fn trim_start(s: Seq<char>) -> Seq<char> {
    s.skip(leading(s, CharClass::Whitespace) as int)
}

/// `s` without its trailing Unicode whitespace (`str::trim_end`).
pub open spec fn trim_end(s: Seq<char>) -> Seq<char> {
    s.take(s.len() - trailing(s, CharClass::Whitespace))
}

/// `s` without leading and trailing Unicode whitespace (`str::trim`).
pub open spec fn trim(s: Seq<char>) -> Seq<char> {
    trim_end(trim_start(s))
}

/// A run never reaches past the end of the sequence, and every character of
/// the run is of its class, and the one after it, if any, is not.
pub proof fn lemma_leading(s: Seq<char>, k: CharClass)
    ensures
        leading(s, k) <= s.len(),
        forall|i: int| 0 <= i < leading(s, k) ==> in_class(#[trigger] s[i], k),
        leading(s, k) < s.len() ==> !in_class(s[leading(s, k) as int], k),
    decreases s.len(),
{
    if s.len() > 0 && in_class(s[0], k) {
        lemma_leading(s.drop_first(), k);
        assert forall|i: int| 0 <= i < leading(s, k) implies in_class(#[trigger] s[i], k) by {
            if i > 0 {
                assert(s[i] == s.drop_first()[i - 1]);
            }
        }
    }
}

/// The mirror image of [`lemma_leading`] for runs at the end.
pub proof fn lemma_trailing(s: Seq<char>, k: CharClass)
    ensures
        trailing(s, k) <= s.len(),
        forall|i: int| s.len() - trailing(s, k) <= i < s.len() ==> in_class(#[trigger] s[i], k),
        trailing(s, k) < s.len() ==> !in_class(s[s.len() - trailing(s, k) - 1], k),
    decreases s.len(),
{
    if s.len() > 0 && in_class(s.last(), k) {
        lemma_trailing(s.drop_last(), k);
        assert forall|i: int| s.len() - trailing(s, k) <= i < s.len() implies in_class(
            #[trigger] s[i],
            k,
        ) by {
            if i < s.len() - 1 {
                assert(s[i] == s.drop_last()[i]);
            }
        }
    }
}

/// A run is determined by where the first character outside the class stands.
pub proof fn lemma_leading_exact(s: Seq<char>, k: CharClass, n: int)
    requires
        0 <= n <= s.len(),
        forall|i: int| 0 <= i < n ==> in_class(#[trigger] s[i], k),
        n < s.len() ==> !in_class(s[n], k),
    ensures
        leading(s, k) == n,
    decreases n,
{
    if n > 0 {
        assert(in_class(s[0], k));
        assert forall|i: int| 0 <= i < n - 1 implies in_class(#[trigger] s.drop_first()[i], k) by {
            assert(s.drop_first()[i] == s[i + 1]);
        }
        if n - 1 < s.len() - 1 {
            assert(s.drop_first()[n - 1] == s[n]);
        }
        lemma_leading_exact(s.drop_first(), k, n - 1);
    }
}

/// The mirror image of [`lemma_leading_exact`] for runs at the end.
pub proof fn lemma_trailing_exact(s: Seq<char>, k: CharClass, n: int)
    requires
        0 <= n <= s.len(),
        forall|i: int| s.len() - n <= i < s.len() ==> in_class(#[trigger] s[i], k),
        n < s.len() ==> !in_class(s[s.len() - n - 1], k),
    ensures
        trailing(s, k) == n,
    decreases n,
{
    if n > 0 {
        assert(in_class(s.last(), k));
        let t = s.drop_last();
        assert forall|i: int| t.len() - (n - 1) <= i < t.len() implies in_class(#[trigger] t[i], k) by {
            assert(t[i] == s[i]);
        }
        if n - 1 < t.len() {
            assert(t[t.len() - (n - 1) - 1] == s[s.len() - n - 1]);
        }
        lemma_trailing_exact(t, k, n - 1);
    }
}

/// `trim(s)` is the part of `s` between its leading and its trailing whitespace.
pub proof fn lemma_trim_subrange(s: Seq<char>)
    ensures
        trim(s) == s.subrange(
            leading(s, CharClass::Whitespace) as int,
            leading(s, CharClass::Whitespace) + trim(s).len() as int,
        ),
        leading(s, CharClass::Whitespace) + trim(s).len() <= s.len(),
{
    let l = leading(s, CharClass::Whitespace);
    lemma_leading(s, CharClass::Whitespace);
    let t = trim_start(s);
    lemma_trailing(t, CharClass::Whitespace);
    assert(trim(s) =~= s.subrange(l as int, l + trim(s).len() as int));
}

/// Trimming twice trims no more than trimming once.
pub proof fn lemma_trim_idempotent(s: Seq<char>)
    ensures
        trim(trim(s)) == trim(s),
{
    let t = trim_start(s);
    let y = trim(s);
    lemma_leading(s, CharClass::Whitespace);
    lemma_trailing(t, CharClass::Whitespace);
    if y.len() > 0 {
        assert(y[0] == t[0]);
        assert(t[0] == s[leading(s, CharClass::Whitespace) as int]);
        assert(leading(y, CharClass::Whitespace) == 0);
        assert(y.skip(0) =~= y);
        assert(y.last() == t[t.len() - trailing(t, CharClass::Whitespace) - 1]);
        assert(trailing(y, CharClass::Whitespace) == 0);
        assert(trim_end(y) =~= y);
    } else {
        lemma_leading(y, CharClass::Whitespace);
        lemma_trailing(trim_start(y), CharClass::Whitespace);
    }
}

/// Whether `c` belongs to the class `k`.
pub fn char_in_class(c: char, k: CharClass) -> (b: bool)
    ensures
        b == in_class(c, k),
{
    match k {
        CharClass::Whitespace => is_whitespace(c),
        CharClass::AsciiWhitespace => is_ascii_whitespace(c),
        CharClass::NotAsciiWhitespace => !is_ascii_whitespace(c),
        CharClass::IdentContinue => is_ident_continue(c),
        CharClass::NotColon => c != ':',
    }
}

/// Unicode whitespace test (the set `char::is_whitespace` accepts).
pub fn is_whitespace(c: char) -> (b: bool)
    ensures
        b == is_unicode_whitespace(c),
{
    let u = c as u32;
    (0x09 <= u && u <= 0x0d) || u == 0x20 || u == 0x85 || u == 0xa0 || u == 0x1680 || (0x2000
        <= u && u <= 0x200a) || u == 0x2028 || u == 0x2029 || u == 0x202f || u == 0x205f || u
        == 0x3000
}

/// ASCII whitespace test (the set `u8::is_ascii_whitespace` accepts).
pub fn is_ascii_whitespace(c: char) -> (b: bool)
    ensures
        b == is_ascii_ws(c),
{
    c == ' ' || c == '\t' || c == '\n' || c == '\x0C' || c == '\r'
}

/// Returns `true` when `c` may start an environment variable name.
pub fn is_ident_start(c: char) -> (b: bool)
    ensures
        b == is_ident_start_char(c),
{
    ('a' <= c && c <= 'z') || ('A' <= c && c <= 'Z') || c == '_'
}

/// Returns `true` when `c` may continue an environment variable name.
pub fn is_ident_continue(c: char) -> (b: bool)
    ensures
        b == is_ident_continue_char(c),
{
    is_ident_start(c) || ('0' <= c && c <= '9')
}

/// The characters of `s`, in order.
pub fn chars_of(s: &str) -> (v: Vec<char>)
    ensures
        v@ == s@,
{
    broadcast use vstd::string::group_string_axioms;

    let mut v: Vec<char> = Vec::new();
    for c in it: s.chars()
        invariant
            v@ == it.seq().take(it.index()),
    {
        v.push(c);
    }
    v
}

/// The end of the run of class `k` that starts at `start` in `chars`.
pub fn skip_class(chars: &Vec<char>, start: usize, k: CharClass) -> (end: usize)
    requires
        start <= chars@.len(),
    ensures
        end == start + leading(chars@.skip(start as int), k),
        end <= chars@.len(),
{
    let mut i = start;
    while i < chars.len() && char_in_class(chars[i], k)
        invariant
            start <= i <= chars@.len(),
            forall|j: int| start <= j < i ==> in_class(#[trigger] chars@[j], k),
        decreases chars@.len() - i,
    {
        i = i + 1;
    }
    proof {
        let s = chars@.skip(start as int);
        assert forall|j: int| 0 <= j < i - start implies in_class(#[trigger] s[j], k) by {
            assert(s[j] == chars@[start + j]);
        }
        if i < chars@.len() {
            assert(s[i - start] == chars@[i as int]);
        }
        lemma_leading_exact(s, k, i - start);
    }
    i
}

/// The end of the run of class `k` that starts at `start` in `chars[start..end]`.
pub fn skip_class_within(chars: &Vec<char>, start: usize, end: usize, k: CharClass) -> (pos: usize)
    requires
        start <= end <= chars@.len(),
    ensures
        pos == start + leading(chars@.subrange(start as int, end as int), k),
        start <= pos <= end,
{
    let mut i = start;
    while i < end && char_in_class(chars[i], k)
        invariant
            start <= i <= end,
            end <= chars@.len(),
            forall|j: int| start <= j < i ==> in_class(#[trigger] chars@[j], k),
        decreases end - i,
    {
        i = i + 1;
    }
    proof {
        let s = chars@.subrange(start as int, end as int);
        assert forall|j: int| 0 <= j < i - start implies in_class(#[trigger] s[j], k) by {
            assert(s[j] == chars@[start + j]);
        }
        if i < end {
            assert(s[i - start] == chars@[i as int]);
        }
        lemma_leading_exact(s, k, i - start);
    }
    i
}

/// The start of the run of class `k` that ends at `end` in `chars[start..end]`.
pub fn skip_class_back(chars: &Vec<char>, start: usize, end: usize, k: CharClass) -> (pos: usize)
    requires
        start <= end <= chars@.len(),
    ensures
        pos == end - trailing(chars@.subrange(start as int, end as int), k),
        start <= pos <= end,
{
    let mut i = end;
    while i > start && char_in_class(chars[i - 1], k)
        invariant
            start <= i <= end,
            end <= chars@.len(),
            forall|j: int| i <= j < end ==> in_class(#[trigger] chars@[j], k),
        decreases i - start,
    {
        i = i - 1;
    }
    proof {
        let s = chars@.subrange(start as int, end as int);
        assert forall|j: int| s.len() - (end - i) <= j < s.len() implies in_class(
            #[trigger] s[j],
            k,
        ) by {
            assert(s[j] == chars@[start + j]);
        }
        if end - i < s.len() {
            assert(s[s.len() - (end - i) - 1] == chars@[i - 1]);
        }
        lemma_trailing_exact(s, k, end - i);
    }
    i
}

} // verus!
