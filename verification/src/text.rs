//! Searching and squeezing strings.

use vstd::prelude::*;
use vstd::string::{StrSliceExecFns, StringExecFns};

verus! {

/// The characters of a string.
pub fn chars_of(s: &str) -> (r: Vec<char>)
    ensures
        r@ == s@,
{
    broadcast use vstd::string::axiom_spec_iter;

    let mut out: Vec<char> = Vec::new();
    for c in it: s.chars()
        invariant
            it.seq() == s@,
            out@ == it.seq().take(it.index() as int),
    {
        out.push(c);
        assert(out@ == it.seq().take(it.index() + 1));
    }
    assert(out@.len() == s@.len());
    assert(out@ == s@);
    out
}

/// `s` ends with `suffix`.
pub open spec fn is_suffix(suffix: Seq<char>, s: Seq<char>) -> bool {
    suffix.len() <= s.len() && s.skip(s.len() - suffix.len()) == suffix
}

/// `s` starts with `prefix`.
pub open spec fn is_prefix(prefix: Seq<char>, s: Seq<char>) -> bool {
    prefix.len() <= s.len() && s.take(prefix.len() as int) == prefix
}

/// `needle` stands in `s` at place `at`.
pub open spec fn stands_at(needle: Seq<char>, s: Seq<char>, at: int) -> bool {
    0 <= at && at + needle.len() <= s.len() && s.subrange(at, at + needle.len()) == needle
}

/// `needle` stands somewhere in `s`.
pub open spec fn occurs_in(needle: Seq<char>, s: Seq<char>) -> bool {
    exists|at: int| stands_at(needle, s, at)
}

/// Whether `needle` stands in `s` at place `at`.
pub fn matches_at(needle: &[char], s: &[char], at: usize) -> (r: bool)
    ensures
        r == stands_at(needle@, s@, at as int),
{
    if at > s.len() || needle.len() > s.len() - at {
        return false;
    }
    let length = s.len();
    let mut i: usize = 0;
    while i < needle.len()
        invariant
            i <= needle@.len(),
            length == s@.len(),
            at + needle@.len() <= s@.len(),
            forall|j: int| 0 <= j < i ==> s@[at + j] == needle@[j],
        decreases needle@.len() - i,
    {
        if s[at + i] != needle[i] {
            assert(s@.subrange(at as int, at + needle@.len())[i as int] != needle@[i as int]);
            return false;
        }
        i += 1;
    }
    assert(s@.subrange(at as int, at + needle@.len()) =~= needle@);
    true
}

/// Whether a string ends with another.
pub fn ends_with(s: &str, suffix: &str) -> (r: bool)
    ensures
        r == is_suffix(suffix@, s@),
{
    let text = chars_of(s);
    let end = chars_of(suffix);
    if end.len() > text.len() {
        return false;
    }
    let r = matches_at(end.as_slice(), text.as_slice(), text.len() - end.len());
    assert(s@.skip(s@.len() - suffix@.len()) == s@.subrange(
        s@.len() - suffix@.len(),
        s@.len() as int,
    ));
    r
}

/// Whether a string starts with another.
pub fn starts_with(s: &str, prefix: &str) -> (r: bool)
    ensures
        r == is_prefix(prefix@, s@),
{
    let text = chars_of(s);
    let start = chars_of(prefix);
    if start.len() > text.len() {
        return false;
    }
    let r = matches_at(start.as_slice(), text.as_slice(), 0);
    assert(s@.take(prefix@.len() as int) == s@.subrange(0, prefix@.len() as int));
    r
}

/// Whether a string holds another.
pub fn contains(s: &str, needle: &str) -> (r: bool)
    ensures
        r == occurs_in(needle@, s@),
{
    let text = chars_of(s);
    let part = chars_of(needle);
    if part.len() == 0 {
        assert(s@.subrange(0, 0) == needle@);
        assert(stands_at(needle@, s@, 0));
        return true;
    }
    let mut at: usize = 0;
    while at < text.len()
        invariant
            at <= text@.len(),
            text@ == s@,
            part@ == needle@,
            needle@.len() > 0,
            forall|k: int| 0 <= k < at ==> !stands_at(needle@, s@, k),
        decreases text@.len() - at,
    {
        if matches_at(part.as_slice(), text.as_slice(), at) {
            return true;
        }
        at += 1;
    }
    false
}

/// `s` with every pair of slashes made one slash, from the left.
pub open spec fn squeezed(s: Seq<char>) -> Seq<char>
    decreases s.len(),
{
    if s.len() < 2 {
        s
    } else if s[0] == '/' && s[1] == '/' {
        seq!['/'] + squeezed(s.skip(2))
    } else {
        seq![s[0]] + squeezed(s.skip(1))
    }
}

/// Makes every pair of slashes one slash, from the left.
pub fn squeeze(s: &str) -> (r: String)
    ensures
        r@ == squeezed(s@),
{
    let text = chars_of(s);
    let mut out = String::new();
    let mut i: usize = 0;
    assert(s@.skip(0) == s@);
    assert(out@ + squeezed(s@) == squeezed(s@));
    while i < text.len()
        invariant
            i <= text@.len(),
            text@ == s@,
            out@ + squeezed(s@.skip(i as int)) == squeezed(s@),
        decreases text@.len() - i,
    {
        let ghost rest = s@.skip(i as int);
        assert(rest[0] == s@[i as int]);
        if i + 1 < text.len() && text[i] == '/' && text[i + 1] == '/' {
            assert(rest[1] == s@[i + 1]);
            assert(rest.skip(2) == s@.skip(i + 2));
            let piece = s.substring_char(i, i + 1);
            assert(piece@ == seq!['/']);
            assert((out@ + piece@) + squeezed(rest.skip(2)) == out@ + (piece@ + squeezed(
                rest.skip(2),
            )));
            out.append(piece);
            i += 2;
        } else {
            assert(rest.skip(1) == s@.skip(i + 1));
            let piece = s.substring_char(i, i + 1);
            assert(piece@ == seq![s@[i as int]]);
            proof {
                if rest.len() >= 2 {
                    assert(rest[1] == s@[i + 1]);
                } else {
                    assert(squeezed(rest.skip(1)) == Seq::<char>::empty());
                    assert(rest == seq![rest[0]]);
                }
            }
            assert(squeezed(rest) == piece@ + squeezed(rest.skip(1)));
            assert((out@ + piece@) + squeezed(rest.skip(1)) == out@ + (piece@ + squeezed(
                rest.skip(1),
            )));
            out.append(piece);
            i += 1;
        }
    }
    assert(squeezed(s@.skip(i as int)) == Seq::<char>::empty());
    assert(out@ + Seq::<char>::empty() == out@);
    out
}

} // verus!
