use vstd::prelude::*;
use vstd::string::*;

verus! {

/// The characters of `s`.
pub fn chars_of(s: &str) -> (chars: Vec<char>)
    ensures
        chars@ == s@,
{
    let mut chars: Vec<char> = Vec::new();
    for c in iter: s.chars()
        invariant
            iter.seq() == s@,
            chars@ == s@.subrange(0, iter.index() as int),
    {
        chars.push(c);
    }
    assert(s@.subrange(0, s@.len() as int) =~= s@);
    chars
}

/// Whether `a` comes before `b` when compared from position `i` on, given
/// that they agree before it.
pub open spec fn text_precedes_from(a: Seq<char>, b: Seq<char>, i: int) -> bool
    decreases a.len() - i,
{
    if i >= b.len() {
        false
    } else if i >= a.len() {
        true
    } else if a[i] != b[i] {
        a[i] < b[i]
    } else {
        text_precedes_from(a, b, i + 1)
    }
}

/// Whether `a` comes strictly before `b` in the lexicographic order of
/// their characters.
pub open spec fn text_precedes(a: Seq<char>, b: Seq<char>) -> bool {
    text_precedes_from(a, b, 0)
}

/// Whether `b` occurs in `a` at position `at`.
pub open spec fn occurs_at(a: Seq<char>, b: Seq<char>, at: int) -> bool {
    0 <= at && at + b.len() <= a.len() && a.subrange(at, at + b.len()) == b
}

/// Whether `b` occurs somewhere in `a`.
pub open spec fn text_contains(a: Seq<char>, b: Seq<char>) -> bool {
    exists|at: int| occurs_at(a, b, at)
}

/// Whether `a` comes strictly before `b`.
pub fn precedes(a: &[char], b: &[char]) -> (before: bool)
    ensures
        before == text_precedes(a@, b@),
{
    let mut i: usize = 0;
    loop
        invariant
            i <= a@.len(),
            i <= b@.len(),
            text_precedes(a@, b@) == text_precedes_from(a@, b@, i as int),
        decreases a@.len() - i,
    {
        if i >= b.len() {
            return false;
        }
        if i >= a.len() {
            return true;
        }
        if a[i] != b[i] {
            return a[i] < b[i];
        }
        i = i + 1;
    }
}

/// Whether `b` occurs in `a` at position `at`.
pub fn matches_at(a: &[char], b: &[char], at: usize) -> (found: bool)
    ensures
        found == occurs_at(a@, b@, at as int),
{
    if b.len() > a.len() || at > a.len() - b.len() {
        return false;
    }
    let n = a.len();
    let m = b.len();
    let mut j: usize = 0;
    while j < m
        invariant
            j <= m,
            m == b@.len(),
            n == a@.len(),
            at + m <= n,
            forall|k: int| 0 <= k < j ==> a@[at + k] == b@[k],
        decreases m - j,
    {
        if a[at + j] != b[j] {
            assert(a@.subrange(at as int, at + b@.len())[j as int] != b@[j as int]);
            return false;
        }
        j = j + 1;
    }
    assert(a@.subrange(at as int, at + b@.len()) =~= b@);
    true
}

/// Whether `b` occurs somewhere in `a`.
pub fn contains_text(a: &[char], b: &[char]) -> (found: bool)
    ensures
        found == text_contains(a@, b@),
{
    if b.len() > a.len() {
        assert forall|at: int| !occurs_at(a@, b@, at) by {}
        return false;
    }
    let last = a.len() - b.len();
    let mut at: usize = 0;
    loop
        invariant
            at <= last,
            last == a@.len() - b@.len(),
            forall|k: int| 0 <= k < at ==> !occurs_at(a@, b@, k),
        decreases last - at,
    {
        if matches_at(a, b, at) {
            return true;
        }
        if at == last {
            assert forall|k: int| !occurs_at(a@, b@, k) by {}
            return false;
        }
        at = at + 1;
    }
}

} // verus!
