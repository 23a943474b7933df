//! Character-level tests on strings: equality with, containment of, and ending in
//! a given sequence of characters.

use vstd::prelude::*;

verus! {

/// `pat` occurs in `s` starting at position `k`.
pub open spec fn occurs_at(s: Seq<char>, pat: Seq<char>, k: int) -> bool {
    0 <= k && k + pat.len() <= s.len() && s.subrange(k, k + pat.len()) =~= pat
}

/// `pat` occurs somewhere in `s`.
pub open spec fn has_substring(s: Seq<char>, pat: Seq<char>) -> bool {
    exists|k: int| occurs_at(s, pat, k)
}

/// `s` ends with `pat`.
pub open spec fn has_suffix(s: Seq<char>, pat: Seq<char>) -> bool {
    pat.len() <= s.len() && occurs_at(s, pat, s.len() - pat.len())
}

/// The characters of a string, in order.
pub fn chars_of(s: &str) -> (r: Vec<char>)
    ensures
        r@ == s@,
{
    let n = s.unicode_len();
    let mut r: Vec<char> = Vec::with_capacity(n);
    let mut i: usize = 0;
    while i < n
        invariant
            n == s@.len(),
            i <= n,
            r@ =~= s@.subrange(0, i as int),
        decreases n - i,
    {
        r.push(s.get_char(i));
        i = i + 1;
    }
    r
}

/// Whether `s[k..k + pat.len()]` equals `pat`.
fn matches_at(s: &Vec<char>, pat: &[char], k: usize) -> (r: bool)
    requires
        k + pat@.len() <= s@.len(),
    ensures
        r == occurs_at(s@, pat@, k as int),
{
    let n = s.len();
    let mut j: usize = 0;
    while j < pat.len()
        invariant
            n == s@.len(),
            k + pat@.len() <= s@.len(),
            j <= pat@.len(),
            forall|t: int| 0 <= t < j ==> s@[k + t] == pat@[t],
        decreases pat@.len() - j,
    {
        if s[k + j] != pat[j] {
            assert(s@.subrange(k as int, k + pat@.len())[j as int] != pat@[j as int]);
            return false;
        }
        j = j + 1;
    }
    assert(s@.subrange(k as int, k + pat@.len()) =~= pat@);
    true
}

/// Whether `pat` occurs anywhere in `s`.
pub fn contains_chars(s: &Vec<char>, pat: &[char]) -> (r: bool)
    ensures
        r == has_substring(s@, pat@),
{
    if pat.len() > s.len() {
        return false;
    }
    let last = s.len() - pat.len();
    let mut k: usize = 0;
    while k <= last
        invariant
            last + pat@.len() == s@.len(),
            forall|t: int| 0 <= t < k ==> !occurs_at(s@, pat@, t),
        decreases last + 1 - k,
    {
        if matches_at(s, pat, k) {
            return true;
        }
        if k == last {
            assert forall|t: int| !occurs_at(s@, pat@, t) by {
                if 0 <= t <= last {
                }
            }
            return false;
        }
        k = k + 1;
    }
    false
}

/// Whether `s` ends with `pat`.
pub fn ends_with_chars(s: &Vec<char>, pat: &[char]) -> (r: bool)
    ensures
        r == has_suffix(s@, pat@),
{
    if pat.len() > s.len() {
        return false;
    }
    matches_at(s, pat, s.len() - pat.len())
}

/// Whether `s` is exactly `pat`.
pub fn equals_chars(s: &Vec<char>, pat: &[char]) -> (r: bool)
    ensures
        r == (s@ == pat@),
{
    if pat.len() != s.len() {
        return false;
    }
    let r = matches_at(s, pat, 0);
    assert(s@.subrange(0, s@.len() as int) =~= s@);
    r
}

} // verus!
