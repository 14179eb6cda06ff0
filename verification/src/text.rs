//! Verified text helpers for key lookup and the label-priority rule.
//!
//! The label merge rule keys on one literal marker substring, `"Botnet"`:
//! a stored label is overwritten only when the incoming label contains the
//! marker and the stored one does not.

use vstd::prelude::*;

verus! {

/// The priority marker substring of the label merge rule.
pub open spec fn marker() -> Seq<char> {
    "Botnet"@
}

/// The marker occurs in `s` starting at position `i`.
pub open spec fn marker_at(s: Seq<char>, i: int) -> bool {
    &&& 0 <= i
    &&& i + marker().len() <= s.len()
    &&& s.subrange(i, i + marker().len() as int) == marker()
}

/// The marker occurs somewhere in `s`.
pub open spec fn has_marker(s: Seq<char>) -> bool {
    exists|i: int| marker_at(s, i)
}

/// Character-for-character string equality, decided over the views.
#[verifier::loop_isolation(false)]
pub fn str_eq(a: &str, b: &str) -> (r: bool)
    ensures
        r == (a@ == b@),
{
    let n = a.unicode_len();
    if n != b.unicode_len() {
        return false;
    }
    let mut i: usize = 0;
    while i < n
        invariant
            0 <= i <= n,
            n == a@.len(),
            n == b@.len(),
            forall|j: int| 0 <= j < i ==> a@[j] == b@[j],
        decreases n - i,
    {
        if a.get_char(i) != b.get_char(i) {
            return false;
        }
        i += 1;
    }
    proof {
        assert(a@ =~= b@);
    }
    true
}

/// Whether the six marker characters stand in `s` at position `i`.
fn marker_match_at(s: &str, i: usize) -> (r: bool)
    requires
        i + 6 <= s@.len(),
        s@.len() <= usize::MAX,
    ensures
        r == marker_at(s@, i as int),
{
    proof {
        reveal_strlit("Botnet");
    }
    let r = s.get_char(i) == 'B' && s.get_char(i + 1) == 'o' && s.get_char(i + 2) == 't'
        && s.get_char(i + 3) == 'n' && s.get_char(i + 4) == 'e' && s.get_char(i + 5) == 't';
    proof {
        let sub = s@.subrange(i as int, i as int + 6);
        if r {
            assert(sub =~= marker());
        }
        if marker_at(s@, i as int) {
            assert(s@[i as int] == sub[0]);
            assert(s@[i as int + 1] == sub[1]);
            assert(s@[i as int + 2] == sub[2]);
            assert(s@[i as int + 3] == sub[3]);
            assert(s@[i as int + 4] == sub[4]);
            assert(s@[i as int + 5] == sub[5]);
        }
    }
    r
}

/// Decides whether `s` contains the priority marker substring.
#[verifier::loop_isolation(false)]
pub fn contains_marker(s: &str) -> (r: bool)
    ensures
        r == has_marker(s@),
{
    proof {
        reveal_strlit("Botnet");
    }
    let n = s.unicode_len();
    if n < 6 {
        return false;
    }
    let mut i: usize = 0;
    while i <= n - 6
        invariant
            6 <= n,
            n == s@.len(),
            0 <= i <= n - 6 + 1,
            forall|j: int| 0 <= j < i ==> !marker_at(s@, j),
            marker().len() == 6,
        decreases n - i,
    {
        if marker_match_at(s, i) {
            return true;
        }
        i += 1;
    }
    false
}

} // verus!
