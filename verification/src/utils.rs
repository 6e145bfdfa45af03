//! Small helpers around the scan pipeline.

use vstd::prelude::*;

verus! {

/// Whether s ends with the given suffix.
pub open spec fn spec_ends_with(s: Seq<char>, suffix: Seq<char>) -> bool {
    s.len() >= suffix.len() && s.subrange(s.len() - suffix.len(), s.len() as int) == suffix
}

/// Whether the path string ends with the given extension.  The caller
/// renders its path to a string first; comparison is exact, including
/// case.
pub fn path_buf_ends_with(path: &str, ext: &str) -> (r: bool)
    ensures
        r == spec_ends_with(path@, ext@),
{
    let n = path.unicode_len();
    let el = ext.unicode_len();
    if el > n {
        proof {
            assert(!spec_ends_with(path@, ext@));
        }
        return false;
    }
    let start = n - el;
    let mut t: usize = 0;
    while t < el
        invariant
            n == path@.len(),
            el == ext@.len(),
            el <= n,
            start == n - el,
            t <= el,
            forall|u: int| 0 <= u < t ==> path@[start + u] == ext@[u],
        decreases el - t,
    {
        if path.get_char(start + t) != ext.get_char(t) {
            proof {
                assert(path@.subrange(start as int, n as int)[t as int] != ext@[t as int]);
            }
            return false;
        }
        t = t + 1;
    }
    proof {
        assert(path@.subrange(start as int, n as int) =~= ext@);
    }
    true
}

} // verus!
