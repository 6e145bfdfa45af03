//! Sliding a compiled pattern over a byte buffer and returning every
//! offset at which it matches, wildcards matching any byte.

use vstd::prelude::*;
use crate::pattern::PatElem;

verus! {

/// Whether one pattern element accepts one buffer byte.
pub open spec fn elem_matches(e: PatElem, b: u8) -> bool {
    match e {
        PatElem::Exact(x) => b == x,
        PatElem::Wildcard => true,
    }
}

/// Whether the whole pattern matches the buffer at offset i.
pub open spec fn matches_at(buffer: Seq<u8>, pattern: Seq<PatElem>, i: int) -> bool {
    &&& 0 <= i
    &&& i + pattern.len() <= buffer.len()
    &&& forall|j: int|
        0 <= j < pattern.len() ==> elem_matches(#[trigger] pattern[j], buffer[i + j])
}

/// Whether the pattern matches the buffer at offset i, as executable code.
pub fn pattern_matches_at(buffer: &[u8], pattern: &[PatElem], i: usize) -> (b: bool)
    requires
        i + pattern@.len() <= buffer@.len(),
    ensures
        b == matches_at(buffer@, pattern@, i as int),
{
    let n = buffer.len();
    let m = pattern.len();
    let mut j: usize = 0;
    let mut ok: bool = true;
    while j < m
        invariant
            n == buffer@.len(),
            m == pattern@.len(),
            i + m <= buffer@.len(),
            j <= m,
            ok <==> (forall|t: int|
                0 <= t < j ==> elem_matches(#[trigger] pattern@[t], buffer@[i + t])),
        decreases m - j,
    {
        let accept = match pattern[j] {
            PatElem::Exact(x) => buffer[i + j] == x,
            PatElem::Wildcard => true,
        };
        if !accept {
            ok = false;
        }
        j = j + 1;
    }
    ok
}

/// All offsets at which the pattern matches the buffer, in ascending
/// order: exactly the i with i + len(pattern) <= len(buffer) such that
/// every pattern element accepts the byte under it.  A pattern longer
/// than the buffer matches nowhere.  An empty pattern is ruled out
/// here, as it already is at compilation (see parse_pattern).
pub fn find_pattern(buffer: &[u8], pattern: &[PatElem]) -> (r: Vec<usize>)
    requires
        pattern@.len() >= 1,
    ensures
        forall|k: int| 0 <= k < r@.len() ==> matches_at(buffer@, pattern@, r@[k] as int),
        forall|i: usize| matches_at(buffer@, pattern@, i as int) ==> r@.contains(i),
        forall|k1: int, k2: int| 0 <= k1 < k2 < r@.len() ==> r@[k1] < r@[k2],
        forall|k: int|
            0 <= k < r@.len() ==> r@[k] + pattern@.len() <= buffer@.len(),
{
    let n = buffer.len();
    let m = pattern.len();
    let mut r: Vec<usize> = Vec::new();
    if m > n {
        proof {
            assert(forall|i: usize| !matches_at(buffer@, pattern@, i as int));
        }
        return r;
    }
    let last = n - m;
    let mut i: usize = 0;
    while i <= last
        invariant
            n == buffer@.len(),
            m == pattern@.len(),
            1 <= m,
            last == n - m,
            i <= last + 1,
            forall|k: int| 0 <= k < r@.len() ==> matches_at(buffer@, pattern@, r@[k] as int),
            forall|o: usize|
                o < i && matches_at(buffer@, pattern@, o as int) ==> r@.contains(o),
            forall|k: int| 0 <= k < r@.len() ==> r@[k] < i,
            forall|k1: int, k2: int| 0 <= k1 < k2 < r@.len() ==> r@[k1] < r@[k2],
        decreases last + 1 - i,
    {
        let matched = pattern_matches_at(buffer, pattern, i);
        let ghost prev = r@;
        if matched {
            r.push(i);
        }
        proof {
            assert forall|o: usize|
                o < i + 1 && matches_at(buffer@, pattern@, o as int) implies r@.contains(
                o,
            ) by {
                if o < i {
                    assert(prev.contains(o));
                    let k = choose|k: int| 0 <= k < prev.len() && prev[k] == o;
                    assert(r@[k] == o);
                } else {
                    assert(o == i);
                    assert(matched);
                    assert(r@[prev.len() as int] == i);
                }
            }
        }
        i = i + 1;
    }
    proof {
        assert(forall|o: usize|
            matches_at(buffer@, pattern@, o as int) ==> o <= last && r@.contains(o));
    }
    r
}

/// Law: a wildcard position never constrains the buffer.  Two buffers
/// that agree everywhere except under a wildcard of the pattern match
/// at the same offset, whatever byte stands there.
pub proof fn lemma_wildcard_any_byte(
    buffer1: Seq<u8>,
    buffer2: Seq<u8>,
    pattern: Seq<PatElem>,
    i: int,
    w: int,
)
    requires
        0 <= w < pattern.len(),
        pattern[w] is Wildcard,
        buffer1.len() == buffer2.len(),
        forall|t: int| 0 <= t < buffer1.len() && t != i + w ==> buffer1[t] == buffer2[t],
    ensures
        matches_at(buffer1, pattern, i) <==> matches_at(buffer2, pattern, i),
{
    if matches_at(buffer1, pattern, i) {
        assert forall|j: int| 0 <= j < pattern.len() implies elem_matches(
            #[trigger] pattern[j],
            buffer2[i + j],
        ) by {
            if j != w {
                assert(buffer1[i + j] == buffer2[i + j]);
            }
        }
    }
    if matches_at(buffer2, pattern, i) {
        assert forall|j: int| 0 <= j < pattern.len() implies elem_matches(
            #[trigger] pattern[j],
            buffer1[i + j],
        ) by {
            if j != w {
                assert(buffer1[i + j] == buffer2[i + j]);
            }
        }
    }
}

} // verus!
