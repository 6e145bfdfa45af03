//! Accepted candidate keys with their entropy score, and the final
//! ordering of the report: entropy descending, ties keeping their
//! order of discovery.

use vstd::prelude::*;

verus! {

broadcast use vstd::seq_lib::group_to_multiset_ensures;

/// One accepted candidate: the hex key string and its entropy score in
/// ENTROPY_SCALE units per bit.
#[derive(Clone, Debug)]
pub struct KeyResult {
    pub key: String,
    pub entropy: u64,
}

/// The mathematical content of a KeyResult.
pub struct KeyResultView {
    pub key: Seq<char>,
    pub entropy: u64,
}

impl View for KeyResult {
    type V = KeyResultView;

    open spec fn view(&self) -> KeyResultView {
        KeyResultView { key: self.key@, entropy: self.entropy }
    }
}

pub open spec fn results_view(v: Seq<KeyResult>) -> Seq<KeyResultView> {
    v.map_values(|r: KeyResult| r@)
}

/// Entropy never increases along the sequence.
pub open spec fn sorted_desc(v: Seq<KeyResultView>) -> bool {
    forall|a: int, b: int| 0 <= a < b < v.len() ==> v[a].entropy >= v[b].entropy
}

proof fn lemma_results_view_remove(v: Seq<KeyResult>, i: int)
    requires
        0 <= i < v.len(),
    ensures
        results_view(v.remove(i)) =~= results_view(v).remove(i),
{
}

proof fn lemma_results_view_push(v: Seq<KeyResult>, x: KeyResult)
    ensures
        results_view(v.push(x)) =~= results_view(v).push(x@),
{
}

/// Sort the results by entropy, highest first; the multiset of
/// results is unchanged.  Equal scores keep their order of discovery,
/// though the contract leaves tie order open.
pub fn sort_by_entropy(input: Vec<KeyResult>) -> (r: Vec<KeyResult>)
    ensures
        sorted_desc(results_view(r@)),
        results_view(r@).to_multiset() == results_view(input@).to_multiset(),
{
    let ghost orig = results_view(input@);
    let mut rest = input;
    let mut out: Vec<KeyResult> = Vec::new();
    proof {
        assert(results_view(out@) =~= Seq::<KeyResultView>::empty());
        assert(results_view(out@).to_multiset().add(results_view(rest@).to_multiset())
            =~= orig.to_multiset());
    }
    while rest.len() > 0
        invariant
            sorted_desc(results_view(out@)),
            forall|a: int, b: int|
                0 <= a < out@.len() && 0 <= b < rest@.len() ==> out@[a]@.entropy
                    >= rest@[b]@.entropy,
            results_view(out@).to_multiset().add(results_view(rest@).to_multiset())
                == orig.to_multiset(),
        decreases rest.len(),
    {
        // index of the best remaining entropy, first among equals
        let mut best: usize = 0;
        let mut t: usize = 1;
        while t < rest.len()
            invariant
                rest@.len() > 0,
                best < rest@.len(),
                t <= rest@.len(),
                forall|u: int| 0 <= u < t ==> rest@[u]@.entropy <= rest@[best as int]@.entropy,
            decreases rest@.len() - t,
        {
            if rest[t].entropy > rest[best].entropy {
                best = t;
            }
            t = t + 1;
        }
        let ghost rest_pre = rest@;
        let ghost out_pre = out@;
        let x = rest.remove(best);
        out.push(x);
        proof {
            assert(rest@ =~= rest_pre.remove(best as int));
            assert(out@ =~= out_pre.push(x));
            assert(x == rest_pre[best as int]);
            lemma_results_view_remove(rest_pre, best as int);
            lemma_results_view_push(out_pre, x);
            let rv_pre = results_view(rest_pre);
            let ov_pre = results_view(out_pre);
            assert(rv_pre[best as int] == x@);
            assert(results_view(rest@) =~= rv_pre.remove(best as int));
            assert(results_view(out@) =~= ov_pre.push(x@));
            assert(results_view(rest@).to_multiset() =~= rv_pre.to_multiset().remove(x@));
            assert(results_view(out@).to_multiset() =~= ov_pre.to_multiset().insert(x@));
            assert(rv_pre.contains(rv_pre[best as int]));
            assert(rv_pre.to_multiset().count(x@) > 0);
            assert(ov_pre.to_multiset().insert(x@).add(rv_pre.to_multiset().remove(x@))
                =~= ov_pre.to_multiset().add(rv_pre.to_multiset()));
            // every element left in rest scores no higher than x
            assert(forall|b: int|
                0 <= b < rest@.len() ==> rest@[b]@.entropy <= x@.entropy) by {
                assert(forall|u: int|
                    0 <= u < rest_pre.len() ==> rest_pre[u]@.entropy <= x@.entropy);
            }
        }
    }
    proof {
        assert(results_view(rest@) =~= Seq::<KeyResultView>::empty());
        assert(results_view(out@).to_multiset().add(Seq::<KeyResultView>::empty().to_multiset())
            =~= results_view(out@).to_multiset());
    }
    out
}

} // verus!
