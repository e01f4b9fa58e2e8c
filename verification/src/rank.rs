use vstd::prelude::*;

verus! {

/// The scores in the mapping run in descending order.
pub open spec fn sorted_desc(s: Seq<(usize, u128)>) -> bool {
    forall|i: int, j: int| 0 <= i <= j < s.len() ==> (#[trigger] s[i]).1 >= (#[trigger] s[j]).1
}

/// RankReporter, ordering step: the same entries as `scores`, arranged
/// by descending score.  The order among equal scores is unspecified.
#[verifier::loop_isolation(false)]
pub fn sort_desc(scores: &Vec<(usize, u128)>) -> (r: Vec<(usize, u128)>)
    ensures
        r@.to_multiset() == scores@.to_multiset(),
        sorted_desc(r@),
        r@.len() == scores@.len(),
{
    broadcast use vstd::seq_lib::group_to_multiset_ensures;

    let mut rest: Vec<(usize, u128)> = Vec::new();
    let mut i: usize = 0;
    while i < scores.len()
        invariant
            i <= scores@.len(),
            rest@ == scores@.take(i as int),
        decreases scores@.len() - i,
    {
        rest.push(scores[i]);
        proof {
            assert(scores@.take(i + 1) =~= scores@.take(i as int).push(scores@[i as int]));
        }
        i = i + 1;
    }
    proof {
        assert(scores@.take(scores@.len() as int) =~= scores@);
    }
    let mut out: Vec<(usize, u128)> = Vec::new();
    while rest.len() > 0
        invariant
            out@.to_multiset().add(rest@.to_multiset()) == scores@.to_multiset(),
            sorted_desc(out@),
            forall|oi: int, ri: int|
                0 <= oi < out@.len() && 0 <= ri < rest@.len() ==> (#[trigger] out@[oi]).1
                    >= (#[trigger] rest@[ri]).1,
            out@.len() + rest@.len() == scores@.len(),
        decreases rest@.len(),
    {
        let mut best: usize = 0;
        let mut k: usize = 1;
        while k < rest.len()
            invariant
                best < rest@.len(),
                k <= rest@.len(),
                forall|ri: int| 0 <= ri < k ==> (#[trigger] rest@[ri]).1 <= rest@[best as int].1,
            decreases rest@.len() - k,
        {
            if rest[k].1 > rest[best].1 {
                best = k;
            }
            k = k + 1;
        }
        let ghost rest0 = rest@;
        let ghost out0 = out@;
        let e = rest.remove(best);
        out.push(e);
        proof {
            assert(rest@ == rest0.remove(best as int));
            assert(out@ == out0.push(e));
            assert(rest0.to_multiset().count(e) > 0) by {
                assert(rest0[best as int] == e);
                assert(rest0.contains(e));
            }
            assert(out@.to_multiset().add(rest@.to_multiset()) =~= scores@.to_multiset());
            assert(forall|ri: int|
                0 <= ri < rest@.len() ==> (#[trigger] rest@[ri]).1 <= e.1) by {
                assert(forall|ri: int|
                    0 <= ri < rest@.len() ==> #[trigger] rest@[ri] == (if ri < best as int {
                        rest0[ri]
                    } else {
                        rest0[ri + 1]
                    }));
            }
            assert(forall|oi: int| 0 <= oi < out0.len() ==> (#[trigger] out0[oi]).1 >= e.1);
        }
    }
    proof {
        assert(rest@.len() == 0);
        assert forall|x: (usize, u128)| rest@.to_multiset().count(x) == 0 by {
            assert(!rest@.contains(x));
        }
        assert(out@.to_multiset() =~= scores@.to_multiset());
    }
    out
}

/// RankReporter: the `k` highest-scoring entries in descending score
/// order — every entry, when the mapping holds fewer than `k`.  Which
/// of two equal-scoring entries comes first is unspecified.
pub fn top_k(scores: &Vec<(usize, u128)>, k: usize) -> (r: Vec<(usize, u128)>)
    ensures
        r@.len() == vstd::math::min(k as int, scores@.len() as int),
        exists|s: Seq<(usize, u128)>|
            s.to_multiset() == scores@.to_multiset() && sorted_desc(s) && r@ == s.take(
                vstd::math::min(k as int, scores@.len() as int),
            ),
{
    let mut sorted = sort_desc(scores);
    let ghost s_full = sorted@;
    sorted.truncate(k);
    proof {
        if k as int >= s_full.len() {
            assert(sorted@ == s_full);
            assert(s_full.take(s_full.len() as int) =~= s_full);
        }
        assert(sorted@ == s_full.take(vstd::math::min(k as int, scores@.len() as int)));
    }
    sorted
}

} // verus!
