use vstd::prelude::*;
use crate::analyzer::Analyzer;
use crate::models::{same_prediction, PredictionResult};

verus! {

/// `p` agrees with some candidate in numbers and score.
pub open spec fn in_candidates(p: PredictionResult, c: Seq<PredictionResult>) -> bool {
    exists|k: int| 0 <= k < c.len() && same_prediction(p, #[trigger] c[k]) && p.score == c[k].score
}

/// A ranked list `r` with room for `target` entries accounts for `x` when it
/// holds the same combination, or is full with entries scoring at least as
/// much as `x`.
pub open spec fn accounted_for(r: Seq<PredictionResult>, x: PredictionResult, target: nat) -> bool {
    (exists|a: int| 0 <= a < r.len() && same_prediction(#[trigger] r[a], x)) || (r.len() == target
        && (target == 0 || x.score <= r[target - 1].score))
}

/// `k` is the first index of `c` that holds the combination of `p`.
pub open spec fn first_index_of(c: Seq<PredictionResult>, p: PredictionResult, k: int) -> bool {
    &&& 0 <= k < c.len()
    &&& same_prediction(c[k], p)
    &&& forall|m: int| 0 <= m < k ==> !same_prediction(#[trigger] c[m], p)
}

/// The combination of `p` occurs in `c`.
pub open spec fn occurs_in(c: Seq<PredictionResult>, p: PredictionResult) -> bool {
    exists|k: int| first_index_of(c, p, k)
}

proof fn lemma_first_index_unique(c: Seq<PredictionResult>, p: PredictionResult, k1: int, k2: int)
    requires
        first_index_of(c, p, k1),
        first_index_of(c, p, k2),
    ensures
        k1 == k2,
{
    if k1 < k2 {
        assert(!same_prediction(c[k1], p));
    } else if k2 < k1 {
        assert(!same_prediction(c[k2], p));
    }
}

/// Equal combinations carry equal scores.
pub open spec fn consistent_scores(c: Seq<PredictionResult>) -> bool {
    forall|i: int, j: int|
        0 <= i < c.len() && 0 <= j < c.len() && same_prediction(c[i], c[j]) ==> c[i].score
            == c[j].score
}

/// Whether two number sequences are equal.
fn same_numbers(a: &Vec<u8>, b: &Vec<u8>) -> (r: bool)
    ensures
        r == (a@ == b@),
{
    if a.len() != b.len() {
        return false;
    }
    let mut i: usize = 0;
    while i < a.len()
        invariant
            i <= a@.len(),
            a@.len() == b@.len(),
            forall|q: int| 0 <= q < i ==> a@[q] == b@[q],
        decreases a@.len() - i,
    {
        if a[i] != b[i] {
            return false;
        }
        i = i + 1;
    }
    assert(a@ =~= b@);
    true
}

/// A copy of `p`.
fn copy_prediction(p: &PredictionResult) -> (r: PredictionResult)
    ensures
        r.red_balls@ == p.red_balls@,
        r.blue_ball == p.blue_ball,
        r.score == p.score,
{
    let mut reds: Vec<u8> = Vec::new();
    let mut i: usize = 0;
    while i < p.red_balls.len()
        invariant
            i <= p.red_balls@.len(),
            reds@ == p.red_balls@.take(i as int),
        decreases p.red_balls@.len() - i,
    {
        reds.push(p.red_balls[i]);
        assert(reds@ =~= p.red_balls@.take(i + 1));
        i = i + 1;
    }
    assert(reds@ =~= p.red_balls@);
    PredictionResult { red_balls: reds, blue_ball: p.blue_ball, score: p.score }
}

impl Analyzer {
    /// Whether `a` and `b` are the same combination.
    fn is_same_prediction(a: &PredictionResult, b: &PredictionResult) -> (r: bool)
        ensures
            r == same_prediction(*a, *b),
    {
        a.blue_ball == b.blue_ball && same_numbers(&a.red_balls, &b.red_balls)
    }

    /// The best `target` distinct combinations among `candidates`, by
    /// descending score, each combination once; among equal scores the
    /// combination that first occurs earlier comes first. Every candidate
    /// left out repeats a kept one or scores no more than the last of a full
    /// list.
    #[verifier::rlimit(100)]
    #[verifier::spinoff_prover]
    pub fn rank_predictions(candidates: &[PredictionResult], target: usize) -> (r: Vec<
        PredictionResult,
    >)
        requires
            consistent_scores(candidates@),
        ensures
            r@.len() <= target,
            forall|a: int, b: int| 0 <= a < b < r@.len() ==> r@[a].score >= r@[b].score,
            forall|a: int, b: int| 0 <= a < b < r@.len() ==> !same_prediction(r@[a], r@[b]),
            forall|a: int| 0 <= a < r@.len() ==> in_candidates(#[trigger] r@[a], candidates@),
            forall|k: int|
                0 <= k < candidates@.len() ==> accounted_for(
                    r@,
                    #[trigger] candidates@[k],
                    target as nat,
                ),
            target > 0 && candidates@.len() > 0 ==> r@.len() > 0,
            forall|a: int| 0 <= a < r@.len() ==> occurs_in(candidates@, #[trigger] r@[a]),
            forall|a: int, b: int, ka: int, kb: int|
                0 <= a < b < r@.len() && r@[a].score == r@[b].score && #[trigger] first_index_of(
                    candidates@,
                    r@[a],
                    ka,
                ) && #[trigger] first_index_of(candidates@, r@[b], kb) ==> ka < kb,
    {
        let mut results: Vec<PredictionResult> = Vec::new();
        let ghost mut ks: Seq<int> = Seq::empty();
        let mut i: usize = 0;
        while i < candidates.len()
            invariant
                i <= candidates@.len(),
                consistent_scores(candidates@),
                results@.len() <= target,
                forall|a: int, b: int|
                    0 <= a < b < results@.len() ==> results@[a].score >= results@[b].score,
                forall|a: int, b: int|
                    0 <= a < b < results@.len() ==> !same_prediction(results@[a], results@[b]),
                forall|a: int|
                    0 <= a < results@.len() ==> in_candidates(#[trigger] results@[a], candidates@),
                forall|k: int|
                    0 <= k < i ==> accounted_for(results@, #[trigger] candidates@[k], target as nat),
                ks.len() == results@.len(),
                forall|a: int|
                    0 <= a < results@.len() ==> first_index_of(candidates@, results@[a], #[trigger] ks[a])
                        && ks[a] < i,
                forall|a: int, b: int|
                    0 <= a < b < results@.len() && results@[a].score == results@[b].score ==> ks[a]
                        < ks[b],
            decreases candidates@.len() - i,
        {
            let cand = &candidates[i];
            let mut dup = false;
            let mut j: usize = 0;
            while j < results.len()
                invariant
                    j <= results@.len(),
                    dup <==> exists|q: int| 0 <= q < j && same_prediction(#[trigger] results@[q], *cand),
                decreases results@.len() - j,
            {
                if Self::is_same_prediction(&results[j], cand) {
                    dup = true;
                }
                j = j + 1;
            }
            let full = results.len() == target && (target == 0 || cand.score
                <= results[target - 1].score);
            let ghost before = results@;
            if !dup && !full {
                let mut p: usize = 0;
                while p < results.len() && results[p].score >= cand.score
                    invariant
                        p <= results@.len(),
                        forall|q: int| 0 <= q < p ==> results@[q].score >= cand.score,
                    decreases results@.len() - p,
                {
                    p = p + 1;
                }
                assert forall|q: int| p <= q < before.len() implies before[q].score
                    < cand.score by {
                    if q > p {
                        assert(before[p as int].score >= before[q].score);
                    }
                }
                proof {
                    assert forall|m: int| 0 <= m < i implies !same_prediction(
                        #[trigger] candidates@[m],
                        candidates@[i as int],
                    ) by {
                        if same_prediction(candidates@[m], candidates@[i as int]) {
                            assert(accounted_for(before, candidates@[m], target as nat));
                            if exists|a: int| 0 <= a < before.len() && same_prediction(#[trigger] before[a], candidates@[m]) {
                                let a = choose|a: int| 0 <= a < before.len() && same_prediction(#[trigger] before[a], candidates@[m]);
                                assert(same_prediction(before[a], *cand));
                            } else {
                                assert(candidates@[m].score == candidates@[i as int].score);
                            }
                        }
                    }
                }
                let e = copy_prediction(cand);
                results.insert(p, e);
                let ghost mid = results@;
                let ghost ks_before = ks;
                proof {
                    ks = ks.insert(p as int, i as int);
                    ks_before.insert_ensures(p as int, i as int);
                    before.insert_ensures(p as int, e);
                    assert(first_index_of(candidates@, e, i as int));
                    assert forall|a: int| 0 <= a < mid.len() implies first_index_of(
                        candidates@,
                        mid[a],
                        #[trigger] ks[a],
                    ) && ks[a] < i + 1 by {
                        if a > p {
                            assert(mid[a] == before[a - 1]);
                            assert(ks[a] == ks_before[a - 1]);
                        }
                    }
                    assert forall|a: int, b: int|
                        0 <= a < b < mid.len() && mid[a].score == mid[b].score implies ks[a]
                        < ks[b] by {
                        if b < p {
                        } else if b == p {
                        } else if a <= p {
                            assert(mid[b] == before[b - 1]);
                            assert(ks[b] == ks_before[b - 1]);
                        } else {
                            assert(mid[b] == before[b - 1]);
                            assert(mid[a] == before[a - 1]);
                            assert(ks[b] == ks_before[b - 1]);
                            assert(ks[a] == ks_before[a - 1]);
                        }
                    }
                    assert(same_prediction(e, *cand));
                    assert forall|a: int, b: int| 0 <= a < b < mid.len() implies mid[a].score
                        >= mid[b].score by {
                        if b < p {
                        } else if b == p {
                        } else if a <= p {
                            assert(mid[b] == before[b - 1]);
                        } else {
                            assert(mid[b] == before[b - 1]);
                            assert(mid[a] == before[a - 1]);
                        }
                    }
                    assert forall|a: int, b: int| 0 <= a < b < mid.len() implies !same_prediction(
                        mid[a],
                        mid[b],
                    ) by {
                        if b < p {
                        } else if b == p {
                            assert(!same_prediction(before[a], *cand));
                        } else if a < p {
                            assert(mid[b] == before[b - 1]);
                        } else if a == p {
                            assert(mid[b] == before[b - 1]);
                            assert(!same_prediction(before[b - 1], *cand));
                        } else {
                            assert(mid[b] == before[b - 1]);
                            assert(mid[a] == before[a - 1]);
                        }
                    }
                    assert forall|a: int| 0 <= a < mid.len() implies in_candidates(
                        #[trigger] mid[a],
                        candidates@,
                    ) by {
                        if a < p {
                        } else if a == p {
                            assert(same_prediction(mid[a], candidates@[i as int]));
                        } else {
                            assert(mid[a] == before[a - 1]);
                        }
                    }
                    assert forall|k: int| 0 <= k <= i implies {
                        ||| exists|a: int| 0 <= a < mid.len() && same_prediction(#[trigger] mid[a], candidates@[k])
                        ||| (before.len() == target && target > 0 && candidates@[k].score
                            <= before[target - 1].score)
                    } by {
                        if k == i {
                            assert(same_prediction(mid[p as int], candidates@[k]));
                        } else {
                            assert(accounted_for(before, candidates@[k], target as nat));
                            if exists|a: int| 0 <= a < before.len() && same_prediction(#[trigger] before[a], candidates@[k]) {
                                let a = choose|a: int| 0 <= a < before.len() && same_prediction(#[trigger] before[a], candidates@[k]);
                                if a < p {
                                    assert(same_prediction(mid[a], candidates@[k]));
                                } else {
                                    assert(same_prediction(mid[a + 1], candidates@[k]));
                                }
                            }
                        }
                    }
                }
                if results.len() > target {
                    results.pop();
                    proof {
                        let ks_mid = ks;
                        ks = ks.subrange(0, target as int);
                        assert forall|a: int| 0 <= a < results@.len() implies first_index_of(
                            candidates@,
                            results@[a],
                            #[trigger] ks[a],
                        ) && ks[a] < i + 1 by {
                            assert(results@[a] == mid[a]);
                            assert(ks[a] == ks_mid[a]);
                        }
                        assert(before.len() == target);
                        assert(p < target);
                        let d = mid[target as int];
                        assert(d == before[target - 1]);
                        assert(results@ =~= mid.subrange(0, target as int));
                        assert(results@[target - 1].score >= d.score);
                        assert forall|k: int| 0 <= k <= i implies accounted_for(
                            results@,
                            #[trigger] candidates@[k],
                            target as nat,
                        ) by {
                            let c = candidates@[k];
                            if exists|a: int| 0 <= a < mid.len() && same_prediction(#[trigger] mid[a], c) {
                                let a = choose|a: int| 0 <= a < mid.len() && same_prediction(#[trigger] mid[a], c);
                                if a < target {
                                    assert(same_prediction(results@[a], c));
                                } else {
                                    assert(in_candidates(d, candidates@));
                                    let m = choose|m: int| 0 <= m < candidates@.len() && same_prediction(d, #[trigger] candidates@[m]) && d.score == candidates@[m].score;
                                    assert(same_prediction(candidates@[k], candidates@[m]));
                                }
                            }
                        }
                    }
                } else {
                    proof {
                        assert forall|k: int| 0 <= k <= i implies accounted_for(
                            results@,
                            #[trigger] candidates@[k],
                            target as nat,
                        ) by {
                            let c = candidates@[k];
                            if !(exists|a: int| 0 <= a < mid.len() && same_prediction(#[trigger] mid[a], c)) {
                                assert(before.len() == target);
                            }
                        }
                    }
                }
            } else {
                proof {
                    if dup {
                        let q = choose|q: int| 0 <= q < j && same_prediction(#[trigger] results@[q], *cand);
                        assert(same_prediction(results@[q], candidates@[i as int]));
                    }
                    assert(accounted_for(results@, candidates@[i as int], target as nat));
                }
            }
            i = i + 1;
        }
        proof {
            if target > 0 && candidates@.len() > 0 {
                assert(accounted_for(results@, candidates@[0], target as nat));
            }
            assert forall|a: int| 0 <= a < results@.len() implies occurs_in(
                candidates@,
                #[trigger] results@[a],
            ) by {
                assert(first_index_of(candidates@, results@[a], ks[a]));
            }
            assert forall|a: int, b: int, ka: int, kb: int|
                0 <= a < b < results@.len() && results@[a].score == results@[b].score
                    && #[trigger] first_index_of(candidates@, results@[a], ka) && #[trigger] first_index_of(
                    candidates@,
                    results@[b],
                    kb,
                ) implies ka < kb by {
                assert(first_index_of(candidates@, results@[a], ks[a]));
                assert(first_index_of(candidates@, results@[b], ks[b]));
                lemma_first_index_unique(candidates@, results@[a], ka, ks[a]);
                lemma_first_index_unique(candidates@, results@[b], kb, ks[b]);
            }
        }
        results
    }
}

} // verus!
