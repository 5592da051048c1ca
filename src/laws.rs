use vstd::prelude::*;
use crate::models::{
    blue_count, red_count, weight_of, has_number, AlgorithmType, BallFrequency, SsqRecord,
    BLUE_BALL_MAX, RED_BALL_MAX,
};
use crate::analyzer::{is_frequency_table, ranks_before};

verus! {

/// With no records every number has count zero and every weight is zero,
/// under both policies.
pub proof fn empty_history_weighs_nothing(algorithm: AlgorithmType, count: nat)
    ensures
        forall|n: u8| red_count(Seq::<SsqRecord>::empty(), n) == 0,
        forall|n: u8| blue_count(Seq::<SsqRecord>::empty(), n) == 0,
        weight_of(count, 0, algorithm) == 0,
{
}

/// With the hot policy a larger count never weighs less.
pub proof fn hot_weight_is_monotone(c1: nat, c2: nat, total: nat)
    requires
        c1 <= c2,
    ensures
        weight_of(c1, total, AlgorithmType::HotStaysHot) <= weight_of(
            c2,
            total,
            AlgorithmType::HotStaysHot,
        ),
{
    assert(c1 * c1 <= c2 * c2) by (nonlinear_arith)
        requires
            c1 <= c2,
    ;
}

/// With the cold policy a larger count never weighs more, for counts that
/// do not exceed the number of records.
pub proof fn cold_weight_is_antitone(c1: nat, c2: nat, total: nat)
    requires
        c1 <= c2 <= total,
    ensures
        weight_of(c1, total, AlgorithmType::ColdBounceBack) >= weight_of(
            c2,
            total,
            AlgorithmType::ColdBounceBack,
        ),
{
    let d1 = (total - c1) as nat;
    let d2 = (total - c2) as nat;
    assert(d2 * d2 <= d1 * d1) by (nonlinear_arith)
        requires
            d2 <= d1,
    ;
}

/// In well-formed records a red number occurs at most once per record, so
/// its count never exceeds the number of records; likewise for blue.
pub proof fn counts_within_record_count(records: Seq<SsqRecord>, n: u8)
    requires
        forall|i: int| 0 <= i < records.len() ==> #[trigger] records[i].wf(),
    ensures
        red_count(records, n) <= records.len(),
        blue_count(records, n) <= records.len(),
    decreases records.len(),
{
    if records.len() > 0 {
        let r = records.last();
        assert(records[records.len() - 1].wf());
        assert(r.red_hits(n) <= 1) by {
            let s = r.red_seq();
            assert(s[0] != s[1] && s[0] != s[2] && s[0] != s[3] && s[0] != s[4] && s[0] != s[5]);
            assert(s[1] != s[2] && s[1] != s[3] && s[1] != s[4] && s[1] != s[5]);
            assert(s[2] != s[3] && s[2] != s[4] && s[2] != s[5]);
            assert(s[3] != s[4] && s[3] != s[5]);
            assert(s[4] != s[5]);
        }
        let rest = records.drop_last();
        assert forall|i: int| 0 <= i < rest.len() implies #[trigger] rest[i].wf() by {
            assert(rest[i] == records[i]);
        }
        counts_within_record_count(rest, n);
    }
}

proof fn lemma_tables_agree_up_to(
    t1: Seq<BallFrequency>,
    t2: Seq<BallFrequency>,
    max: u8,
    counts: spec_fn(u8) -> nat,
    total: nat,
    algorithm: AlgorithmType,
    i: int,
)
    requires
        is_frequency_table(t1, max, counts, total, algorithm),
        is_frequency_table(t2, max, counts, total, algorithm),
        0 <= i <= t1.len(),
    ensures
        forall|q: int| 0 <= q < i ==> t1[q] == t2[q],
    decreases i,
{
    if i > 0 {
        let k = i - 1;
        lemma_tables_agree_up_to(t1, t2, max, counts, total, algorithm, k);
        let x = t1[k];
        let y = t2[k];
        if x != y {
            assert(1 <= x.number <= max);
            assert(1 <= y.number <= max);
            assert(has_number(t2, x.number));
            let j2 = choose|j: int| 0 <= j < t2.len() && #[trigger] t2[j].number == x.number;
            assert(t2[j2] == x);
            assert(has_number(t1, y.number));
            let j1 = choose|j: int| 0 <= j < t1.len() && #[trigger] t1[j].number == y.number;
            assert(t1[j1] == y);
            if j2 < k {
                assert(t1[j2] == t2[j2]);
            }
            if j1 < k {
                assert(t1[j1] == t2[j1]);
            }
            assert(j2 > k && j1 > k);
            assert(ranks_before(y, x));
            assert(ranks_before(x, y));
        }
    }
}

/// Frequency analysis is a function of its inputs: any two tables that meet
/// its contract for the same records and policy are equal, entry by entry
/// and in the same order.
pub proof fn analysis_is_deterministic(
    records: Seq<SsqRecord>,
    algorithm: AlgorithmType,
    red1: Seq<BallFrequency>,
    red2: Seq<BallFrequency>,
    blue1: Seq<BallFrequency>,
    blue2: Seq<BallFrequency>,
)
    requires
        is_frequency_table(red1, RED_BALL_MAX, |n: u8| red_count(records, n), records.len(), algorithm),
        is_frequency_table(red2, RED_BALL_MAX, |n: u8| red_count(records, n), records.len(), algorithm),
        is_frequency_table(blue1, BLUE_BALL_MAX, |n: u8| blue_count(records, n), records.len(), algorithm),
        is_frequency_table(blue2, BLUE_BALL_MAX, |n: u8| blue_count(records, n), records.len(), algorithm),
    ensures
        red1 == red2,
        blue1 == blue2,
{
    lemma_tables_agree_up_to(red1, red2, RED_BALL_MAX, |n: u8| red_count(records, n), records.len(), algorithm, red1.len() as int);
    assert(red1 =~= red2);
    lemma_tables_agree_up_to(blue1, blue2, BLUE_BALL_MAX, |n: u8| blue_count(records, n), records.len(), algorithm, blue1.len() as int);
    assert(blue1 =~= blue2);
}

} // verus!
