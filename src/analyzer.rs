use vstd::prelude::*;
use crate::models::{
    blue_count, red_count, red_score, score_of, weight_cap, weight_in,
    weight_of, has_number, same_prediction, valid_combination, valid_table, AlgorithmType,
    BallFrequency, PredictionResult, SsqRecord, BLUE_BALL_MAX, RED_BALL_MAX,
};
use crate::random::RandomSource;
use crate::ranking::in_candidates;

verus! {

/// Number of sampling rounds per generation.
pub const ITERATION_COUNT: usize = 10000;
/// Number of combinations a generation returns at most.
pub const PREDICTION_COUNT: usize = 10;

/// The frequency analysis and combination search.
pub struct Analyzer;

/// `a` is listed before `b`: more occurrences first, then smaller number.
pub open spec fn ranks_before(a: BallFrequency, b: BallFrequency) -> bool {
    a.frequency > b.frequency || (a.frequency == b.frequency && a.number < b.number)
}

/// `t` is the full table of the numbers `1..=max`: one entry per number,
/// with its occurrence count `counts(number)` and the weight of that count,
/// listed by descending count and then ascending number.
pub open spec fn is_frequency_table(
    t: Seq<BallFrequency>,
    max: u8,
    counts: spec_fn(u8) -> nat,
    total: nat,
    algorithm: AlgorithmType,
) -> bool {
    &&& t.len() == max
    &&& forall|i: int|
        0 <= i < t.len() ==> {
            &&& 1 <= #[trigger] t[i].number <= max
            &&& t[i].frequency as nat == counts(t[i].number)
            &&& t[i].weight as nat == weight_of(t[i].frequency as nat, total, algorithm)
        }
    &&& forall|i: int, j: int| 0 <= i < j < t.len() ==> ranks_before(t[i], t[j])
    &&& forall|i: int, j: int| 0 <= i < j < t.len() ==> t[i].number != t[j].number
    &&& forall|n: u8| 1 <= n <= max ==> #[trigger] has_number(t, n)
}

proof fn lemma_square_le(x: nat, b: nat)
    requires
        x <= b,
    ensures
        x * x <= b * b,
{
    assert(x * x <= b * b) by (nonlinear_arith)
        requires
            x <= b,
    ;
}

/// Adds one to the count of `ball`, if it lies in `1..=counts.len()`.
fn tally(counts: &mut Vec<u64>, ball: u8)
    requires
        forall|j: int| 0 <= j < old(counts)@.len() ==> old(counts)@[j] < u64::MAX,
    ensures
        final(counts)@.len() == old(counts)@.len(),
        forall|j: int|
            0 <= j < old(counts)@.len() ==> #[trigger] final(counts)@[j] == old(counts)@[j] + (if ball
                == j + 1 {
                1int
            } else {
                0int
            }),
{
    if 1 <= ball && (ball as usize) <= counts.len() {
        let i = (ball - 1) as usize;
        let c = counts[i];
        counts.set(i, c + 1);
    }
}

/// Adds the six red numbers of `record` to `counts`.
fn tally_reds(counts: &mut Vec<u64>, record: &SsqRecord)
    requires
        forall|j: int| 0 <= j < old(counts)@.len() ==> old(counts)@[j] <= u64::MAX - 6,
    ensures
        final(counts)@.len() == old(counts)@.len(),
        forall|n: u8|
            1 <= n <= old(counts)@.len() ==> #[trigger] final(counts)@[n - 1] == old(counts)@[n - 1]
                + record.red_hits(n),
{
    tally(counts, record.red1);
    tally(counts, record.red2);
    tally(counts, record.red3);
    tally(counts, record.red4);
    tally(counts, record.red5);
    tally(counts, record.red6);
    assert forall|n: u8| 1 <= n <= old(counts)@.len() implies #[trigger] counts@[n - 1] == old(
        counts,
    )@[n - 1] + record.red_hits(n) by {
        assert(counts@[n - 1] == old(counts)@[n - 1] + record.red_hits(n));
    }
}

/// `len` zeros.
fn zeros(len: usize) -> (r: Vec<u64>)
    ensures
        r@.len() == len,
        forall|j: int| 0 <= j < len ==> r@[j] == 0,
{
    let mut r: Vec<u64> = Vec::new();
    while r.len() < len
        invariant
            r@.len() <= len,
            forall|j: int| 0 <= j < r@.len() ==> r@[j] == 0,
        decreases len - r@.len(),
    {
        r.push(0);
    }
    r
}

/// The weight of `n` in `t`, zero if absent.
fn lookup_weight(t: &[BallFrequency], n: u8) -> (r: u128)
    requires
        valid_table(t@),
    ensures
        r as nat == weight_in(t@, n),
        r <= weight_cap(),
{
    let mut i: usize = 0;
    while i < t.len()
        invariant
            i <= t@.len(),
            valid_table(t@),
            forall|q: int| 0 <= q < i ==> t@[q].number != n,
        decreases t@.len() - i,
    {
        if t[i].number == n {
            assert(has_number(t@, n));
            let ghost j = choose|j: int| 0 <= j < t@.len() && #[trigger] t@[j].number == n;
            assert(j == i);
            return t[i].weight;
        }
        i = i + 1;
    }
    assert(!has_number(t@, n));
    0
}

/// The score of `p` is that of its numbers under the red and blue tables
/// that analysing `records` with `algorithm` gives.
pub open spec fn scored_by_history(
    p: PredictionResult,
    records: Seq<SsqRecord>,
    algorithm: AlgorithmType,
) -> bool {
    exists|rt: Seq<BallFrequency>, bt: Seq<BallFrequency>|
        #![trigger score_of(p.red_balls@, p.blue_ball, rt, bt)]
        is_frequency_table(rt, RED_BALL_MAX, |n: u8| red_count(records, n), records.len(), algorithm)
            && is_frequency_table(bt, BLUE_BALL_MAX, |n: u8| blue_count(records, n), records.len(), algorithm)
            && p.score as nat == score_of(p.red_balls@, p.blue_ball, rt, bt)
}

impl Analyzer {
    /// Weight of a number seen `frequency` times in `total_records` records.
    fn calculate_weight(frequency: u64, total_records: u64, algorithm: AlgorithmType) -> (r: u128)
        requires
            frequency <= 6 * total_records,
            total_records <= u32::MAX,
        ensures
            r as nat == weight_of(frequency as nat, total_records as nat, algorithm),
            r <= weight_cap(),
    {
        if total_records == 0 {
            return 0;
        }
        let d: u64 = match algorithm {
            AlgorithmType::HotStaysHot => frequency,
            AlgorithmType::ColdBounceBack => {
                if frequency <= total_records {
                    total_records - frequency
                } else {
                    frequency - total_records
                }
            },
        };
        let b: u64 = 6 * 0xffff_ffff;
        proof {
            lemma_square_le(d as nat, b as nat);
        }
        let d2 = (d as u128) * (d as u128);
        100 * d2
    }

    #[verifier::rlimit(60)]
    #[verifier::spinoff_prover]
    /// Builds the sorted table of the numbers `1..=counts.len()`, the count of
    /// number `n` being `counts[n - 1]`.
    fn build_table(counts: &Vec<u64>, total_records: u64, algorithm: AlgorithmType) -> (r: Vec<
        BallFrequency,
    >)
        requires
            counts@.len() <= 64,
            total_records <= u32::MAX,
            forall|j: int| 0 <= j < counts@.len() ==> counts@[j] <= 6 * total_records,
        ensures
            is_frequency_table(
                r@,
                counts@.len() as u8,
                |n: u8| counts@[n - 1] as nat,
                total_records as nat,
                algorithm,
            ),
            valid_table(r@),
    {
        let mut table: Vec<BallFrequency> = Vec::new();
        let mut k: usize = 0;
        while k < counts.len()
            invariant
                k <= counts@.len() <= 64,
                total_records <= u32::MAX,
                forall|j: int| 0 <= j < counts@.len() ==> counts@[j] <= 6 * total_records,
                table@.len() == k,
                forall|i: int|
                    0 <= i < table@.len() ==> {
                        &&& 1 <= #[trigger] table@[i].number <= k
                        &&& table@[i].frequency == counts@[table@[i].number - 1]
                        &&& table@[i].weight as nat == weight_of(
                            table@[i].frequency as nat,
                            total_records as nat,
                            algorithm,
                        )
                        &&& table@[i].weight <= weight_cap()
                    },
                forall|i: int, j: int|
                    0 <= i < j < table@.len() ==> ranks_before(table@[i], table@[j]),
                forall|i: int, j: int|
                    0 <= i < j < table@.len() ==> table@[i].number != table@[j].number,
                forall|n: u8| 1 <= n <= k ==> #[trigger] has_number(table@, n),
            decreases counts@.len() - k,
        {
            let number = (k + 1) as u8;
            let frequency = counts[k];
            let weight = Self::calculate_weight(frequency, total_records, algorithm);
            let e = BallFrequency { number, frequency, weight };
            let mut p: usize = 0;
            while p < table.len() && table[p].frequency >= frequency
                invariant
                    p <= table@.len(),
                    forall|q: int| 0 <= q < p ==> table@[q].frequency >= frequency,
                decreases table@.len() - p,
            {
                p = p + 1;
            }
            let ghost before = table@;
            assert(forall|q: int| p <= q < before.len() ==> before[q].frequency < frequency) by {
                assert forall|q: int| p <= q < before.len() implies before[q].frequency
                    < frequency by {
                    if q > p {
                        assert(ranks_before(before[p as int], before[q]));
                    }
                }
            }
            table.insert(p, e);
            proof {
                before.insert_ensures(p as int, e);
                assert forall|n: u8| 1 <= n <= k + 1 implies #[trigger] has_number(table@, n) by {
                    if n == k + 1 {
                        assert(table@[p as int].number == n);
                    } else {
                        assert(has_number(before, n));
                        let i = choose|i: int| 0 <= i < before.len() && #[trigger] before[i].number == n;
                        if i < p {
                            assert(table@[i].number == n);
                        } else {
                            assert(table@[i + 1].number == n);
                        }
                    }
                }
                assert forall|i: int, j: int|
                    0 <= i < j < table@.len() implies ranks_before(table@[i], table@[j]) by {
                    if j < p {
                    } else if j == p {
                    } else if i < p {
                        assert(table@[j] == before[j - 1]);
                    } else if i == p {
                        assert(table@[j] == before[j - 1]);
                    } else {
                        assert(table@[j] == before[j - 1]);
                        assert(table@[i] == before[i - 1]);
                    }
                }
                assert forall|i: int, j: int|
                    0 <= i < j < table@.len() implies table@[i].number != table@[j].number by {
                    if j < p {
                    } else if j == p {
                    } else if i < p {
                        assert(table@[j] == before[j - 1]);
                    } else if i == p {
                        assert(table@[j] == before[j - 1]);
                    } else {
                        assert(table@[j] == before[j - 1]);
                        assert(table@[i] == before[i - 1]);
                    }
                }
                assert forall|i: int| 0 <= i < table@.len() implies {
                    &&& 1 <= #[trigger] table@[i].number <= k + 1
                    &&& table@[i].frequency == counts@[table@[i].number - 1]
                    &&& table@[i].weight as nat == weight_of(
                        table@[i].frequency as nat,
                        total_records as nat,
                        algorithm,
                    )
                    &&& table@[i].weight <= weight_cap()
                } by {
                    if i > p {
                        assert(table@[i] == before[i - 1]);
                    }
                }
            }
            k = k + 1;
        }
        assert forall|i: int| 0 <= i < table@.len() implies #[trigger] table@[i].weight
            <= weight_cap() by {
            assert(1 <= table@[i].number);
        }
        table
    }

    /// Counts the red numbers of `records` and weighs them: one entry for each
    /// of 1..=33, by descending count and then ascending number. The bound on
    /// the record count keeps every count and weight exact in fixed width.
    pub fn analyze_red_frequency(records: &[SsqRecord], algorithm: AlgorithmType) -> (r: Vec<
        BallFrequency,
    >)
        requires
            records@.len() <= u32::MAX,
        ensures
            is_frequency_table(
                r@,
                RED_BALL_MAX,
                |n: u8| red_count(records@, n),
                records@.len(),
                algorithm,
            ),
            valid_table(r@),
    {
        let mut counts = zeros(RED_BALL_MAX as usize);
        let mut i: usize = 0;
        while i < records.len()
            invariant
                i <= records@.len() <= u32::MAX,
                counts@.len() == RED_BALL_MAX,
                forall|n: u8|
                    1 <= n <= RED_BALL_MAX ==> #[trigger] counts@[n - 1] == red_count(
                        records@.take(i as int),
                        n,
                    ),
                forall|j: int| 0 <= j < RED_BALL_MAX ==> counts@[j] <= 6 * i,
            decreases records@.len() - i,
        {
            let ghost before = counts@;
            proof {
                assert forall|j: int| 0 <= j < RED_BALL_MAX implies before[j] <= u64::MAX - 6 by {
                    assert(before[j] <= 6 * i);
                }
            }
            tally_reds(&mut counts, &records[i]);
            proof {
                assert(records@.take(i + 1).drop_last() =~= records@.take(i as int));
                assert forall|n: u8| 1 <= n <= RED_BALL_MAX implies #[trigger] counts@[n - 1]
                    == red_count(records@.take(i + 1), n) by {
                    assert(counts@[n - 1] == before[n - 1] + records@[i as int].red_hits(n));
                }
                assert forall|j: int| 0 <= j < RED_BALL_MAX implies counts@[j] <= 6 * (i + 1) by {
                    let n = (j + 1) as u8;
                    assert(counts@[n - 1] == before[n - 1] + records@[i as int].red_hits(n));
                }
            }
            i = i + 1;
        }
        proof {
            assert(records@.take(records@.len() as int) =~= records@);
        }
        let total = records.len() as u64;
        Self::build_table(&counts, total, algorithm)
    }

    /// Counts the blue numbers of `records` and weighs them: one entry for
    /// each of 1..=16, by descending count and then ascending number. The
    /// bound on the record count keeps every count and weight exact.
    pub fn analyze_blue_frequency(records: &[SsqRecord], algorithm: AlgorithmType) -> (r: Vec<
        BallFrequency,
    >)
        requires
            records@.len() <= u32::MAX,
        ensures
            is_frequency_table(
                r@,
                BLUE_BALL_MAX,
                |n: u8| blue_count(records@, n),
                records@.len(),
                algorithm,
            ),
            valid_table(r@),
    {
        let mut counts = zeros(BLUE_BALL_MAX as usize);
        let mut i: usize = 0;
        while i < records.len()
            invariant
                i <= records@.len() <= u32::MAX,
                counts@.len() == BLUE_BALL_MAX,
                forall|n: u8|
                    1 <= n <= BLUE_BALL_MAX ==> #[trigger] counts@[n - 1] == blue_count(
                        records@.take(i as int),
                        n,
                    ),
                forall|j: int| 0 <= j < BLUE_BALL_MAX ==> counts@[j] <= i,
            decreases records@.len() - i,
        {
            let ghost before = counts@;
            tally(&mut counts, records[i].blue_ball);
            proof {
                assert(records@.take(i + 1).drop_last() =~= records@.take(i as int));
                assert forall|n: u8| 1 <= n <= BLUE_BALL_MAX implies #[trigger] counts@[n - 1]
                    == blue_count(records@.take(i + 1), n) by {
                    assert(counts@[n - 1] == before[n - 1] + (if records@[i as int].blue_ball == n {
                        1int
                    } else {
                        0int
                    }));
                }
                assert forall|j: int| 0 <= j < BLUE_BALL_MAX implies counts@[j] <= i + 1 by {
                    assert(counts@[j] == before[j] + (if records@[i as int].blue_ball == j + 1 {
                        1int
                    } else {
                        0int
                    }));
                }
            }
            i = i + 1;
        }
        proof {
            assert(records@.take(records@.len() as int) =~= records@);
        }
        let total = records.len() as u64;
        Self::build_table(&counts, total, algorithm)
    }

    /// Sum of the weights of `red_balls` in `red_frequencies` and of
    /// `blue_ball` in `blue_frequencies`; absent numbers count zero.
    pub fn calculate_score(
        red_balls: &[u8],
        blue_ball: u8,
        red_frequencies: &[BallFrequency],
        blue_frequencies: &[BallFrequency],
    ) -> (r: u128)
        requires
            red_balls@.len() <= 64,
            valid_table(red_frequencies@),
            valid_table(blue_frequencies@),
        ensures
            r as nat == score_of(red_balls@, blue_ball, red_frequencies@, blue_frequencies@),
    {
        let mut score: u128 = 0;
        let mut i: usize = 0;
        while i < red_balls.len()
            invariant
                i <= red_balls@.len() <= 64,
                valid_table(red_frequencies@),
                score as nat == red_score(red_balls@.take(i as int), red_frequencies@),
                score <= i * weight_cap(),
            decreases red_balls@.len() - i,
        {
            assert(red_balls@.take(i + 1).drop_last() =~= red_balls@.take(i as int));
            let w = lookup_weight(red_frequencies, red_balls[i]);
            score = score + w;
            i = i + 1;
        }
        assert(red_balls@.take(red_balls@.len() as int) =~= red_balls@);
        let w = lookup_weight(blue_frequencies, blue_ball);
        score + w
    }

    /// Runs `iterations` rounds, each drawing six red numbers and one blue
    /// number from the tables of `records` and scoring them, and returns the
    /// best `target` distinct combinations by descending score.
    pub fn generate_predictions_with(
        records: &[SsqRecord],
        algorithm: AlgorithmType,
        iterations: usize,
        target: usize,
        rng: &mut RandomSource,
    ) -> (r: Vec<PredictionResult>)
        requires
            records@.len() <= u32::MAX,
        ensures
            r@.len() <= target,
            iterations > 0 && target > 0 ==> r@.len() > 0,
            forall|a: int| 0 <= a < r@.len() ==> valid_combination(#[trigger] r@[a]),
            forall|a: int| 0 <= a < r@.len() ==> scored_by_history(#[trigger] r@[a], records@, algorithm),
            forall|a: int, b: int| 0 <= a < b < r@.len() ==> r@[a].score >= r@[b].score,
            forall|a: int, b: int| 0 <= a < b < r@.len() ==> !same_prediction(r@[a], r@[b]),
    {
        let red = Self::analyze_red_frequency(records, algorithm);
        let blue = Self::analyze_blue_frequency(records, algorithm);
        let mut candidates: Vec<PredictionResult> = Vec::new();
        let mut it: usize = 0;
        while it < iterations
            invariant
                it <= iterations,
                candidates@.len() == it,
                valid_table(red@),
                valid_table(blue@),
                is_frequency_table(red@, RED_BALL_MAX, |n: u8| red_count(records@, n), records@.len(), algorithm),
                is_frequency_table(blue@, BLUE_BALL_MAX, |n: u8| blue_count(records@, n), records@.len(), algorithm),
                red@.len() == RED_BALL_MAX,
                blue@.len() == BLUE_BALL_MAX,
                forall|q: int| 0 <= q < red@.len() ==> 1 <= #[trigger] red@[q].number <= RED_BALL_MAX,
                forall|q: int|
                    0 <= q < blue@.len() ==> 1 <= #[trigger] blue@[q].number <= BLUE_BALL_MAX,
                forall|c: int|
                    0 <= c < candidates@.len() ==> valid_combination(#[trigger] candidates@[c])
                        && candidates@[c].score as nat == score_of(
                        candidates@[c].red_balls@,
                        candidates@[c].blue_ball,
                        red@,
                        blue@,
                    ),
            decreases iterations - it,
        {
            let reds = Self::weighted_random_selection(red.as_slice(), 6, rng);
            let blues = Self::weighted_random_selection(blue.as_slice(), 1, rng);
            let blue_ball = blues[0];
            let score = Self::calculate_score(reds.as_slice(), blue_ball, red.as_slice(), blue.as_slice());
            let cand = PredictionResult { red_balls: reds, blue_ball, score };
            proof {
                assert(has_number(blue@, blue_ball));
                assert forall|k: int| 0 <= k < 6 implies 1 <= #[trigger] cand.red_balls@[k]
                    <= RED_BALL_MAX by {
                    assert(has_number(red@, cand.red_balls@[k]));
                }
            }
            candidates.push(cand);
            it = it + 1;
        }
        let ranked = Self::rank_predictions(candidates.as_slice(), target);
        proof {
            assert forall|a: int| 0 <= a < ranked@.len() implies valid_combination(
                #[trigger] ranked@[a],
            ) by {
                assert(in_candidates(ranked@[a], candidates@));
                let k = choose|k: int|
                    0 <= k < candidates@.len() && same_prediction(ranked@[a], #[trigger] candidates@[k])
                        && ranked@[a].score == candidates@[k].score;
                assert(valid_combination(candidates@[k]));
            }
            assert forall|a: int| 0 <= a < ranked@.len() implies scored_by_history(
                #[trigger] ranked@[a],
                records@,
                algorithm,
            ) by {
                assert(in_candidates(ranked@[a], candidates@));
                let k = choose|k: int|
                    0 <= k < candidates@.len() && same_prediction(ranked@[a], #[trigger] candidates@[k])
                        && ranked@[a].score == candidates@[k].score;
                assert(candidates@[k].score as nat == score_of(candidates@[k].red_balls@, candidates@[k].blue_ball, red@, blue@));
                assert(ranked@[a].score as nat == score_of(ranked@[a].red_balls@, ranked@[a].blue_ball, red@, blue@));
            }
        }
        ranked
    }

    /// One generation with the standard budget: the best distinct
    /// combinations out of ten thousand draws, at most ten of them and at
    /// least one.
    pub fn generate_predictions(
        records: &[SsqRecord],
        algorithm: AlgorithmType,
        rng: &mut RandomSource,
    ) -> (r: Vec<PredictionResult>)
        requires
            records@.len() <= u32::MAX,
        ensures
            1 <= r@.len() <= PREDICTION_COUNT,
            forall|a: int| 0 <= a < r@.len() ==> valid_combination(#[trigger] r@[a]),
            forall|a: int| 0 <= a < r@.len() ==> scored_by_history(#[trigger] r@[a], records@, algorithm),
            forall|a: int, b: int| 0 <= a < b < r@.len() ==> r@[a].score >= r@[b].score,
            forall|a: int, b: int| 0 <= a < b < r@.len() ==> !same_prediction(r@[a], r@[b]),
    {
        Self::generate_predictions_with(records, algorithm, ITERATION_COUNT, PREDICTION_COUNT, rng)
    }
}

} // verus!
