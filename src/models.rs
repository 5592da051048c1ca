use vstd::prelude::*;

verus! {

/// Smallest and largest red number.
pub const RED_BALL_MIN: u8 = 1;
pub const RED_BALL_MAX: u8 = 33;
/// Smallest and largest blue number.
pub const BLUE_BALL_MIN: u8 = 1;
pub const BLUE_BALL_MAX: u8 = 16;

/// One historical draw: an issue number, a date, six red numbers and one
/// blue number.
#[derive(Debug, Clone)]
pub struct SsqRecord {
    pub issue: String,
    pub date: String,
    pub red1: u8,
    pub red2: u8,
    pub red3: u8,
    pub red4: u8,
    pub red5: u8,
    pub red6: u8,
    pub blue_ball: u8,
}

impl SsqRecord {
    /// The six red numbers in slot order.
    pub open spec fn red_seq(self) -> Seq<u8> {
        seq![self.red1, self.red2, self.red3, self.red4, self.red5, self.red6]
    }

    /// How many of the six red slots hold `n`.
    pub open spec fn red_hits(self, n: u8) -> nat {
        (if self.red1 == n { 1nat } else { 0nat }) + (if self.red2 == n { 1nat } else { 0nat })
            + (if self.red3 == n { 1nat } else { 0nat }) + (if self.red4 == n { 1nat } else { 0nat })
            + (if self.red5 == n { 1nat } else { 0nat }) + (if self.red6 == n { 1nat } else { 0nat })
    }

    /// A well-formed draw: six distinct red numbers in 1..=33, a blue number
    /// in 1..=16.
    pub open spec fn wf(self) -> bool {
        &&& forall|i: int| 0 <= i < 6 ==> RED_BALL_MIN <= #[trigger] self.red_seq()[i] <= RED_BALL_MAX
        &&& forall|i: int, j: int| 0 <= i < j < 6 ==> self.red_seq()[i] != self.red_seq()[j]
        &&& BLUE_BALL_MIN <= self.blue_ball <= BLUE_BALL_MAX
    }

    /// Builds a record from its six red numbers in slot order.
    pub fn new(issue: String, date: String, red_balls: Vec<u8>, blue_ball: u8) -> (r: Self)
        requires
            red_balls@.len() == 6,
        ensures
            r.issue == issue,
            r.date == date,
            r.red_seq() == red_balls@,
            r.blue_ball == blue_ball,
    {
        let r = SsqRecord {
            issue,
            date,
            red1: red_balls[0],
            red2: red_balls[1],
            red3: red_balls[2],
            red4: red_balls[3],
            red5: red_balls[4],
            red6: red_balls[5],
            blue_ball,
        };
        assert(r.red_seq() =~= red_balls@);
        r
    }

    /// The six red numbers in slot order.
    pub fn red_balls(&self) -> (r: Vec<u8>)
        ensures
            r@ == self.red_seq(),
    {
        let r = vec![self.red1, self.red2, self.red3, self.red4, self.red5, self.red6];
        assert(r@ =~= self.red_seq());
        r
    }
}

/// Occurrences of `n` among the red numbers of `records`.
pub open spec fn red_count(records: Seq<SsqRecord>, n: u8) -> nat
    decreases records.len(),
{
    if records.len() == 0 {
        0
    } else {
        red_count(records.drop_last(), n) + records.last().red_hits(n)
    }
}

/// Occurrences of `n` as the blue number of `records`.
pub open spec fn blue_count(records: Seq<SsqRecord>, n: u8) -> nat
    decreases records.len(),
{
    if records.len() == 0 {
        0
    } else {
        blue_count(records.drop_last(), n) + (if records.last().blue_ball == n { 1nat } else { 0nat })
    }
}

/// How occurrence counts turn into weights.
#[derive(Debug, Clone, Copy, PartialEq, Eq, Structural)]
pub enum AlgorithmType {
    /// Frequent numbers weigh more: `p² · 100`.
    HotStaysHot,
    /// Rare numbers weigh more: `(1 - p)² · 100`.
    ColdBounceBack,
}

/// The weight of a number seen `count` times in `total` records, scaled by
/// `total²` so that it is an integer: with `p = count / total` the real
/// weight is `100 · p²` (hot) or `100 · (1 - p)²` (cold), and
/// `weight_of(count, total, a) == real weight · total²`.
/// With no records every weight is zero.
pub open spec fn weight_of(count: nat, total: nat, algorithm: AlgorithmType) -> nat {
    if total == 0 {
        0
    } else {
        match algorithm {
            AlgorithmType::HotStaysHot => 100 * (count * count),
            AlgorithmType::ColdBounceBack => {
                let d: nat = if count <= total { (total - count) as nat } else { (count - total) as nat };
                100 * (d * d)
            },
        }
    }
}

/// Statistics of one number: how often it occurred and its weight
/// (see [`weight_of`] for the scale).
#[derive(Debug, Clone, Copy)]
pub struct BallFrequency {
    pub number: u8,
    pub frequency: u64,
    pub weight: u128,
}

/// Upper bound on any single weight that the sampler and the score accept.
pub open spec fn weight_cap() -> int {
    0x1_0000_0000_0000_0000_0000_0000
}

/// A table that can be sampled and scored: at most 64 entries, distinct
/// numbers, each weight within [`weight_cap`].
pub open spec fn valid_table(t: Seq<BallFrequency>) -> bool {
    &&& t.len() <= 64
    &&& forall|i: int, j: int| 0 <= i < j < t.len() ==> t[i].number != t[j].number
    &&& forall|i: int| 0 <= i < t.len() ==> #[trigger] t[i].weight <= weight_cap()
}

/// Whether `n` is the number of some entry of `t`.
pub open spec fn has_number(t: Seq<BallFrequency>, n: u8) -> bool {
    exists|i: int| 0 <= i < t.len() && #[trigger] t[i].number == n
}

/// The weight of `n` in `t` (the table's numbers being distinct), zero if
/// `n` is absent.
pub open spec fn weight_in(t: Seq<BallFrequency>, n: u8) -> nat {
    if has_number(t, n) {
        let i = choose|i: int| 0 <= i < t.len() && #[trigger] t[i].number == n;
        t[i].weight as nat
    } else {
        0
    }
}

/// Sum of the weights of `reds` in `t`.
pub open spec fn red_score(reds: Seq<u8>, t: Seq<BallFrequency>) -> nat
    decreases reds.len(),
{
    if reds.len() == 0 {
        0
    } else {
        red_score(reds.drop_last(), t) + weight_in(t, reds.last())
    }
}

/// The score of a combination: the red numbers' weights plus the blue one's.
pub open spec fn score_of(
    reds: Seq<u8>,
    blue: u8,
    red_table: Seq<BallFrequency>,
    blue_table: Seq<BallFrequency>,
) -> nat {
    red_score(reds, red_table) + weight_in(blue_table, blue)
}

/// A candidate combination with its score (on the scale of [`weight_of`]).
#[derive(Debug, Clone)]
pub struct PredictionResult {
    pub red_balls: Vec<u8>,
    pub blue_ball: u8,
    pub score: u128,
}

/// Two combinations are the same when their red sequences and blue numbers
/// agree (red sequences are kept sorted, so this is equality of red sets).
pub open spec fn same_prediction(a: PredictionResult, b: PredictionResult) -> bool {
    a.red_balls@ == b.red_balls@ && a.blue_ball == b.blue_ball
}

/// Strictly ascending, hence duplicate-free.
pub open spec fn strictly_ascending(s: Seq<u8>) -> bool {
    forall|i: int, j: int| 0 <= i < j < s.len() ==> s[i] < s[j]
}

/// A well-formed combination: six ascending red numbers in 1..=33 and a
/// blue number in 1..=16.
pub open spec fn valid_combination(p: PredictionResult) -> bool {
    &&& p.red_balls@.len() == 6
    &&& strictly_ascending(p.red_balls@)
    &&& forall|i: int| 0 <= i < 6 ==> RED_BALL_MIN <= #[trigger] p.red_balls@[i] <= RED_BALL_MAX
    &&& BLUE_BALL_MIN <= p.blue_ball <= BLUE_BALL_MAX
}

} // verus!
