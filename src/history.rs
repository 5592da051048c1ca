use vstd::prelude::*;
use vstd::string::StrSliceExecFns;
use chrono::{Datelike, NaiveDate};
use crate::models::{
    has_number, valid_table, BallFrequency, SsqRecord, BLUE_BALL_MAX, RED_BALL_MAX,
};
use crate::analyzer::Analyzer;
use crate::random::RandomSource;
use crate::store::update_marker_text;

verus! {

/// How many of the most recent records the history keeps.
pub const MAX_RECORDS: usize = 500;

/// A calendar day, as year, month and day.
#[derive(Debug, Clone, Copy, PartialEq, Eq, Structural)]
pub struct CalendarDate {
    pub year: i32,
    pub month: u32,
    pub day: u32,
}

/// Relies on chrono's `NaiveDate::parse_from_str` with the pattern
/// `%Y-%m-%d`, which succeeds only on a real calendar day.
#[verifier::external_body]
fn parse_ymd(text: &str) -> (r: Option<CalendarDate>)
    ensures
        r matches Some(d) ==> 1 <= d.month <= 12 && 1 <= d.day <= 31,
{
    match NaiveDate::parse_from_str(text, "%Y-%m-%d") {
        Ok(d) => Some(CalendarDate { year: d.year(), month: d.month(), day: d.day() }),
        Err(_) => None,
    }
}

/// Whether `c` is white space in Unicode's sense (`char::is_whitespace`).
pub uninterp spec fn whitespace_char(c: char) -> bool;

/// Relies on `char::is_whitespace`: a property of the character alone.
#[verifier::external_body]
fn is_whitespace_char(c: char) -> (r: bool)
    ensures
        r == whitespace_char(c),
{
    c.is_whitespace()
}

/// `s` without its leading and trailing white space, as `str::trim` gives.
pub open spec fn is_trim_of(t: Seq<char>, s: Seq<char>) -> bool {
    exists|a: int, b: int|
        0 <= a <= b <= s.len() && t == s.subrange(a, b) && (forall|q: int|
            0 <= q < a ==> whitespace_char(#[trigger] s[q])) && (forall|q: int|
            b <= q < s.len() ==> whitespace_char(#[trigger] s[q])) && (a < b ==> !whitespace_char(
            s[a]) && !whitespace_char(s[b - 1]))
}

/// `s` without leading and trailing white space.
pub fn trim_text(s: &str) -> (r: &str)
    ensures
        is_trim_of(r@, s@),
{
    let len = s.unicode_len();
    let mut a: usize = 0;
    while a < len && is_whitespace_char(s.get_char(a))
        invariant
            a <= len == s@.len(),
            forall|q: int| 0 <= q < a ==> whitespace_char(#[trigger] s@[q]),
        decreases len - a,
    {
        a = a + 1;
    }
    let mut b: usize = len;
    while b > a && is_whitespace_char(s.get_char(b - 1))
        invariant
            a <= b <= len == s@.len(),
            forall|q: int| b <= q < len ==> whitespace_char(#[trigger] s@[q]),
        decreases b - a,
    {
        b = b - 1;
    }
    let r = s.substring_char(a, b);
    assert(is_trim_of(r@, s@)) by {
        assert(r@ == s@.subrange(a as int, b as int));
    }
    r
}

/// The day named on the first line of the history file: the update marker,
/// then a `%Y-%m-%d` date, with white space around the date allowed.
pub fn last_update_date(first_line: &str) -> (r: Option<CalendarDate>)
    ensures
        !(first_line@.len() >= 14 && first_line@.subrange(0, 14) == "# LastUpdate: "@) ==> r is None,
        r matches Some(d) ==> 1 <= d.month <= 12 && 1 <= d.day <= 31,
{
    match update_marker_text(first_line) {
        Some(text) => {
            proof {
                reveal_strlit("# LastUpdate: ");
                assert(first_line@.subrange(0, 14) =~= "# LastUpdate: "@);
            }
            parse_ymd(trim_text(text))
        },
        None => None,
    }
}

impl SsqRecord {
    /// The draw date, if it is written as `%Y-%m-%d`.
    pub fn get_date(&self) -> (r: Option<CalendarDate>)
        ensures
            r matches Some(d) ==> 1 <= d.month <= 12 && 1 <= d.day <= 31,
    {
        parse_ymd(self.date.as_str())
    }
}

/// `a` is the same day as `b` or a later one.
pub open spec fn on_or_after(a: CalendarDate, b: CalendarDate) -> bool {
    a.year > b.year || (a.year == b.year && (a.month > b.month || (a.month == b.month && a.day
        >= b.day)))
}

/// Whether the history must be fetched again: when it is empty, when its
/// last update is unknown, or when that update is older than today.
pub fn should_fetch(local_count: usize, last_update: Option<CalendarDate>, today: CalendarDate) -> (r:
    bool)
    ensures
        r == (local_count == 0 || match last_update {
            None => true,
            Some(d) => !on_or_after(d, today),
        }),
{
    if local_count == 0 {
        return true;
    }
    match last_update {
        None => true,
        Some(d) => !(d.year > today.year || (d.year == today.year && (d.month > today.month || (
        d.month == today.month && d.day >= today.day)))),
    }
}

/// The last `max` records of `records`, or all of them if there are fewer.
pub fn keep_recent(records: Vec<SsqRecord>, max: usize) -> (r: Vec<SsqRecord>)
    ensures
        r@ == (if records@.len() > max {
            records@.subrange(records@.len() - max, records@.len() as int)
        } else {
            records@
        }),
{
    let mut records = records;
    if records.len() > max {
        let start = records.len() - max;
        records.split_off(start)
    } else {
        records
    }
}

/// Lexicographic order on character sequences, by code point (which is
/// also the byte order of their UTF-8 encodings, the order of `str`).
pub open spec fn chars_le(a: Seq<char>, b: Seq<char>) -> bool
    decreases a.len(),
{
    if a.len() == 0 {
        true
    } else if b.len() == 0 {
        false
    } else if (a[0] as u32) < (b[0] as u32) {
        true
    } else if (a[0] as u32) > (b[0] as u32) {
        false
    } else {
        chars_le(a.drop_first(), b.drop_first())
    }
}

proof fn lemma_chars_le_total(a: Seq<char>, b: Seq<char>)
    ensures
        chars_le(a, b) || chars_le(b, a),
    decreases a.len(),
{
    if a.len() > 0 && b.len() > 0 && a[0] as u32 == b[0] as u32 {
        lemma_chars_le_total(a.drop_first(), b.drop_first());
    }
}

proof fn lemma_chars_le_transitive(a: Seq<char>, b: Seq<char>, c: Seq<char>)
    requires
        chars_le(a, b),
        chars_le(b, c),
    ensures
        chars_le(a, c),
    decreases a.len(),
{
    if a.len() > 0 && b.len() > 0 && c.len() > 0 && a[0] as u32 == b[0] as u32 && b[0] as u32
        == c[0] as u32 {
        lemma_chars_le_transitive(a.drop_first(), b.drop_first(), c.drop_first());
    }
}

/// Whether `a` sorts no later than `b`.
fn str_le(a: &str, b: &str) -> (r: bool)
    ensures
        r == chars_le(a@, b@),
{
    let la = a.unicode_len();
    let lb = b.unicode_len();
    let mut i: usize = 0;
    assert(a@.subrange(0, la as int) =~= a@);
    assert(b@.subrange(0, lb as int) =~= b@);
    while i < la && i < lb
        invariant
            la == a@.len(),
            lb == b@.len(),
            i <= la,
            i <= lb,
            chars_le(a@, b@) == chars_le(a@.subrange(i as int, la as int), b@.subrange(i as int, lb as int)),
        decreases la - i,
    {
        let ca = a.get_char(i);
        let cb = b.get_char(i);
        proof {
            let sa = a@.subrange(i as int, la as int);
            let sb = b@.subrange(i as int, lb as int);
            assert(sa[0] == ca);
            assert(sb[0] == cb);
            assert(sa.drop_first() =~= a@.subrange(i + 1, la as int));
            assert(sb.drop_first() =~= b@.subrange(i + 1, lb as int));
        }
        if (ca as u32) < (cb as u32) {
            return true;
        }
        if (ca as u32) > (cb as u32) {
            return false;
        }
        i = i + 1;
    }
    i == la
}

/// A copy of `r`.
fn copy_record(r: &SsqRecord) -> (c: SsqRecord)
    ensures
        c == *r,
{
    SsqRecord {
        issue: r.issue.clone(),
        date: r.date.clone(),
        red1: r.red1,
        red2: r.red2,
        red3: r.red3,
        red4: r.red4,
        red5: r.red5,
        red6: r.red6,
        blue_ball: r.blue_ball,
    }
}

/// Whether some record of `s` has the issue `issue`.
pub open spec fn has_issue(s: Seq<SsqRecord>, issue: Seq<char>) -> bool {
    exists|i: int| 0 <= i < s.len() && #[trigger] s[i].issue@ == issue
}

/// `local` followed by each fetched record whose issue is not yet present.
pub open spec fn merge_union(local: Seq<SsqRecord>, fetched: Seq<SsqRecord>) -> Seq<SsqRecord>
    decreases fetched.len(),
{
    if fetched.len() == 0 {
        local
    } else {
        let m = merge_union(local, fetched.drop_last());
        if has_issue(m, fetched.last().issue@) {
            m
        } else {
            m.push(fetched.last())
        }
    }
}

/// Sorted by issue, in `str` order.
pub open spec fn sorted_by_issue(s: Seq<SsqRecord>) -> bool {
    forall|i: int, j: int| 0 <= i < j < s.len() ==> chars_le(s[i].issue@, s[j].issue@)
}

proof fn lemma_insert_multiset<A>(s: Seq<A>, p: int, x: A)
    requires
        0 <= p <= s.len(),
    ensures
        s.insert(p, x).to_multiset() =~= s.to_multiset().insert(x),
{
    let a = s.subrange(0, p);
    let b = s.subrange(p, s.len() as int);
    assert(s =~= a + b);
    assert(s.insert(p, x) =~= a.push(x) + b);
    vstd::seq_lib::lemma_multiset_commutative(a.push(x), b);
    vstd::seq_lib::lemma_multiset_commutative(a, b);
    a.to_multiset_ensures();
}

/// Adds to `local` the fetched records whose issue it does not hold yet
/// (the first of equal fetched issues wins), then orders everything by
/// issue.
pub fn merge_records(local: Vec<SsqRecord>, fetched: &[SsqRecord]) -> (r: Vec<SsqRecord>)
    ensures
        r@.to_multiset() == merge_union(local@, fetched@).to_multiset(),
        sorted_by_issue(r@),
{
    let mut merged = local;
    let ghost local_seq = merged@;
    let mut i: usize = 0;
    while i < fetched.len()
        invariant
            i <= fetched@.len(),
            merged@ == merge_union(local_seq, fetched@.take(i as int)),
        decreases fetched@.len() - i,
    {
        let mut present = false;
        let mut j: usize = 0;
        while j < merged.len()
            invariant
                i < fetched@.len(),
                j <= merged@.len(),
                present <==> exists|q: int| 0 <= q < j && #[trigger] merged@[q].issue@ == fetched@[i as int].issue@,
            decreases merged@.len() - j,
        {
            if merged[j].issue == fetched[i].issue {
                present = true;
            }
            j = j + 1;
        }
        assert(fetched@.take(i + 1).drop_last() =~= fetched@.take(i as int));
        assert(fetched@.take(i + 1).last() == fetched@[i as int]);
        if !present {
            merged.push(copy_record(&fetched[i]));
        }
        i = i + 1;
    }
    assert(fetched@.take(fetched@.len() as int) =~= fetched@);
    let mut sorted: Vec<SsqRecord> = Vec::new();
    let mut k: usize = 0;
    assert(sorted@ =~= merged@.take(0));
    while k < merged.len()
        invariant
            k <= merged@.len(),
            sorted@.to_multiset() == merged@.take(k as int).to_multiset(),
            sorted_by_issue(sorted@),
        decreases merged@.len() - k,
    {
        let x = copy_record(&merged[k]);
        let mut p: usize = 0;
        while p < sorted.len() && str_le(sorted[p].issue.as_str(), x.issue.as_str())
            invariant
                p <= sorted@.len(),
                forall|q: int| 0 <= q < p ==> chars_le(#[trigger] sorted@[q].issue@, x.issue@),
            decreases sorted@.len() - p,
        {
            p = p + 1;
        }
        let ghost before = sorted@;
        proof {
            assert forall|q: int| p <= q < before.len() implies chars_le(x.issue@, #[trigger] before[q].issue@) by {
                lemma_chars_le_total(x.issue@, before[p as int].issue@);
                if q > p {
                    lemma_chars_le_transitive(x.issue@, before[p as int].issue@, before[q].issue@);
                }
            }
        }
        sorted.insert(p, x);
        proof {
            before.insert_ensures(p as int, x);
            lemma_insert_multiset(before, p as int, x);
            merged@.take(k as int).to_multiset_ensures();
            assert(merged@.take(k + 1) =~= merged@.take(k as int).push(merged@[k as int]));
            assert forall|a: int, b: int| 0 <= a < b < sorted@.len() implies chars_le(
                sorted@[a].issue@,
                sorted@[b].issue@,
            ) by {
                if b < p {
                } else if b == p {
                } else if a < p {
                    assert(sorted@[b] == before[b - 1]);
                    lemma_chars_le_transitive(before[a].issue@, x.issue@, before[b - 1].issue@);
                } else if a == p {
                    assert(sorted@[b] == before[b - 1]);
                } else {
                    assert(sorted@[b] == before[b - 1]);
                    assert(sorted@[a] == before[a - 1]);
                }
            }
        }
        k = k + 1;
    }
    assert(merged@.take(merged@.len() as int) =~= merged@);
    sorted
}

/// A synthetic well-formed draw: six distinct red numbers drawn uniformly
/// without replacement from 1..=33 (in ascending order) and a uniform blue
/// number from 1..=16.
pub fn sample_record(issue: String, date: String, rng: &mut RandomSource) -> (r: SsqRecord)
    ensures
        r.wf(),
        r.issue == issue,
        r.date == date,
        forall|i: int, j: int| 0 <= i < j < 6 ==> r.red_seq()[i] < r.red_seq()[j],
{
    let mut pool: Vec<BallFrequency> = Vec::new();
    let mut n: u8 = 1;
    while n <= RED_BALL_MAX
        invariant
            1 <= n <= RED_BALL_MAX + 1,
            pool@.len() == n - 1,
            forall|q: int| 0 <= q < pool@.len() ==> (#[trigger] pool@[q]).number == q + 1 && pool@[q].weight == 0,
        decreases RED_BALL_MAX + 1 - n,
    {
        pool.push(BallFrequency { number: n, frequency: 0, weight: 0 });
        n = n + 1;
    }
    assert(valid_table(pool@));
    let reds = Analyzer::weighted_random_selection(pool.as_slice(), 6, rng);
    proof {
        assert forall|k: int| 0 <= k < 6 implies 1 <= #[trigger] reds@[k] <= RED_BALL_MAX by {
            assert(has_number(pool@, reds@[k]));
        }
    }
    let blue_ball = (rng.below(BLUE_BALL_MAX as u128) + 1) as u8;
    SsqRecord::new(issue, date, reds, blue_ball)
}

} // verus!
