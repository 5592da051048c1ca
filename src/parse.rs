use vstd::prelude::*;
use vstd::string::StrSliceExecFns;
use crate::models::{AlgorithmType, SsqRecord, BLUE_BALL_MAX, BLUE_BALL_MIN, RED_BALL_MAX, RED_BALL_MIN};

verus! {

/// Whether `c` is numeric in Unicode's sense (`char::is_numeric`).
pub uninterp spec fn numeric_char(c: char) -> bool;

/// Relies on `char::is_numeric`: a property of the character alone, true
/// of the ASCII digits.
#[verifier::external_body]
fn is_numeric_char(c: char) -> (r: bool)
    ensures
        r == numeric_char(c),
        '0' <= c <= '9' ==> r,
{
    c.is_numeric()
}

pub open spec fn is_digit(c: char) -> bool {
    '0' <= c <= '9'
}

/// Value of a string of decimal digits.
pub open spec fn digits_value(s: Seq<char>) -> nat
    decreases s.len(),
{
    if s.len() == 0 {
        0
    } else {
        digits_value(s.drop_last()) * 10 + ((s.last() as u32) - ('0' as u32)) as nat
    }
}

/// The digits of an unsigned decimal: the text after an optional `+`.
pub open spec fn unsigned_body(s: Seq<char>) -> Seq<char> {
    if s.len() > 0 && s[0] == '+' {
        s.drop_first()
    } else {
        s
    }
}

/// What `u8`'s `FromStr` gives for `s`: an optional `+`, then one or more
/// decimal digits whose value is at most 255.
pub open spec fn parse_u8_spec(s: Seq<char>) -> Option<u8> {
    let body = unsigned_body(s);
    if body.len() > 0 && (forall|i: int| 0 <= i < body.len() ==> is_digit(#[trigger] body[i]))
        && digits_value(body) <= 255 {
        Some(digits_value(body) as u8)
    } else {
        None
    }
}

proof fn lemma_digits_value_grows(s: Seq<char>, k: int)
    requires
        0 <= k <= s.len(),
        forall|i: int| 0 <= i < s.len() ==> is_digit(#[trigger] s[i]),
    ensures
        digits_value(s.take(k)) <= digits_value(s),
    decreases s.len() - k,
{
    if k < s.len() {
        lemma_digits_value_grows(s, k + 1);
        assert(s.take(k + 1).drop_last() =~= s.take(k));
    } else {
        assert(s.take(k) =~= s);
    }
}

/// Reads a `u8` written in decimal.
pub fn parse_u8(s: &str) -> (r: Option<u8>)
    ensures
        r == parse_u8_spec(s@),
{
    let len = s.unicode_len();
    let mut start: usize = 0;
    if len > 0 && s.get_char(0) == '+' {
        start = 1;
    }
    let ghost body = unsigned_body(s@);
    assert(body =~= s@.subrange(start as int, len as int));
    if start == len {
        return None;
    }
    let mut value: u32 = 0;
    let mut i: usize = start;
    while i < len
        invariant
            start <= i <= len,
            len == s@.len(),
            body == s@.subrange(start as int, len as int),
            body == unsigned_body(s@),
            forall|q: int| 0 <= q < i - start ==> is_digit(#[trigger] body[q]),
            value as nat == digits_value(body.take(i - start)),
            value <= 255,
        decreases len - i,
    {
        let c = s.get_char(i);
        assert(body[i - start] == c);
        assert(body.take(i - start + 1).drop_last() =~= body.take(i - start));
        if !('0' <= c && c <= '9') {
            assert(!is_digit(body[i - start]));
            assert(!(forall|q: int| 0 <= q < body.len() ==> is_digit(#[trigger] body[q])));
            assert(parse_u8_spec(s@).is_none());
            return None;
        }
        let next = value * 10 + ((c as u32) - ('0' as u32));
        assert(body.take(i - start + 1).last() == c);
        assert(digits_value(body.take(i - start + 1)) == next);
        if next > 255 {
            proof {
                if forall|q: int| 0 <= q < body.len() ==> is_digit(#[trigger] body[q]) {
                    lemma_digits_value_grows(body, i - start + 1);
                    assert(digits_value(body) > 255);
                }
                assert(parse_u8_spec(s@).is_none());
            }
            return None;
        }
        value = next;
        i = i + 1;
    }
    assert(body.take(len - start) =~= body);
    Some(value as u8)
}

/// An issue: non-empty and numeric throughout.
pub open spec fn valid_issue(s: Seq<char>) -> bool {
    s.len() > 0 && forall|i: int| 0 <= i < s.len() ==> numeric_char(#[trigger] s[i])
}

fn is_valid_issue(s: &str) -> (r: bool)
    ensures
        r == valid_issue(s@),
{
    let len = s.unicode_len();
    if len == 0 {
        return false;
    }
    let mut i: usize = 0;
    while i < len
        invariant
            i <= len == s@.len(),
            forall|q: int| 0 <= q < i ==> numeric_char(#[trigger] s@[q]),
        decreases len - i,
    {
        if !is_numeric_char(s.get_char(i)) {
            return false;
        }
        i = i + 1;
    }
    true
}

/// The number in cell `s` if it parses and lies in `min..=max`.
pub open spec fn ball_in(s: Seq<char>, min: u8, max: u8) -> Option<u8> {
    match parse_u8_spec(s) {
        Some(v) => if min <= v <= max {
            Some(v)
        } else {
            None
        },
        None => None,
    }
}

fn parse_ball(s: &str, min: u8, max: u8) -> (r: Option<u8>)
    ensures
        r == ball_in(s@, min, max),
{
    match parse_u8(s) {
        Some(v) => if min <= v && v <= max {
            Some(v)
        } else {
            None
        },
        None => None,
    }
}

/// Whether the cells of a table row make a draw: at least eight cells, a
/// numeric issue first, six red numbers in 1..=33, then a blue number in
/// 1..=16.
pub open spec fn row_is_draw(cells: Seq<String>) -> bool {
    &&& cells.len() >= 8
    &&& valid_issue(cells[0]@)
    &&& forall|k: int| 1 <= k <= 6 ==> (#[trigger] ball_in(cells[k]@, RED_BALL_MIN, RED_BALL_MAX)).is_some()
    &&& ball_in(cells[7]@, BLUE_BALL_MIN, BLUE_BALL_MAX).is_some()
}

/// The number that cell `s` holds (zero if it holds none).
pub open spec fn ball_value(s: Seq<char>, min: u8, max: u8) -> u8 {
    match ball_in(s, min, max) {
        Some(v) => v,
        None => 0,
    }
}

/// The record that a draw row gives.
pub open spec fn row_record(cells: Seq<String>, today: String) -> SsqRecord {
    SsqRecord {
        issue: cells[0],
        date: if cells.len() > 10 { cells.last() } else { today },
        red1: ball_value(cells[1]@, RED_BALL_MIN, RED_BALL_MAX),
        red2: ball_value(cells[2]@, RED_BALL_MIN, RED_BALL_MAX),
        red3: ball_value(cells[3]@, RED_BALL_MIN, RED_BALL_MAX),
        red4: ball_value(cells[4]@, RED_BALL_MIN, RED_BALL_MAX),
        red5: ball_value(cells[5]@, RED_BALL_MIN, RED_BALL_MAX),
        red6: ball_value(cells[6]@, RED_BALL_MIN, RED_BALL_MAX),
        blue_ball: ball_value(cells[7]@, BLUE_BALL_MIN, BLUE_BALL_MAX),
    }
}

/// Reads one row of the draw-history table, its cells already trimmed: the
/// issue, six red numbers and the blue number in that order; the date is the
/// last cell of a row of more than ten cells, else `today`.
pub fn parse_row(cells: &Vec<String>, today: &String) -> (r: Option<SsqRecord>)
    ensures
        r == (if row_is_draw(cells@) {
            Some(row_record(cells@, *today))
        } else {
            None
        }),
{
    if cells.len() < 8 {
        return None;
    }
    if !is_valid_issue(cells[0].as_str()) {
        return None;
    }
    let mut reds: Vec<u8> = Vec::new();
    let mut k: usize = 1;
    while k <= 6
        invariant
            1 <= k <= 7,
            cells@.len() >= 8,
            reds@.len() == k - 1,
            forall|q: int| 1 <= q < k ==> ball_in(cells@[q]@, RED_BALL_MIN, RED_BALL_MAX) == Some(reds@[q - 1]),
        decreases 7 - k,
    {
        match parse_ball(cells[k].as_str(), RED_BALL_MIN, RED_BALL_MAX) {
            Some(v) => reds.push(v),
            None => {
                assert(!row_is_draw(cells@)) by {
                    assert(ball_in(cells@[k as int]@, RED_BALL_MIN, RED_BALL_MAX).is_none());
                }
                return None;
            },
        }
        k = k + 1;
    }
    let blue_ball = match parse_ball(cells[7].as_str(), BLUE_BALL_MIN, BLUE_BALL_MAX) {
        Some(b) => b,
        None => return None,
    };
    let date = if cells.len() > 10 {
        cells[cells.len() - 1].clone()
    } else {
        today.clone()
    };
    let issue = cells[0].clone();
    let rec = SsqRecord::new(issue, date, reds, blue_ball);
    assert forall|q: int| 1 <= q <= 6 implies (#[trigger] ball_in(cells@[q]@, RED_BALL_MIN, RED_BALL_MAX)).is_some() by {
        assert(ball_in(cells@[q]@, RED_BALL_MIN, RED_BALL_MAX) == Some(reds@[q - 1]));
    }
    proof {
        let want = row_record(cells@, *today);
        assert(rec.red_seq()[0] == reds@[0]);
        assert(ball_in(cells@[1]@, RED_BALL_MIN, RED_BALL_MAX) == Some(reds@[0]));
        assert(ball_in(cells@[2]@, RED_BALL_MIN, RED_BALL_MAX) == Some(reds@[1]));
        assert(ball_in(cells@[3]@, RED_BALL_MIN, RED_BALL_MAX) == Some(reds@[2]));
        assert(ball_in(cells@[4]@, RED_BALL_MIN, RED_BALL_MAX) == Some(reds@[3]));
        assert(ball_in(cells@[5]@, RED_BALL_MIN, RED_BALL_MAX) == Some(reds@[4]));
        assert(ball_in(cells@[6]@, RED_BALL_MIN, RED_BALL_MAX) == Some(reds@[5]));
        assert(rec.red_seq()[1] == reds@[1]);
        assert(rec.red_seq()[2] == reds@[2]);
        assert(rec.red_seq()[3] == reds@[3]);
        assert(rec.red_seq()[4] == reds@[4]);
        assert(rec.red_seq()[5] == reds@[5]);
        assert(rec == want);
    }
    Some(rec)
}

/// The records of the draw rows among `rows`, in row order.
pub open spec fn draws_of(rows: Seq<Vec<String>>, today: String) -> Seq<SsqRecord>
    decreases rows.len(),
{
    if rows.len() == 0 {
        Seq::empty()
    } else {
        let d = draws_of(rows.drop_last(), today);
        if row_is_draw(rows.last()@) {
            d.push(row_record(rows.last()@, today))
        } else {
            d
        }
    }
}

proof fn lemma_draws_prefix(rows: Seq<Vec<String>>, today: String, j: int, k: int)
    requires
        0 <= j <= k <= rows.len(),
    ensures
        draws_of(rows.take(j), today).len() <= draws_of(rows.take(k), today).len(),
        draws_of(rows.take(j), today) =~= draws_of(rows.take(k), today).take(
            draws_of(rows.take(j), today).len() as int,
        ),
    decreases k - j,
{
    if j < k {
        lemma_draws_prefix(rows, today, j, k - 1);
        assert(rows.take(k).drop_last() =~= rows.take(k - 1));
    }
}

/// The draws among `rows`, in row order, at most `max_count` of them.
pub fn parse_rows(rows: &Vec<Vec<String>>, today: &String, max_count: usize) -> (r: Vec<SsqRecord>)
    ensures
        r@ == (if draws_of(rows@, *today).len() > max_count {
            draws_of(rows@, *today).take(max_count as int)
        } else {
            draws_of(rows@, *today)
        }),
{
    let mut records: Vec<SsqRecord> = Vec::new();
    let mut i: usize = 0;
    while i < rows.len() && records.len() < max_count
        invariant
            i <= rows@.len(),
            records@.len() <= max_count,
            records@ == draws_of(rows@.take(i as int), *today),
        decreases rows@.len() - i,
    {
        assert(rows@.take(i + 1).drop_last() =~= rows@.take(i as int));
        match parse_row(&rows[i], today) {
            Some(rec) => {
                records.push(rec);
            },
            None => {},
        }
        i = i + 1;
    }
    proof {
        lemma_draws_prefix(rows@, *today, i as int, rows@.len() as int);
        assert(rows@.take(rows@.len() as int) =~= rows@);
    }
    records
}

/// Whether `a` and `b` hold the same characters.
fn same_text(a: &str, b: &str) -> (r: bool)
    ensures
        r == (a@ == b@),
{
    let la = a.unicode_len();
    if la != b.unicode_len() {
        return false;
    }
    let mut i: usize = 0;
    while i < la
        invariant
            i <= la == a@.len() == b@.len(),
            forall|q: int| 0 <= q < i ==> a@[q] == b@[q],
        decreases la - i,
    {
        if a.get_char(i) != b.get_char(i) {
            return false;
        }
        i = i + 1;
    }
    assert(a@ =~= b@);
    true
}

/// The policy a selector names: `"hot"` or `"cold"`; any other text is
/// rejected.
pub fn parse_algorithm(selector: &str) -> (r: Option<AlgorithmType>)
    ensures
        r == (if selector@ == "hot"@ {
            Some(AlgorithmType::HotStaysHot)
        } else if selector@ == "cold"@ {
            Some(AlgorithmType::ColdBounceBack)
        } else {
            None
        }),
{
    if same_text(selector, "hot") {
        Some(AlgorithmType::HotStaysHot)
    } else if same_text(selector, "cold") {
        Some(AlgorithmType::ColdBounceBack)
    } else {
        None
    }
}

} // verus!
