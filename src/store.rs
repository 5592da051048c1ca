use vstd::prelude::*;
use vstd::string::{StrSliceExecFns, StringExecFns};
use crate::models::SsqRecord;
use crate::history::MAX_RECORDS;

verus! {

pub open spec fn digit_char(d: nat) -> char {
    seq!['0', '1', '2', '3', '4', '5', '6', '7', '8', '9'][d as int]
}

/// The decimal text of `n`, without leading zeros.
pub open spec fn decimal_text(n: nat) -> Seq<char>
    decreases n,
{
    if n < 10 {
        seq![digit_char(n)]
    } else {
        decimal_text(n / 10).push(digit_char(n % 10))
    }
}

/// The decimal text of `n`.
fn u8_text(n: u8) -> (r: String)
    ensures
        r@ == decimal_text(n as nat),
{
    let digits = "0123456789";
    proof {
        reveal_strlit("0123456789");
        reveal_with_fuel(decimal_text, 3);
    }
    let mut s = String::new();
    if n >= 100 {
        let d = (n / 100) as usize;
        s.append(digits.substring_char(d, d + 1));
    }
    if n >= 10 {
        let d = ((n / 10) % 10) as usize;
        s.append(digits.substring_char(d, d + 1));
    }
    let d = (n % 10) as usize;
    s.append(digits.substring_char(d, d + 1));
    assert(s@ =~= decimal_text(n as nat));
    s
}

/// The first line of the history file, naming the day it was written.
pub open spec fn header_line(today: Seq<char>) -> Seq<char> {
    "# LastUpdate: "@ + today + seq!['\n']
}

/// The column line of the history file.
pub open spec fn column_line() -> Seq<char> {
    "issue,date,red1,red2,red3,red4,red5,red6,blue_ball\n"@
}

/// One record as a line of the history file.
pub open spec fn record_line(r: SsqRecord) -> Seq<char> {
    r.issue@ + seq![','] + r.date@ + seq![','] + decimal_text(r.red1 as nat) + seq![',']
        + decimal_text(r.red2 as nat) + seq![','] + decimal_text(r.red3 as nat) + seq![',']
        + decimal_text(r.red4 as nat) + seq![','] + decimal_text(r.red5 as nat) + seq![',']
        + decimal_text(r.red6 as nat) + seq![','] + decimal_text(r.blue_ball as nat) + seq!['\n']
}

/// The lines of `records`, in order.
pub open spec fn record_lines(records: Seq<SsqRecord>) -> Seq<char>
    decreases records.len(),
{
    if records.len() == 0 {
        Seq::empty()
    } else {
        record_lines(records.drop_last()) + record_line(records.last())
    }
}

/// The records that the history file keeps: the last `MAX_RECORDS`.
pub open spec fn retained(records: Seq<SsqRecord>) -> Seq<SsqRecord> {
    if records.len() > MAX_RECORDS {
        records.subrange(records.len() - MAX_RECORDS, records.len() as int)
    } else {
        records
    }
}

/// Appends the line of `r`.
fn append_record_line(out: &mut String, r: &SsqRecord)
    ensures
        final(out)@ == old(out)@ + record_line(*r),
{
    proof {
        reveal_strlit(",");
        reveal_strlit("\n");
    }
    out.append(r.issue.as_str());
    out.append(",");
    out.append(r.date.as_str());
    out.append(",");
    out.append(u8_text(r.red1).as_str());
    out.append(",");
    out.append(u8_text(r.red2).as_str());
    out.append(",");
    out.append(u8_text(r.red3).as_str());
    out.append(",");
    out.append(u8_text(r.red4).as_str());
    out.append(",");
    out.append(u8_text(r.red5).as_str());
    out.append(",");
    out.append(u8_text(r.red6).as_str());
    out.append(",");
    out.append(u8_text(r.blue_ball).as_str());
    out.append("\n");
    assert(out@ =~= old(out)@ + record_line(*r));
}

/// The text of the history file: the update line for `today`, the column
/// line, then one line per kept record (the last `MAX_RECORDS`), oldest first.
pub fn history_text(records: &[SsqRecord], today: &str) -> (r: String)
    ensures
        r@ == header_line(today@) + column_line() + record_lines(retained(records@)),
{
    proof {
        reveal_strlit("# LastUpdate: ");
        reveal_strlit("\n");
        reveal_strlit("issue,date,red1,red2,red3,red4,red5,red6,blue_ball\n");
    }
    let mut out = String::new();
    out.append("# LastUpdate: ");
    out.append(today);
    out.append("\n");
    out.append("issue,date,red1,red2,red3,red4,red5,red6,blue_ball\n");
    let ghost head = out@;
    assert(head =~= header_line(today@) + column_line());
    let start: usize = if records.len() > MAX_RECORDS {
        records.len() - MAX_RECORDS
    } else {
        0
    };
    let ghost kept = retained(records@);
    assert(kept =~= records@.subrange(start as int, records@.len() as int));
    let mut i: usize = start;
    while i < records.len()
        invariant
            start <= i <= records@.len(),
            kept == records@.subrange(start as int, records@.len() as int),
            out@ == head + record_lines(kept.take(i - start)),
        decreases records@.len() - i,
    {
        assert(kept.take(i - start + 1).drop_last() =~= kept.take(i - start));
        assert(kept.take(i - start + 1).last() == records@[i as int]);
        append_record_line(&mut out, &records[i]);
        assert(out@ =~= head + record_lines(kept.take(i - start + 1)));
        i = i + 1;
    }
    assert(kept.take(records@.len() - start) =~= kept);
    out
}

/// The text after the update marker of the history file's first line, if
/// the line carries that marker.
pub fn update_marker_text(line: &str) -> (r: Option<&str>)
    ensures
        r matches Some(t) ==> line@ == "# LastUpdate: "@ + t@,
        r is None ==> !(line@.len() >= 14 && line@.subrange(0, 14) == "# LastUpdate: "@),
{
    let marker = "# LastUpdate: ";
    proof {
        reveal_strlit("# LastUpdate: ");
    }
    let len = line.unicode_len();
    if len < 14 {
        return None;
    }
    let mut i: usize = 0;
    while i < 14
        invariant
            i <= 14 <= len,
            len == line@.len(),
            marker@ == "# LastUpdate: "@,
            marker@.len() == 14,
            forall|q: int| 0 <= q < i ==> line@[q] == marker@[q],
        decreases 14 - i,
    {
        if line.get_char(i) != marker.get_char(i) {
            assert(line@.subrange(0, 14)[i as int] != marker@[i as int]);
            return None;
        }
        i = i + 1;
    }
    let rest = line.substring_char(14, len);
    assert(line@ =~= "# LastUpdate: "@ + rest@);
    Some(rest)
}

} // verus!
