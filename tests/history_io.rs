use ssq_analyzer::{
    history_text, keep_recent, last_update_date, merge_records, trim_text, parse_algorithm, parse_row, parse_rows, parse_u8,
    sample_record, should_fetch, update_marker_text, AlgorithmType, CalendarDate, RandomSource,
    SsqRecord, MAX_RECORDS,
};

fn record(issue: &str, reds: [u8; 6], blue: u8) -> SsqRecord {
    SsqRecord::new(issue.to_string(), "2024-03-01".to_string(), reds.to_vec(), blue)
}

fn day(year: i32, month: u32, day: u32) -> CalendarDate {
    CalendarDate { year, month, day }
}

fn cells(v: &[&str]) -> Vec<String> {
    v.iter().map(|s| s.to_string()).collect()
}

#[test]
fn refresh_when_empty_unknown_or_stale() {
    let today = day(2026, 2, 12);
    assert!(should_fetch(0, Some(today), today));
    assert!(should_fetch(5, None, today));
    assert!(should_fetch(5, Some(day(2026, 2, 11)), today));
    assert!(should_fetch(5, Some(day(2025, 12, 31)), today));
    assert!(!should_fetch(5, Some(today), today));
    assert!(!should_fetch(5, Some(day(2026, 3, 1)), today));
}

#[test]
fn retention_keeps_the_latest() {
    let records: Vec<SsqRecord> = (0..510).map(|i| record(&format!("{}", 1000 + i), [1, 2, 3, 4, 5, 6], 1)).collect();
    let kept = keep_recent(records, MAX_RECORDS);
    assert_eq!(kept.len(), 500);
    assert_eq!(kept[0].issue, "1010");
    assert_eq!(kept[499].issue, "1509");
    let few = keep_recent(vec![record("1", [1, 2, 3, 4, 5, 6], 1)], MAX_RECORDS);
    assert_eq!(few.len(), 1);
}

#[test]
fn merge_adds_new_issues_and_sorts() {
    let local = vec![record("2024003", [1, 2, 3, 4, 5, 6], 1), record("2024001", [1, 2, 3, 4, 5, 7], 2)];
    let fetched = vec![
        record("2024002", [2, 3, 4, 5, 6, 7], 3),
        record("2024003", [9, 10, 11, 12, 13, 14], 4),
        record("2024004", [3, 4, 5, 6, 7, 8], 5),
        record("2024002", [20, 21, 22, 23, 24, 25], 6),
    ];
    let merged = merge_records(local, &fetched);
    let issues: Vec<&str> = merged.iter().map(|r| r.issue.as_str()).collect();
    assert_eq!(issues, vec!["2024001", "2024002", "2024003", "2024004"]);
    assert_eq!(merged[2].blue_ball, 1);
    assert_eq!(merged[1].blue_ball, 3);
}

#[test]
fn sample_records_are_well_formed() {
    let mut rng = RandomSource::seeded(11);
    for i in 0..50 {
        let r = sample_record(format!("{}", 2024001 + i), "2024-01-01".to_string(), &mut rng);
        let reds = r.red_balls();
        assert!(reds.windows(2).all(|w| w[0] < w[1]));
        assert!(reds.iter().all(|n| (1..=33).contains(n)));
        assert!((1..=16).contains(&r.blue_ball));
        assert_eq!(r.issue, format!("{}", 2024001 + i));
    }
}

#[test]
fn u8_text_parses_like_std() {
    for s in ["0", "7", "+7", "007", "255", "256", "", "+", "-1", "1a", " 1", "1000"] {
        assert_eq!(parse_u8(s), s.parse::<u8>().ok(), "{:?}", s);
    }
}

#[test]
fn table_rows_become_records() {
    let today = "2026-02-12".to_string();
    let row = cells(&["2024001", "03", "09", "14", "21", "28", "33", "05"]);
    let r = parse_row(&row, &today).unwrap();
    assert_eq!(r.issue, "2024001");
    assert_eq!(r.red_balls(), vec![3, 9, 14, 21, 28, 33]);
    assert_eq!(r.blue_ball, 5);
    assert_eq!(r.date, "2026-02-12");
    let long = cells(&["2024002", "1", "2", "3", "4", "5", "6", "7", "x", "y", "z", "2024-01-02"]);
    assert_eq!(parse_row(&long, &today).unwrap().date, "2024-01-02");
    assert!(parse_row(&cells(&["2024001", "1", "2", "3", "4", "5", "6"]), &today).is_none());
    assert!(parse_row(&cells(&["", "1", "2", "3", "4", "5", "6", "7"]), &today).is_none());
    assert!(parse_row(&cells(&["20a4", "1", "2", "3", "4", "5", "6", "7"]), &today).is_none());
    assert!(parse_row(&cells(&["1", "1", "2", "3", "4", "5", "34", "7"]), &today).is_none());
    assert!(parse_row(&cells(&["1", "1", "2", "3", "4", "5", "6", "17"]), &today).is_none());
    assert!(parse_row(&cells(&["1", "0", "2", "3", "4", "5", "6", "7"]), &today).is_none());
}

#[test]
fn rows_are_collected_up_to_the_limit() {
    let today = "2026-02-12".to_string();
    let rows = vec![
        cells(&["head"]),
        cells(&["2024001", "1", "2", "3", "4", "5", "6", "7"]),
        cells(&["bad", "1", "2", "3", "4", "5", "6", "7"]),
        cells(&["2024002", "1", "2", "3", "4", "5", "6", "8"]),
        cells(&["2024003", "1", "2", "3", "4", "5", "6", "9"]),
    ];
    let all = parse_rows(&rows, &today, 10);
    assert_eq!(all.len(), 3);
    assert_eq!(all[2].issue, "2024003");
    assert_eq!(parse_rows(&rows, &today, 2).len(), 2);
    assert!(parse_rows(&rows[..1].to_vec(), &today, 10).is_empty());
}

#[test]
fn policy_selector() {
    assert_eq!(parse_algorithm("hot"), Some(AlgorithmType::HotStaysHot));
    assert_eq!(parse_algorithm("cold"), Some(AlgorithmType::ColdBounceBack));
    assert_eq!(parse_algorithm("warm"), None);
    assert_eq!(parse_algorithm("Hot"), None);
    assert_eq!(parse_algorithm(""), None);
}

#[test]
fn history_file_text() {
    let records = vec![record("2024001", [3, 9, 14, 21, 28, 33], 5), record("2024002", [1, 2, 3, 4, 5, 100], 16)];
    let text = history_text(&records, "2026-02-12");
    assert_eq!(
        text,
        "# LastUpdate: 2026-02-12\nissue,date,red1,red2,red3,red4,red5,red6,blue_ball\n\
         2024001,2024-03-01,3,9,14,21,28,33,5\n2024002,2024-03-01,1,2,3,4,5,100,16\n"
    );
    let many: Vec<SsqRecord> = (0..505).map(|i| record(&format!("{}", i), [1, 2, 3, 4, 5, 6], 1)).collect();
    let text = history_text(&many, "2026-02-12");
    assert_eq!(text.lines().count(), 502);
    assert!(text.lines().nth(2).unwrap().starts_with("5,"));
}

#[test]
fn update_marker() {
    assert_eq!(update_marker_text("# LastUpdate: 2026-02-12"), Some("2026-02-12"));
    assert_eq!(update_marker_text("# LastUpdate: "), Some(""));
    assert_eq!(update_marker_text("issue,date"), None);
    assert_eq!(update_marker_text("# LastUpdate:2026"), None);
}

#[test]
fn update_line_date() {
    assert_eq!(last_update_date("# LastUpdate: 2026-02-12"), Some(day(2026, 2, 12)));
    assert_eq!(last_update_date("# LastUpdate:  2026-02-12  "), Some(day(2026, 2, 12)));
    assert_eq!(last_update_date("# LastUpdate: 2026-02-30"), None);
    assert_eq!(last_update_date("# LastUpdate: soon"), None);
    assert_eq!(last_update_date("issue,date,red1"), None);
}

#[test]
fn record_date() {
    assert_eq!(record("1", [1, 2, 3, 4, 5, 6], 1).get_date(), Some(day(2024, 3, 1)));
    let r = SsqRecord::new("1".to_string(), "yesterday".to_string(), vec![1, 2, 3, 4, 5, 6], 1);
    assert_eq!(r.get_date(), None);
}

#[test]
fn trimming() {
    assert_eq!(trim_text("  a b \t\n"), "a b");
    assert_eq!(trim_text("   "), "");
    assert_eq!(trim_text("x"), "x");
}
