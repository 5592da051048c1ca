use ssq_analyzer::{AlgorithmType, Analyzer, BallFrequency, SsqRecord};

fn record(issue: u32, reds: [u8; 6], blue: u8) -> SsqRecord {
    SsqRecord::new(format!("{}", issue), "2024-01-01".to_string(), reds.to_vec(), blue)
}

/// Ten records in which 7 is always a red number and every other red number
/// occurs at most twice.
fn seven_always() -> Vec<SsqRecord> {
    let others: Vec<u8> = (1..=33u8).filter(|&n| n != 7).collect();
    let mut records = Vec::new();
    for i in 0..10usize {
        let mut reds = [7u8; 6];
        for s in 0..5usize {
            reds[s + 1] = others[(i * 5 + s) % others.len()];
        }
        records.push(record(2024001 + i as u32, reds, (i % 16) as u8 + 1));
    }
    records
}

fn entry(table: &[BallFrequency], n: u8) -> BallFrequency {
    *table.iter().find(|f| f.number == n).unwrap()
}

#[test]
fn record_keeps_its_numbers() {
    let r = record(2024001, [3, 9, 14, 21, 28, 33], 5);
    assert_eq!(r.red_balls(), vec![3, 9, 14, 21, 28, 33]);
    assert_eq!(r.red1, 3);
    assert_eq!(r.red6, 33);
    assert_eq!(r.blue_ball, 5);
    assert_eq!(r.issue, "2024001");
}

#[test]
fn tables_cover_every_number() {
    for records in [Vec::new(), seven_always()] {
        for alg in [AlgorithmType::HotStaysHot, AlgorithmType::ColdBounceBack] {
            let red = Analyzer::analyze_red_frequency(&records, alg);
            let blue = Analyzer::analyze_blue_frequency(&records, alg);
            assert_eq!(red.len(), 33);
            assert_eq!(blue.len(), 16);
            let mut reds: Vec<u8> = red.iter().map(|f| f.number).collect();
            reds.sort();
            assert_eq!(reds, (1..=33).collect::<Vec<u8>>());
            let mut blues: Vec<u8> = blue.iter().map(|f| f.number).collect();
            blues.sort();
            assert_eq!(blues, (1..=16).collect::<Vec<u8>>());
        }
    }
}

#[test]
fn empty_history_weighs_zero() {
    for alg in [AlgorithmType::HotStaysHot, AlgorithmType::ColdBounceBack] {
        let red = Analyzer::analyze_red_frequency(&[], alg);
        let blue = Analyzer::analyze_blue_frequency(&[], alg);
        assert!(red.iter().all(|f| f.frequency == 0 && f.weight == 0));
        assert!(blue.iter().all(|f| f.frequency == 0 && f.weight == 0));
    }
}

#[test]
fn empty_history_hot_red_table() {
    let red = Analyzer::analyze_red_frequency(&[], AlgorithmType::HotStaysHot);
    assert_eq!(red.len(), 33);
    for (i, f) in red.iter().enumerate() {
        assert_eq!(f.number as usize, i + 1);
        assert_eq!(f.frequency, 0);
        assert_eq!(f.weight, 0);
    }
}

#[test]
fn always_drawn_number_dominates_hot_and_sinks_cold() {
    let records = seven_always();
    let hot = Analyzer::analyze_red_frequency(&records, AlgorithmType::HotStaysHot);
    let seven = entry(&hot, 7);
    assert_eq!(seven.frequency, 10);
    assert!(hot.iter().filter(|f| f.number != 7).all(|f| f.weight < seven.weight));
    assert!(hot.iter().filter(|f| f.number != 7).all(|f| f.frequency <= 2));
    assert_eq!(hot[0].number, 7);
    let cold = Analyzer::analyze_red_frequency(&records, AlgorithmType::ColdBounceBack);
    let seven = entry(&cold, 7);
    assert!(cold.iter().all(|f| seven.weight <= f.weight));
}

#[test]
fn weights_follow_the_formulas() {
    // 10 records: p = count / 10, weight · 10² = 100 p² · 100 = 100 count²
    let records = seven_always();
    let hot = Analyzer::analyze_red_frequency(&records, AlgorithmType::HotStaysHot);
    let cold = Analyzer::analyze_red_frequency(&records, AlgorithmType::ColdBounceBack);
    assert_eq!(entry(&hot, 7).weight, 10000);
    assert_eq!(entry(&cold, 7).weight, 0);
    for f in &hot {
        let c = f.frequency as u128;
        assert_eq!(f.weight, 100 * c * c);
    }
    for f in &cold {
        let d = 10 - f.frequency as u128;
        assert_eq!(f.weight, 100 * d * d);
    }
    let twice = hot.iter().find(|f| f.frequency == 2).unwrap().number;
    assert_eq!(entry(&hot, twice).weight, 400);
    assert_eq!(entry(&cold, twice).weight, 6400);
}

#[test]
fn blue_counts_and_weights() {
    let records = vec![
        record(1, [1, 2, 3, 4, 5, 6], 3),
        record(2, [1, 2, 3, 4, 5, 6], 3),
        record(3, [1, 2, 3, 4, 5, 6], 9),
        record(4, [1, 2, 3, 4, 5, 6], 3),
    ];
    let blue = Analyzer::analyze_blue_frequency(&records, AlgorithmType::HotStaysHot);
    assert_eq!(blue[0].number, 3);
    assert_eq!(blue[0].frequency, 3);
    assert_eq!(blue[0].weight, 900);
    assert_eq!(blue[1].number, 9);
    assert_eq!(blue[1].frequency, 1);
    assert_eq!(blue[1].weight, 100);
    assert_eq!(blue[2].number, 1);
    assert_eq!(blue[2].weight, 0);
    let cold = Analyzer::analyze_blue_frequency(&records, AlgorithmType::ColdBounceBack);
    assert_eq!(entry(&cold, 3).weight, 100);
    assert_eq!(entry(&cold, 9).weight, 900);
    assert_eq!(entry(&cold, 16).weight, 1600);
}

#[test]
fn table_order_is_count_then_number() {
    let records = seven_always();
    let red = Analyzer::analyze_red_frequency(&records, AlgorithmType::ColdBounceBack);
    for w in red.windows(2) {
        assert!(
            w[0].frequency > w[1].frequency
                || (w[0].frequency == w[1].frequency && w[0].number < w[1].number)
        );
    }
}

#[test]
fn hot_weight_is_monotone_in_count() {
    let records = seven_always();
    let hot = Analyzer::analyze_red_frequency(&records, AlgorithmType::HotStaysHot);
    let cold = Analyzer::analyze_red_frequency(&records, AlgorithmType::ColdBounceBack);
    for a in &hot {
        for b in &hot {
            if a.frequency <= b.frequency {
                assert!(a.weight <= b.weight);
            }
        }
    }
    for a in &cold {
        for b in &cold {
            if a.frequency <= b.frequency {
                assert!(a.weight >= b.weight);
            }
        }
    }
}

#[test]
fn analysis_repeats_exactly() {
    let records = seven_always();
    for alg in [AlgorithmType::HotStaysHot, AlgorithmType::ColdBounceBack] {
        let a = Analyzer::analyze_red_frequency(&records, alg);
        let b = Analyzer::analyze_red_frequency(&records, alg);
        assert_eq!(format!("{:?}", a), format!("{:?}", b));
        let a = Analyzer::analyze_blue_frequency(&records, alg);
        let b = Analyzer::analyze_blue_frequency(&records, alg);
        assert_eq!(format!("{:?}", a), format!("{:?}", b));
    }
}

#[test]
fn score_sums_weights() {
    let red = vec![
        BallFrequency { number: 1, frequency: 0, weight: 5 },
        BallFrequency { number: 2, frequency: 0, weight: 7 },
        BallFrequency { number: 3, frequency: 0, weight: 11 },
    ];
    let blue = vec![BallFrequency { number: 4, frequency: 0, weight: 13 }];
    assert_eq!(Analyzer::calculate_score(&[1, 3], 4, &red, &blue), 29);
    // absent numbers count zero
    assert_eq!(Analyzer::calculate_score(&[2, 9], 5, &red, &blue), 7);
}
