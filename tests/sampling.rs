use ssq_analyzer::{AlgorithmType, Analyzer, BallFrequency, PredictionResult, RandomSource, SsqRecord};

fn table(weights: &[u128]) -> Vec<BallFrequency> {
    weights
        .iter()
        .enumerate()
        .map(|(i, &w)| BallFrequency { number: i as u8 + 1, frequency: 0, weight: w })
        .collect()
}

fn history() -> Vec<SsqRecord> {
    let mut records = Vec::new();
    for i in 0..40u32 {
        let base = (i * 5 % 28) as u8;
        let reds = vec![base + 1, base + 2, base + 3, base + 4, base + 5, base + 6];
        records.push(SsqRecord::new(format!("{}", 2024001 + i), "2024-01-01".to_string(), reds, (i % 16) as u8 + 1));
    }
    records
}

fn prediction(reds: &[u8], blue: u8, score: u128) -> PredictionResult {
    PredictionResult { red_balls: reds.to_vec(), blue_ball: blue, score }
}

#[test]
fn pick_follows_cumulative_weights() {
    let t = table(&[3, 0, 5, 2]);
    assert_eq!(Analyzer::pick_weighted(&t, 0), 0);
    assert_eq!(Analyzer::pick_weighted(&t, 2), 0);
    assert_eq!(Analyzer::pick_weighted(&t, 3), 2);
    assert_eq!(Analyzer::pick_weighted(&t, 7), 2);
    assert_eq!(Analyzer::pick_weighted(&t, 8), 3);
    assert_eq!(Analyzer::pick_weighted(&t, 9), 3);
}

#[test]
fn sampler_returns_distinct_sorted_members() {
    let mut rng = RandomSource::seeded(7);
    let t = table(&[1, 9, 0, 4, 4, 100, 2, 0, 3, 8, 5, 1]);
    for k in 0..=12usize {
        let s = Analyzer::weighted_random_selection(&t, k, &mut rng);
        assert_eq!(s.len(), k);
        assert!(s.windows(2).all(|w| w[0] < w[1]));
        assert!(s.iter().all(|n| (1..=12).contains(n)));
    }
    let s = Analyzer::weighted_random_selection(&t, 20, &mut rng);
    assert_eq!(s, (1..=12).collect::<Vec<u8>>());
}

#[test]
fn sampler_with_zero_weights_still_progresses() {
    let mut rng = RandomSource::seeded(1);
    let t = table(&[0; 33]);
    let s = Analyzer::weighted_random_selection(&t, 6, &mut rng);
    assert_eq!(s.len(), 6);
    assert!(s.windows(2).all(|w| w[0] < w[1]));
}

#[test]
fn sampler_takes_the_only_weighted_number_first() {
    let mut rng = RandomSource::seeded(3);
    let t = table(&[0, 0, 0, 50, 0]);
    for _ in 0..20 {
        let s = Analyzer::weighted_random_selection(&t, 1, &mut rng);
        assert_eq!(s, vec![4]);
    }
}

#[test]
fn ranking_orders_dedups_and_cuts() {
    let c = vec![
        prediction(&[1, 2, 3, 4, 5, 6], 1, 10),
        prediction(&[1, 2, 3, 4, 5, 7], 1, 30),
        prediction(&[1, 2, 3, 4, 5, 6], 1, 10),
        prediction(&[1, 2, 3, 4, 5, 6], 2, 20),
        prediction(&[1, 2, 3, 4, 5, 8], 1, 20),
        prediction(&[1, 2, 3, 4, 5, 9], 1, 5),
    ];
    let r = Analyzer::rank_predictions(&c, 3);
    assert_eq!(r.len(), 3);
    assert_eq!(r[0].red_balls, vec![1, 2, 3, 4, 5, 7]);
    assert_eq!(r[1].blue_ball, 2);
    assert_eq!(r[1].score, 20);
    assert_eq!(r[2].red_balls, vec![1, 2, 3, 4, 5, 8]);
    let all = Analyzer::rank_predictions(&c, 10);
    assert_eq!(all.len(), 5);
    assert_eq!(all[3].score, 10);
    assert_eq!(all[4].score, 5);
    assert!(Analyzer::rank_predictions(&c, 0).is_empty());
    assert!(Analyzer::rank_predictions(&[], 10).is_empty());
}

fn check_predictions(r: &[PredictionResult], target: usize) {
    assert!(!r.is_empty() && r.len() <= target);
    for p in r {
        assert_eq!(p.red_balls.len(), 6);
        assert!(p.red_balls.windows(2).all(|w| w[0] < w[1]));
        assert!(p.red_balls.iter().all(|n| (1..=33).contains(n)));
        assert!((1..=16).contains(&p.blue_ball));
    }
    for i in 0..r.len() {
        for j in i + 1..r.len() {
            assert!(r[i].score >= r[j].score);
            assert!(r[i].red_balls != r[j].red_balls || r[i].blue_ball != r[j].blue_ball);
        }
    }
}

#[test]
fn generation_yields_valid_distinct_ranked_results() {
    let records = history();
    for alg in [AlgorithmType::HotStaysHot, AlgorithmType::ColdBounceBack] {
        let mut rng = RandomSource::seeded(42);
        let r = Analyzer::generate_predictions(&records, alg, &mut rng);
        check_predictions(&r, 10);
        assert_eq!(r.len(), 10);
    }
}

#[test]
fn generation_on_empty_history_still_works() {
    let mut rng = RandomSource::from_entropy();
    let r = Analyzer::generate_predictions(&[], AlgorithmType::ColdBounceBack, &mut rng);
    check_predictions(&r, 10);
    assert!(r.iter().all(|p| p.score == 0));
}

#[test]
fn generation_is_reproducible_with_a_seed() {
    let records = history();
    let mut a = RandomSource::seeded(2024);
    let mut b = RandomSource::seeded(2024);
    let ra = Analyzer::generate_predictions(&records, AlgorithmType::HotStaysHot, &mut a);
    let rb = Analyzer::generate_predictions(&records, AlgorithmType::HotStaysHot, &mut b);
    assert_eq!(format!("{:?}", ra), format!("{:?}", rb));
}

#[test]
fn generation_respects_small_budgets() {
    let records = history();
    let mut rng = RandomSource::seeded(5);
    let r = Analyzer::generate_predictions_with(&records, AlgorithmType::HotStaysHot, 1, 10, &mut rng);
    assert_eq!(r.len(), 1);
    let r = Analyzer::generate_predictions_with(&records, AlgorithmType::HotStaysHot, 0, 10, &mut rng);
    assert!(r.is_empty());
    let r = Analyzer::generate_predictions_with(&records, AlgorithmType::HotStaysHot, 50, 3, &mut rng);
    check_predictions(&r, 3);
}
