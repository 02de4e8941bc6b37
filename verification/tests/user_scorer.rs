use bonolith::dictionary::StoreFailed;
use bonolith::nano::NanoTable;
use bonolith::user_scorer::UserScorer;

/// What so many selections are worth, in billionths.
fn score_table() -> NanoTable {
    let mut table = NanoTable::new();
    for count in 1..=20u32 {
        let score = (count as f64).ln_1p() / 20f64.ln_1p();
        assert!(table.push(count, (score * 1e9).round() as i64));
    }
    table
}

fn scorer() -> UserScorer {
    UserScorer::new(score_table())
}

/// Records a selection with a store that evicts nothing.
fn record(scorer: &mut UserScorer, reading: &str, surface: &str) {
    scorer.record(reading, surface, Ok(&Vec::new())).unwrap();
}

#[test]
fn unrecorded_score_is_zero() {
    let scorer = scorer();
    assert_eq!(scorer.score("きょう", "今日"), 0);
}

#[test]
fn record_and_score() {
    let mut scorer = scorer();
    record(&mut scorer, "きょう", "今日");
    assert!(scorer.score("きょう", "今日") > 0);
}

#[test]
fn more_selections_higher_score() {
    let mut scorer = scorer();
    for _ in 0..10 {
        record(&mut scorer, "きょう", "今日");
    }
    record(&mut scorer, "きょう", "京");
    assert!(scorer.score("きょう", "今日") > scorer.score("きょう", "京"));
}

#[test]
fn single_selection_gives_boost() {
    let mut scorer = scorer();
    record(&mut scorer, "へんかん", "変換");
    assert!(scorer.score("へんかん", "変換") > 200_000_000);
}

#[test]
fn kana_only_recorded() {
    let mut scorer = scorer();
    record(&mut scorer, "きょう", "きょう");
    assert!(scorer.score("きょう", "きょう") > 0);
}

#[test]
fn scores_saturate_at_one() {
    let mut scorer = scorer();
    scorer.load_score("きょう", "今日", 500);
    assert_eq!(scorer.score("きょう", "今日"), 1_000_000_000);
    scorer.load_score("きょう", "京", 3);
    assert_eq!(scorer.score("きょう", "京"), 455_340_497);
}

#[test]
fn failing_store_leaves_scores_alone() {
    let mut scorer = scorer();
    record(&mut scorer, "きょう", "今日");
    let before = scorer.score("きょう", "今日");
    assert!(scorer.record("きょう", "今日", Err(StoreFailed)).is_err());
    assert_eq!(scorer.score("きょう", "今日"), before);
    assert!(scorer.clear_scores(Err(StoreFailed)).is_err());
    assert_eq!(scorer.score("きょう", "今日"), before);
    assert!(scorer.clear_scores(Ok(1)).is_ok());
    assert_eq!(scorer.score("きょう", "今日"), 0);
}

#[test]
fn evicted_pairs_are_forgotten() {
    let mut scorer = scorer();
    record(&mut scorer, "あ", "亜");
    let evicted = vec![("あ".to_string(), "亜".to_string())];
    scorer.record("い", "胃", Ok(&evicted)).unwrap();
    assert_eq!(scorer.score("あ", "亜"), 0);
    assert!(scorer.score("い", "胃") > 0);
}

#[test]
fn segmentations_are_remembered_and_forgotten() {
    let mut scorer = scorer();
    scorer.load_segmentation("いちご", vec![1, 2]);
    assert_eq!(scorer.lookup_segmentation("いちご"), Some(&[1usize, 2][..]));
    assert_eq!(scorer.lookup_segmentation("いちごが"), None);
    assert!(scorer.forget_segmentation("いちご"));
    assert!(!scorer.forget_segmentation("いちご"));
    assert_eq!(scorer.lookup_segmentation("いちご"), None);
}
