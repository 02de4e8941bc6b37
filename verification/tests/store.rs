use bonolith::pos::PartOfSpeech;
use bonolith::store::{
    append_extension, decode_boundaries, encode_boundaries, enforce_row_cap, entry_of_row,
    merge_stale_count, plan_takeover, read_score_rows, score_rows, scores_to_write,
    sort_segmentation_rows, split_score_key, takeover_suffix, CountMerge, SegmentationRow, Takeover,
};
use bonolith::user_scorer::key;

#[test]
fn decode_boundaries_is_all_or_nothing() {
    assert_eq!(decode_boundaries(""), Some(Vec::<usize>::new()));
    assert_eq!(decode_boundaries("2,5"), Some(vec![2, 5]));
    // Any unparseable token invalidates the whole list.
    assert_eq!(decode_boundaries("3,x,6"), None);
    assert_eq!(decode_boundaries("x"), None);
    assert_eq!(decode_boundaries("2,,5"), None);
}

#[test]
fn boundaries_are_read_back() {
    for list in [vec![], vec![0], vec![2, 5, 10], vec![usize::MAX]] {
        assert_eq!(decode_boundaries(&encode_boundaries(&list)), Some(list));
    }
    assert_eq!(encode_boundaries(&[2, 5]), "2,5");
}

#[test]
fn row_cap_evicts_lowest_counts_and_oldest_first() {
    // high1, high2, low1, low2.
    assert_eq!(enforce_row_cap(&vec![2, 3, 1, 1], None, 2), vec![2, 3]);
    assert_eq!(enforce_row_cap(&vec![2, 3, 1, 1], None, 3), vec![2]);
    assert_eq!(enforce_row_cap(&vec![2, 3], None, 2), Vec::<usize>::new());
}

#[test]
fn row_cap_spares_the_row_just_written() {
    // The last row has the lowest count, but it is the one that was written.
    assert_eq!(enforce_row_cap(&vec![2, 2, 1], Some(2), 2), vec![0]);
}

#[test]
fn corrupt_rows_are_told_apart() {
    let rows = vec![
        SegmentationRow { kana: "clean".to_string(), boundaries: "2,4".to_string() },
        SegmentationRow { kana: "dirty".to_string(), boundaries: "3,x,6".to_string() },
    ];
    let (good, bad) = sort_segmentation_rows(&rows);
    assert_eq!(good, vec![("clean".to_string(), vec![2, 4])]);
    assert_eq!(bad, vec!["dirty".to_string()]);
}

#[test]
fn stale_counts_only_grow() {
    assert!(matches!(merge_stale_count(None, 3), CountMerge::Insert));
    assert!(matches!(merge_stale_count(Some(2), 3), CountMerge::Raise));
    assert!(matches!(merge_stale_count(Some(3), 3), CountMerge::Keep));
    assert!(matches!(merge_stale_count(Some(9), 3), CountMerge::Keep));
}

#[test]
fn found_scores_are_written_where_they_are_larger() {
    let found = |k: &str, count: u32| (k.to_string(), count);
    let rows = score_rows(&vec![
        found("あ|亜", 3),
        found("broken", 9),
        found("い|医", 2),
        found("う|a|b", 5),
    ]);
    assert_eq!(rows.len(), 3);
    assert_eq!((rows[2].reading.as_str(), rows[2].surface.as_str()), ("う", "a|b"));
    let stored = vec![Some(3), Some(1), None];
    assert_eq!(scores_to_write(Takeover::Recover, &rows, &stored), vec![1, 2]);
    assert_eq!(scores_to_write(Takeover::Migrate, &rows, &stored), vec![0, 1, 2]);
    assert!(scores_to_write(Takeover::Nothing, &rows, &stored).is_empty());
}

#[test]
fn counts_are_read_from_json() {
    let rows =
        read_score_rows(r#"{"へんかん|変換":1, "broken":9, "きょう|今日":5, "う|a|b":2}"#).unwrap();
    let found: Vec<(&str, &str, u32)> =
        rows.iter().map(|r| (r.reading.as_str(), r.surface.as_str(), r.count)).collect();
    assert_eq!(found, vec![("う", "a|b", 2), ("きょう", "今日", 5), ("へんかん", "変換", 1)]);
    // The last of two counts under one key is the one that counts.
    let twice = read_score_rows(r#"{"あ|亜":1,"あ|亜":4}"#).unwrap();
    assert_eq!((twice.len(), twice[0].count), (1, 4));
    assert!(read_score_rows("{}").unwrap().is_empty());
    for text in ["", "[]", "{", r#"{"あ|亜":-1}"#, r#"{"あ|亜":4294967296}"#, r#"{"あ|亜":"1"}"#] {
        assert!(read_score_rows(text).is_none(), "{text}");
    }
}

#[test]
fn old_files_are_taken_over_once() {
    assert!(matches!(plan_takeover(None, true, false), Takeover::Migrate));
    assert!(matches!(plan_takeover(Some("1"), true, false), Takeover::Recover));
    assert!(matches!(plan_takeover(Some("1"), false, false), Takeover::Nothing));
    assert_eq!(
        append_extension("/a/user.json", takeover_suffix(Takeover::Migrate)),
        "/a/user.json.migrated",
    );
}

#[test]
fn score_keys_fall_into_reading_and_surface() {
    assert_eq!(
        split_score_key("きょう|今日"),
        Some(("きょう".to_string(), "今日".to_string())),
    );
    assert_eq!(split_score_key("きょう"), None);
    assert_eq!(split_score_key(&key("あ", "a|b")), Some(("あ".to_string(), "a|b".to_string())));
}

#[test]
fn rows_of_unknown_kind_are_other_words() {
    let e = entry_of_row("あ".to_string(), "亜".to_string(), "Verb", 3);
    assert_eq!(e.pos, PartOfSpeech::Verb);
    let e = entry_of_row("あ".to_string(), "亜".to_string(), "Gerund", 3);
    assert_eq!(e.surface, "亜");
    assert_eq!(e.frequency, 3);
    assert_eq!(e.pos, PartOfSpeech::Other);
}
