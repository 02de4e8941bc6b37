use bonolith::alternatives::{
    build_merged_segmentation, compose_between, compose_top_candidates,
    generate_alternative_segmentations, score_segmentation_heuristic, SegmentationPlan,
    MAX_ALTERNATIVES,
};
use bonolith::conversion::{KanaForm, KanaForms};
use bonolith::dictionary::Dictionary;
use bonolith::engine::{ConversionEngine, EngineAction, Preedit};
use bonolith::entry::{DictionaryEntry, Segment};
use bonolith::llm::NEUTRAL_SCORE;
use bonolith::nano::NanoTable;
use bonolith::pos::PartOfSpeech;
use bonolith::pos::PartOfSpeech::{Adjective, Auxiliary, Noun, Particle, Verb};
use bonolith::rerank::{
    rerank_candidates, rerank_llm_score, RerankInput, RerankPass, RerankedSegment,
};
use bonolith::sentence::{
    build_candidates, conversion_record, rank_sentences, tokens_for_grammar,
};
use bonolith::user_scorer::UserScorer;

fn logs() -> NanoTable {
    let mut table = NanoTable::new();
    for arg in 1..=20000u32 {
        assert!(table.push(arg, ((arg as f64).ln() * 1e9).round() as i64));
    }
    table
}

fn score_table() -> NanoTable {
    let mut table = NanoTable::new();
    for count in 1..=20u32 {
        let score = (count as f64).ln_1p() / 20f64.ln_1p();
        assert!(table.push(count, (score * 1e9).round() as i64));
    }
    table
}

fn word(reading: &str, surface: &str, pos: PartOfSpeech, frequency: u32) -> DictionaryEntry {
    DictionaryEntry { reading: reading.to_string(), surface: surface.to_string(), pos, frequency }
}

fn dictionary() -> Dictionary {
    let list = vec![
        word("きょう", "今日", Noun, 6500),
        word("きょう", "京", Noun, 3000),
        word("は", "は", Particle, 9800),
        word("が", "が", Particle, 9800),
        word("いい", "いい", Adjective, 7000),
        word("いい", "良い", Adjective, 5000),
        word("てんき", "天気", Noun, 5500),
        word("あめ", "雨", Noun, 5200),
        word("あめ", "飴", Noun, 4100),
        word("ふる", "降る", Verb, 5000),
        word("ふる", "振る", Verb, 4000),
        word("する", "する", Verb, 5000),
        word("する", "スる", Verb, 9000),
        word("はし", "端", Noun, 4400),
        word("はし", "橋", Noun, 4200),
        word("はし", "箸", Noun, 4000),
        word("きしゃ", "記者", Noun, 4600),
        word("きしゃ", "汽車", Noun, 4000),
        word("りょうかい", "了解", Noun, 5000),
        word("りょ", "慮", Noun, 2000),
        word("うかい", "迂回", Noun, 4000),
        word("しま", "島", Noun, 4500),
        word("した", "下", Noun, 5000),
        word("しました", "しました", Verb, 7000),
        word("です", "です", Auxiliary, 9000),
    ];
    Dictionary::new(&list, "", logs())
}

fn typed(kana: &str) -> ConversionEngine {
    let mut engine = ConversionEngine::new();
    engine.take_typed(Preedit { kana: kana.to_string(), pending: String::new() });
    engine
}

fn scorer() -> UserScorer {
    UserScorer::new(score_table())
}

/// Starts a conversion; the model has no say in it.
fn convert(engine: &mut ConversionEngine, dict: &Dictionary, user: &UserScorer) -> bool {
    match engine.plan_conversion(dict, user) {
        Some(plan) => engine.start_conversion(plan, None, user).is_some(),
        None => false,
    }
}

fn converted(kana: &str) -> ConversionEngine {
    let mut engine = typed(kana);
    assert!(convert(&mut engine, &dictionary(), &scorer()));
    engine
}

/// Scores every candidate the same and applies the result.
fn rerank(engine: &mut ConversionEngine, user: &UserScorer, committed: &str) -> Vec<String> {
    let mut contexts = Vec::new();
    let mut pass = engine.rerank_pass(user).unwrap();
    while let Some(request) = pass.request(committed) {
        contexts.push(request.context);
        let scores = vec![NEUTRAL_SCORE; request.candidates.len()];
        pass.step(&scores);
    }
    engine.rerank_done(Some(pass.finish()));
    engine.apply_llm_rerank();
    contexts
}

fn segment_readings(engine: &ConversionEngine) -> Vec<String> {
    let state = engine.conversion_state().unwrap();
    state.segments.iter().map(|s| s.reading.clone()).collect()
}

fn has_kanji(s: &str) -> bool {
    s.chars().any(|c| {
        ('\u{4E00}'..='\u{9FFF}').contains(&c) || ('\u{3400}'..='\u{4DBF}').contains(&c)
    })
}

/// A particle that a moved boundary pushes onto the next word becomes a segment
/// of its own.
#[test]
fn resize_splits_particle_off_adjacent_word() {
    let mut engine = converted("あめがふる");
    assert_eq!(segment_readings(&engine), vec!["あめが", "ふる"]);
    engine.resize_segment(-1, &dictionary(), &scorer());
    assert_eq!(segment_readings(&engine), vec!["あめ", "が", "ふる"]);
    let state = engine.conversion_state().unwrap();
    let verb = state.segments.last().unwrap();
    assert!(verb.candidates.iter().any(|c| has_kanji(c)), "{:?}", verb.candidates);
}

#[test]
fn suru_defaults_to_hiragana_not_katakana() {
    let engine = converted("する");
    let seg = &engine.conversion_state().unwrap().segments[0];
    assert_eq!(seg.reading, "する");
    assert_eq!(seg.candidates.first().map(String::as_str), Some("する"));
    assert_ne!(seg.candidates.first().map(String::as_str), Some("スる"));
}

#[test]
fn resize_retriggers_rerank_and_leaves_segments_rerankable() {
    let user = scorer();
    let mut engine = converted("あめがふる");
    assert!(engine.rerank_inflight(), "a conversion should wait for a reordering");
    rerank(&mut engine, &user, "");
    assert!(!engine.rerank_inflight(), "an applied result ends the wait");
    engine.resize_segment(-1, &dictionary(), &user);
    assert!(engine.rerank_inflight(), "a moved boundary should ask again");
    let state = engine.conversion_state().unwrap();
    assert!(state.segments.iter().all(|s| !s.user_selected));
}

#[test]
fn moved_boundary_forgets_the_choice() {
    let mut engine = converted("あめがふる");
    engine.convert_focused_to_katakana(&forms());
    assert!(engine.conversion_state().unwrap().segments[0].user_selected);
    engine.resize_segment(-1, &dictionary(), &scorer());
    let state = engine.conversion_state().unwrap();
    assert!(state.segments.iter().all(|s| !s.user_selected && s.selected == 0));
    assert!(engine.commit_conversion().unwrap().choices.is_empty());
}

#[test]
fn moved_boundary_keeps_choices_elsewhere() {
    let mut engine = converted("きょうはいいてんき");
    engine.convert_focused_to_hiragana();
    engine.move_focus(1);
    engine.cycle_candidate(1);
    engine.resize_segment(-1, &dictionary(), &scorer());
    let done = engine.commit_conversion().unwrap();
    assert_eq!(done.choices, vec![("きょうは".to_string(), "きょうは".to_string())]);
}

#[test]
fn apply_rerank_rejects_stale_segmentation() {
    let lists = |engine: &ConversionEngine| -> Vec<Vec<String>> {
        let state = engine.conversion_state().unwrap();
        state.segments.iter().map(|s| s.candidates.clone()).collect()
    };
    let mut engine = converted("あめがふる");
    let before = lists(&engine);
    engine.rerank_done(Some(vec![RerankedSegment {
        reading: "ZZ-bogus-reading".to_string(),
        candidates: vec!["☃".to_string(), "☔".to_string()],
    }]));
    assert!(engine.has_llm_rerank_result());
    assert!(!engine.apply_llm_rerank());
    assert!(engine.rerank_inflight(), "the matching result is still awaited");
    assert_eq!(lists(&engine), before);
}

#[test]
fn learning_promotes_surface_to_top1() {
    let dict = dictionary();
    for (reading, target) in [("はし", "橋"), ("きしゃ", "汽車"), ("あめ", "飴")] {
        let top1_after = |n: u32| -> String {
            let mut user = scorer();
            for _ in 0..n {
                user.record(reading, target, Ok(&Vec::new())).unwrap();
            }
            let mut engine = typed(reading);
            assert!(convert(&mut engine, &dict, &user));
            rerank(&mut engine, &user, "");
            engine.conversion_state().unwrap().composed_text()
        };
        assert_ne!(top1_after(0), target);
        let flip = (0..=20u32).find(|&n| top1_after(n) == target);
        assert!(flip.is_some(), "{reading} -> {target} is never promoted");
        assert_eq!(top1_after(20), target, "{reading} -> {target} does not stay on top");
    }
}

#[test]
fn rerank_neutralizes_plain_kana_llm_score() {
    assert_eq!(rerank_llm_score("はし", "はし", 900_000_000), NEUTRAL_SCORE);
    assert_eq!(rerank_llm_score("はし", "橋", 900_000_000), 900_000_000);
}

#[test]
fn process_key_buffering() {
    let mut engine = ConversionEngine::new();
    let waiting = Preedit { kana: String::new(), pending: "k".to_string() };
    match engine.process_key(waiting, false) {
        EngineAction::Buffering(preedit) => assert_eq!(preedit, "k"),
        _ => panic!("expected Buffering"),
    }
}

#[test]
fn process_key_produces_kana() {
    let mut engine = ConversionEngine::new();
    let made = Preedit { kana: "か".to_string(), pending: String::new() };
    match engine.process_key(made, true) {
        EngineAction::UpdatePreedit(preedit) => assert_eq!(preedit, "か"),
        _ => panic!("expected UpdatePreedit"),
    }
}

#[test]
fn preedit_shows_buffer() {
    let mut engine = ConversionEngine::new();
    engine.process_key(Preedit { kana: String::new(), pending: "k".to_string() }, false);
    assert_eq!(engine.preedit(), "k");
    engine.process_key(Preedit { kana: "か".to_string(), pending: String::new() }, true);
    assert_eq!(engine.preedit(), "か");
    engine.process_key(Preedit { kana: "か".to_string(), pending: "n".to_string() }, false);
    assert_eq!(engine.preedit(), "かn");
    assert_eq!(engine.kana(), "か");
}

/// The sentences for some kana.
fn sentences(kana: &str) -> Vec<String> {
    typed(kana).convert(&dictionary()).0
}

#[test]
fn convert_basic() {
    let list = sentences("きょう");
    assert!(!list.is_empty());
    assert_eq!(list[0], "今日");
}

#[test]
fn convert_sentence() {
    let list = sentences("きょうはいいてんき");
    assert!(list.iter().any(|t| has_kanji(t)));
    assert!(list.contains(&"きょうはいいてんき".to_string()));
    for (i, t) in list.iter().enumerate() {
        assert!(!list[..i].contains(t), "{t} is offered twice");
    }
}

#[test]
fn convert_empty() {
    assert!(ConversionEngine::new().plan_conversion(&dictionary(), &scorer()).is_none());
    let (texts, tokens) = ConversionEngine::new().convert(&dictionary());
    assert!(texts.is_empty() && tokens.is_empty());
    let nothing = rank_sentences(&Vec::new(), &Vec::new(), &Vec::new());
    assert!(nothing.is_empty());
}

#[test]
fn commit_resets_state() {
    let mut engine = typed("きょう");
    assert_eq!(engine.commit("今日"), "今日");
    assert_eq!(engine.preedit(), "");
}

#[test]
fn candidates_have_scores() {
    let texts: Vec<String> = vec!["今日".to_string(), "京".to_string(), "きょう".to_string()];
    let grammar: Vec<i64> = vec![500_000_000, 900_000_000, 500_000_000];
    let llm: Vec<i64> = vec![700_000_000, 100_000_000, 700_000_000];
    let ranked = rank_sentences(&texts, &grammar, &llm);
    let shown: Vec<(&str, i128)> = ranked.iter().map(|c| (c.text.as_str(), c.score)).collect();
    assert_eq!(
        shown,
        vec![("今日", 6_200_000_000), ("きょう", 6_200_000_000), ("京", 4_200_000_000)]
    );
    for c in &ranked {
        assert!(0 <= c.score && c.score <= 10_000_000_000);
        assert!(c.grammar_score >= 0);
        assert!(c.llm_score >= 0);
    }
}

#[test]
fn kanji_ranked_above_kana() {
    let list = sentences("きょう");
    let kana = list.iter().position(|t| t == "きょう").unwrap();
    let kanji = list.iter().position(|t| t == "今日").unwrap();
    assert!(kanji < kana);
}

#[test]
fn segment_conversion_basic() {
    let engine = converted("きょうはいいてんき");
    let state = engine.conversion_state().unwrap();
    assert!(state.segments.len() >= 3);
    assert!(!state.composed_text().is_empty());
}

#[test]
fn segment_move_focus() {
    let mut engine = converted("きょうはいいてんき");
    assert_eq!(engine.move_focus(1).unwrap().focus, 1);
    assert_eq!(engine.move_focus(-1).unwrap().focus, 0);
    // The focus goes round.
    let last = engine.conversion_state().unwrap().segments.len() - 1;
    assert_eq!(engine.move_focus(-1).unwrap().focus, last);
    assert_eq!(engine.move_focus(1).unwrap().focus, 0);
}

#[test]
fn segment_cycle_candidate() {
    let mut engine = converted("きょう");
    let first = engine.conversion_state().unwrap().segments[0].candidates[0].clone();
    let state = engine.cycle_candidate(1).unwrap();
    let segment = &state.segments[0];
    assert_ne!(first, segment.candidates[segment.selected]);
    assert!(segment.user_selected);
}

#[test]
fn segment_resize() {
    let mut engine = converted("きょうはいいてんき");
    let before = segment_readings(&engine)[0].clone();
    engine.resize_segment(1, &dictionary(), &scorer());
    let after = segment_readings(&engine)[0].clone();
    assert_eq!(after.chars().count(), before.chars().count() + 1);
    assert_eq!(segment_readings(&engine).concat(), "きょうはいいてんき");
}

#[test]
fn segment_composed_text_and_ranges() {
    let engine = converted("きょう");
    let ranges = engine.conversion_state().unwrap().segment_char_ranges();
    assert_eq!(ranges[0].0, 0);
    assert!(ranges.last().unwrap().1 > 0);
    let engine = converted("あめがふる");
    let state = engine.conversion_state().unwrap();
    assert_eq!(state.composed_text(), "雨が降る");
    assert_eq!(state.segment_char_ranges(), vec![(0, 2), (2, 4)]);
}

#[test]
fn segmentation_filter_ryoukai_shimashita() {
    let engine = converted("りょうかいしました");
    let readings = segment_readings(&engine);
    assert!(readings.contains(&"りょうかい".to_string()), "{readings:?}");
}

fn piece(dict: &Dictionary, reading: &str, start: usize) -> Segment {
    let candidates = dict.lookup(reading).into_iter().cloned().collect();
    Segment { reading: reading.to_string(), start, len: reading.chars().count(), candidates }
}

#[test]
fn segmentation_filter_multi_merge() {
    let dict = dictionary();
    let base = vec![
        piece(&dict, "りょ", 0),
        piece(&dict, "うかい", 2),
        piece(&dict, "しま", 5),
        piece(&dict, "した", 7),
    ];
    let alts = generate_alternative_segmentations(&base, &dict);
    let correct = alts.iter().any(|alt| {
        let readings: Vec<&str> = alt.iter().map(|s| s.reading.as_str()).collect();
        readings == vec!["りょうかい", "しました"]
    });
    assert!(correct);
    assert_eq!(compose_top_candidates(&alts[0]), compose_top_candidates(&base));
    assert_eq!(alts[0].len(), base.len());
    assert!(alts.len() <= MAX_ALTERNATIVES);
    for alt in &alts {
        let whole: String = alt.iter().map(|s| s.reading.as_str()).collect();
        assert_eq!(whole, "りょうかいしました");
    }
}

#[test]
fn segmentation_filter_single_segment_passthrough() {
    let engine = converted("きょう");
    assert_eq!(segment_readings(&engine), vec!["きょう"]);
}

fn forms() -> KanaForms {
    KanaForms {
        katakana: "テスト".to_string(),
        halfwidth_katakana: "ﾃｽﾄ".to_string(),
        romaji: "tesuto".to_string(),
        fullwidth_romaji: "ｔｅｓｕｔｏ".to_string(),
    }
}

#[test]
fn f9_kana_conversion_fullwidth_romaji() {
    let mut engine = typed("てすと");
    assert_eq!(engine.preedit(), "てすと");
    let state = engine.start_kana_conversion(&forms(), 4).unwrap();
    assert_eq!(state.composed_text(), "ｔｅｓｕｔｏ");
}

#[test]
fn f10_kana_conversion_halfwidth_romaji() {
    let mut engine = typed("てすと");
    assert_eq!(engine.preedit(), "てすと");
    let state = engine.start_kana_conversion(&forms(), 3).unwrap();
    assert_eq!(state.composed_text(), "tesuto");
}

#[test]
fn kana_conversion_offers_each_form_once() {
    let mut engine = typed("てすと");
    let mut same = forms();
    same.katakana = "てすと".to_string();
    let state = engine.start_kana_conversion(&same, 9).unwrap();
    assert_eq!(state.segments[0].candidates, vec!["てすと", "ﾃｽﾄ", "tesuto", "ｔｅｓｕｔｏ"]);
    assert_eq!(state.composed_text(), "てすと");
    assert!(ConversionEngine::new().start_kana_conversion(&forms(), 0).is_none());
}

#[test]
fn hiragana_is_the_reading_itself() {
    for reading in ["てすと", "abc", "漢字", ""] {
        assert_eq!(KanaForm::Hiragana.apply(reading, &forms()), reading);
        assert_eq!(KanaForm::Katakana.apply(reading, &forms()), "テスト");
    }
}

#[test]
fn focused_segment_takes_each_form() {
    let mut engine = converted("きょう");
    assert_eq!(engine.convert_focused_to_katakana(&forms()).unwrap().composed_text(), "テスト");
    let state = engine.convert_focused_to_halfwidth_katakana(&forms()).unwrap();
    assert_eq!(state.composed_text(), "ﾃｽﾄ");
    assert_eq!(engine.convert_focused_to_romaji(&forms()).unwrap().composed_text(), "tesuto");
    let state = engine.convert_focused_to_fullwidth_romaji(&forms()).unwrap();
    assert_eq!(state.composed_text(), "ｔｅｓｕｔｏ");
    assert_eq!(engine.convert_focused_to_hiragana().unwrap().composed_text(), "きょう");
    let state = engine.convert_focused_to(KanaForm::Katakana, &forms()).unwrap();
    assert!(state.segments[0].user_selected);
    assert!(ConversionEngine::new().convert_focused_to_hiragana().is_none());
}

#[test]
fn committed_conversion_reports_choices() {
    let mut engine = converted("きょうはいいてんき");
    engine.cycle_candidate(1);
    let (reading, chosen) = {
        let s = &engine.conversion_state().unwrap().segments[0];
        (s.reading.clone(), s.candidates[s.selected].clone())
    };
    let done = engine.commit_conversion().unwrap();
    assert!(done.text.starts_with(chosen.as_str()));
    assert_eq!(done.choices, vec![(reading, chosen)]);
    assert_eq!(engine.preedit(), "");
    assert!(engine.conversion_state().is_none());
    assert!(engine.commit_conversion().is_none());
}

#[test]
fn giving_up_a_conversion_keeps_the_kana() {
    let mut engine = converted("きょう");
    engine.clear_conversion();
    assert!(engine.conversion_state().is_none());
    assert_eq!(engine.preedit(), "きょう");
    engine.reset();
    assert_eq!(engine.preedit(), "");
}

/// A choice of the user is not touched by a reordering.
#[test]
fn plain_reading_is_always_offered() {
    for kana in ["きょうはいいてんき", "あめがふる", "する", "ぱぴぷ"] {
        let engine = converted(kana);
        for seg in &engine.conversion_state().unwrap().segments {
            assert!(seg.candidates.contains(&seg.reading), "{}: {:?}", seg.reading, seg.candidates);
        }
    }
}

#[test]
fn chosen_segment_is_not_reordered() {
    let mut engine = converted("あめがふる");
    engine.cycle_candidate(1);
    let chosen = engine.conversion_state().unwrap().segments[0].candidates.clone();
    let mut result: Vec<RerankedSegment> = Vec::new();
    for s in &engine.conversion_state().unwrap().segments {
        let mut candidates = s.candidates.clone();
        candidates.reverse();
        result.push(RerankedSegment { reading: s.reading.clone(), candidates });
    }
    let second = result[1].candidates.clone();
    engine.rerank_done(Some(result));
    assert!(engine.apply_llm_rerank());
    let state = engine.conversion_state().unwrap();
    assert_eq!(state.segments[0].candidates, chosen);
    assert_eq!(state.segments[0].selected, 1);
    assert_eq!(state.segments[1].candidates, second);
    assert_eq!(state.segments[1].selected, 0);
    // The result is used up.
    assert!(!engine.has_llm_rerank_result());
    assert!(!engine.apply_llm_rerank());
}

#[test]
fn failed_rerank_ends_the_wait() {
    let mut engine = converted("あめがふる");
    engine.rerank_done(None);
    assert!(!engine.has_llm_rerank_result());
    assert!(!engine.rerank_inflight());
}

/// What was decided for the first segment is the context of the second.
#[test]
fn rerank_context_grows() {
    let mut engine = converted("あめがふる");
    let contexts = rerank(&mut engine, &scorer(), "朝、");
    assert_eq!(contexts, vec!["朝、", "朝、雨が"]);
}

#[test]
fn rerank_asks_for_all_but_plain_kana() {
    let engine = converted("きょう");
    let state = engine.conversion_state().unwrap();
    let pass = RerankPass::new(state, &scorer());
    let request = pass.request("").unwrap();
    for (asked, candidate) in request.candidates.iter().zip(&state.segments[0].candidates) {
        if candidate == "きょう" {
            assert!(asked.is_none());
        } else {
            assert_eq!(asked.as_ref(), Some(candidate));
        }
    }
}

#[test]
fn candidates_are_reordered_by_score() {
    let input = RerankInput {
        reading: "はし".to_string(),
        candidates: vec!["端".to_string(), "橋".to_string(), "はし".to_string()],
        learned: vec![0, 0, 0],
    };
    let out = rerank_candidates(&input, &vec![100_000_000, 990_000_000, 990_000_000]);
    assert_eq!(out[0], "橋");
    assert_eq!(out.len(), 3);
    // Without any difference the order stays.
    let out = rerank_candidates(&input, &vec![NEUTRAL_SCORE, NEUTRAL_SCORE, NEUTRAL_SCORE]);
    assert_eq!(out, input.candidates);
}

#[test]
fn merged_pieces_are_looked_up() {
    let dict = dictionary();
    let base = vec![piece(&dict, "りょ", 0), piece(&dict, "うかい", 2), piece(&dict, "しま", 5)];
    let merged = build_merged_segmentation(&base, &vec![0], &dict).unwrap();
    assert_eq!(merged.len(), 2);
    assert_eq!(merged[0].candidates[0].surface, "了解");
    assert_eq!((merged[1].start, merged[1].len), (5, 2));
    // うかいしま is no word.
    assert!(build_merged_segmentation(&base, &vec![1], &dict).is_none());
    assert_eq!(compose_top_candidates(&merged), "了解島");
    assert_eq!(compose_between(&merged, 1, 2), "島");
}

#[test]
fn plan_prefers_the_natural_segmentation() {
    let dict = dictionary();
    let base = vec![
        piece(&dict, "りょ", 0),
        piece(&dict, "うかい", 2),
        piece(&dict, "しました", 5),
    ];
    let table = logs();
    let plan = SegmentationPlan::new(&base, &dict);
    assert_ne!(plan.best, 0);
    for alt in &plan.alternatives {
        assert!(
            score_segmentation_heuristic(alt, &table)
                <= score_segmentation_heuristic(&plan.alternatives[plan.best], &table)
        );
    }
    let (given, best) = plan.contenders().unwrap();
    assert_eq!((given.as_str(), best.as_str()), ("慮迂回しました", "了解しました"));
    // A model that likes the given one much better overrules.
    let kept = plan.filter_segmentation(Some((900_000_000, 100_000_000)));
    assert_eq!(kept.len(), 3);
    let plan = SegmentationPlan::new(&base, &dict);
    let merged = plan.filter_segmentation(None);
    assert_eq!(merged.len(), 2);
}

#[test]
fn tokens_and_records() {
    let dict = dictionary();
    assert_eq!(build_candidates(&vec![piece(&dict, "あめ", 0)]), vec!["雨", "飴", "あめ"]);
    let tokens = tokens_for_grammar(&vec![piece(&dict, "あめ", 0), piece(&dict, "んん", 2)]);
    assert_eq!(tokens[0].surface, "雨");
    assert_eq!(tokens[0].pos, Noun);
    assert_eq!(tokens[1].surface, "んん");
    let mut engine = converted("あめがふる");
    engine.cycle_candidate(1);
    let records = conversion_record(engine.conversion_state().unwrap());
    assert_eq!(records.len(), 2);
    assert!(records[0].user_selected && !records[1].user_selected);
    assert_eq!(records[1].selected, "降る");
    assert!(records[0].alternatives.contains(&records[0].selected));
}

/// A noun with a particle is not taken for a rare word that sounds the same.
#[test]
fn stem_particle_defaults_to_noun_plus_particle() {
    let list = vec![
        word("きょう", "今日", Noun, 6500),
        word("きょうは", "教派", Noun, 4378),
        word("かれ", "彼", Noun, 5000),
        word("かれは", "枯れ葉", Noun, 4378),
        word("そら", "空", Noun, 4500),
        word("そらに", "空似", Noun, 4378),
        word("やま", "山", Noun, 4500),
        word("やま", "山", PartOfSpeech::Suffix, 4500),
        word("やまが", "山家", Noun, 4378),
        word("みず", "水", Noun, 4700),
        word("は", "は", Particle, 9800),
        word("は", "刃", Noun, 3000),
        word("が", "が", Particle, 9800),
        word("に", "に", Particle, 9800),
        word("で", "で", Particle, 9700),
        word("を", "を", Particle, 9800),
        word("の", "の", Particle, 9800),
        word("の", "野", Noun, 4000),
        word("から", "から", Particle, 8000),
        word("から", "空", Noun, 4000),
        word("まで", "まで", Particle, 8000),
    ];
    let dict = Dictionary::new(&list, "", logs());
    for (kana, want) in [
        ("きょうは", "今日は"),
        ("きょうが", "今日が"),
        ("かれは", "彼は"),
        ("そらに", "空に"),
        ("そらで", "空で"),
        ("やまが", "山が"),
        ("やまは", "山は"),
        ("みずを", "水を"),
        ("は", "は"),
        ("の", "の"),
        ("から", "から"),
        ("まで", "まで"),
    ] {
        let mut engine = typed(kana);
        assert!(convert(&mut engine, &dict, &scorer()));
        assert_eq!(engine.conversion_state().unwrap().composed_text(), want);
    }
}
