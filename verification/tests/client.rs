use bonolith::client::{client_key_action, BonolithContext, BonolithSegmentInfo};
use bonolith::conversion::KanaForms;
use bonolith::dictionary::Dictionary;
use bonolith::dispatch::{
    DisplayUpdate, KanaReply, KeyAction, KeyEvent, KeyOutcome, CONTROL_MASK, KEY_BACKSPACE,
    KEY_DOWN, KEY_ESCAPE, KEY_F6, KEY_F7, KEY_PAGE_DOWN, KEY_RETURN, KEY_SPACE, KEY_TAB,
    RELEASE_MASK, SHIFT_MASK,
};
use bonolith::engine::Preedit;
use bonolith::entry::DictionaryEntry;
use bonolith::nano::NanoTable;
use bonolith::pos::PartOfSpeech;
use bonolith::pos::PartOfSpeech::{Noun, Particle, Verb};
use bonolith::rerank::RerankedSegment;
use bonolith::signals::{
    cancel_signals, candidate_label, conversion_signals, hide_signals, keep_polling,
    outcome_signals, Signal, TextAttribute, MAX_POLLS,
};
use bonolith::user_scorer::UserScorer;

fn logs() -> NanoTable {
    let mut table = NanoTable::new();
    for arg in 1..=20000u32 {
        assert!(table.push(arg, ((arg as f64).ln() * 1e9).round() as i64));
    }
    table
}

fn score_table() -> NanoTable {
    let mut table = NanoTable::new();
    for count in 1..=20u32 {
        let score = (count as f64).ln_1p() / 20f64.ln_1p();
        assert!(table.push(count, (score * 1e9).round() as i64));
    }
    table
}

fn word(reading: &str, surface: &str, pos: PartOfSpeech, frequency: u32) -> DictionaryEntry {
    DictionaryEntry { reading: reading.to_string(), surface: surface.to_string(), pos, frequency }
}

fn dictionary() -> Dictionary {
    let list = vec![
        word("あめ", "雨", Noun, 5200),
        word("あめ", "飴", Noun, 4100),
        word("が", "が", Particle, 9800),
        word("ふる", "降る", Verb, 5000),
        word("ふる", "振る", Verb, 4000),
    ];
    Dictionary::new(&list, "", logs())
}

fn reply(kana: &str) -> KanaReply {
    KanaReply {
        typed: Preedit { kana: kana.to_string(), pending: String::new() },
        deleted: false,
        forms: KanaForms {
            katakana: "アメ".to_string(),
            halfwidth_katakana: "ｱﾒ".to_string(),
            romaji: "ame".to_string(),
            fullwidth_romaji: "ａｍｅ".to_string(),
        },
    }
}

fn converting() -> BonolithContext {
    let dict = dictionary();
    let scorer = UserScorer::new(score_table());
    let mut ctx = BonolithContext::new();
    ctx.engine.take_typed(reply("あめがふる").typed);
    let plan = ctx.engine.plan_conversion(&dict, &scorer);
    assert!(ctx.begin(plan, None, &scorer));
    ctx
}

fn handle(ctx: &mut BonolithContext, action: KeyAction, kana: &str) -> bool {
    let scorer = UserScorer::new(score_table());
    ctx.handle_key(&dictionary(), &scorer, action, reply(kana)).consumed
}

#[test]
fn client_starts_empty() {
    let mut ctx = BonolithContext::new();
    assert!(!ctx.is_converting() && !ctx.has_preedit() && !ctx.rerank_pending());
    assert_eq!(ctx.get_preedit(), "");
    assert_eq!(ctx.composed_text(), "");
    assert_eq!(ctx.candidate_text(0), "");
    assert_eq!(
        (ctx.segment_count(), ctx.focus_index(), ctx.candidate_count(), ctx.selected_index()),
        (0, 0, 0, 0)
    );
    assert!(ctx.poll_commit().is_none());
    assert!(ctx.commit_input().is_none());
    assert!(ctx.poll_commit().is_none());
    let scorer = UserScorer::new(score_table());
    assert!(!ctx.begin(None, None, &scorer));
}

#[test]
fn client_keys_mean() {
    let at = |converting: bool, composing: bool, keyval: u32, state: u32| {
        client_key_action(converting, composing, KeyEvent { keyval, state }, None)
    };
    // Letters are typed in lower case.
    assert_eq!(at(false, false, 'V' as u32, SHIFT_MASK), KeyAction::Type('v'));
    // Keys without a meaning reach the application.
    assert_eq!(at(true, true, KEY_PAGE_DOWN, 0), KeyAction::Pass);
    assert_eq!(at(false, true, '1' as u32, 0), KeyAction::Pass);
    assert_eq!(at(false, true, KEY_PAGE_DOWN, 0), KeyAction::Swallow);
    // The space bar converts, with Shift too.
    assert_eq!(at(false, true, KEY_SPACE, SHIFT_MASK), KeyAction::StartConversion);
    assert_eq!(at(true, true, KEY_SPACE, SHIFT_MASK), KeyAction::Cycle(1));
    // The release of a form key is held back while there is text.
    assert_eq!(at(false, true, KEY_F6, RELEASE_MASK), KeyAction::Swallow);
    assert_eq!(at(false, false, KEY_F6, RELEASE_MASK), KeyAction::Pass);
    assert_eq!(at(false, true, 'a' as u32, RELEASE_MASK), KeyAction::Pass);
    assert_eq!(at(false, true, 'c' as u32, CONTROL_MASK), KeyAction::Pass);
    assert_eq!(at(false, true, KEY_F7, 0), KeyAction::StartForm(1));
    assert_eq!(at(true, true, KEY_TAB, 0), KeyAction::CommitConversion);
    assert_eq!(at(false, false, KEY_ESCAPE, 0), KeyAction::Pass);
    assert_eq!(at(false, true, KEY_RETURN, 0), KeyAction::CommitPreedit);
    assert_eq!(at(true, true, KEY_BACKSPACE, 0), KeyAction::BackToPreedit);
    let ctx = converting();
    assert_eq!(ctx.action(KEY_DOWN, 0, None), KeyAction::Cycle(1));
    assert_eq!(ctx.action('.' as u32, 0, Some('。')), KeyAction::Insert('。'));
}

#[test]
fn client_sees_the_conversion() {
    let mut ctx = converting();
    assert!(ctx.is_converting() && ctx.rerank_pending());
    assert_eq!(ctx.composed_text(), "雨が降る");
    assert_eq!((ctx.segment_count(), ctx.focus_index()), (2, 0));
    assert_eq!((ctx.segment_start_chars(1), ctx.segment_char_len(1)), (2, 2));
    assert_eq!((ctx.segment_start_chars(2), ctx.segment_char_len(-1)), (0, 0));
    assert_eq!(ctx.candidate_text(0), "雨が");
    assert_eq!(ctx.candidate_text(-1), "");
    assert_eq!(ctx.candidate_text(ctx.candidate_count()), "");
    assert!(handle(&mut ctx, KeyAction::MoveFocus(1), "あめがふる"));
    assert!(handle(&mut ctx, KeyAction::Cycle(1), "あめがふる"));
    assert_eq!((ctx.focus_index(), ctx.selected_index()), (1, 1));
    let state = ctx.get_ui_state();
    assert!(state.converting && state.has_preedit);
    assert_eq!(state.committed, None);
    assert_eq!(state.preedit, Some(ctx.composed_text()));
    assert_eq!(state.segment_count, 2);
    assert_eq!(
        state.segments,
        vec![
            BonolithSegmentInfo { start_chars: 0, char_len: 2 },
            BonolithSegmentInfo { start_chars: 2, char_len: 2 },
        ]
    );
    assert_eq!(state.candidate_count, ctx.candidate_count());
    assert_eq!(state.selected_index, 1);
    assert_eq!(state.candidates[1], ctx.candidate_text(1));
}

#[test]
fn client_collects_committed_text_once() {
    let mut ctx = converting();
    assert!(handle(&mut ctx, KeyAction::CommitConversion, ""));
    let state = ctx.get_ui_state();
    assert_eq!(state.committed.as_deref(), Some("雨が降る"));
    assert!(!state.converting && !state.has_preedit);
    assert_eq!(state.preedit, None);
    assert!(state.segments.is_empty() && state.candidates.is_empty());
    assert!(ctx.poll_commit().is_none());
    // What is not collected waits, and newer text takes its place.
    handle(&mut ctx, KeyAction::Type('a'), "あ");
    handle(&mut ctx, KeyAction::CommitPreedit, "");
    handle(&mut ctx, KeyAction::Pass, "");
    assert_eq!(ctx.poll_commit().as_deref(), Some("あ"));
}

#[test]
fn client_loses_nothing_with_the_focus() {
    let mut ctx = converting();
    let done = ctx.commit_input().unwrap();
    assert_eq!(done.text, "雨が降る");
    assert_eq!(ctx.poll_commit().as_deref(), Some("雨が降る"));
    handle(&mut ctx, KeyAction::Type('a'), "あ");
    assert!(ctx.has_preedit());
    assert!(ctx.commit_input().is_none());
    assert_eq!(ctx.poll_commit().as_deref(), Some("あ"));
    assert!(!ctx.has_preedit());
    let mut ctx = converting();
    ctx.reset();
    assert!(!ctx.is_converting() && !ctx.has_preedit());
    assert!(ctx.poll_commit().is_none());
}

#[test]
fn client_applies_a_reordering() {
    let mut ctx = converting();
    assert!(!ctx.poll_apply_rerank());
    let mut result: Vec<RerankedSegment> = Vec::new();
    for s in &ctx.engine.conversion_state().unwrap().segments {
        let mut candidates = s.candidates.clone();
        candidates.reverse();
        result.push(RerankedSegment { reading: s.reading.clone(), candidates });
    }
    let first = result[0].candidates[0].clone();
    ctx.engine.rerank_done(Some(result));
    assert!(ctx.poll_apply_rerank());
    assert_eq!(ctx.candidate_text(0), first);
    assert!(!ctx.rerank_pending());
}

fn emptied(s: &Signal) -> bool {
    matches!(s, Signal::UpdatePreedit(t, a, 0, false, 0) if t.is_empty() && a.is_empty())
}

#[test]
fn committed_text_is_sent_behind_an_empty_one() {
    let outcome = KeyOutcome {
        consumed: true,
        commit: Some("雨".to_string()),
        display: DisplayUpdate::Preedit("あ".to_string()),
        schedule_rerank_refresh: false,
    };
    let sent = outcome_signals(outcome, None);
    assert_eq!(sent.len(), 7);
    assert!(emptied(&sent[0]));
    assert!(matches!(&sent[1], Signal::CommitText(t) if t == "雨"));
    assert!(matches!(sent[2], Signal::HideLookup));
    assert!(matches!(sent[3], Signal::HideAuxiliary));
    let line = TextAttribute { kind: 1, value: 1, start: 0, end: 1 };
    assert!(matches!(
        &sent[4],
        Signal::UpdatePreedit(t, a, 1, true, 1) if t == "あ" && *a == vec![line]
    ));
    assert!(matches!(&sent[5], Signal::UpdateLookup(l, 0, false) if l.is_empty()));
    assert!(matches!(sent[6], Signal::ClearAuxiliary));
}

#[test]
fn hidden_text_is_emptied_first() {
    let outcome = KeyOutcome {
        consumed: true,
        commit: None,
        display: DisplayUpdate::Cleared,
        schedule_rerank_refresh: false,
    };
    let sent = outcome_signals(outcome, None);
    assert_eq!(sent.len(), 4);
    assert!(emptied(&sent[0]));
    assert!(matches!(sent[1], Signal::HidePreedit));
    let sent = cancel_signals();
    assert!(emptied(&sent[0]));
    assert!(!sent.iter().any(|s| matches!(s, Signal::CommitText(_))));
    assert_eq!(hide_signals().len(), 3);
    assert!(outcome_signals(KeyOutcome::default(), None).is_empty());
}

#[test]
fn conversion_is_sent_with_its_candidates() {
    let mut ctx = converting();
    handle(&mut ctx, KeyAction::MoveFocus(1), "あめがふる");
    let state = ctx.engine.conversion_state().unwrap();
    let sent = conversion_signals(state);
    assert_eq!(sent.len(), 3);
    let lines = vec![
        TextAttribute { kind: 1, value: 1, start: 0, end: 4 },
        TextAttribute { kind: 1, value: 2, start: 2, end: 4 },
    ];
    assert!(matches!(
        &sent[0],
        Signal::UpdatePreedit(t, a, 4, true, 1) if t == "雨が降る" && *a == lines
    ));
    assert!(matches!(
        &sent[1],
        Signal::UpdateLookup(l, 0, true) if *l == state.segments[1].candidates
    ));
    let outcome = KeyOutcome { display: DisplayUpdate::Conversion, ..KeyOutcome::default() };
    assert_eq!(outcome_signals(outcome, Some(state)).len(), 3);
}

#[test]
fn labels_and_polls() {
    assert_eq!(candidate_label(0), "1.");
    assert_eq!(candidate_label(9), "10.");
    assert!(keep_polling(0, false));
    assert!(!keep_polling(0, true));
    assert!(keep_polling(MAX_POLLS - 1, false));
    assert!(!keep_polling(MAX_POLLS, false));
}

#[test]
fn reordering_starts_only_where_a_boundary_moved() {
    let dict = dictionary();
    let scorer = UserScorer::new(score_table());
    let mut ctx = converting();
    let left = KeyAction::Resize(-1);
    assert!(ctx.handle_key(&dict, &scorer, left, reply("あめがふる")).reorder);
    let next = KeyAction::MoveFocus(-1);
    assert!(!ctx.handle_key(&dict, &scorer, next, reply("あめがふる")).reorder);
    // The last segment has no neighbour to take a character from.
    let right = KeyAction::Resize(1);
    assert!(!ctx.handle_key(&dict, &scorer, right, reply("あめがふる")).reorder);
}
