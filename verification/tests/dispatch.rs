use bonolith::conversion::{KanaForm, KanaForms};
use bonolith::dictionary::Dictionary;
use bonolith::dispatch::{
    begin_conversion, dispatch_key, kana_step, key_action, printable_char, DisplayUpdate,
    KanaReply, KanaStep, KanaWork, KeyAction, KeyEvent, KeyOutcome, CONTROL_MASK, KEY_BACKSPACE,
    KEY_DOWN, KEY_ESCAPE, KEY_F10, KEY_F6, KEY_F7, KEY_F8, KEY_F9, KEY_LEFT, KEY_PAGE_DOWN,
    KEY_PAGE_UP, KEY_RETURN, KEY_RIGHT, KEY_SPACE, KEY_TAB, KEY_UP, MOD1_MASK, RELEASE_MASK,
    SHIFT_MASK,
};
use bonolith::engine::{ConversionEngine, Preedit};
use bonolith::entry::DictionaryEntry;
use bonolith::nano::NanoTable;
use bonolith::pos::PartOfSpeech::{Noun, Particle};
use bonolith::user_scorer::UserScorer;

fn logs() -> NanoTable {
    let mut table = NanoTable::new();
    for arg in 1..=20000u32 {
        assert!(table.push(arg, ((arg as f64).ln() * 1e9).round() as i64));
    }
    table
}

fn score_table() -> NanoTable {
    let mut table = NanoTable::new();
    for count in 1..=20u32 {
        let score = (count as f64).ln_1p() / 20f64.ln_1p();
        assert!(table.push(count, (score * 1e9).round() as i64));
    }
    table
}

/// Kana of the letters used in the tests.
const KANA: &[(&str, &str)] = &[
    ("a", "あ"),
    ("i", "い"),
    ("ka", "か"),
    ("kya", "きゃ"),
    ("te", "て"),
    ("su", "す"),
    ("to", "と"),
];

struct Keyboard {
    engine: ConversionEngine,
    dict: Dictionary,
    scorer: UserScorer,
    kana: String,
    pending: String,
    /// Conversions that were committed, with the choices made in them.
    committed: Vec<(String, Vec<(String, String)>)>,
}

impl Keyboard {
    fn new() -> Keyboard {
        let words = [
            ("か", "か", Particle, 7424),
            ("か", "蚊", Noun, 4000),
            ("きゃ", "きゃ", Noun, 3000),
        ];
        let list: Vec<DictionaryEntry> = words
            .iter()
            .map(|&(reading, surface, pos, frequency)| DictionaryEntry {
                reading: reading.to_string(),
                surface: surface.to_string(),
                pos,
                frequency,
            })
            .collect();
        Keyboard {
            engine: ConversionEngine::new(),
            dict: Dictionary::new(&list, "", logs()),
            scorer: UserScorer::new(score_table()),
            kana: String::new(),
            pending: String::new(),
            committed: Vec::new(),
        }
    }

    fn converting(&self) -> bool {
        self.engine.conversion_state().is_some()
    }

    fn work(&mut self, step: KanaStep) -> bool {
        if step.reset {
            self.kana.clear();
            self.pending.clear();
        }
        match step.work {
            KanaWork::Nothing | KanaWork::Flush => false,
            KanaWork::Append(c) => {
                self.kana.push(c);
                false
            }
            KanaWork::Type(c) => {
                self.pending.push(c.to_ascii_lowercase());
                if let Some(&(_, k)) = KANA.iter().find(|(r, _)| *r == self.pending) {
                    self.kana.push_str(k);
                    self.pending.clear();
                }
                false
            }
            KanaWork::DeleteLast => self.pending.pop().is_some() || self.kana.pop().is_some(),
        }
    }

    /// Presses a key and compares what is to be drawn with the engine.
    fn press(&mut self, event: KeyEvent) -> KeyOutcome {
        let out = self.pressed(event);
        match &out.display {
            DisplayUpdate::Unchanged => {}
            DisplayUpdate::Cleared => {
                assert_eq!(self.engine.preedit(), "");
                assert!(!self.converting());
            }
            DisplayUpdate::Preedit(text) => {
                assert!(!text.is_empty());
                assert_eq!(*text, self.engine.preedit());
                assert!(!self.converting());
            }
            DisplayUpdate::Conversion => assert!(self.converting()),
        }
        assert!(out.commit.is_none() || out.consumed);
        out
    }

    fn pressed(&mut self, event: KeyEvent) -> KeyOutcome {
        let converting = self.converting();
        let composing = !self.engine.preedit().is_empty();
        let wide = match printable_char(event.keyval) {
            Some('.') => Some('。'),
            Some('1') => Some('１'),
            _ => None,
        };
        let action = key_action(converting, composing, event, wide);
        let deleted = self.work(kana_step(converting, action));
        let typed = Preedit { kana: self.kana.clone(), pending: self.pending.clone() };
        if action == KeyAction::StartConversion {
            self.engine.take_typed(typed);
            let plan = self.engine.plan_conversion(&self.dict, &self.scorer);
            return begin_conversion(&mut self.engine, plan, None, &self.scorer);
        }
        let forms = KanaForms {
            katakana: "カ".to_string(),
            halfwidth_katakana: "ｶ".to_string(),
            romaji: "ka".to_string(),
            fullwidth_romaji: "ｋａ".to_string(),
        };
        let reply = KanaReply { typed, deleted, forms };
        let result = dispatch_key(&mut self.engine, &self.dict, &self.scorer, action, reply);
        if let Some(c) = result.committed {
            self.committed.push((c.text, c.choices));
        }
        result.outcome
    }

    fn key(&mut self, keyval: u32) -> KeyOutcome {
        self.press(KeyEvent { keyval, state: 0 })
    }

    fn shift(&mut self, keyval: u32) -> KeyOutcome {
        self.press(KeyEvent { keyval, state: SHIFT_MASK })
    }

    fn letters(&mut self, text: &str) {
        for c in text.chars() {
            self.key(c as u32);
        }
    }

    fn focused(&self) -> String {
        let state = self.engine.conversion_state().unwrap();
        let s = &state.segments[state.focus];
        s.candidates[s.selected].clone()
    }
}

fn shows(out: &KeyOutcome, text: &str) -> bool {
    matches!(&out.display, DisplayUpdate::Preedit(p) if p == text)
}

/// Typing builds up the text; Escape clears it.
#[test]
fn romaji_then_escape() {
    let mut k = Keyboard::new();
    let out = k.key('a' as u32);
    assert!(out.consumed);
    assert!(shows(&out, "あ"));
    let out = k.key(KEY_ESCAPE);
    assert!(out.consumed);
    assert!(matches!(out.display, DisplayUpdate::Cleared));
    assert_eq!(k.engine.preedit(), "");
}

#[test]
fn escape_idle_passes_through() {
    let out = Keyboard::new().key(KEY_ESCAPE);
    assert!(!out.consumed);
    assert!(out.commit.is_none());
}

#[test]
fn tab_idle_passes_through() {
    assert!(!Keyboard::new().key(KEY_TAB).consumed);
}

#[test]
fn tab_commits_preedit() {
    let mut k = Keyboard::new();
    k.key('a' as u32);
    let out = k.key(KEY_TAB);
    assert!(out.consumed);
    assert_eq!(out.commit.as_deref(), Some("あ"));
}

#[test]
fn enter_idle_passes_through() {
    assert!(!Keyboard::new().key(KEY_RETURN).consumed);
}

#[test]
fn backspace_idle_passes_through() {
    assert!(!Keyboard::new().key(KEY_BACKSPACE).consumed);
}

#[test]
fn backspace_deletes_preedit() {
    let mut k = Keyboard::new();
    k.letters("ai");
    let out = k.key(KEY_BACKSPACE);
    assert!(out.consumed);
    assert!(shows(&out, "あ"));
    let out = k.key(KEY_BACKSPACE);
    assert!(out.consumed);
    assert!(matches!(out.display, DisplayUpdate::Cleared));
}

#[test]
fn ctrl_alt_pass_through() {
    let mut k = Keyboard::new();
    assert!(!k.press(KeyEvent { keyval: 'c' as u32, state: CONTROL_MASK }).consumed);
    assert!(!k.press(KeyEvent { keyval: 'c' as u32, state: MOD1_MASK }).consumed);
    assert_eq!(k.engine.preedit(), "");
}

#[test]
fn arrow_idle_passes_through() {
    let mut k = Keyboard::new();
    for key in [KEY_LEFT, KEY_RIGHT, KEY_UP, KEY_DOWN] {
        let out = k.key(key);
        assert!(!out.consumed, "arrow {key:x} should pass when idle");
    }
}

#[test]
fn arrow_during_preedit_consumed() {
    let mut k = Keyboard::new();
    k.key('a' as u32);
    let out = k.key(KEY_LEFT);
    assert!(out.consumed);
    assert!(matches!(out.display, DisplayUpdate::Unchanged));
}

#[test]
fn f_key_empty_preedit_consumed() {
    let mut k = Keyboard::new();
    for key in [KEY_F6, KEY_F7, KEY_F8, KEY_F9, KEY_F10] {
        let out = k.key(key);
        assert!(out.consumed, "F key {key:x} should be used even with nothing typed");
        assert!(!k.converting());
    }
}

#[test]
fn ctrl_passthrough_during_preedit() {
    let mut k = Keyboard::new();
    k.key('a' as u32);
    let out = k.press(KeyEvent { keyval: 'a' as u32, state: CONTROL_MASK });
    assert!(!out.consumed);
}

#[test]
fn conversion_cycle_commits() {
    let mut k = Keyboard::new();
    k.letters("kya");
    assert_eq!(k.engine.preedit(), "きゃ");
    let out = k.key(KEY_SPACE);
    assert!(out.consumed);
    assert!(k.converting());
    assert!(matches!(out.display, DisplayUpdate::Conversion));
    assert!(out.schedule_rerank_refresh);
    let out = k.key(KEY_RETURN);
    assert!(out.consumed);
    assert!(!k.converting());
    assert!(out.commit.is_some());
    assert!(matches!(out.display, DisplayUpdate::Cleared));
}

#[test]
fn backspace_during_conversion_returns_to_preedit() {
    let mut k = Keyboard::new();
    k.letters("ka");
    k.key(KEY_SPACE);
    assert!(k.converting());
    let out = k.key(KEY_BACKSPACE);
    assert!(out.consumed);
    assert!(!k.converting());
    assert!(shows(&out, "か"));
}

#[test]
fn shift_right_during_conversion_resizes() {
    let mut k = Keyboard::new();
    k.letters("ka");
    k.key(KEY_SPACE);
    let out = k.shift(KEY_RIGHT);
    assert!(out.consumed);
    assert!(matches!(out.display, DisplayUpdate::Conversion));
    assert!(out.schedule_rerank_refresh);
}

#[test]
fn fullwidth_punctuation() {
    let mut k = Keyboard::new();
    let out = k.key('.' as u32);
    assert!(out.consumed);
    assert_eq!(k.engine.preedit(), "。");
}

#[test]
fn shift_space_inserts_fullwidth_space() {
    let mut k = Keyboard::new();
    let out = k.shift(KEY_SPACE);
    assert!(out.consumed);
    assert!(!k.converting());
    assert!(out.commit.is_none());
    assert_eq!(k.engine.preedit(), "\u{3000}");
    assert!(shows(&out, "\u{3000}"));
}

#[test]
fn shift_space_appends_to_preedit() {
    let mut k = Keyboard::new();
    k.key('a' as u32);
    let out = k.shift(KEY_SPACE);
    assert!(out.consumed);
    assert!(!k.converting());
    assert_eq!(k.engine.preedit(), "あ\u{3000}");
}

#[test]
fn shift_space_during_conversion_commits_and_appends() {
    let mut k = Keyboard::new();
    k.letters("ka");
    k.key(KEY_SPACE);
    assert!(k.converting());
    let out = k.shift(KEY_SPACE);
    assert!(out.consumed);
    assert!(!k.converting(), "the conversion should end");
    assert!(out.commit.is_some(), "the conversion should be committed");
    assert!(shows(&out, "\u{3000}"));
}

#[test]
fn bare_space_no_preedit_still_passes_through() {
    let mut k = Keyboard::new();
    let out = k.key(KEY_SPACE);
    assert!(!out.consumed);
    assert_eq!(k.engine.preedit(), "");
}

#[test]
fn release_is_defensively_ignored() {
    let mut k = Keyboard::new();
    k.key('a' as u32);
    let before = k.engine.preedit();
    let out = k.press(KeyEvent { keyval: 'b' as u32, state: RELEASE_MASK });
    assert!(!out.consumed);
    assert_eq!(k.engine.preedit(), before);
}

#[test]
fn letter_in_conversion_commits_and_starts_anew() {
    let mut k = Keyboard::new();
    k.letters("ka");
    k.key(KEY_SPACE);
    let out = k.key('a' as u32);
    assert_eq!(out.commit.as_deref(), Some("か"));
    assert!(shows(&out, "あ"));
    assert_eq!(k.committed, vec![("か".to_string(), vec![])]);
}

#[test]
fn digit_without_wide_form_commits_quietly() {
    let mut k = Keyboard::new();
    k.letters("ka");
    k.key(KEY_SPACE);
    let out = k.key('2' as u32);
    assert!(out.consumed);
    assert_eq!(out.commit.as_deref(), Some("か"));
    assert!(matches!(out.display, DisplayUpdate::Unchanged));
    assert_eq!(k.engine.preedit(), "");
}

#[test]
fn candidates_are_cycled_and_learned() {
    let mut k = Keyboard::new();
    k.letters("ka");
    k.key(KEY_SPACE);
    let first = k.focused();
    k.key(KEY_DOWN);
    let second = k.focused();
    assert_ne!(first, second);
    k.key(KEY_UP);
    assert_eq!(k.focused(), first);
    k.key(KEY_SPACE);
    let out = k.key(KEY_TAB);
    assert_eq!(out.commit.as_deref(), Some(second.as_str()));
    assert_eq!(k.committed[0].1, vec![("か".to_string(), second)]);
}

#[test]
fn form_keys_choose_the_form() {
    let mut k = Keyboard::new();
    k.letters("ka");
    let out = k.key(KEY_F7);
    assert!(matches!(out.display, DisplayUpdate::Conversion));
    assert_eq!(k.focused(), "カ");
    k.key(KEY_F9);
    assert_eq!(k.focused(), "ｋａ");
    k.key(KEY_F10);
    assert_eq!(k.focused(), "ka");
    k.key(KEY_F8);
    assert_eq!(k.focused(), "ｶ");
    k.key(KEY_F6);
    assert_eq!(k.focused(), "か");
}

#[test]
fn meanings_of_keys() {
    let at = |converting: bool, composing: bool, keyval: u32, state: u32| {
        key_action(converting, composing, KeyEvent { keyval, state }, None)
    };
    assert_eq!(at(true, true, KEY_F9, 0), KeyAction::FocusForm(KanaForm::FullwidthRomaji));
    assert_eq!(at(false, true, KEY_F9, 0), KeyAction::StartForm(4));
    assert_eq!(at(false, true, KEY_F10, 0), KeyAction::StartForm(3));
    assert_eq!(at(true, true, KEY_LEFT, SHIFT_MASK), KeyAction::Resize(-1));
    assert_eq!(at(true, true, KEY_RIGHT, 0), KeyAction::MoveFocus(1));
    assert_eq!(at(false, true, KEY_PAGE_UP, 0), KeyAction::Swallow);
    assert_eq!(at(false, false, KEY_PAGE_DOWN, 0), KeyAction::Pass);
    assert_eq!(at(true, true, KEY_PAGE_DOWN, 0), KeyAction::Swallow);
    assert_eq!(at(false, false, '-' as u32, 0), KeyAction::Type('-'));
    assert_eq!(at(false, false, 'V' as u32, SHIFT_MASK), KeyAction::Type('V'));
    assert_eq!(at(false, true, '1' as u32, 0), KeyAction::Swallow);
    assert_eq!(at(false, false, 0x7f, 0), KeyAction::Pass);
    assert_eq!(at(false, false, KEY_BACKSPACE, 0), KeyAction::DeleteLast);
    let symbol = KeyEvent { keyval: '1' as u32, state: 0 };
    assert_eq!(key_action(false, false, symbol, Some('１')), KeyAction::Insert('１'));
    assert_eq!(key_action(true, true, symbol, Some('１')), KeyAction::Insert('１'));
}

#[test]
fn nothing_typed_is_never_drawn() {
    let mut k = Keyboard::new();
    let reply = KanaReply {
        typed: Preedit { kana: String::new(), pending: String::new() },
        deleted: false,
        forms: KanaForms {
            katakana: String::new(),
            halfwidth_katakana: String::new(),
            romaji: String::new(),
            fullwidth_romaji: String::new(),
        },
    };
    let action = KeyAction::Type('\'');
    let result = dispatch_key(&mut k.engine, &k.dict, &k.scorer, action, reply);
    assert!(result.outcome.consumed);
    assert!(matches!(result.outcome.display, DisplayUpdate::Cleared));
}

#[test]
fn kana_input_steps() {
    let cancel = kana_step(true, KeyAction::Cancel);
    assert_eq!(cancel, KanaStep { reset: true, work: KanaWork::Nothing });
    let typed = kana_step(true, KeyAction::Type('k'));
    assert_eq!(typed, KanaStep { reset: true, work: KanaWork::Type('k') });
    let typed = kana_step(false, KeyAction::Type('k'));
    assert_eq!(typed, KanaStep { reset: false, work: KanaWork::Type('k') });
    let form = kana_step(false, KeyAction::StartForm(1));
    assert_eq!(form, KanaStep { reset: false, work: KanaWork::Flush });
    let back = kana_step(true, KeyAction::BackToPreedit);
    assert_eq!(back, KanaStep { reset: false, work: KanaWork::Nothing });
}

#[test]
fn printable_keys() {
    assert_eq!(printable_char(0x1f), None);
    assert_eq!(printable_char(0x20), Some(' '));
    assert_eq!(printable_char(0x7e), Some('~'));
    assert_eq!(printable_char(0x7f), None);
    assert_eq!(printable_char(0x3042), None);
}

#[test]
fn fresh_outcome_passes_the_key() {
    let out = KeyOutcome::default();
    assert!(!out.consumed && out.commit.is_none() && !out.schedule_rerank_refresh);
    assert!(matches!(out.display, DisplayUpdate::Unchanged));
}
