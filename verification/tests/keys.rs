use bonolith::config::{
    parse_keyval, parse_modifier, BonolithConfig, CompiledToggleKey, ToggleKeyBinding,
};
use bonolith::factory::{engine_path, get_ibus_address, BonolithControl, BonolithFactory, BusFile};
use bonolith::gate::{BonolithEngine, KeyGate};
use bonolith::keymap::{
    has_modifier, is_release, unshift_letter, IBUS_CONTROL_MASK, IBUS_KEY_HENKAN_MODE,
    IBUS_KEY_MUHENKAN, IBUS_MOD1_MASK, IBUS_RELEASE_MASK, IBUS_SHIFT_MASK,
};

fn config(keyval: &str, modifiers: &[&str]) -> BonolithConfig {
    BonolithConfig {
        toggle_keys: vec![ToggleKeyBinding {
            keyval: keyval.to_string(),
            modifiers: modifiers.iter().map(|s| s.to_string()).collect(),
        }],
    }
}

fn binding(keyval: &str, modifiers: &[&str]) -> CompiledToggleKey {
    config(keyval, modifiers)
        .compile_toggle_keys()
        .into_iter()
        .next()
        .expect("binding compiled")
}

#[test]
fn shift_letter_binding_matches_physical_uppercase_keysym() {
    let tk = binding("a", &["ctrl", "shift"]);
    // Physical Shift+Ctrl+A: keyval=0x41 ('A'), modifiers=CTRL|SHIFT.
    let modifiers = IBUS_CONTROL_MASK | IBUS_SHIFT_MASK;
    assert!(
        tk.matches(0x41, modifiers),
        "Shift+Ctrl+A must match binding 'a'+ctrl+shift",
    );
    // The lowercase form still matches.
    assert!(tk.matches(0x61, modifiers));
}

#[test]
fn shift_letter_press_does_not_leak_into_unshifted_binding() {
    let tk = binding("a", &["ctrl"]);
    let modifiers = IBUS_CONTROL_MASK | IBUS_SHIFT_MASK;
    assert!(!tk.matches(0x41, modifiers));
}

#[test]
fn default_ctrl_shift_space_still_matches() {
    let tk = binding("space", &["ctrl", "shift"]);
    let modifiers = IBUS_CONTROL_MASK | IBUS_SHIFT_MASK;
    assert!(tk.matches(0x20, modifiers));
}

#[test]
fn unshift_letter_folds_uppercase_ascii() {
    // A..Z → a..z
    for (upper, lower) in [(0x41, 0x61), (0x4D, 0x6D), (0x5A, 0x7A)] {
        assert_eq!(unshift_letter(upper), lower);
        // Idempotent on lowercase.
        assert_eq!(unshift_letter(lower), lower);
    }
    for k in [0x20u32, 0x30, 0x39, 0x40, 0x5B, 0x60, 0x7B, 0xFF0D, 0xFF1B] {
        assert_eq!(unshift_letter(k), k, "keyval 0x{k:04X} should not be folded");
    }
}

#[test]
fn key_names_are_understood_in_any_case() {
    assert_eq!(parse_keyval("Space"), Some(0x20));
    assert_eq!(parse_keyval("ENTER"), Some(0xFF0D));
    assert_eq!(parse_keyval("esc"), Some(0xFF1B));
    assert_eq!(parse_keyval("backtick"), Some(0x60));
    assert_eq!(parse_keyval("zenkaku_hankaku"), Some(0xFF2A));
    assert_eq!(parse_keyval("Q"), Some(0x71));
    assert_eq!(parse_keyval(";"), Some(0x3b));
    assert_eq!(parse_keyval("0xFF2a"), Some(0xFF2A));
    assert_eq!(parse_keyval("exclam"), Some(0x21));
    assert_eq!(parse_keyval("0x0021"), Some(0x21));
    assert_eq!(parse_keyval("0x"), None);
    assert_eq!(parse_keyval("0x1ffffffff"), None);
    assert_eq!(parse_keyval(" "), None);
    assert_eq!(parse_keyval("あ"), None);
    assert_eq!(parse_keyval("hyper"), None);
    assert_eq!(parse_modifier("Control"), Some(IBUS_CONTROL_MASK));
    assert_eq!(parse_modifier("mod1"), Some(IBUS_MOD1_MASK));
    assert_eq!(parse_modifier("super"), None);
}

#[test]
fn default_settings_toggle_with_ctrl_shift_space() {
    let keys = BonolithConfig::default().compile_toggle_keys();
    assert_eq!(keys.len(), 1);
    assert_eq!(keys[0].keyval, 0x20);
    assert_eq!(keys[0].modifier_mask, IBUS_CONTROL_MASK | IBUS_SHIFT_MASK);
}

#[test]
fn unknown_keys_and_modifiers_are_left_out() {
    assert!(config("nokey", &["ctrl"]).compile_toggle_keys().is_empty());
    assert_eq!(binding("a", &["ctrl", "hyper"]).modifier_mask, IBUS_CONTROL_MASK);
}

#[test]
fn modifier_tests_look_at_their_bits() {
    assert!(has_modifier(IBUS_CONTROL_MASK));
    assert!(has_modifier(IBUS_MOD1_MASK | IBUS_SHIFT_MASK));
    assert!(!has_modifier(IBUS_SHIFT_MASK));
    assert!(is_release(IBUS_RELEASE_MASK | IBUS_SHIFT_MASK));
    assert!(!is_release(IBUS_SHIFT_MASK));
}

fn engine() -> BonolithEngine {
    BonolithEngine::new(&config("a", &["shift"]), "/here".to_string())
}

#[test]
fn toggle_switches_on_and_off_and_holds_releases_back() {
    let mut e = engine();
    assert_eq!(e.process_key_event(0x41, IBUS_SHIFT_MASK, None, 0), KeyGate::Consume);
    assert!(e.is_enabled());
    // The letter comes up after Shift did.
    assert_eq!(e.process_key_event(0x61, IBUS_RELEASE_MASK, None, 10), KeyGate::Consume);
    assert_eq!(e.process_key_event(0x62, 0, None, 20), KeyGate::Dispatch);
    assert_eq!(e.process_key_event(0x41, IBUS_SHIFT_MASK, None, 1000), KeyGate::CancelAndConsume);
    assert!(!e.is_enabled());
    assert_eq!(e.process_key_event(0x61, IBUS_RELEASE_MASK, None, 9000), KeyGate::Consume);
    // Once only.
    assert_eq!(e.process_key_event(0x61, IBUS_RELEASE_MASK, None, 9001), KeyGate::Pass);
    assert_eq!(e.path(), "/here");
}

#[test]
fn releases_are_held_back_for_a_moment_after_switching_off() {
    let mut e = engine();
    assert_eq!(e.process_key_event(IBUS_KEY_HENKAN_MODE, 0, None, 0), KeyGate::Consume);
    assert_eq!(e.process_key_event(IBUS_KEY_MUHENKAN, 0, None, 100), KeyGate::CancelAndConsume);
    assert_eq!(e.process_key_event(0x20, IBUS_RELEASE_MASK, None, 179), KeyGate::Consume);
    assert_eq!(e.process_key_event(0x20, IBUS_RELEASE_MASK, None, 180), KeyGate::Pass);
    assert_eq!(e.process_key_event(0x62, 0, None, 181), KeyGate::Pass);
}

#[test]
fn losing_focus_forgets_releases_but_keeps_input_on() {
    let mut e = engine();
    e.process_key_event(0x41, IBUS_SHIFT_MASK, None, 0);
    e.focus_out();
    assert!(e.is_enabled());
    e.disable(50);
    assert!(!e.is_enabled());
    assert_eq!(e.process_key_event(0x61, IBUS_RELEASE_MASK, None, 1000), KeyGate::Pass);
}

#[test]
fn forced_input_is_on_with_the_first_key() {
    let mut control = BonolithControl::new();
    control.force_enable(1000);
    assert_eq!(control.force, Some(6000));
    let mut e = engine();
    assert_eq!(e.process_key_event(0x62, 0, control.force, 5999), KeyGate::Dispatch);
    let mut late = engine();
    assert_eq!(late.process_key_event(0x62, 0, control.force, 6000), KeyGate::Pass);
    control.force_enable_clear();
    assert_eq!(control.force, None);
    assert!(!late.apply_force_enable(None, 0));
    assert!(late.apply_force_enable(Some(1), 0));
    assert!(late.is_enabled());
}

#[test]
fn shortcuts_pass_the_gate() {
    let mut e = engine();
    e.process_key_event(0x41, IBUS_SHIFT_MASK, None, 0);
    assert_eq!(e.process_key_event(0x63, IBUS_CONTROL_MASK, None, 1), KeyGate::Pass);
}

#[test]
fn engines_get_places_of_their_own() {
    let mut factory = BonolithFactory::new(BonolithConfig::default());
    assert_eq!(factory.create_engine().path(), "/org/freedesktop/IBus/Engine/0");
    assert_eq!(factory.create_engine().path(), "/org/freedesktop/IBus/Engine/1");
    assert_eq!(engine_path(120), "/org/freedesktop/IBus/Engine/120");
    assert!(!factory.create_engine().is_enabled());
}

fn file(modified: u128, contents: &str) -> BusFile {
    BusFile { modified, contents: contents.to_string() }
}

#[test]
fn newest_address_is_taken() {
    let files = vec![
        file(5, "# comment\nIBUS_ADDRESS=unix:one\n"),
        file(9, "IBUS_ADDRESS=\nIBUS_ADDRESS=unix:two\nIBUS_ADDRESS=unix:three\n"),
        file(9, "IBUS_ADDRESS=unix:four"),
        file(10, "nothing here"),
    ];
    assert_eq!(get_ibus_address(None, &files), Some("unix:two".to_string()));
    assert_eq!(get_ibus_address(Some(String::new()), &files), Some("unix:two".to_string()));
    assert_eq!(get_ibus_address(Some("given".to_string()), &files), Some("given".to_string()));
    assert_eq!(get_ibus_address(None, &vec![]), None);
}
