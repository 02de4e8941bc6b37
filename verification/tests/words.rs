use bonolith::command::{parse_command, Command};
use bonolith::dictionary::Dictionary;
use bonolith::entry::DictionaryEntry;
use bonolith::nano::NanoTable;
use bonolith::pos::PartOfSpeech::Noun;
use bonolith::words::{
    dict_add_entry, dict_delete_entry, dict_update_entry, displayed_count, edit_changes,
    list_cells, menu_items, new_word, parse_selection, parse_word_reply, property_activate, MenuAction,
    WordReply,
};

fn dictionary() -> Dictionary {
    let mut table = NanoTable::new();
    for arg in 1..=20000u32 {
        assert!(table.push(arg, ((arg as f64).ln() * 1e9).round() as i64));
    }
    let list = vec![DictionaryEntry {
        reading: "あめ".to_string(),
        surface: "雨".to_string(),
        pos: Noun,
        frequency: 5200,
    }];
    Dictionary::new(&list, "", table)
}

fn words(dict: &Dictionary) -> Vec<(String, String)> {
    dict.user_entries().iter().map(|e| (e.reading.clone(), e.surface.clone())).collect()
}

#[test]
fn dialog_answers_are_understood() {
    assert!(matches!(parse_word_reply(""), WordReply::Nothing));
    assert!(matches!(parse_word_reply("よみ"), WordReply::Nothing));
    assert!(matches!(parse_word_reply("よみ|"), WordReply::Incomplete));
    assert!(matches!(parse_word_reply(" | 語 "), WordReply::Incomplete));
    assert!(matches!(
        parse_word_reply(" よみ | 語 \n"),
        WordReply::Word(r, s) if r == "よみ" && s == "語"
    ));
    // Only the first bar separates.
    assert!(matches!(
        parse_word_reply("たて|a|b"),
        WordReply::Word(r, s) if r == "たて" && s == "a|b"
    ));
}

#[test]
fn list_answers_pick_a_word() {
    assert_eq!(parse_selection("2\n", 3), Some(2));
    assert_eq!(parse_selection("1|1", 3), Some(1));
    assert_eq!(parse_selection("3", 3), None);
    assert_eq!(parse_selection("", 3), None);
    assert_eq!(parse_selection("x|1", 3), None);
    assert_eq!(parse_selection("99999999999999999999999", 3), None);
}

#[test]
fn registered_words() {
    let word = new_word("よみ", "語").unwrap();
    assert_eq!((word.pos, word.frequency), (Noun, 8000));
    assert!(new_word("", "語").is_none());
    assert!(new_word("よみ", "").is_none());
}

#[test]
fn words_are_added_changed_and_deleted() {
    let mut dict = dictionary();
    let builtin = dict.len();
    assert!(dict_add_entry(&mut dict, "よみ", "語"));
    assert!(dict_add_entry(&mut dict, "ほか", "他"));
    assert!(!dict_add_entry(&mut dict, "", "語"));
    assert_eq!(dict.len(), builtin + 2);
    assert_eq!(dict.lookup("よみ")[0].surface, "語");
    assert!(dict_update_entry(&mut dict, 0, "", "誤"));
    assert!(dict_update_entry(&mut dict, 1, "べつ", ""));
    assert!(!dict_update_entry(&mut dict, 2, "べつ", ""));
    assert!(!dict_update_entry(&mut dict, -1, "べつ", ""));
    assert_eq!(
        words(&dict),
        vec![("よみ".to_string(), "誤".to_string()), ("べつ".to_string(), "他".to_string())]
    );
    assert_eq!(dict.lookup("べつ")[0].surface, "他");
    assert!(dict.lookup("ほか").is_empty());
    assert!(!dict_delete_entry(&mut dict, 2));
    assert!(!dict_delete_entry(&mut dict, -1));
    assert!(dict_delete_entry(&mut dict, 0));
    assert_eq!(words(&dict), vec![("べつ".to_string(), "他".to_string())]);
    assert!(dict.lookup("よみ").is_empty());
    assert_eq!(dict.len(), builtin + 1);
}

#[test]
fn edits_and_lists() {
    assert!(!edit_changes("よみ", "語", "よみ", "語"));
    assert!(edit_changes("よみ", "語", "よみ", "誤"));
    assert!(edit_changes("よみ", "語", "ほか", "語"));
    assert_eq!(displayed_count(3), 3);
    assert_eq!(displayed_count(501), 500);
    let words = vec![new_word("よみ", "語").unwrap(), new_word("ほか", "他").unwrap()];
    assert_eq!(list_cells(&words), vec!["0", "よみ", "語", "1", "ほか", "他"]);
}

#[test]
fn menu_items_have_actions() {
    let wanted = [
        MenuAction::RegisterWord,
        MenuAction::ManageDict,
        MenuAction::Export,
        MenuAction::Import,
        MenuAction::ClearLearning,
    ];
    let items = menu_items();
    assert_eq!(items.len(), wanted.len());
    for (item, action) in items.iter().zip(wanted) {
        assert_eq!(property_activate(&item.key), Some(action));
    }
    assert_eq!(items[0].label, "単語登録...");
    assert_eq!(property_activate("InputMode"), None);
}

fn command(words: &[&str]) -> Command {
    parse_command(&words.iter().map(|w| w.to_string()).collect())
}

#[test]
fn command_line() {
    assert!(matches!(command(&[]), Command::Serve));
    assert!(matches!(command(&["export", "a.json"]), Command::Export(p) if p == "a.json"));
    assert!(matches!(command(&["export"]), Command::ExportWithoutFile));
    assert!(matches!(command(&["import", "b.json", "c"]), Command::Import(p) if p == "b.json"));
    assert!(matches!(command(&["import"]), Command::ImportWithoutFile));
    assert!(matches!(command(&["llm"]), Command::LlmStatus));
    assert!(matches!(command(&["llm", "on"]), Command::LlmOn));
    assert!(matches!(command(&["llm", "off"]), Command::LlmOff));
    assert!(matches!(command(&["llm", "status"]), Command::LlmStatus));
    assert!(matches!(command(&["llm", "x"]), Command::UnknownLlm(w) if w == "x"));
    assert!(matches!(command(&["--help"]), Command::Help));
    assert!(matches!(command(&["-h"]), Command::Help));
    assert!(matches!(command(&["help"]), Command::Help));
    assert!(matches!(command(&["EXPORT"]), Command::Unknown(w) if w == "EXPORT"));
}
