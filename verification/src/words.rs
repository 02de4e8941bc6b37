//! Registering and managing the user's own words.
//!
//! Dialogs run elsewhere and answer with a line of text; what that text means,
//! and what becomes of the dictionary, is settled here.
use vstd::prelude::*;

use crate::conversion;
use crate::dictionary::Dictionary;
use crate::entry;
use crate::entry::{DictionaryEntry, EntryView};
use crate::pos::PartOfSpeech;
use crate::scan;
use crate::scan::{copied_between, find, parse_unsigned, push_decimal, split, trim, Separator};
use crate::text::{chars_of, same_text, text_of};

verus! {

/// The frequency of a word that the user registers.
pub const REGISTERED_FREQUENCY: u32 = 8000;

/// How many words the list for managing them shows.
pub const MAX_DISPLAY: usize = 500;

/// What a dialog for a word answered.
#[derive(Debug)]
pub enum WordReply {
    /// Nothing that can be understood.
    Nothing,
    /// The reading or the word is missing.
    Incomplete,
    /// A reading and a word.
    Word(String, String),
}

/// The contents of an answer.
#[verifier::ext_equal]
pub enum WordReplyView {
    Nothing,
    Incomplete,
    Word(Seq<char>, Seq<char>),
}

impl View for WordReply {
    type V = WordReplyView;

    open spec fn view(&self) -> WordReplyView {
        match self {
            WordReply::Nothing => WordReplyView::Nothing,
            WordReply::Incomplete => WordReplyView::Incomplete,
            WordReply::Word(r, s) => WordReplyView::Word(r@, s@),
        }
    }
}

/// What an answer means: reading and word stand on both sides of the first bar.
pub open spec fn word_reply(output: Seq<char>) -> WordReplyView {
    let s = scan::trimmed(output);
    let at = scan::index_of(s, '|');
    if at >= s.len() {
        WordReplyView::Nothing
    } else {
        let reading = scan::trimmed(s.take(at));
        let surface = scan::trimmed(s.skip(at + 1));
        if reading.len() == 0 || surface.len() == 0 {
            WordReplyView::Incomplete
        } else {
            WordReplyView::Word(reading, surface)
        }
    }
}

/// What the answer of a dialog for a word means.
pub fn parse_word_reply(output: &str) -> (reply: WordReply)
    ensures
        reply@ == word_reply(output@),
{
    let chars: Vec<char> = chars_of(output);
    let s: Vec<char> = trim(chars.as_slice());
    let at: usize = find(s.as_slice(), '|');
    if at >= s.len() {
        return WordReply::Nothing;
    }
    let left: Vec<char> = copied_between(s.as_slice(), 0, at);
    let right: Vec<char> = copied_between(s.as_slice(), at + 1, s.len());
    assert(left@ =~= s@.take(at as int));
    assert(right@ =~= s@.skip(at + 1));
    let reading: Vec<char> = trim(left.as_slice());
    let surface: Vec<char> = trim(right.as_slice());
    if reading.len() == 0 || surface.len() == 0 {
        WordReply::Incomplete
    } else {
        WordReply::Word(text_of(reading.as_slice()), text_of(surface.as_slice()))
    }
}

/// Which word of the list an answer picks: the number before the first bar, if
/// there is such a word.
pub open spec fn picked(output: Seq<char>, count: int) -> Option<int> {
    let first = scan::pieces(scan::trimmed(output), Separator::Char('|'))[0];
    match scan::unsigned_of(first, 10, u64::MAX as int) {
        Some(n) => if n < count {
            Some(n)
        } else {
            None
        },
        None => None,
    }
}

/// Which word of the list the answer of a dialog picks. A list may answer twice
/// the same when a row is clicked twice.
pub fn parse_selection(output: &str, count: usize) -> (index: Option<usize>)
    ensures
        match index {
            Some(i) => picked(output@, count as int) == Some(i as int),
            None => picked(output@, count as int) is None,
        },
{
    let chars: Vec<char> = chars_of(output);
    let s: Vec<char> = trim(chars.as_slice());
    let parts: Vec<Vec<char>> = split(s.as_slice(), Separator::Char('|'));
    proof {
        scan::lemma_pieces_len(s@, Separator::Char('|'));
        assert(scan::text_views(parts@).len() == parts@.len());
        assert(scan::text_views(parts@)[0] == parts@[0]@);
    }
    match parse_unsigned(parts[0].as_slice(), 10, u64::MAX) {
        Some(n) => if n < count as u64 {
            Some(n as usize)
        } else {
            None
        },
        None => None,
    }
}

/// A word that the user registers.
pub open spec fn registered(reading: Seq<char>, surface: Seq<char>) -> EntryView {
    EntryView { reading, surface, pos: PartOfSpeech::Noun, frequency: REGISTERED_FREQUENCY }
}

/// A word that the user registers; none if reading or word is empty.
pub fn new_word(reading: &str, surface: &str) -> (word: Option<DictionaryEntry>)
    ensures
        match word {
            Some(e) => reading@.len() > 0 && surface@.len() > 0 && e@ == registered(
                reading@,
                surface@,
            ),
            None => reading@.len() == 0 || surface@.len() == 0,
        },
{
    if reading.is_empty() || surface.is_empty() {
        None
    } else {
        Some(
            DictionaryEntry {
                reading: reading.to_owned(),
                surface: surface.to_owned(),
                pos: PartOfSpeech::Noun,
                frequency: REGISTERED_FREQUENCY,
            },
        )
    }
}

/// Adds a word of the user to the dictionary, unless reading or word is empty.
pub fn dict_add_entry(dict: &mut Dictionary, reading: &str, surface: &str) -> (added: bool)
    requires
        old(dict).wf(),
    ensures
        final(dict).wf(),
        added == (reading@.len() > 0 && surface@.len() > 0),
        final(dict)@ == (if added {
            old(dict)@.push(registered(reading@, surface@))
        } else {
            old(dict)@
        }),
        final(dict).builtin_count() == old(dict).builtin_count(),
        final(dict).log_table() == old(dict).log_table(),
{
    match new_word(reading, surface) {
        Some(e) => {
            dict.add_entry(e);
            true
        },
        None => false,
    }
}

/// Copies of the user's words.
fn copied_user_entries(dict: &Dictionary) -> (out: Vec<DictionaryEntry>)
    requires
        dict.wf(),
    ensures
        entry::entry_views(out@) == dict.user_part(),
{
    let user = dict.user_entries();
    let mut out: Vec<DictionaryEntry> = Vec::new();
    let mut i: usize = 0;
    while i < user.len()
        invariant
            i <= user@.len(),
            out@ == user@.take(i as int),
        decreases user@.len() - i,
    {
        out.push(user[i].clone());
        i = i + 1;
        assert(out@ =~= user@.take(i as int));
    }
    assert(user@.take(i as int) =~= user@);
    out
}

/// The dictionary with the user's words replaced.
pub open spec fn with_user_part(d: Seq<EntryView>, builtin: int, user: Seq<EntryView>) -> Seq<
    EntryView,
> {
    d.take(builtin) + user
}

/// Takes the word of the user at a position out of the dictionary. Tells
/// whether there is one.
pub fn dict_delete_entry(dict: &mut Dictionary, index: i32) -> (deleted: bool)
    requires
        old(dict).wf(),
    ensures
        final(dict).wf(),
        deleted == (0 <= index < old(dict).user_part().len()),
        final(dict)@ == (if deleted {
            with_user_part(
                old(dict)@,
                old(dict).builtin_count(),
                old(dict).user_part().remove(index as int),
            )
        } else {
            old(dict)@
        }),
        final(dict).builtin_count() == old(dict).builtin_count(),
        final(dict).log_table() == old(dict).log_table(),
{
    let ghost part = dict.user_part();
    let mut entries: Vec<DictionaryEntry> = copied_user_entries(dict);
    assert(entries@.len() == part.len());
    if index < 0 || index as usize >= entries.len() {
        return false;
    }
    entries.remove(index as usize);
    assert(entry::entry_views(entries@) =~= part.remove(index as int));
    dict.replace_user_entries(entries);
    true
}

/// A word with reading and surface changed; empty texts change nothing.
pub open spec fn changed(e: EntryView, reading: Seq<char>, surface: Seq<char>) -> EntryView {
    EntryView {
        reading: if reading.len() > 0 {
            reading
        } else {
            e.reading
        },
        surface: if surface.len() > 0 {
            surface
        } else {
            e.surface
        },
        ..e
    }
}

/// Changes the word of the user at a position. Empty texts change nothing.
/// Tells whether there is such a word.
pub fn dict_update_entry(
    dict: &mut Dictionary,
    index: i32,
    new_reading: &str,
    new_surface: &str,
) -> (updated: bool)
    requires
        old(dict).wf(),
    ensures
        final(dict).wf(),
        updated == (0 <= index < old(dict).user_part().len()),
        final(dict)@ == (if updated {
            with_user_part(
                old(dict)@,
                old(dict).builtin_count(),
                old(dict).user_part().update(
                    index as int,
                    changed(
                        old(dict).user_part()[index as int],
                        new_reading@,
                        new_surface@,
                    ),
                ),
            )
        } else {
            old(dict)@
        }),
        final(dict).builtin_count() == old(dict).builtin_count(),
        final(dict).log_table() == old(dict).log_table(),
{
    let ghost part = dict.user_part();
    let mut entries: Vec<DictionaryEntry> = copied_user_entries(dict);
    assert(entries@.len() == part.len());
    if index < 0 || index as usize >= entries.len() {
        return false;
    }
    let at: usize = index as usize;
    assert(part[at as int] == entries@[at as int]@);
    let e: &mut DictionaryEntry = &mut entries[at];
    if !new_reading.is_empty() {
        e.reading = new_reading.to_owned();
    }
    if !new_surface.is_empty() {
        e.surface = new_surface.to_owned();
    }
    assert(entry::entry_views(entries@) =~= part.update(
        at as int,
        changed(part[at as int], new_reading@, new_surface@),
    ));
    dict.replace_user_entries(entries);
    true
}

/// Does an edit change anything?
pub fn edit_changes(old_reading: &str, old_surface: &str, new_reading: &str, new_surface: &str) -> (yes:
    bool)
    ensures
        yes == (new_reading@ != old_reading@ || new_surface@ != old_surface@),
{
    !(same_text(new_reading, old_reading) && same_text(new_surface, old_surface))
}

/// How many words the list for managing them shows.
pub fn displayed_count(count: usize) -> (n: usize)
    ensures
        n == (if count < 500 {
            count
        } else {
            500
        }),
{
    if count < MAX_DISPLAY {
        count
    } else {
        MAX_DISPLAY
    }
}

/// The cells of the first `n` rows of the list for managing words: number,
/// reading and word.
pub open spec fn listed_cells(words: Seq<EntryView>, n: int) -> Seq<Seq<char>>
    decreases n,
{
    if n <= 0 {
        Seq::empty()
    } else {
        listed_cells(words, n - 1) + seq![
            scan::decimal((n - 1) as nat),
            words[n - 1].reading,
            words[n - 1].surface,
        ]
    }
}

/// The cells of the list for managing words, row by row.
pub fn list_cells(words: &[DictionaryEntry]) -> (cells: Vec<String>)
    ensures
        conversion::texts(cells@) == listed_cells(
            entry::entry_views(words@),
            if words@.len() < 500 {
                words@.len() as int
            } else {
                500
            },
        ),
{
    let ghost all = entry::entry_views(words@);
    let shown: usize = displayed_count(words.len());
    let mut cells: Vec<String> = Vec::new();
    let mut i: usize = 0;
    assert(conversion::texts(cells@) =~= listed_cells(all, 0));
    while i < shown
        invariant
            i <= shown <= words@.len(),
            all == entry::entry_views(words@),
            conversion::texts(cells@) == listed_cells(all, i as int),
        decreases shown - i,
    {
        assert(all[i as int] == words@[i as int]@);
        let mut number: String = String::new();
        push_decimal(&mut number, i as u64);
        assert(number@ =~= scan::decimal(i as nat));
        cells.push(number);
        cells.push(words[i].reading.clone());
        cells.push(words[i].surface.clone());
        i = i + 1;
        assert(conversion::texts(cells@) =~= listed_cells(all, i as int));
    }
    cells
}

/// What the menu offers.
#[derive(Clone, Copy, Debug, PartialEq, Eq, Structural)]
pub enum MenuAction {
    RegisterWord,
    ManageDict,
    Export,
    Import,
    ClearLearning,
}

/// The names of the menu items.
pub open spec fn menu_key(a: MenuAction) -> Seq<char> {
    match a {
        MenuAction::RegisterWord => "bonolith-register-word"@,
        MenuAction::ManageDict => "bonolith-manage-dict"@,
        MenuAction::Export => "bonolith-export"@,
        MenuAction::Import => "bonolith-import"@,
        MenuAction::ClearLearning => "bonolith-clear-learning"@,
    }
}

/// An item of the menu.
#[derive(Debug)]
pub struct MenuItem {
    pub key: String,
    pub label: String,
    pub tooltip: String,
}

/// The label of a menu item.
pub open spec fn menu_label(a: MenuAction) -> Seq<char> {
    match a {
        MenuAction::RegisterWord => "単語登録..."@,
        MenuAction::ManageDict => "辞書管理..."@,
        MenuAction::Export => "辞書エクスポート..."@,
        MenuAction::Import => "辞書インポート..."@,
        MenuAction::ClearLearning => "学習履歴をクリア..."@,
    }
}

/// The explanation of a menu item.
pub open spec fn menu_tooltip(a: MenuAction) -> Seq<char> {
    match a {
        MenuAction::RegisterWord => "ユーザー辞書に新しい単語を登録"@,
        MenuAction::ManageDict => "ユーザー辞書の編集・削除"@,
        MenuAction::Export => "辞書をJSONファイルにエクスポート"@,
        MenuAction::Import => "JSONファイルから辞書をインポート"@,
        MenuAction::ClearLearning => "変換の学習履歴をすべて消去する"@,
    }
}

/// The menu, from top to bottom.
pub open spec fn menu_order() -> Seq<MenuAction> {
    seq![
        MenuAction::RegisterWord,
        MenuAction::ManageDict,
        MenuAction::Export,
        MenuAction::Import,
        MenuAction::ClearLearning,
    ]
}

/// The item of the menu for an action.
fn menu_item(a: MenuAction) -> (item: MenuItem)
    ensures
        item.key@ == menu_key(a),
        item.label@ == menu_label(a),
        item.tooltip@ == menu_tooltip(a),
{
    match a {
        MenuAction::RegisterWord => MenuItem {
            key: "bonolith-register-word".to_owned(),
            label: "単語登録...".to_owned(),
            tooltip: "ユーザー辞書に新しい単語を登録".to_owned(),
        },
        MenuAction::ManageDict => MenuItem {
            key: "bonolith-manage-dict".to_owned(),
            label: "辞書管理...".to_owned(),
            tooltip: "ユーザー辞書の編集・削除".to_owned(),
        },
        MenuAction::Export => MenuItem {
            key: "bonolith-export".to_owned(),
            label: "辞書エクスポート...".to_owned(),
            tooltip: "辞書をJSONファイルにエクスポート".to_owned(),
        },
        MenuAction::Import => MenuItem {
            key: "bonolith-import".to_owned(),
            label: "辞書インポート...".to_owned(),
            tooltip: "JSONファイルから辞書をインポート".to_owned(),
        },
        MenuAction::ClearLearning => MenuItem {
            key: "bonolith-clear-learning".to_owned(),
            label: "学習履歴をクリア...".to_owned(),
            tooltip: "変換の学習履歴をすべて消去する".to_owned(),
        },
    }
}

/// The menu, from top to bottom.
pub fn menu_items() -> (items: Vec<MenuItem>)
    ensures
        items@.len() == menu_order().len(),
        forall|i: int|
            0 <= i < items@.len() ==> {
                &&& (#[trigger] items@[i]).key@ == menu_key(menu_order()[i])
                &&& items@[i].label@ == menu_label(menu_order()[i])
                &&& items@[i].tooltip@ == menu_tooltip(menu_order()[i])
            },
{
    let mut items: Vec<MenuItem> = Vec::new();
    items.push(menu_item(MenuAction::RegisterWord));
    items.push(menu_item(MenuAction::ManageDict));
    items.push(menu_item(MenuAction::Export));
    items.push(menu_item(MenuAction::Import));
    items.push(menu_item(MenuAction::ClearLearning));
    items
}

/// The action of the menu item with this name.
pub fn property_activate(name: &str) -> (action: Option<MenuAction>)
    ensures
        match action {
            Some(a) => name@ == menu_key(a),
            None => forall|a: MenuAction| name@ != #[trigger] menu_key(a),
        },
{
    if same_text(name, "bonolith-export") {
        Some(MenuAction::Export)
    } else if same_text(name, "bonolith-import") {
        Some(MenuAction::Import)
    } else if same_text(name, "bonolith-register-word") {
        Some(MenuAction::RegisterWord)
    } else if same_text(name, "bonolith-manage-dict") {
        Some(MenuAction::ManageDict)
    } else if same_text(name, "bonolith-clear-learning") {
        Some(MenuAction::ClearLearning)
    } else {
        None
    }
}

/// A word that holds a bar itself comes through a dialog unharmed: only the
/// first bar separates.
pub proof fn law_word_may_hold_bars(reading: Seq<char>, surface: Seq<char>)
    requires
        reading.len() > 0,
        surface.len() > 0,
        scan::trimmed(reading) == reading,
        scan::trimmed(surface) == surface,
        forall|i: int| 0 <= i < reading.len() ==> #[trigger] reading[i] != '|',
    ensures
        word_reply(reading + seq!['|'] + surface) == WordReplyView::Word(reading, surface),
{
    let s = reading + seq!['|'] + surface;
    lemma_trimmed_ends(reading);
    lemma_trimmed_ends(surface);
    assert(s[0] == reading[0]);
    assert(s.last() == surface.last());
    assert(scan::trimmed_start(s) == s);
    assert(scan::trimmed_end(s) == s);
    scan::lemma_index_of(reading, seq!['|'] + surface, '|');
    assert(s =~= reading + (seq!['|'] + surface));
    assert(s.take(reading.len() as int) =~= reading);
    assert(s.skip(reading.len() as int + 1) =~= surface);
}

proof fn lemma_trimmed_ends(s: Seq<char>)
    requires
        s.len() > 0,
        scan::trimmed(s) == s,
    ensures
        !scan::space(s[0]),
        !scan::space(s.last()),
{
    lemma_start_shorter(s);
    lemma_end_shorter(scan::trimmed_start(s));
    if scan::space(s[0]) {
        lemma_start_shorter(s.drop_first());
    }
    assert(scan::trimmed_start(s) == s);
    if scan::space(s.last()) {
        lemma_end_shorter(s.drop_last());
    }
}

proof fn lemma_start_shorter(s: Seq<char>)
    ensures
        scan::trimmed_start(s).len() <= s.len(),
    decreases s.len(),
{
    if s.len() > 0 && scan::space(s[0]) {
        lemma_start_shorter(s.drop_first());
    }
}

proof fn lemma_end_shorter(s: Seq<char>)
    ensures
        scan::trimmed_end(s).len() <= s.len(),
    decreases s.len(),
{
    if s.len() > 0 && scan::space(s.last()) {
        lemma_end_shorter(s.drop_last());
    }
}

/// A reply without a bar holds no word. One with a bar holds what stands before the
/// first bar as reading and what stands behind it as the word, both without white space
/// around them; if one of them is empty the word is incomplete.
pub proof fn law_reply_is_taken_apart(output: Seq<char>, at: int)
    ensures
        ({
            let s = scan::trimmed(output);
            &&& (forall|i: int| 0 <= i < s.len() ==> #[trigger] s[i] != '|') ==> word_reply(output)
                == WordReplyView::Nothing
            &&& 0 <= at < s.len() && s[at] == '|' && (forall|i: int|
                0 <= i < at ==> #[trigger] s[i] != '|') ==> ({
                let reading = scan::trimmed(s.take(at));
                let surface = scan::trimmed(s.skip(at + 1));
                word_reply(output) == (if reading.len() == 0 || surface.len() == 0 {
                    WordReplyView::Incomplete
                } else {
                    WordReplyView::Word(reading, surface)
                })
            })
        }),
{
    let s = scan::trimmed(output);
    scan::law_index_is_the_first(s, '|');
    let first = scan::index_of(s, '|');
    if first < s.len() {
        assert(s[first] == '|');
    }
    if 0 <= at < s.len() && s[at] == '|' && forall|i: int| 0 <= i < at ==> #[trigger] s[i] != '|' {
        if at < first {
            assert(s[at] != '|');
        }
    }
}

/// The number before the first bar picks a word of the list, if there is such a word.
pub proof fn law_number_picks_word(digits: Seq<char>, rest: Seq<char>, count: int)
    requires
        scan::trimmed(digits + seq!['|'] + rest) == digits + seq!['|'] + rest,
        forall|i: int| 0 <= i < digits.len() ==> #[trigger] digits[i] != '|',
    ensures
        picked(digits + seq!['|'] + rest, count) == (match scan::unsigned_of(
            digits,
            10,
            u64::MAX as int,
        ) {
            Some(n) => if n < count {
                Some(n)
            } else {
                None
            },
            None => None,
        }),
{
    let sep = Separator::Char('|');
    assert forall|i: int| 0 <= i < digits.len() implies !sep.splits(#[trigger] digits[i]) by {}
    scan::law_separators_part(digits, '|', rest, sep);
    assert((seq![digits] + scan::pieces(rest, sep))[0] == digits);
}

/// A registered word is a noun of frequency 8000 with the given reading and surface.
pub proof fn law_registered_word(reading: Seq<char>, surface: Seq<char>)
    ensures
        registered(reading, surface).reading == reading,
        registered(reading, surface).surface == surface,
        registered(reading, surface).pos is Noun,
        registered(reading, surface).frequency == 8000,
{
}

/// A change of a word keeps what is left empty, and its kind and frequency.
pub proof fn law_change_keeps_the_rest(e: EntryView, reading: Seq<char>, surface: Seq<char>)
    ensures
        ({
            let c = changed(e, reading, surface);
            &&& reading.len() > 0 ==> c.reading == reading
            &&& reading.len() == 0 ==> c.reading == e.reading
            &&& surface.len() > 0 ==> c.surface == surface
            &&& surface.len() == 0 ==> c.surface == e.surface
            &&& c.pos == e.pos && c.frequency == e.frequency
        }),
{
}

/// The user's words stand behind the built-in ones, which stay as they are.
pub proof fn law_builtin_words_stay(d: Seq<EntryView>, builtin: int, user: Seq<EntryView>, i: int)
    requires
        0 <= builtin <= d.len(),
    ensures
        with_user_part(d, builtin, user).len() == builtin + user.len(),
        0 <= i < builtin ==> with_user_part(d, builtin, user)[i] == d[i],
        0 <= i < user.len() ==> with_user_part(d, builtin, user)[builtin + i] == user[i],
{
}

proof fn lemma_cells_len(words: Seq<EntryView>, n: int)
    requires
        n >= 0,
    ensures
        listed_cells(words, n).len() == 3 * n,
    decreases n,
{
    if n > 0 {
        lemma_cells_len(words, n - 1);
    }
}

/// The list shows for each word its number, counted from 0, its reading and its
/// surface.
pub proof fn law_cells_list_words(words: Seq<EntryView>, n: int, i: int)
    requires
        0 <= i < n,
    ensures
        listed_cells(words, n).len() == 3 * n,
        listed_cells(words, n)[3 * i] == scan::decimal(i as nat),
        listed_cells(words, n)[3 * i + 1] == words[i].reading,
        listed_cells(words, n)[3 * i + 2] == words[i].surface,
    decreases n,
{
    lemma_cells_len(words, n - 1);
    lemma_cells_len(words, n);
    if i < n - 1 {
        law_cells_list_words(words, n - 1, i);
    }
}

/// Every menu entry has a name of its own, and the menu lists each entry once.
pub proof fn law_menu_lists_every_action(a: MenuAction, b: MenuAction)
    ensures
        menu_key(a) == menu_key(b) ==> a == b,
        menu_order().contains(a),
        menu_order().no_duplicates(),
        menu_order().len() == 5,
{
    reveal_strlit("bonolith-register-word");
    reveal_strlit("bonolith-manage-dict");
    reveal_strlit("bonolith-export");
    reveal_strlit("bonolith-import");
    reveal_strlit("bonolith-clear-learning");
    assert(menu_key(MenuAction::RegisterWord).len() == 22 && menu_key(MenuAction::ManageDict).len()
        == 20 && menu_key(MenuAction::Export).len() == 15 && menu_key(MenuAction::Import).len() == 15
        && menu_key(MenuAction::ClearLearning).len() == 23);
    assert(menu_key(MenuAction::Export)[9] == 'e' && menu_key(MenuAction::Import)[9] == 'i');
    let order = menu_order();
    assert(order[0] == MenuAction::RegisterWord && order[1] == MenuAction::ManageDict && order[2]
        == MenuAction::Export && order[3] == MenuAction::Import && order[4]
        == MenuAction::ClearLearning);
    assert(order.contains(a)) by {
        let i: int = match a {
            MenuAction::RegisterWord => 0,
            MenuAction::ManageDict => 1,
            MenuAction::Export => 2,
            MenuAction::Import => 3,
            MenuAction::ClearLearning => 4,
        };
        assert(order[i] == a);
    }
}

} // verus!
