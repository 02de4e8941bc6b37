//! The keys that switch Japanese input on and off.
use vstd::prelude::*;

use crate::keymap;
use crate::keymap::{
    unshift_letter, IBUS_CONTROL_MASK, IBUS_KEY_BACKSPACE, IBUS_KEY_ESCAPE, IBUS_KEY_EXCLAM,
    IBUS_KEY_GRAVE, IBUS_KEY_HENKAN_MODE, IBUS_KEY_MUHENKAN, IBUS_KEY_RETURN, IBUS_KEY_SPACE,
    IBUS_KEY_TAB, IBUS_KEY_ZENKAKU_HANKAKU, IBUS_MOD1_MASK, IBUS_SHIFT_MASK,
};
use crate::scan;
use crate::scan::{copied_between, parse_unsigned};
use crate::text;
use crate::text::{chars_of, lowercase, same_text};

verus! {

/// A toggle key in readable form.
#[derive(Debug)]
pub struct ToggleKeyBinding {
    /// The name of the key.
    pub keyval: String,
    /// The names of the modifiers to hold.
    pub modifiers: Vec<String>,
}

/// What a user can set.
#[derive(Debug)]
pub struct BonolithConfig {
    pub toggle_keys: Vec<ToggleKeyBinding>,
}

/// The contents of a toggle key.
#[verifier::ext_equal]
pub struct BindingView {
    pub keyval: Seq<char>,
    pub modifiers: Seq<Seq<char>>,
}

impl View for ToggleKeyBinding {
    type V = BindingView;

    open spec fn view(&self) -> BindingView {
        BindingView {
            keyval: self.keyval@,
            modifiers: self.modifiers@.map_values(|m: String| m@),
        }
    }
}

impl View for BonolithConfig {
    type V = Seq<BindingView>;

    open spec fn view(&self) -> Seq<BindingView> {
        self.toggle_keys@.map_values(|b: ToggleKeyBinding| b@)
    }
}

/// A toggle key as key value and modifier mask.
#[derive(Clone, Copy, Debug, PartialEq, Eq, Structural)]
pub struct CompiledToggleKey {
    pub keyval: u32,
    pub modifier_mask: u32,
}

/// Does a key with these modifiers set off the toggle? A capital letter counts
/// as its small letter: Shift is told by the modifiers.
pub open spec fn fires(t: CompiledToggleKey, keyval: u32, modifiers: u32) -> bool {
    t.modifier_mask == modifiers && (keyval == t.keyval || keymap::unshifted(keyval) == t.keyval)
}

impl CompiledToggleKey {
    /// Does a key with these modifiers set off the toggle?
    pub fn matches(&self, keyval: u32, active_modifiers: u32) -> (yes: bool)
        ensures
            yes == fires(*self, keyval, active_modifiers),
    {
        if self.modifier_mask != active_modifiers {
            return false;
        }
        if keyval == self.keyval {
            return true;
        }
        unshift_letter(keyval) == self.keyval
    }
}

/// The keys that have a name, by name.
pub open spec fn named_key(s: Seq<char>) -> Option<u32> {
    if s == "space"@ {
        Some(IBUS_KEY_SPACE)
    } else if s == "return"@ || s == "enter"@ {
        Some(IBUS_KEY_RETURN)
    } else if s == "escape"@ || s == "esc"@ {
        Some(IBUS_KEY_ESCAPE)
    } else if s == "tab"@ {
        Some(IBUS_KEY_TAB)
    } else if s == "backspace"@ {
        Some(IBUS_KEY_BACKSPACE)
    } else if s == "grave"@ || s == "backtick"@ {
        Some(IBUS_KEY_GRAVE)
    } else if s == "zenkaku_hankaku"@ {
        Some(IBUS_KEY_ZENKAKU_HANKAKU)
    } else if s == "henkan"@ || s == "henkan_mode"@ {
        Some(IBUS_KEY_HENKAN_MODE)
    } else if s == "muhenkan"@ {
        Some(IBUS_KEY_MUHENKAN)
    } else if s == "exclam"@ {
        Some(IBUS_KEY_EXCLAM)
    } else {
        None
    }
}

/// The key for a text that is no name: a visible ASCII character stands for
/// itself, and `0x` leads in a number in hexadecimal.
pub open spec fn spelled_key(s: Seq<char>) -> Option<u32> {
    if s.len() == 1 {
        if '\u{21}' <= s[0] <= '\u{7e}' {
            Some(s[0] as u32)
        } else {
            None
        }
    } else if s.len() >= 2 && s[0] == '0' && s[1] == 'x' {
        match scan::unsigned_of(s.skip(2), 16, u32::MAX as int) {
            Some(n) => Some(n as u32),
            None => None,
        }
    } else {
        None
    }
}

/// The key that a text in readable form means, in capital or small letters.
pub open spec fn key_of(name: Seq<char>) -> Option<u32> {
    let s = text::lowered(name);
    match named_key(s) {
        Some(k) => Some(k),
        None => spelled_key(s),
    }
}

/// The modifier that a name means.
pub open spec fn modifier_of(name: Seq<char>) -> Option<u32> {
    let s = text::lowered(name);
    if s == "ctrl"@ || s == "control"@ {
        Some(IBUS_CONTROL_MASK)
    } else if s == "alt"@ || s == "mod1"@ {
        Some(IBUS_MOD1_MASK)
    } else if s == "shift"@ {
        Some(IBUS_SHIFT_MASK)
    } else {
        None
    }
}

/// The mask of the modifiers; unknown ones are left out.
pub open spec fn mask_of(names: Seq<Seq<char>>) -> u32
    decreases names.len(),
{
    if names.len() == 0 {
        0
    } else {
        match modifier_of(names.last()) {
            Some(m) => mask_of(names.drop_last()) | m,
            None => mask_of(names.drop_last()),
        }
    }
}

/// The toggle keys as key values and masks; bindings with an unknown key are
/// left out.
pub open spec fn compiled(bindings: Seq<BindingView>) -> Seq<CompiledToggleKey>
    decreases bindings.len(),
{
    if bindings.len() == 0 {
        Seq::empty()
    } else {
        let before = compiled(bindings.drop_last());
        match key_of(bindings.last().keyval) {
            Some(k) => before.push(
                CompiledToggleKey {
                    keyval: k,
                    modifier_mask: mask_of(bindings.last().modifiers),
                },
            ),
            None => before,
        }
    }
}

/// The key that has this name.
fn named_keyval(s: &str) -> (key: Option<u32>)
    ensures
        key == named_key(s@),
{
    if same_text(s, "space") {
        Some(IBUS_KEY_SPACE)
    } else if same_text(s, "return") || same_text(s, "enter") {
        Some(IBUS_KEY_RETURN)
    } else if same_text(s, "escape") || same_text(s, "esc") {
        Some(IBUS_KEY_ESCAPE)
    } else if same_text(s, "tab") {
        Some(IBUS_KEY_TAB)
    } else if same_text(s, "backspace") {
        Some(IBUS_KEY_BACKSPACE)
    } else if same_text(s, "grave") || same_text(s, "backtick") {
        Some(IBUS_KEY_GRAVE)
    } else if same_text(s, "zenkaku_hankaku") {
        Some(IBUS_KEY_ZENKAKU_HANKAKU)
    } else if same_text(s, "henkan") || same_text(s, "henkan_mode") {
        Some(IBUS_KEY_HENKAN_MODE)
    } else if same_text(s, "muhenkan") {
        Some(IBUS_KEY_MUHENKAN)
    } else if same_text(s, "exclam") {
        Some(IBUS_KEY_EXCLAM)
    } else {
        None
    }
}

/// The key that a text in readable form means.
pub fn parse_keyval(name: &str) -> (key: Option<u32>)
    ensures
        key == key_of(name@),
{
    let s: String = lowercase(name);
    match named_keyval(s.as_str()) {
        Some(k) => {
            return Some(k);
        },
        None => {},
    }
    let chars: Vec<char> = chars_of(s.as_str());
    if chars.len() == 1 {
        let c: char = chars[0];
        if '\u{21}' <= c && c <= '\u{7e}' {
            Some(c as u32)
        } else {
            None
        }
    } else if chars.len() >= 2 && chars[0] == '0' && chars[1] == 'x' {
        let digits: Vec<char> = copied_between(chars.as_slice(), 2, chars.len());
        assert(digits@ =~= chars@.skip(2));
        match parse_unsigned(digits.as_slice(), 16, u32::MAX as u64) {
            Some(n) => Some(n as u32),
            None => None,
        }
    } else {
        None
    }
}

/// The modifier that a name means.
pub fn parse_modifier(name: &str) -> (mask: Option<u32>)
    ensures
        mask == modifier_of(name@),
{
    let s: String = lowercase(name);
    if same_text(s.as_str(), "ctrl") || same_text(s.as_str(), "control") {
        Some(IBUS_CONTROL_MASK)
    } else if same_text(s.as_str(), "alt") || same_text(s.as_str(), "mod1") {
        Some(IBUS_MOD1_MASK)
    } else if same_text(s.as_str(), "shift") {
        Some(IBUS_SHIFT_MASK)
    } else {
        None
    }
}

/// The mask of the modifiers.
fn modifier_mask(names: &Vec<String>) -> (mask: u32)
    ensures
        mask == mask_of(names@.map_values(|m: String| m@)),
{
    let ghost all = names@.map_values(|m: String| m@);
    let mut mask: u32 = 0;
    let mut i: usize = 0;
    while i < names.len()
        invariant
            i <= names@.len(),
            all == names@.map_values(|m: String| m@),
            mask == mask_of(all.take(i as int)),
        decreases names@.len() - i,
    {
        proof {
            assert(all.take(i + 1).drop_last() =~= all.take(i as int));
            assert(all.take(i + 1).last() == names@[i as int]@);
        }
        match parse_modifier(names[i].as_str()) {
            Some(m) => {
                mask = mask | m;
            },
            None => {},
        }
        i = i + 1;
    }
    assert(all.take(i as int) =~= all);
    mask
}

/// The toggle key of a new installation: Control, Shift and the space bar.
pub open spec fn default_binding() -> BindingView {
    BindingView { keyval: "space"@, modifiers: seq!["ctrl"@, "shift"@] }
}

/// The toggle keys of a new installation.
pub fn default_toggle_keys() -> (keys: Vec<ToggleKeyBinding>)
    ensures
        keys@.map_values(|b: ToggleKeyBinding| b@) == seq![default_binding()],
{
    let mut modifiers: Vec<String> = Vec::new();
    modifiers.push("ctrl".to_owned());
    modifiers.push("shift".to_owned());
    assert(modifiers@.map_values(|m: String| m@) =~= default_binding().modifiers);
    let mut keys: Vec<ToggleKeyBinding> = Vec::new();
    keys.push(ToggleKeyBinding { keyval: "space".to_owned(), modifiers });
    assert(keys@.map_values(|b: ToggleKeyBinding| b@) =~= seq![default_binding()]);
    keys
}

impl Default for BonolithConfig {
    /// The settings of a new installation.
    fn default() -> (config: BonolithConfig)
        ensures
            config@ == seq![default_binding()],
    {
        BonolithConfig { toggle_keys: default_toggle_keys() }
    }
}

impl BonolithConfig {
    /// The toggle keys as key values and masks.
    pub fn compile_toggle_keys(&self) -> (keys: Vec<CompiledToggleKey>)
        ensures
            keys@ == compiled(self@),
    {
        let ghost all = self@;
        let mut keys: Vec<CompiledToggleKey> = Vec::new();
        let mut i: usize = 0;
        assert(keys@ =~= compiled(all.take(0)));
        while i < self.toggle_keys.len()
            invariant
                i <= self.toggle_keys@.len(),
                all == self@,
                keys@ == compiled(all.take(i as int)),
            decreases self.toggle_keys@.len() - i,
        {
            proof {
                assert(all.take(i + 1).drop_last() =~= all.take(i as int));
                assert(all.take(i + 1).last() == self.toggle_keys@[i as int]@);
            }
            let binding: &ToggleKeyBinding = &self.toggle_keys[i];
            match parse_keyval(binding.keyval.as_str()) {
                Some(keyval) => {
                    let modifier_mask: u32 = modifier_mask(&binding.modifiers);
                    keys.push(CompiledToggleKey { keyval, modifier_mask });
                },
                None => {},
            }
            i = i + 1;
        }
        assert(all.take(i as int) =~= all);
        keys
    }
}

/// A binding of a letter fires for the small letter and for the capital letter
/// that comes with Shift alike.
pub proof fn law_letter_binding_ignores_case(t: CompiledToggleKey, letter: u32, modifiers: u32)
    requires
        0x61 <= letter <= 0x7a,
        t.keyval == letter,
    ensures
        fires(t, (letter - 0x20) as u32, modifiers) == fires(t, letter, modifiers),
{
}

/// A binding never fires with other modifiers than its own.
pub proof fn law_modifiers_must_match(t: CompiledToggleKey, keyval: u32, modifiers: u32)
    requires
        fires(t, keyval, modifiers),
    ensures
        modifiers == t.modifier_mask,
{
}

/// Capital and small letters in the name of a key mean the same.
pub proof fn law_key_names_ignore_case(a: Seq<char>, b: Seq<char>)
    requires
        text::lowered(a) == text::lowered(b),
    ensures
        key_of(a) == key_of(b),
        modifier_of(a) == modifier_of(b),
{
}

/// A toggle key goes off for its own key, and for the capital of its letter, with
/// exactly its modifiers held.
pub proof fn law_when_toggle_fires(t: CompiledToggleKey, keyval: u32, modifiers: u32)
    ensures
        fires(t, keyval, modifiers) <==> (modifiers == t.modifier_mask && (keyval == t.keyval || (
        0x41 <= keyval <= 0x5a && keyval + 0x20 == t.keyval))),
{
}

/// Control, Alt and Shift set a bit each; other names set none.
pub proof fn law_modifiers_add_up(names: Seq<Seq<char>>, name: Seq<char>)
    ensures
        ({
            let s = text::lowered(name);
            let bit: u32 = if s == "ctrl"@ || s == "control"@ {
                0x4
            } else if s == "alt"@ || s == "mod1"@ {
                0x8
            } else if s == "shift"@ {
                0x1
            } else {
                0
            };
            &&& bit != 0 ==> mask_of(names.push(name)) == mask_of(names) | bit
            &&& bit == 0 ==> mask_of(names.push(name)) == mask_of(names)
        }),
        mask_of(Seq::<Seq<char>>::empty()) == 0,
{
    assert(names.push(name).drop_last() =~= names);
}

/// Every binding whose key is known becomes a toggle key with the modifiers it names,
/// in the order of the bindings; the others are left out.
pub proof fn law_known_bindings_are_compiled(bindings: Seq<BindingView>, b: BindingView)
    ensures
        ({
            let before = compiled(bindings);
            let after = compiled(bindings.push(b));
            &&& key_of(b.keyval) is None ==> after == before
            &&& key_of(b.keyval) matches Some(k) ==> {
                &&& after.len() == before.len() + 1
                &&& before.is_prefix_of(after)
                &&& after.last().keyval == k
                &&& after.last().modifier_mask == mask_of(b.modifiers)
            }
        }),
        compiled(Seq::<BindingView>::empty()).len() == 0,
{
    assert(bindings.push(b).drop_last() =~= bindings);
}

/// The keys that have names.
pub proof fn law_named_keys(name: Seq<char>)
    ensures
        ({
            let s = text::lowered(name);
            &&& s == "space"@ ==> key_of(name) == Some(0x20u32)
            &&& s == "return"@ || s == "enter"@ ==> key_of(name) == Some(0xFF0Du32)
            &&& s == "escape"@ || s == "esc"@ ==> key_of(name) == Some(0xFF1Bu32)
            &&& s == "tab"@ ==> key_of(name) == Some(0xFF09u32)
            &&& s == "backspace"@ ==> key_of(name) == Some(0xFF08u32)
            &&& s == "grave"@ || s == "backtick"@ ==> key_of(name) == Some(0x60u32)
            &&& s == "zenkaku_hankaku"@ ==> key_of(name) == Some(0xFF2Au32)
            &&& s == "henkan"@ || s == "henkan_mode"@ ==> key_of(name) == Some(0xFF23u32)
            &&& s == "muhenkan"@ ==> key_of(name) == Some(0xFF22u32)
            &&& s == "exclam"@ ==> key_of(name) == Some(0x21u32)
        }),
{
    lemma_key_names();
}

proof fn lemma_key_names()
    ensures
        "space"@.len() == 5,
        "return"@.len() == 6 && "return"@[0] == 'r',
        "enter"@.len() == 5 && "enter"@[0] == 'e' && "space"@[0] == 's',
        "escape"@.len() == 6 && "escape"@[0] == 'e',
        "esc"@.len() == 3 && "esc"@[0] == 'e',
        "tab"@.len() == 3 && "tab"@[0] == 't',
        "backspace"@.len() == 9,
        "grave"@.len() == 5 && "grave"@[0] == 'g',
        "backtick"@.len() == 8 && "backtick"@[0] == 'b',
        "zenkaku_hankaku"@.len() == 15,
        "henkan"@.len() == 6 && "henkan"@[0] == 'h',
        "henkan_mode"@.len() == 11,
        "muhenkan"@.len() == 8 && "muhenkan"@[0] == 'm',
        "exclam"@.len() == 6 && "exclam"@[0] == 'e' && "exclam"@[1] == 'x' && "escape"@[1] == 's',
{
    reveal_strlit("space");
    reveal_strlit("return");
    reveal_strlit("enter");
    reveal_strlit("escape");
    reveal_strlit("esc");
    reveal_strlit("tab");
    reveal_strlit("backspace");
    reveal_strlit("grave");
    reveal_strlit("backtick");
    reveal_strlit("zenkaku_hankaku");
    reveal_strlit("henkan");
    reveal_strlit("henkan_mode");
    reveal_strlit("muhenkan");
    reveal_strlit("exclam");
}

/// A visible character names the key that types it, and every number written in
/// hexadecimal digits behind `0x` the key with that number.
pub proof fn law_spelled_keys(name: Seq<char>)
    ensures
        ({
            let s = text::lowered(name);
            &&& s.len() == 1 && '\u{21}' <= s[0] <= '\u{7e}' ==> key_of(name) == Some(s[0] as u32)
            &&& s.len() == 1 && !('\u{21}' <= s[0] <= '\u{7e}') ==> key_of(name) is None
            &&& s.len() == 0 ==> key_of(name) is None
            &&& s.len() >= 2 && s[0] == '0' && s[1] == 'x' ==> (match scan::unsigned_of(
                s.skip(2),
                16,
                0xffff_ffff,
            ) {
                Some(n) => key_of(name) == Some(n as u32),
                None => key_of(name) is None,
            })
            &&& key_of(name) is Some && s.len() >= 2 && !(s[0] == '0' && s[1] == 'x') ==> s[0] == 's'
                || s[0] == 'r' || s[0] == 'e' || s[0] == 't' || s[0] == 'b' || s[0] == 'g' || s[0]
                == 'z' || s[0] == 'h' || s[0] == 'm'
        }),
{
    lemma_key_names();
    reveal_strlit("backspace");
    reveal_strlit("zenkaku_hankaku");
    reveal_strlit("henkan_mode");
}

/// Unless configured otherwise, Control and Shift with the space bar toggle.
pub proof fn law_default_toggle()
    ensures
        default_binding().keyval == "space"@,
        default_binding().modifiers == seq!["ctrl"@, "shift"@],
{
}

} // verus!
