//! What a key press does.
//!
//! Input method frameworks differ in how they deliver keys and draw text, not
//! in what a key means. [`key_action`] decides the meaning, [`kana_step`] says
//! what the kana input has to do first, and [`dispatch_key`] carries the action out
//! on the engine and tells what to commit and to draw. Only the start of a
//! conversion stands apart, in [`begin_conversion`]: it needs a segmentation.
use vstd::prelude::*;

use crate::alternatives;
use crate::alternatives::SegmentationPlan;
use crate::conversion;
use crate::conversion::{KanaForm, KanaForms};
use crate::dictionary::Dictionary;
use crate::engine;
use crate::engine::{Committed, ConversionEngine, EngineView, Preedit, PreeditView};
use crate::entry::EntryView;
use crate::nano::NanoTable;
use crate::resize;
use crate::user_scorer::UserScorer;

verus! {

pub const KEY_SPACE: u32 = 0x0020;

pub const KEY_TAB: u32 = 0xFF09;

pub const KEY_RETURN: u32 = 0xFF0D;

pub const KEY_ESCAPE: u32 = 0xFF1B;

pub const KEY_BACKSPACE: u32 = 0xFF08;

pub const KEY_UP: u32 = 0xFF52;

pub const KEY_DOWN: u32 = 0xFF54;

pub const KEY_LEFT: u32 = 0xFF51;

pub const KEY_RIGHT: u32 = 0xFF53;

pub const KEY_PAGE_UP: u32 = 0xFF55;

pub const KEY_PAGE_DOWN: u32 = 0xFF56;

pub const KEY_F6: u32 = 0xFFC3;

pub const KEY_F7: u32 = 0xFFC4;

pub const KEY_F8: u32 = 0xFFC5;

pub const KEY_F9: u32 = 0xFFC6;

pub const KEY_F10: u32 = 0xFFC7;

pub const SHIFT_MASK: u32 = 0x1;

pub const CONTROL_MASK: u32 = 0x4;

pub const MOD1_MASK: u32 = 0x8;

pub const RELEASE_MASK: u32 = 0x4000_0000;

/// A key and the modifiers held with it.
#[derive(Clone, Copy, Debug)]
pub struct KeyEvent {
    pub keyval: u32,
    pub state: u32,
}

/// Is the key let go?
pub open spec fn released(e: KeyEvent) -> bool {
    e.state & RELEASE_MASK != 0
}

/// Is Shift held?
pub open spec fn shifted(e: KeyEvent) -> bool {
    e.state & SHIFT_MASK != 0
}

/// Is Control or Alt held?
pub open spec fn commanding(e: KeyEvent) -> bool {
    e.state & CONTROL_MASK != 0 || e.state & MOD1_MASK != 0
}

impl KeyEvent {
    /// Is the key let go?
    pub fn is_release(&self) -> (yes: bool)
        ensures
            yes == released(*self),
    {
        self.state & RELEASE_MASK != 0
    }

    /// Is Shift held?
    pub fn has_shift(&self) -> (yes: bool)
        ensures
            yes == shifted(*self),
    {
        self.state & SHIFT_MASK != 0
    }

    /// Is Control or Alt held?
    pub fn has_ctrl_alt(&self) -> (yes: bool)
        ensures
            yes == commanding(*self),
    {
        self.state & CONTROL_MASK != 0 || self.state & MOD1_MASK != 0
    }
}

/// What to draw after a key.
#[derive(Debug)]
pub enum DisplayUpdate {
    /// Nothing changes.
    Unchanged,
    /// Hide everything: nothing is typed and nothing is converted.
    Cleared,
    /// Draw what was typed.
    Preedit(String),
    /// Draw the conversion that is going on.
    Conversion,
}

/// The contents of a drawing instruction.
#[verifier::ext_equal]
pub enum DisplayView {
    Unchanged,
    Cleared,
    Preedit(Seq<char>),
    Conversion,
}

impl View for DisplayUpdate {
    type V = DisplayView;

    open spec fn view(&self) -> DisplayView {
        match self {
            DisplayUpdate::Unchanged => DisplayView::Unchanged,
            DisplayUpdate::Cleared => DisplayView::Cleared,
            DisplayUpdate::Preedit(s) => DisplayView::Preedit(s@),
            DisplayUpdate::Conversion => DisplayView::Conversion,
        }
    }
}

/// What to do after a key.
#[derive(Debug)]
pub struct KeyOutcome {
    /// Whether the key was used and must not reach the application.
    pub consumed: bool,
    /// Text to hand to the application first.
    pub commit: Option<String>,
    /// What to draw.
    pub display: DisplayUpdate,
    /// Whether to look out for a reordering of the candidates.
    pub schedule_rerank_refresh: bool,
}

/// The contents of an outcome.
#[verifier::ext_equal]
pub struct OutcomeView {
    pub consumed: bool,
    pub commit: Option<Seq<char>>,
    pub display: DisplayView,
    pub schedule_rerank_refresh: bool,
}

/// The contents of an optional text.
pub open spec fn optional_text(t: Option<String>) -> Option<Seq<char>> {
    match t {
        Some(s) => Some(s@),
        None => None,
    }
}

impl View for KeyOutcome {
    type V = OutcomeView;

    open spec fn view(&self) -> OutcomeView {
        OutcomeView {
            consumed: self.consumed,
            commit: optional_text(self.commit),
            display: self.display@,
            schedule_rerank_refresh: self.schedule_rerank_refresh,
        }
    }
}

/// The key is not used.
pub open spec fn passed() -> OutcomeView {
    OutcomeView {
        consumed: false,
        commit: None,
        display: DisplayView::Unchanged,
        schedule_rerank_refresh: false,
    }
}

/// The key is used, and nothing is drawn.
pub open spec fn swallowed() -> OutcomeView {
    OutcomeView { consumed: true, ..passed() }
}

/// The key is used, and something is drawn.
pub open spec fn drawn(display: DisplayView) -> OutcomeView {
    OutcomeView { display, ..swallowed() }
}

/// The key commits a text.
pub open spec fn committing(text: Seq<char>, display: DisplayView) -> OutcomeView {
    OutcomeView { commit: Some(text), ..drawn(display) }
}

/// What was typed is drawn, or everything is hidden if that is nothing.
pub open spec fn preedit_shown(text: Seq<char>) -> DisplayView {
    if text.len() == 0 {
        DisplayView::Cleared
    } else {
        DisplayView::Preedit(text)
    }
}

impl Default for KeyOutcome {
    /// The key is not used.
    fn default() -> (outcome: KeyOutcome)
        ensures
            outcome@ == passed(),
    {
        KeyOutcome {
            consumed: false,
            commit: None,
            display: DisplayUpdate::Unchanged,
            schedule_rerank_refresh: false,
        }
    }
}

impl KeyOutcome {
    /// The key is used, and nothing is drawn.
    fn consumed_noop() -> (outcome: KeyOutcome)
        ensures
            outcome@ == swallowed(),
    {
        KeyOutcome {
            consumed: true,
            commit: None,
            display: DisplayUpdate::Unchanged,
            schedule_rerank_refresh: false,
        }
    }

    /// The key is used, and something is drawn.
    fn drawing(display: DisplayUpdate) -> (outcome: KeyOutcome)
        ensures
            outcome@ == drawn(display@),
    {
        KeyOutcome { consumed: true, commit: None, display, schedule_rerank_refresh: false }
    }

    /// The conversion is drawn.
    fn conversion() -> (outcome: KeyOutcome)
        ensures
            outcome@ == drawn(DisplayView::Conversion),
    {
        KeyOutcome::drawing(DisplayUpdate::Conversion)
    }

    /// Everything is hidden.
    fn cleared() -> (outcome: KeyOutcome)
        ensures
            outcome@ == drawn(DisplayView::Cleared),
    {
        KeyOutcome::drawing(DisplayUpdate::Cleared)
    }

    /// A text is committed, and everything is hidden.
    fn commit(text: String) -> (outcome: KeyOutcome)
        ensures
            outcome@ == committing(text@, DisplayView::Cleared),
    {
        KeyOutcome {
            consumed: true,
            commit: Some(text),
            display: DisplayUpdate::Cleared,
            schedule_rerank_refresh: false,
        }
    }

    /// What was typed is drawn, or everything is hidden if that is nothing.
    fn preedit_or_cleared(text: String) -> (outcome: KeyOutcome)
        ensures
            outcome@ == drawn(preedit_shown(text@)),
    {
        if text.as_str().is_empty() {
            KeyOutcome::cleared()
        } else {
            KeyOutcome::drawing(DisplayUpdate::Preedit(text))
        }
    }
}

/// What a key means.
#[derive(Clone, Copy, Debug, PartialEq, Eq, Structural)]
pub enum KeyAction {
    /// The key is left to the application.
    Pass,
    /// The key is used up without effect.
    Swallow,
    /// Commit the conversion.
    CommitConversion,
    /// Commit the conversion and draw nothing.
    CommitQuietly,
    /// Commit what was typed.
    CommitPreedit,
    /// Forget what was typed.
    Cancel,
    /// Drop the conversion and go back to what was typed.
    BackToPreedit,
    /// Delete the last typed character.
    DeleteLast,
    /// Show the focused segment in a kana form.
    FocusForm(KanaForm),
    /// Convert what was typed into the kana form with this number.
    StartForm(usize),
    /// Choose the next (1) or previous (-1) candidate.
    Cycle(i32),
    /// Move the focus right (1) or left (-1).
    MoveFocus(i32),
    /// Move the boundary behind the focused segment right (1) or left (-1).
    Resize(i32),
    /// Start a conversion.
    StartConversion,
    /// Append this character to what was typed, after committing a conversion
    /// that is going on.
    Insert(char),
    /// Type this letter, after committing a conversion that is going on.
    Type(char),
}

/// The character that a key stands for, if it is printable ASCII.
pub open spec fn printed(keyval: u32) -> Option<char> {
    if 0x20 <= keyval <= 0x7e {
        Some(keyval as char)
    } else {
        None
    }
}

/// Is the character a letter of the Latin alphabet?
pub open spec fn is_letter(c: char) -> bool {
    'a' <= c <= 'z' || 'A' <= c <= 'Z'
}

/// Does the character go into the making of kana?
pub open spec fn makes_kana(c: char) -> bool {
    is_letter(c) || c == '-' || c == '\''
}

/// The number and the form that a function key stands for, but for that of
/// hiragana.
pub open spec fn form_of_key(keyval: u32) -> Option<(usize, KanaForm)> {
    if keyval == KEY_F7 {
        Some((1, KanaForm::Katakana))
    } else if keyval == KEY_F8 {
        Some((2, KanaForm::HalfwidthKatakana))
    } else if keyval == KEY_F9 {
        Some((4, KanaForm::FullwidthRomaji))
    } else if keyval == KEY_F10 {
        Some((3, KanaForm::Romaji))
    } else {
        None
    }
}

/// Does the key choose a kana form?
pub open spec fn is_form_key(keyval: u32) -> bool {
    keyval == KEY_F6 || form_of_key(keyval) is Some
}

/// What a key for a kana form means: the focused segment is shown in it, or else
/// all that was typed.
pub open spec fn action_of_form(converting: bool, number: usize, form: KanaForm) -> KeyAction {
    if converting {
        KeyAction::FocusForm(form)
    } else {
        KeyAction::StartForm(number)
    }
}

/// Is it one of the arrow and page keys?
pub open spec fn is_navigation(keyval: u32) -> bool {
    keyval == KEY_LEFT || keyval == KEY_RIGHT || keyval == KEY_UP || keyval == KEY_DOWN || keyval
        == KEY_PAGE_UP || keyval == KEY_PAGE_DOWN
}

/// What a printable character does: letters are typed, symbols that have a wide
/// form are inserted in it. Other characters do nothing.
pub open spec fn action_of_char(c: char, wide: Option<char>) -> Option<KeyAction> {
    if makes_kana(c) {
        Some(KeyAction::Type(c))
    } else if c == ' ' {
        None
    } else {
        match wide {
            Some(w) => Some(KeyAction::Insert(w)),
            None => None,
        }
    }
}

/// What a key means in a conversion, if it means anything there.
pub open spec fn action_in_conversion(keyval: u32, shift: bool) -> Option<KeyAction> {
    if keyval == KEY_SPACE || keyval == KEY_DOWN {
        Some(KeyAction::Cycle(1))
    } else if keyval == KEY_UP {
        Some(KeyAction::Cycle((-1) as i32))
    } else if keyval == KEY_RIGHT {
        Some(
            if shift {
                KeyAction::Resize(1)
            } else {
                KeyAction::MoveFocus(1)
            },
        )
    } else if keyval == KEY_LEFT {
        Some(
            if shift {
                KeyAction::Resize((-1) as i32)
            } else {
                KeyAction::MoveFocus((-1) as i32)
            },
        )
    } else if keyval == KEY_RETURN {
        Some(KeyAction::CommitConversion)
    } else if keyval == KEY_ESCAPE || keyval == KEY_BACKSPACE {
        Some(KeyAction::BackToPreedit)
    } else {
        None
    }
}

/// What a key that does nothing special means: it must not disturb what is
/// being typed.
pub open spec fn guarded(composing: bool) -> KeyAction {
    if composing {
        KeyAction::Swallow
    } else {
        KeyAction::Pass
    }
}

/// What a key means while nothing is converted. `composing` tells whether
/// something was typed.
pub open spec fn action_at_rest(keyval: u32, composing: bool, wide: Option<char>) -> KeyAction {
    if keyval == KEY_SPACE {
        KeyAction::StartConversion
    } else if keyval == KEY_RETURN {
        if composing {
            KeyAction::CommitPreedit
        } else {
            KeyAction::Pass
        }
    } else if keyval == KEY_ESCAPE {
        if composing {
            KeyAction::Cancel
        } else {
            KeyAction::Pass
        }
    } else if keyval == KEY_BACKSPACE {
        KeyAction::DeleteLast
    } else if is_navigation(keyval) {
        guarded(composing)
    } else {
        match printed(keyval) {
            Some(c) => match action_of_char(c, wide) {
                Some(a) => a,
                None => guarded(composing),
            },
            None => guarded(composing),
        }
    }
}

/// What a key means. `wide` is the wide form of the character that the key
/// stands for, where it has one.
pub open spec fn action_of(
    converting: bool,
    composing: bool,
    e: KeyEvent,
    wide: Option<char>,
) -> KeyAction {
    if released(e) || commanding(e) {
        KeyAction::Pass
    } else if e.keyval == KEY_SPACE && shifted(e) {
        KeyAction::Insert('\u{3000}')
    } else if e.keyval == KEY_TAB {
        if converting {
            KeyAction::CommitConversion
        } else if composing {
            KeyAction::CommitPreedit
        } else {
            KeyAction::Pass
        }
    } else if e.keyval == KEY_F6 {
        action_of_form(converting, 0, KanaForm::Hiragana)
    } else {
        match form_of_key(e.keyval) {
            Some((number, form)) => action_of_form(converting, number, form),
            None => if !converting {
                action_at_rest(e.keyval, composing, wide)
            } else {
                match action_in_conversion(e.keyval, shifted(e)) {
                    Some(a) => a,
                    None => match printed(e.keyval) {
                        Some(c) => match action_of_char(c, wide) {
                            Some(a) => a,
                            None => KeyAction::CommitQuietly,
                        },
                        None => KeyAction::Swallow,
                    },
                }
            },
        }
    }
}

/// The character that a key stands for, if it is printable ASCII.
pub fn printable_char(keyval: u32) -> (c: Option<char>)
    ensures
        c == printed(keyval),
{
    if 0x20 <= keyval && keyval <= 0x7e {
        Some(keyval as u8 as char)
    } else {
        None
    }
}

/// The number and the form that a function key stands for, but for that of
/// hiragana.
pub(crate) fn fkey_to_form(keyval: u32) -> (form: Option<(usize, KanaForm)>)
    ensures
        form == form_of_key(keyval),
{
    if keyval == KEY_F7 {
        Some((1, KanaForm::Katakana))
    } else if keyval == KEY_F8 {
        Some((2, KanaForm::HalfwidthKatakana))
    } else if keyval == KEY_F9 {
        Some((4, KanaForm::FullwidthRomaji))
    } else if keyval == KEY_F10 {
        Some((3, KanaForm::Romaji))
    } else {
        None
    }
}

/// What a key for a kana form means.
pub(crate) fn kana_form_key(converting: bool, number: usize, form: KanaForm) -> (action: KeyAction)
    ensures
        action == action_of_form(converting, number, form),
{
    if converting {
        KeyAction::FocusForm(form)
    } else {
        KeyAction::StartForm(number)
    }
}

/// What a printable character does.
fn process_char(c: char, wide: Option<char>) -> (action: Option<KeyAction>)
    ensures
        action == action_of_char(c, wide),
{
    let letter: bool = ('a' <= c && c <= 'z') || ('A' <= c && c <= 'Z');
    if letter || c == '-' || c == '\'' {
        Some(KeyAction::Type(c))
    } else if c == ' ' {
        None
    } else {
        match wide {
            Some(w) => Some(KeyAction::Insert(w)),
            None => None,
        }
    }
}

/// What a key means in a conversion.
pub(crate) fn conversion_key(keyval: u32, shift: bool) -> (action: Option<KeyAction>)
    ensures
        action == action_in_conversion(keyval, shift),
{
    if keyval == KEY_SPACE || keyval == KEY_DOWN {
        Some(KeyAction::Cycle(1))
    } else if keyval == KEY_UP {
        Some(KeyAction::Cycle(-1))
    } else if keyval == KEY_RIGHT {
        if shift {
            Some(KeyAction::Resize(1))
        } else {
            Some(KeyAction::MoveFocus(1))
        }
    } else if keyval == KEY_LEFT {
        if shift {
            Some(KeyAction::Resize(-1))
        } else {
            Some(KeyAction::MoveFocus(-1))
        }
    } else if keyval == KEY_RETURN {
        Some(KeyAction::CommitConversion)
    } else if keyval == KEY_ESCAPE || keyval == KEY_BACKSPACE {
        Some(KeyAction::BackToPreedit)
    } else {
        None
    }
}

/// What a key means while nothing is converted.
pub(crate) fn resting_key(keyval: u32, composing: bool, wide: Option<char>) -> (action: KeyAction)
    ensures
        action == action_at_rest(keyval, composing, wide),
{
    let guard: KeyAction = if composing {
        KeyAction::Swallow
    } else {
        KeyAction::Pass
    };
    if keyval == KEY_SPACE {
        KeyAction::StartConversion
    } else if keyval == KEY_RETURN {
        if composing {
            KeyAction::CommitPreedit
        } else {
            KeyAction::Pass
        }
    } else if keyval == KEY_ESCAPE {
        if composing {
            KeyAction::Cancel
        } else {
            KeyAction::Pass
        }
    } else if keyval == KEY_BACKSPACE {
        KeyAction::DeleteLast
    } else if keyval == KEY_LEFT || keyval == KEY_RIGHT || keyval == KEY_UP || keyval == KEY_DOWN
        || keyval == KEY_PAGE_UP || keyval == KEY_PAGE_DOWN {
        guard
    } else {
        match printable_char(keyval) {
            Some(c) => match process_char(c, wide) {
                Some(a) => a,
                None => guard,
            },
            None => guard,
        }
    }
}

/// What a key means. `wide` is the wide form of the character that the key
/// stands for, where it has one.
pub fn key_action(converting: bool, composing: bool, event: KeyEvent, wide: Option<char>) -> (action:
    KeyAction)
    ensures
        action == action_of(converting, composing, event, wide),
{
    if event.is_release() || event.has_ctrl_alt() {
        return KeyAction::Pass;
    }
    let keyval: u32 = event.keyval;
    if keyval == KEY_SPACE && event.has_shift() {
        return KeyAction::Insert('\u{3000}');
    }
    if keyval == KEY_TAB {
        return if converting {
            KeyAction::CommitConversion
        } else if composing {
            KeyAction::CommitPreedit
        } else {
            KeyAction::Pass
        };
    }
    if keyval == KEY_F6 {
        return kana_form_key(converting, 0, KanaForm::Hiragana);
    }
    match fkey_to_form(keyval) {
        Some((number, form)) => {
            return kana_form_key(converting, number, form);
        },
        None => {},
    }
    if !converting {
        return resting_key(keyval, composing, wide);
    }
    match conversion_key(keyval, event.has_shift()) {
        Some(a) => a,
        None => match printable_char(keyval) {
            Some(c) => match process_char(c, wide) {
                Some(a) => a,
                None => KeyAction::CommitQuietly,
            },
            None => KeyAction::Swallow,
        },
    }
}

/// What the kana input has to do for a key.
#[derive(Clone, Copy, Debug, PartialEq, Eq, Structural)]
pub enum KanaWork {
    Nothing,
    /// Turn letters that still wait into kana.
    Flush,
    /// Turn letters that still wait into kana, then append this character.
    Append(char),
    /// Type this letter.
    Type(char),
    /// Delete the last character.
    DeleteLast,
}

/// What the kana input has to do for a key: start anew or not, then work.
#[derive(Clone, Copy, Debug, PartialEq, Eq, Structural)]
pub struct KanaStep {
    pub reset: bool,
    pub work: KanaWork,
}

/// What the kana input has to do for an action.
pub open spec fn step_of(converting: bool, action: KeyAction) -> KanaStep {
    match action {
        KeyAction::CommitConversion | KeyAction::CommitQuietly | KeyAction::CommitPreedit
        | KeyAction::Cancel => KanaStep { reset: true, work: KanaWork::Nothing },
        KeyAction::DeleteLast => KanaStep { reset: false, work: KanaWork::DeleteLast },
        KeyAction::StartForm(_) | KeyAction::StartConversion => KanaStep {
            reset: false,
            work: KanaWork::Flush,
        },
        KeyAction::Insert(c) => KanaStep { reset: converting, work: KanaWork::Append(c) },
        KeyAction::Type(c) => KanaStep { reset: converting, work: KanaWork::Type(c) },
        _ => KanaStep { reset: false, work: KanaWork::Nothing },
    }
}

/// What the kana input has to do for an action. A conversion that is committed
/// takes what was typed with it.
pub fn kana_step(converting: bool, action: KeyAction) -> (step: KanaStep)
    ensures
        step == step_of(converting, action),
{
    match action {
        KeyAction::CommitConversion | KeyAction::CommitQuietly | KeyAction::CommitPreedit
        | KeyAction::Cancel => KanaStep { reset: true, work: KanaWork::Nothing },
        KeyAction::DeleteLast => KanaStep { reset: false, work: KanaWork::DeleteLast },
        KeyAction::StartForm(_) | KeyAction::StartConversion => KanaStep {
            reset: false,
            work: KanaWork::Flush,
        },
        KeyAction::Insert(c) => KanaStep { reset: converting, work: KanaWork::Append(c) },
        KeyAction::Type(c) => KanaStep { reset: converting, work: KanaWork::Type(c) },
        _ => KanaStep { reset: false, work: KanaWork::Nothing },
    }
}

/// What the kana input answers.
pub struct KanaReply {
    /// What is typed now.
    pub typed: Preedit,
    /// Whether there was a character to delete.
    pub deleted: bool,
    /// The kana that the action is about, in each of its forms.
    pub forms: KanaForms,
}

/// What a key did.
pub struct KeyResult {
    /// What to commit and to draw.
    pub outcome: KeyOutcome,
    /// A conversion that was committed; the choices in it are to be learned.
    pub committed: Option<Committed>,
    /// Whether a reordering of the candidates is to be started.
    pub reorder: bool,
}

/// The text that is shown for what was typed.
pub open spec fn shown(t: PreeditView) -> Seq<char> {
    t.kana + t.pending
}

/// The text of the conversion that is going on.
pub open spec fn converted(v: EngineView) -> Seq<char> {
    conversion::composed(v.conversion->0.segments)
}

/// The engine after its conversion was committed.
pub open spec fn after_commit(v: EngineView) -> EngineView {
    EngineView { typed: engine::nothing_typed(), conversion: None, ..v }
}

/// Can the action be carried out in this state? What is about a conversion
/// needs one, what is about typed text needs that none is going on. The start of
/// a conversion stands apart.
pub open spec fn applies(v: EngineView, action: KeyAction) -> bool {
    match action {
        KeyAction::CommitConversion
        | KeyAction::CommitQuietly
        | KeyAction::BackToPreedit
        | KeyAction::FocusForm(_)
        | KeyAction::Cycle(_)
        | KeyAction::MoveFocus(_)
        | KeyAction::Resize(_) => v.conversion is Some,
        KeyAction::CommitPreedit | KeyAction::Cancel => v.conversion is None && shown(
            v.typed,
        ).len() > 0,
        KeyAction::DeleteLast | KeyAction::StartForm(_) => v.conversion is None,
        KeyAction::StartConversion => false,
        KeyAction::Pass
        | KeyAction::Swallow
        | KeyAction::Insert(_)
        | KeyAction::Type(_) => true,
    }
}

/// The engine after the action.
pub open spec fn engine_after(
    d: Seq<EntryView>,
    logs: NanoTable,
    scorer: UserScorer,
    v: EngineView,
    action: KeyAction,
    reply: KanaReply,
) -> EngineView {
    match action {
        KeyAction::CommitConversion | KeyAction::CommitQuietly => after_commit(v),
        KeyAction::CommitPreedit => EngineView { typed: engine::nothing_typed(), ..v },
        KeyAction::Cancel => after_commit(v),
        KeyAction::BackToPreedit => EngineView { conversion: None, ..v },
        KeyAction::DeleteLast => EngineView { typed: reply.typed@, ..v },
        KeyAction::FocusForm(f) => engine::focused_in_form(v, f, reply.forms),
        KeyAction::StartForm(n) => {
            let w = EngineView { typed: reply.typed@, ..v };
            if reply.typed@.kana.len() == 0 {
                w
            } else {
                engine::with_conversion(
                    w,
                    conversion::kana_conversion(reply.typed@.kana, reply.forms, n as int),
                )
            }
        },
        KeyAction::Cycle(n) => engine::with_conversion(
            v,
            conversion::candidate_cycled(v.conversion->0, n as int),
        ),
        KeyAction::MoveFocus(n) => engine::with_conversion(
            v,
            conversion::focus_moved(v.conversion->0, n as int),
        ),
        KeyAction::Resize(n) => engine::engine_resized(d, logs, scorer, v, n as int),
        KeyAction::Insert(_) | KeyAction::Type(_) => EngineView {
            typed: reply.typed@,
            conversion: None,
            ..v
        },
        _ => v,
    }
}

/// What to commit and to draw after the action.
pub open spec fn outcome_of(v: EngineView, action: KeyAction, reply: KanaReply) -> OutcomeView {
    match action {
        KeyAction::Swallow => swallowed(),
        KeyAction::CommitConversion => committing(converted(v), DisplayView::Cleared),
        KeyAction::CommitQuietly => committing(converted(v), DisplayView::Unchanged),
        KeyAction::CommitPreedit => committing(shown(v.typed), DisplayView::Cleared),
        KeyAction::Cancel => drawn(DisplayView::Cleared),
        KeyAction::BackToPreedit => drawn(preedit_shown(shown(v.typed))),
        KeyAction::DeleteLast => if reply.deleted {
            drawn(preedit_shown(shown(reply.typed@)))
        } else {
            passed()
        },
        KeyAction::FocusForm(_) | KeyAction::Cycle(_) | KeyAction::MoveFocus(_) => drawn(
            DisplayView::Conversion,
        ),
        KeyAction::StartForm(_) => if reply.typed@.kana.len() == 0 {
            swallowed()
        } else {
            drawn(DisplayView::Conversion)
        },
        KeyAction::Resize(_) => OutcomeView {
            schedule_rerank_refresh: true,
            ..drawn(DisplayView::Conversion)
        },
        KeyAction::Insert(_) | KeyAction::Type(_) => OutcomeView {
            commit: if v.conversion is Some {
                Some(converted(v))
            } else {
                None
            },
            ..drawn(preedit_shown(shown(reply.typed@)))
        },
        _ => passed(),
    }
}

/// Does an outcome tell the truth about the engine? Everything is hidden only if
/// nothing is typed or converted, typed text is drawn as the engine holds it and
/// only if there is some, a conversion is drawn only while one is going on. A key
/// that commits a text is used.
pub open spec fn faithful(out: OutcomeView, v: EngineView) -> bool {
    &&& match out.display {
        DisplayView::Unchanged => true,
        DisplayView::Cleared => shown(v.typed).len() == 0 && v.conversion is None,
        DisplayView::Preedit(t) => t.len() > 0 && t == shown(v.typed) && v.conversion is None,
        DisplayView::Conversion => v.conversion is Some,
    }
    &&& out.commit is Some ==> out.consumed
}

/// Does the action commit the conversion that is going on?
pub open spec fn commits_conversion(v: EngineView, action: KeyAction) -> bool {
    match action {
        KeyAction::CommitConversion
        | KeyAction::CommitQuietly
        | KeyAction::Insert(_)
        | KeyAction::Type(_) => v.conversion is Some,
        _ => false,
    }
}

/// Does the action call for a new reordering of the candidates? It does where it
/// moves a boundary.
pub open spec fn calls_for_reorder(v: EngineView, action: KeyAction) -> bool {
    match action {
        KeyAction::Resize(n) => v.conversion matches Some(c) && resize::can_resize(c, n as int),
        _ => false,
    }
}

/// Is this the conversion that was going on?
pub open spec fn records_commit(c: Committed, v: EngineView) -> bool {
    &&& c.text@ == converted(v)
    &&& engine::pair_views(c.choices@) == engine::user_choices(v.conversion->0.segments)
    &&& c.state@ == v.conversion->0
}

/// Carries out an action on the engine. The start of a conversion is not among
/// the actions here.
pub fn dispatch_key(
    engine: &mut ConversionEngine,
    dict: &Dictionary,
    scorer: &UserScorer,
    action: KeyAction,
    reply: KanaReply,
) -> (result: KeyResult)
    requires
        engine::engine_ok(old(engine)@),
        applies(old(engine)@, action),
        dict.wf(),
        scorer.wf(),
    ensures
        engine::engine_ok(final(engine)@),
        final(engine)@ == engine_after(
            dict@,
            dict.log_table(),
            *scorer,
            old(engine)@,
            action,
            reply,
        ),
        result.outcome@ == outcome_of(old(engine)@, action, reply),
        faithful(result.outcome@, final(engine)@),
        match result.committed {
            Some(c) => commits_conversion(old(engine)@, action) && records_commit(
                c,
                old(engine)@,
            ),
            None => !commits_conversion(old(engine)@, action),
        },
        result.reorder == calls_for_reorder(old(engine)@, action),
{
    let outcome: KeyOutcome = match action {
        KeyAction::CommitConversion => {
            let committed: Option<Committed> = engine.commit_conversion();
            let text: Option<String> = committed_text(&committed);
            return KeyResult {
                outcome: KeyOutcome {
                    consumed: true,
                    commit: text,
                    display: DisplayUpdate::Cleared,
                    schedule_rerank_refresh: false,
                },
                committed,
                reorder: false,
            };
        },
        KeyAction::CommitQuietly => {
            let committed: Option<Committed> = engine.commit_conversion();
            let text: Option<String> = committed_text(&committed);
            return KeyResult {
                outcome: KeyOutcome {
                    consumed: true,
                    commit: text,
                    display: DisplayUpdate::Unchanged,
                    schedule_rerank_refresh: false,
                },
                committed,
                reorder: false,
            };
        },
        KeyAction::Insert(_) | KeyAction::Type(_) => {
            let committed: Option<Committed> = engine.commit_conversion();
            let text: Option<String> = committed_text(&committed);
            engine.take_typed(reply.typed);
            let drawing: KeyOutcome = KeyOutcome::preedit_or_cleared(engine.preedit());
            return KeyResult {
                outcome: KeyOutcome {
                    consumed: true,
                    commit: text,
                    display: drawing.display,
                    schedule_rerank_refresh: false,
                },
                committed,
                reorder: false,
            };
        },
        KeyAction::Pass | KeyAction::StartConversion => KeyOutcome::default(),
        KeyAction::Swallow => KeyOutcome::consumed_noop(),
        KeyAction::CommitPreedit => {
            let text: String = engine.preedit();
            KeyOutcome::commit(engine.commit(text.as_str()))
        },
        KeyAction::Cancel => {
            engine.reset();
            engine.clear_conversion();
            KeyOutcome::cleared()
        },
        KeyAction::BackToPreedit => {
            engine.clear_conversion();
            KeyOutcome::preedit_or_cleared(engine.preedit())
        },
        KeyAction::DeleteLast => {
            engine.take_typed(reply.typed);
            if reply.deleted {
                KeyOutcome::preedit_or_cleared(engine.preedit())
            } else {
                KeyOutcome::default()
            }
        },
        KeyAction::FocusForm(form) => {
            engine.convert_focused_to(form, &reply.forms);
            KeyOutcome::conversion()
        },
        KeyAction::StartForm(number) => {
            engine.take_typed(reply.typed);
            if engine.start_kana_conversion(&reply.forms, number).is_some() {
                KeyOutcome::conversion()
            } else {
                KeyOutcome::consumed_noop()
            }
        },
        KeyAction::Cycle(n) => {
            engine.cycle_candidate(n);
            KeyOutcome::conversion()
        },
        KeyAction::MoveFocus(n) => {
            engine.move_focus(n);
            KeyOutcome::conversion()
        },
        KeyAction::Resize(n) => {
            let reorder: bool = engine.move_boundary(n, dict, scorer);
            return KeyResult {
                outcome: KeyOutcome {
                    consumed: true,
                    commit: None,
                    display: DisplayUpdate::Conversion,
                    schedule_rerank_refresh: true,
                },
                committed: None,
                reorder,
            };
        },
    };
    KeyResult { outcome, committed: None, reorder: false }
}

/// The text of a committed conversion.
fn committed_text(c: &Option<Committed>) -> (text: Option<String>)
    ensures
        optional_text(text) == (match c {
            Some(d) => Some(d.text@),
            None => None,
        }),
{
    match c {
        Some(d) => Some(d.text.clone()),
        None => None,
    }
}

/// Starts a conversion with the segmentation that a plan settles on. Without a
/// plan, when no kana was typed, the key is left to the application.
pub fn begin_conversion(
    engine: &mut ConversionEngine,
    plan: Option<SegmentationPlan>,
    verdict: Option<(i64, i64)>,
    scorer: &UserScorer,
) -> (outcome: KeyOutcome)
    requires
        engine::engine_ok(old(engine)@),
        scorer.wf(),
        plan matches Some(p) ==> p.wf() && engine::covers(p, old(engine)@.typed.kana)
            && old(engine)@.typed.kana.len() > 0,
    ensures
        engine::engine_ok(final(engine)@),
        faithful(outcome@, final(engine)@),
        match plan {
            None => outcome@ == passed() && final(engine)@ == old(engine)@,
            Some(p) => {
                &&& outcome@ == (OutcomeView {
                    schedule_rerank_refresh: true,
                    ..drawn(DisplayView::Conversion)
                })
                &&& final(engine)@ == engine::awaiting_rerank(
                    engine::with_conversion(
                        old(engine)@,
                        engine::fresh_conversion(
                            *scorer,
                            old(engine)@.typed.kana,
                            alternatives::settled(
                                alternatives::alternative_views(p.alternatives@),
                                p.best as int,
                                verdict,
                            ),
                        ),
                    ),
                )
            },
        },
{
    match plan {
        None => KeyOutcome::default(),
        Some(p) => {
            engine.start_conversion(p, verdict, scorer);
            KeyOutcome {
                consumed: true,
                commit: None,
                display: DisplayUpdate::Conversion,
                schedule_rerank_refresh: true,
            }
        },
    }
}

/// Shortcuts and keys that are let go reach the application, and nothing
/// changes here.
pub proof fn law_shortcuts_pass(
    d: Seq<EntryView>,
    logs: NanoTable,
    scorer: UserScorer,
    v: EngineView,
    e: KeyEvent,
    wide: Option<char>,
    reply: KanaReply,
)
    requires
        released(e) || commanding(e),
    ensures
        ({
            let action = action_of(
                v.conversion is Some,
                shown(v.typed).len() > 0,
                e,
                wide,
            );
            &&& engine_after(d, logs, scorer, v, action, reply) == v
            &&& outcome_of(v, action, reply) == passed()
        }),
{
}

/// While nothing is typed or converted, the keys that move, confirm and cancel
/// are left to the application.
pub proof fn law_idle_keys_pass(e: KeyEvent, wide: Option<char>)
    requires
        e.keyval == KEY_TAB || e.keyval == KEY_RETURN || e.keyval == KEY_ESCAPE
            || is_navigation(e.keyval),
    ensures
        action_of(false, false, e, wide) == KeyAction::Pass,
{
}

/// The keys for kana forms never reach the application, typed text or not.
pub proof fn law_form_keys_are_used(
    converting: bool,
    composing: bool,
    v: EngineView,
    e: KeyEvent,
    wide: Option<char>,
    reply: KanaReply,
)
    requires
        is_form_key(e.keyval),
        !released(e),
        !commanding(e),
    ensures
        outcome_of(v, action_of(converting, composing, e, wide), reply).consumed,
{
}

/// While a conversion is going on, every key is used, but for shortcuts and keys
/// that are let go.
pub proof fn law_conversion_uses_keys(
    composing: bool,
    v: EngineView,
    e: KeyEvent,
    wide: Option<char>,
    reply: KanaReply,
)
    requires
        v.conversion is Some,
        !released(e),
        !commanding(e),
    ensures
        outcome_of(v, action_of(true, composing, e, wide), reply).consumed,
        applies(v, action_of(true, composing, e, wide)),
{
}

/// The meaning of a key can always be carried out in the state it was decided
/// for; at rest it may be the start of a conversion.
pub proof fn law_actions_apply(v: EngineView, e: KeyEvent, wide: Option<char>)
    ensures
        ({
            let action = action_of(
                v.conversion is Some,
                shown(v.typed).len() > 0,
                e,
                wide,
            );
            applies(v, action) || (action == KeyAction::StartConversion && v.conversion is None)
        }),
{
}

/// Whatever key is pressed in whatever state, what is drawn afterwards agrees with
/// the engine, and a key that commits a text is used. The start of a conversion
/// agrees by the contract of [`begin_conversion`].
pub proof fn law_display_is_faithful(
    d: Seq<EntryView>,
    logs: NanoTable,
    scorer: UserScorer,
    v: EngineView,
    e: KeyEvent,
    wide: Option<char>,
    reply: KanaReply,
)
    ensures
        ({
            let action = action_of(
                v.conversion is Some,
                shown(v.typed).len() > 0,
                e,
                wide,
            );
            action != KeyAction::StartConversion ==> faithful(
                outcome_of(v, action, reply),
                engine_after(d, logs, scorer, v, action, reply),
            )
        }),
{
    let action = action_of(v.conversion is Some, shown(v.typed).len() > 0, e, wide);
    law_actions_apply(v, e, wide);
    if action != KeyAction::StartConversion {
        lemma_faithful(d, logs, scorer, v, action, reply);
    }
}

/// An action that applies leaves the engine as its outcome tells.
proof fn lemma_faithful(
    d: Seq<EntryView>,
    logs: NanoTable,
    scorer: UserScorer,
    v: EngineView,
    action: KeyAction,
    reply: KanaReply,
)
    requires
        applies(v, action),
    ensures
        faithful(
            outcome_of(v, action, reply),
            engine_after(d, logs, scorer, v, action, reply),
        ),
{
}

/// An empty text is never drawn.
pub proof fn law_empty_preedit_is_hidden(v: EngineView, action: KeyAction, reply: KanaReply)
    ensures
        outcome_of(v, action, reply).display matches DisplayView::Preedit(t) ==> t.len() > 0,
{
}

/// Giving up a conversion loses nothing that was typed.
pub proof fn law_cancel_keeps_typed(
    d: Seq<EntryView>,
    logs: NanoTable,
    scorer: UserScorer,
    v: EngineView,
    reply: KanaReply,
)
    ensures
        engine_after(d, logs, scorer, v, KeyAction::BackToPreedit, reply).typed == v.typed,
        engine_after(d, logs, scorer, v, KeyAction::BackToPreedit, reply).conversion is None,
{
}

/// The bits of the state that count: the one that tells a key that is let go, and
/// those of Shift, Control and Alt.
pub proof fn law_state_bits(e: KeyEvent)
    ensures
        released(e) <==> e.state & 0x4000_0000u32 != 0,
        shifted(e) <==> e.state & 0x1u32 != 0,
        commanding(e) <==> (e.state & 0x4u32 != 0 || e.state & 0x8u32 != 0),
{
}

/// Escape and Backspace give a conversion up: nothing is committed, the conversion is
/// gone, and what was typed is there as before.
pub proof fn law_escape_gives_up(
    d: Seq<EntryView>,
    logs: NanoTable,
    scorer: UserScorer,
    v: EngineView,
    e: KeyEvent,
    wide: Option<char>,
    reply: KanaReply,
)
    requires
        engine::engine_ok(v),
        v.conversion is Some,
        !released(e),
        !commanding(e),
        e.keyval == 0xFF1B || e.keyval == 0xFF08,
    ensures
        ({
            let action = action_of(
                v.conversion is Some,
                shown(v.typed).len() > 0,
                e,
                wide,
            );
            let out = outcome_of(v, action, reply);
            let w = engine_after(d, logs, scorer, v, action, reply);
            let step = step_of(v.conversion is Some, action);
            &&& out.consumed
            &&& out.commit is None
            &&& w.conversion is None
            &&& w.typed == v.typed
            &&& !step.reset && step.work == KanaWork::Nothing
        }),
{
}

/// Return and Tab commit a conversion: its text is handed over, and nothing is left
/// of it or of what was typed.
pub proof fn law_return_commits_conversion(
    d: Seq<EntryView>,
    logs: NanoTable,
    scorer: UserScorer,
    v: EngineView,
    e: KeyEvent,
    wide: Option<char>,
    reply: KanaReply,
)
    requires
        engine::engine_ok(v),
        v.conversion is Some,
        !released(e),
        !commanding(e),
        e.keyval == 0xFF0D || e.keyval == 0xFF09,
    ensures
        ({
            let action = action_of(
                v.conversion is Some,
                shown(v.typed).len() > 0,
                e,
                wide,
            );
            let out = outcome_of(v, action, reply);
            let w = engine_after(d, logs, scorer, v, action, reply);
            let step = step_of(v.conversion is Some, action);
            &&& out.consumed
            &&& out.commit == Some(conversion::composed(v.conversion->0.segments))
            &&& out.display == DisplayView::Cleared
            &&& w.conversion is None
            &&& w.typed.kana.len() == 0 && w.typed.pending.len() == 0
            &&& step.reset && step.work == KanaWork::Nothing
        }),
{
}

/// The space bar and the arrow down show the next candidate of the focused segment,
/// the arrow up the previous one, around the ends; nothing else of the conversion
/// changes, and the candidate counts as chosen.
pub proof fn law_arrows_step_through_candidates(
    d: Seq<EntryView>,
    logs: NanoTable,
    scorer: UserScorer,
    v: EngineView,
    e: KeyEvent,
    wide: Option<char>,
    reply: KanaReply,
)
    requires
        engine::engine_ok(v),
        v.conversion is Some,
        !released(e),
        !commanding(e),
        (e.keyval == 0x20 && !shifted(e)) || e.keyval == 0xFF54 || e.keyval == 0xFF52,
    ensures
        ({
            let action = action_of(
                v.conversion is Some,
                shown(v.typed).len() > 0,
                e,
                wide,
            );
            let out = outcome_of(v, action, reply);
            let w = engine_after(d, logs, scorer, v, action, reply);
            let step = step_of(v.conversion is Some, action);
            &&& out.consumed && out.commit is None && out.display == DisplayView::Conversion
            &&& w.typed == v.typed
            &&& ({
                let c = v.conversion->0;
                let f = c.focus;
                let n = c.segments[f].candidates.len() as int;
                let c2 = w.conversion->0;
                &&& w.conversion is Some
                &&& c2.kana == c.kana && c2.focus == f && c2.segments.len() == c.segments.len()
                &&& forall|k: int|
                    0 <= k < c.segments.len() && k != f ==> #[trigger] c2.segments[k]
                        == c.segments[k]
                &&& c2.segments[f].reading == c.segments[f].reading
                &&& c2.segments[f].start == c.segments[f].start
                &&& c2.segments[f].candidates == c.segments[f].candidates
                &&& c2.segments[f].user_selected
                &&& e.keyval != 0xFF52 ==> c2.segments[f].selected == (if c.segments[f].selected
                    == n - 1 {
                    0
                } else {
                    c.segments[f].selected + 1
                })
                &&& e.keyval == 0xFF52 ==> c2.segments[f].selected == (if c.segments[f].selected
                    == 0 {
                    n - 1
                } else {
                    c.segments[f].selected - 1
                })
            })
        }),
{
    let c = v.conversion->0;
    assert(conversion::segment_ok(c.segments[c.focus]));
}

/// The arrows right and left move the focus by one segment, around the ends, and
/// change nothing else.
pub proof fn law_arrows_move_focus(
    d: Seq<EntryView>,
    logs: NanoTable,
    scorer: UserScorer,
    v: EngineView,
    e: KeyEvent,
    wide: Option<char>,
    reply: KanaReply,
)
    requires
        engine::engine_ok(v),
        v.conversion is Some,
        !released(e),
        !commanding(e),
        !shifted(e),
        e.keyval == 0xFF53 || e.keyval == 0xFF51,
    ensures
        ({
            let action = action_of(
                v.conversion is Some,
                shown(v.typed).len() > 0,
                e,
                wide,
            );
            let out = outcome_of(v, action, reply);
            let w = engine_after(d, logs, scorer, v, action, reply);
            let step = step_of(v.conversion is Some, action);
            &&& out.consumed && out.commit is None && out.display == DisplayView::Conversion
            &&& w.typed == v.typed
            &&& ({
                let c = v.conversion->0;
                let n = c.segments.len() as int;
                let c2 = w.conversion->0;
                &&& w.conversion is Some
                &&& c2.kana == c.kana && c2.segments == c.segments
                &&& e.keyval == 0xFF53 ==> c2.focus == (if c.focus == n - 1 {
                    0
                } else {
                    c.focus + 1
                })
                &&& e.keyval == 0xFF51 ==> c2.focus == (if c.focus == 0 {
                    n - 1
                } else {
                    c.focus - 1
                })
            })
        }),
{
}

/// With Shift the arrows right and left move the boundary behind the focused segment
/// that way.
pub proof fn law_shifted_arrows_move_boundary(
    d: Seq<EntryView>,
    logs: NanoTable,
    scorer: UserScorer,
    v: EngineView,
    e: KeyEvent,
    wide: Option<char>,
    reply: KanaReply,
)
    requires
        engine::engine_ok(v),
        v.conversion is Some,
        !released(e),
        !commanding(e),
        shifted(e),
        e.keyval == 0xFF53 || e.keyval == 0xFF51,
    ensures
        ({
            let action = action_of(
                v.conversion is Some,
                shown(v.typed).len() > 0,
                e,
                wide,
            );
            let out = outcome_of(v, action, reply);
            let w = engine_after(d, logs, scorer, v, action, reply);
            let step = step_of(v.conversion is Some, action);
            &&& out.consumed && out.commit is None && out.display == DisplayView::Conversion
            &&& out.schedule_rerank_refresh
            &&& w.typed == v.typed
            &&& w.conversion == Some(
                resize::resized(
                    d,
                    logs,
                    scorer,
                    v.conversion->0,
                    if e.keyval == 0xFF53 {
                        1
                    } else {
                        -1
                    },
                ),
            )
            &&& calls_for_reorder(v, action) ==> w.inflight && w.reranked is None
        }),
{
}

/// A letter commits a conversion that is going on and is typed; without one it is only
/// typed.
pub proof fn law_letters_are_typed(
    d: Seq<EntryView>,
    logs: NanoTable,
    scorer: UserScorer,
    v: EngineView,
    e: KeyEvent,
    wide: Option<char>,
    reply: KanaReply,
)
    requires
        !released(e),
        !commanding(e),
        0x61 <= e.keyval <= 0x7a || 0x41 <= e.keyval <= 0x5a || e.keyval == 0x2d || e.keyval == 0x27,
    ensures
        ({
            let action = action_of(
                v.conversion is Some,
                shown(v.typed).len() > 0,
                e,
                wide,
            );
            let out = outcome_of(v, action, reply);
            let w = engine_after(d, logs, scorer, v, action, reply);
            let step = step_of(v.conversion is Some, action);
            &&& out.consumed
            &&& out.commit == (if v.conversion is Some {
                Some(conversion::composed(v.conversion->0.segments))
            } else {
                None
            })
            &&& w.conversion is None
            &&& w.typed == reply.typed@
            &&& step.reset == (v.conversion is Some)
            &&& step.work == KanaWork::Type(e.keyval as char)
        }),
{
}

/// A symbol or digit commits a conversion that is going on, and its wide form is
/// appended to what was typed.
pub proof fn law_symbols_are_widened(
    d: Seq<EntryView>,
    logs: NanoTable,
    scorer: UserScorer,
    v: EngineView,
    e: KeyEvent,
    wide: Option<char>,
    reply: KanaReply,
)
    requires
        !released(e),
        !commanding(e),
        0x21 <= e.keyval <= 0x7e,
        !(0x61 <= e.keyval <= 0x7a),
        !(0x41 <= e.keyval <= 0x5a),
        e.keyval != 0x2d && e.keyval != 0x27,
        wide is Some,
    ensures
        ({
            let action = action_of(
                v.conversion is Some,
                shown(v.typed).len() > 0,
                e,
                wide,
            );
            let out = outcome_of(v, action, reply);
            let w = engine_after(d, logs, scorer, v, action, reply);
            let step = step_of(v.conversion is Some, action);
            &&& out.consumed
            &&& out.commit == (if v.conversion is Some {
                Some(conversion::composed(v.conversion->0.segments))
            } else {
                None
            })
            &&& w.conversion is None
            &&& w.typed == reply.typed@
            &&& step.reset == (v.conversion is Some)
            &&& step.work == KanaWork::Append(wide->0)
        }),
{
}

/// Shift with the space bar appends a wide space, after committing a conversion that
/// is going on.
pub proof fn law_shifted_space_is_wide(
    d: Seq<EntryView>,
    logs: NanoTable,
    scorer: UserScorer,
    v: EngineView,
    e: KeyEvent,
    wide: Option<char>,
    reply: KanaReply,
)
    requires
        !released(e),
        !commanding(e),
        shifted(e),
        e.keyval == 0x20,
    ensures
        ({
            let action = action_of(
                v.conversion is Some,
                shown(v.typed).len() > 0,
                e,
                wide,
            );
            let out = outcome_of(v, action, reply);
            let w = engine_after(d, logs, scorer, v, action, reply);
            let step = step_of(v.conversion is Some, action);
            &&& out.consumed
            &&& out.commit == (if v.conversion is Some {
                Some(conversion::composed(v.conversion->0.segments))
            } else {
                None
            })
            &&& w.conversion is None
            &&& w.typed == reply.typed@
            &&& step.reset == (v.conversion is Some)
            &&& step.work == KanaWork::Append('\u{3000}')
        }),
{
}

/// A symbol or digit without a wide form commits a conversion and is gone; while
/// something is typed it is held back, else it reaches the application.
pub proof fn law_unknown_symbols(
    d: Seq<EntryView>,
    logs: NanoTable,
    scorer: UserScorer,
    v: EngineView,
    e: KeyEvent,
    wide: Option<char>,
    reply: KanaReply,
)
    requires
        !released(e),
        !commanding(e),
        0x21 <= e.keyval <= 0x7e,
        !(0x61 <= e.keyval <= 0x7a),
        !(0x41 <= e.keyval <= 0x5a),
        e.keyval != 0x2d && e.keyval != 0x27,
        wide is None,
    ensures
        ({
            let action = action_of(
                v.conversion is Some,
                shown(v.typed).len() > 0,
                e,
                wide,
            );
            let out = outcome_of(v, action, reply);
            let w = engine_after(d, logs, scorer, v, action, reply);
            let step = step_of(v.conversion is Some, action);
            &&& v.conversion is Some ==> out.consumed && out.commit == Some(
                conversion::composed(v.conversion->0.segments),
            ) && w.conversion is None && w.typed.kana.len() == 0 && w.typed.pending.len() == 0
            &&& v.conversion is None ==> out.commit is None && w == v && out.consumed == (shown(v.typed).len()
                > 0)
        }),
{
}

/// Without a conversion Return and Tab commit what was typed, and nothing is left of
/// it.
pub proof fn law_return_commits_typed(
    d: Seq<EntryView>,
    logs: NanoTable,
    scorer: UserScorer,
    v: EngineView,
    e: KeyEvent,
    wide: Option<char>,
    reply: KanaReply,
)
    requires
        v.conversion is None,
        !released(e),
        !commanding(e),
        e.keyval == 0xFF0D || e.keyval == 0xFF09,
        shown(v.typed).len() > 0,
    ensures
        ({
            let action = action_of(
                v.conversion is Some,
                shown(v.typed).len() > 0,
                e,
                wide,
            );
            let out = outcome_of(v, action, reply);
            let w = engine_after(d, logs, scorer, v, action, reply);
            let step = step_of(v.conversion is Some, action);
            &&& out.consumed
            &&& out.commit == Some(v.typed.kana + v.typed.pending)
            &&& out.display == DisplayView::Cleared
            &&& w.conversion is None
            &&& w.typed.kana.len() == 0 && w.typed.pending.len() == 0
            &&& step.reset && step.work == KanaWork::Nothing
        }),
{
}

/// Without a conversion Escape forgets what was typed, and nothing is committed.
pub proof fn law_escape_forgets_typed(
    d: Seq<EntryView>,
    logs: NanoTable,
    scorer: UserScorer,
    v: EngineView,
    e: KeyEvent,
    wide: Option<char>,
    reply: KanaReply,
)
    requires
        v.conversion is None,
        !released(e),
        !commanding(e),
        e.keyval == 0xFF1B,
        shown(v.typed).len() > 0,
    ensures
        ({
            let action = action_of(
                v.conversion is Some,
                shown(v.typed).len() > 0,
                e,
                wide,
            );
            let out = outcome_of(v, action, reply);
            let w = engine_after(d, logs, scorer, v, action, reply);
            let step = step_of(v.conversion is Some, action);
            &&& out.consumed
            &&& out.commit is None
            &&& out.display == DisplayView::Cleared
            &&& w.conversion is None
            &&& w.typed.kana.len() == 0 && w.typed.pending.len() == 0
            &&& step.reset && step.work == KanaWork::Nothing
        }),
{
}

/// Without a conversion Backspace deletes the last typed character; where there is
/// none it reaches the application.
pub proof fn law_backspace_deletes(
    d: Seq<EntryView>,
    logs: NanoTable,
    scorer: UserScorer,
    v: EngineView,
    e: KeyEvent,
    wide: Option<char>,
    reply: KanaReply,
)
    requires
        v.conversion is None,
        !released(e),
        !commanding(e),
        e.keyval == 0xFF08,
    ensures
        ({
            let action = action_of(
                v.conversion is Some,
                shown(v.typed).len() > 0,
                e,
                wide,
            );
            let out = outcome_of(v, action, reply);
            let w = engine_after(d, logs, scorer, v, action, reply);
            let step = step_of(v.conversion is Some, action);
            &&& step.work == KanaWork::DeleteLast && !step.reset
            &&& w.conversion is None && w.typed == reply.typed@
            &&& out.consumed == reply.deleted
            &&& out.commit is None
        }),
{
}

/// Without a conversion the plain space bar starts one with what was typed; letters
/// that still wait become kana first.
pub proof fn law_space_converts(
    d: Seq<EntryView>,
    logs: NanoTable,
    scorer: UserScorer,
    v: EngineView,
    e: KeyEvent,
    wide: Option<char>,
    reply: KanaReply,
)
    requires
        v.conversion is None,
        !released(e),
        !commanding(e),
        e.keyval == 0x20,
        !shifted(e),
    ensures
        ({
            let action = action_of(
                v.conversion is Some,
                shown(v.typed).len() > 0,
                e,
                wide,
            );
            let out = outcome_of(v, action, reply);
            let w = engine_after(d, logs, scorer, v, action, reply);
            let step = step_of(v.conversion is Some, action);
            &&& action == KeyAction::StartConversion
            &&& step.work == KanaWork::Flush && !step.reset
        }),
{
}

/// Arrow and page keys never disturb what is being typed, and are left to the
/// application otherwise.
pub proof fn law_navigation_is_held_back(
    d: Seq<EntryView>,
    logs: NanoTable,
    scorer: UserScorer,
    v: EngineView,
    e: KeyEvent,
    wide: Option<char>,
    reply: KanaReply,
)
    requires
        v.conversion is None,
        !released(e),
        !commanding(e),
        0xFF51 <= e.keyval <= 0xFF56,
    ensures
        ({
            let action = action_of(
                v.conversion is Some,
                shown(v.typed).len() > 0,
                e,
                wide,
            );
            let out = outcome_of(v, action, reply);
            let w = engine_after(d, logs, scorer, v, action, reply);
            let step = step_of(v.conversion is Some, action);
            &&& w == v
            &&& out.commit is None
            &&& out.display == DisplayView::Unchanged
            &&& out.consumed == (shown(v.typed).len() > 0)
            &&& step.work == KanaWork::Nothing && !step.reset
        }),
{
}

/// A key that means nothing changes nothing: in a conversion and while something is
/// typed it is held back, else it reaches the application.
pub proof fn law_other_keys_change_nothing(
    d: Seq<EntryView>,
    logs: NanoTable,
    scorer: UserScorer,
    v: EngineView,
    e: KeyEvent,
    wide: Option<char>,
    reply: KanaReply,
)
    requires
        !released(e),
        !commanding(e),
        e.keyval > 0x7e,
        !(0xFF51 <= e.keyval <= 0xFF56),
        !(0xFFC3 <= e.keyval <= 0xFFC7),
        e.keyval != 0xFF08 && e.keyval != 0xFF09 && e.keyval != 0xFF0D && e.keyval != 0xFF1B,
    ensures
        ({
            let action = action_of(
                v.conversion is Some,
                shown(v.typed).len() > 0,
                e,
                wide,
            );
            let out = outcome_of(v, action, reply);
            let w = engine_after(d, logs, scorer, v, action, reply);
            let step = step_of(v.conversion is Some, action);
            &&& w == v
            &&& out.commit is None
            &&& out.display == DisplayView::Unchanged
            &&& out.consumed == (v.conversion is Some || shown(v.typed).len() > 0)
            &&& step.work == KanaWork::Nothing && !step.reset
        }),
{
}

/// The keys F6 to F10 show the focused segment as it is read, in katakana, in
/// half-width katakana, in full-width romaji and in romaji. The form counts as chosen,
/// the other segments stay as they are.
pub proof fn law_form_keys_show_the_form(
    d: Seq<EntryView>,
    logs: NanoTable,
    scorer: UserScorer,
    v: EngineView,
    e: KeyEvent,
    wide: Option<char>,
    reply: KanaReply,
)
    requires
        engine::engine_ok(v),
        v.conversion is Some,
        !released(e),
        !commanding(e),
        0xFFC3 <= e.keyval <= 0xFFC7,
    ensures
        ({
            let action = action_of(
                v.conversion is Some,
                shown(v.typed).len() > 0,
                e,
                wide,
            );
            let out = outcome_of(v, action, reply);
            let w = engine_after(d, logs, scorer, v, action, reply);
            let step = step_of(v.conversion is Some, action);
            &&& out.consumed && out.commit is None && out.display == DisplayView::Conversion
            &&& w.typed == v.typed
            &&& ({
                let c = v.conversion->0;
                let f = c.focus;
                let c2 = w.conversion->0;
                let s = c2.segments[f];
                &&& w.conversion is Some
                &&& c2.kana == c.kana && c2.focus == f && c2.segments.len() == c.segments.len()
                &&& forall|k: int|
                    0 <= k < c.segments.len() && k != f ==> #[trigger] c2.segments[k]
                        == c.segments[k]
                &&& s.reading == c.segments[f].reading && s.user_selected
                &&& c.segments[f].candidates.is_prefix_of(s.candidates)
                &&& 0 <= s.selected < s.candidates.len()
                &&& s.candidates[s.selected] == (if e.keyval == 0xFFC3 {
                    c.segments[f].reading
                } else if e.keyval == 0xFFC4 {
                    reply.forms.katakana@
                } else if e.keyval == 0xFFC5 {
                    reply.forms.halfwidth_katakana@
                } else if e.keyval == 0xFFC6 {
                    reply.forms.fullwidth_romaji@
                } else {
                    reply.forms.romaji@
                })
            })
        }),
{
    let c = v.conversion->0;
    let t = if e.keyval == 0xFFC3 {
        c.segments[c.focus].reading
    } else if e.keyval == 0xFFC4 {
        reply.forms.katakana@
    } else if e.keyval == 0xFFC5 {
        reply.forms.halfwidth_katakana@
    } else if e.keyval == 0xFFC6 {
        reply.forms.fullwidth_romaji@
    } else {
        reply.forms.romaji@
    };
    conversion::lemma_position_of(c.segments[c.focus].candidates, t);
    assert(conversion::segment_ok(c.segments[c.focus]));
}

/// Without a conversion the keys F6 to F10 convert all that was typed into one segment
/// that is shown in their form and offers the other forms. Where nothing was typed the
/// key is used up.
pub proof fn law_form_keys_convert_typed(
    d: Seq<EntryView>,
    logs: NanoTable,
    scorer: UserScorer,
    v: EngineView,
    e: KeyEvent,
    wide: Option<char>,
    reply: KanaReply,
)
    requires
        v.conversion is None,
        !released(e),
        !commanding(e),
        0xFFC3 <= e.keyval <= 0xFFC7,
    ensures
        ({
            let action = action_of(
                v.conversion is Some,
                shown(v.typed).len() > 0,
                e,
                wide,
            );
            let out = outcome_of(v, action, reply);
            let w = engine_after(d, logs, scorer, v, action, reply);
            let step = step_of(v.conversion is Some, action);
            &&& out.consumed && out.commit is None
            &&& step.work == KanaWork::Flush && !step.reset
            &&& w.typed == reply.typed@
            &&& reply.typed@.kana.len() == 0 ==> w.conversion is None && out.display
                == DisplayView::Unchanged
            &&& reply.typed@.kana.len() > 0 ==> ({
                let c = w.conversion->0;
                let s = c.segments[0];
                &&& w.conversion is Some && out.display == DisplayView::Conversion
                &&& c.kana == reply.typed@.kana && c.focus == 0 && c.segments.len() == 1
                &&& s.reading == reply.typed@.kana && s.start == 0
                &&& s.user_selected == (e.keyval != 0xFFC3)
                &&& forall|t: Seq<char>| #[trigger]
                    s.candidates.contains(t) <==> (t == reply.typed@.kana || t
                        == reply.forms.katakana@ || t == reply.forms.halfwidth_katakana@ || t
                        == reply.forms.romaji@ || t == reply.forms.fullwidth_romaji@)
                &&& s.candidates[0] == reply.typed@.kana
                &&& 0 <= s.selected < s.candidates.len()
                &&& s.candidates[s.selected] == (if e.keyval == 0xFFC3 {
                    reply.typed@.kana
                } else if e.keyval == 0xFFC4 {
                    reply.forms.katakana@
                } else if e.keyval == 0xFFC5 {
                    reply.forms.halfwidth_katakana@
                } else if e.keyval == 0xFFC6 {
                    reply.forms.fullwidth_romaji@
                } else {
                    reply.forms.romaji@
                })
            })
        }),
{
    if reply.typed@.kana.len() > 0 {
        conversion::law_forms_are_offered(
            reply.typed@.kana,
            reply.forms,
            if e.keyval == 0xFFC3 {
                0
            } else if e.keyval == 0xFFC4 {
                1
            } else if e.keyval == 0xFFC5 {
                2
            } else if e.keyval == 0xFFC6 {
                4
            } else {
                3
            },
        );
    }
}

/// A key that commits a conversion reports it: the committed text, the choices that the
/// user made and the conversion as it was. Keys that commit none report none.
pub proof fn law_commits_are_reported(
    c: Committed,
    v: EngineView,
    e: KeyEvent,
    wide: Option<char>,
    reply: KanaReply,
)
    ensures
        records_commit(c, v) ==> c.text@ == conversion::composed(v.conversion->0.segments)
            && engine::pair_views(c.choices@) == engine::user_choices(v.conversion->0.segments)
            && c.state@ == v.conversion->0,
        ({
            let action = action_of(
                v.conversion is Some,
                shown(v.typed).len() > 0,
                e,
                wide,
            );
            commits_conversion(v, action) <==> v.conversion is Some && outcome_of(
                v,
                action,
                reply,
            ).commit is Some
        }),
{
    law_actions_apply(v, e, wide);
}

/// After a commit nothing is typed and nothing is converted; an awaited reordering stays
/// awaited.
pub proof fn law_commit_empties(v: EngineView)
    ensures
        after_commit(v).typed.kana.len() == 0,
        after_commit(v).typed.pending.len() == 0,
        after_commit(v).conversion is None,
        after_commit(v).inflight == v.inflight,
        after_commit(v).reranked == v.reranked,
{
}

/// What was typed is shown as its kana and the letters that still wait.
pub proof fn law_typed_is_shown(t: PreeditView)
    ensures
        shown(t) == t.kana + t.pending,
{
}

} // verus!
