//! The engine as clients with a plain interface see it.
//!
//! A client forwards keys and afterwards asks what to draw, in one go or piece
//! by piece. Committed text waits until it is collected. Numbers are 32 bits
//! wide, lists have an upper length.
use vstd::prelude::*;

use crate::alternatives::SegmentationPlan;
use crate::conversion;
use crate::conversion::{ConversionState, ConversionView, KanaForm};
use crate::dictionary::Dictionary;
use crate::dispatch;
use crate::dispatch::{
    begin_conversion, conversion_key, dispatch_key, fkey_to_form, kana_form_key, printable_char,
    resting_key, KanaReply, KeyAction, KeyEvent, KeyResult, KEY_BACKSPACE, KEY_DOWN, KEY_ESCAPE,
    KEY_F6, KEY_LEFT, KEY_PAGE_DOWN, KEY_PAGE_UP, KEY_RETURN, KEY_RIGHT, KEY_SPACE, KEY_TAB, KEY_UP,
};
use crate::engine;
use crate::engine::{Committed, ConversionEngine, EngineView};
use crate::entry::EntryView;
use crate::merge;
use crate::nano::NanoTable;
use crate::text;
use crate::text::small_letter;
use crate::user_scorer::UserScorer;

verus! {

/// How many segments a client is shown.
pub const MAX_SEGMENTS: usize = 32;

/// How many candidates a client is shown.
pub const MAX_CANDIDATES: usize = 64;

/// Where a segment lies in the composed text.
#[derive(Clone, Copy, Debug, PartialEq, Eq, Structural)]
pub struct BonolithSegmentInfo {
    /// Its start, in characters.
    pub start_chars: i32,
    /// Its length, in characters.
    pub char_len: i32,
}

/// All there is to draw.
#[derive(Debug)]
pub struct BonolithUiState {
    /// Committed text, if any.
    pub committed: Option<String>,
    /// Whether a conversion is going on.
    pub converting: bool,
    /// Whether there is text to draw.
    pub has_preedit: bool,
    /// What was typed, or the composed text of the conversion.
    pub preedit: Option<String>,
    /// Number of segments shown.
    pub segment_count: i32,
    /// Position of the focused segment.
    pub focus_index: i32,
    /// The segments shown.
    pub segments: Vec<BonolithSegmentInfo>,
    /// Number of candidates shown for the focused segment.
    pub candidate_count: i32,
    /// Position of the chosen candidate.
    pub selected_index: i32,
    /// The candidates shown.
    pub candidates: Vec<String>,
}

/// What a printable character does: letters are typed in lower case, symbols
/// that have a wide form are inserted in it.
pub open spec fn client_action_of_char(c: char, wide: Option<char>) -> Option<KeyAction> {
    match dispatch::action_of_char(c, wide) {
        Some(KeyAction::Type(t)) => Some(KeyAction::Type(text::small(t))),
        other => other,
    }
}

/// What a key means to a client. Differs from [`dispatch::action_of`] in that
/// keys without a meaning are left to the application, in that Shift makes no
/// difference to the space bar, and in that the release of a key for kana forms
/// is held back while there is something it could have acted on.
pub open spec fn client_action_of(
    converting: bool,
    composing: bool,
    e: KeyEvent,
    wide: Option<char>,
) -> KeyAction {
    if dispatch::released(e) {
        if dispatch::is_form_key(e.keyval) && (composing || converting) {
            KeyAction::Swallow
        } else {
            KeyAction::Pass
        }
    } else if dispatch::commanding(e) {
        KeyAction::Pass
    } else if e.keyval == KEY_TAB || dispatch::is_form_key(e.keyval) {
        dispatch::action_of(converting, composing, e, wide)
    } else if converting {
        match dispatch::action_in_conversion(e.keyval, dispatch::shifted(e)) {
            Some(a) => a,
            None => match dispatch::printed(e.keyval) {
                Some(c) => match client_action_of_char(c, wide) {
                    Some(a) => a,
                    None => KeyAction::CommitQuietly,
                },
                None => KeyAction::Pass,
            },
        }
    } else if e.keyval == KEY_SPACE || e.keyval == KEY_RETURN || e.keyval == KEY_ESCAPE || e.keyval
        == KEY_BACKSPACE || dispatch::is_navigation(e.keyval) {
        dispatch::action_at_rest(e.keyval, composing, wide)
    } else {
        match dispatch::printed(e.keyval) {
            Some(c) => match client_action_of_char(c, wide) {
                Some(a) => a,
                None => KeyAction::Pass,
            },
            None => KeyAction::Pass,
        }
    }
}

/// The meaning of a key to a client can always be carried out in the state it was
/// decided for; at rest it may be the start of a conversion.
pub proof fn law_client_actions_apply(v: EngineView, e: KeyEvent, wide: Option<char>)
    ensures
        ({
            let action = client_action_of(
                v.conversion is Some,
                dispatch::shown(v.typed).len() > 0,
                e,
                wide,
            );
            dispatch::applies(v, action) || (action == KeyAction::StartConversion
                && v.conversion is None)
        }),
{
}

/// A pressed key means to a client what it means elsewhere, but for capital letters,
/// for the space bar with Shift, and for keys that would only be held back.
pub proof fn law_client_shares_meanings(
    converting: bool,
    composing: bool,
    e: KeyEvent,
    wide: Option<char>,
)
    requires
        !dispatch::released(e),
        !(0x41 <= e.keyval <= 0x5a),
        !(e.keyval == 0x20 && dispatch::shifted(e)),
        dispatch::action_of(converting, composing, e, wide) != KeyAction::Swallow,
    ensures
        client_action_of(converting, composing, e, wide) == dispatch::action_of(
            converting,
            composing,
            e,
            wide,
        ),
{
}

/// A pressed key that is held back elsewhere reaches the application from a client,
/// unless it is an arrow or page key while something is typed.
pub proof fn law_client_lets_other_keys_pass(
    converting: bool,
    composing: bool,
    e: KeyEvent,
    wide: Option<char>,
)
    requires
        !dispatch::released(e),
        dispatch::action_of(converting, composing, e, wide) == KeyAction::Swallow,
    ensures
        client_action_of(converting, composing, e, wide) == (if !converting && 0xFF51 <= e.keyval
            <= 0xFF56 {
            KeyAction::Swallow
        } else {
            KeyAction::Pass
        }),
{
}

/// Capital letters are typed as small ones, and Shift makes no difference to the
/// space bar.
pub proof fn law_client_ignores_case(
    converting: bool,
    composing: bool,
    e: KeyEvent,
    wide: Option<char>,
)
    requires
        !dispatch::released(e),
        !dispatch::commanding(e),
    ensures
        0x41 <= e.keyval <= 0x5a ==> client_action_of(converting, composing, e, wide)
            == KeyAction::Type((e.keyval + 32) as char),
        e.keyval == 0x20 ==> client_action_of(converting, composing, e, wide) == (if converting {
            KeyAction::Cycle(1)
        } else {
            KeyAction::StartConversion
        }),
{
}

/// A key that is let go reaches the application, but for F6 to F10 while there is
/// something typed or converted.
pub proof fn law_client_lets_releases_pass(
    converting: bool,
    composing: bool,
    e: KeyEvent,
    wide: Option<char>,
)
    requires
        dispatch::released(e),
    ensures
        client_action_of(converting, composing, e, wide) == (if 0xFFC3 <= e.keyval <= 0xFFC7 && (
        converting || composing) {
            KeyAction::Swallow
        } else {
            KeyAction::Pass
        }),
{
}

/// Escape and Backspace give a client's conversion up: nothing is committed, the
/// conversion is gone, and what was typed is there as before.
pub proof fn law_client_escape_gives_up(
    d: Seq<EntryView>,
    logs: NanoTable,
    scorer: UserScorer,
    v: EngineView,
    e: KeyEvent,
    wide: Option<char>,
    reply: KanaReply,
)
    requires
        engine::engine_ok(v),
        v.conversion is Some,
        !dispatch::released(e),
        !dispatch::commanding(e),
        e.keyval == 0xFF1B || e.keyval == 0xFF08,
    ensures
        ({
            let action = client_action_of(true, dispatch::shown(v.typed).len() > 0, e, wide);
            let out = dispatch::outcome_of(v, action, reply);
            let w = dispatch::engine_after(d, logs, scorer, v, action, reply);
            &&& out.consumed
            &&& out.commit is None
            &&& w.conversion is None
            &&& w.typed == v.typed
        }),
{
}

/// What a printable character does.
fn client_char(c: char, wide: Option<char>) -> (action: Option<KeyAction>)
    ensures
        action == client_action_of_char(c, wide),
{
    if ('a' <= c && c <= 'z') || ('A' <= c && c <= 'Z') || c == '-' || c == '\'' {
        Some(KeyAction::Type(small_letter(c)))
    } else if c == ' ' {
        None
    } else {
        match wide {
            Some(w) => Some(KeyAction::Insert(w)),
            None => None,
        }
    }
}

/// What a key means in a conversion.
fn handle_conversion_key(keyval: u32, shift: bool, wide: Option<char>) -> (action: KeyAction)
    ensures
        action == (match dispatch::action_in_conversion(keyval, shift) {
            Some(a) => a,
            None => match dispatch::printed(keyval) {
                Some(c) => match client_action_of_char(c, wide) {
                    Some(a) => a,
                    None => KeyAction::CommitQuietly,
                },
                None => KeyAction::Pass,
            },
        }),
{
    match conversion_key(keyval, shift) {
        Some(a) => a,
        None => match printable_char(keyval) {
            Some(c) => match client_char(c, wide) {
                Some(a) => a,
                None => KeyAction::CommitQuietly,
            },
            None => KeyAction::Pass,
        },
    }
}

/// What a key means to a client. `wide` is the wide form of the character that
/// the key stands for, where it has one.
pub fn client_key_action(
    converting: bool,
    composing: bool,
    event: KeyEvent,
    wide: Option<char>,
) -> (action: KeyAction)
    ensures
        action == client_action_of(converting, composing, event, wide),
{
    let keyval: u32 = event.keyval;
    let form: Option<(usize, KanaForm)> = fkey_to_form(keyval);
    if event.is_release() {
        return if (keyval == KEY_F6 || form.is_some()) && (composing || converting) {
            KeyAction::Swallow
        } else {
            KeyAction::Pass
        };
    }
    if event.has_ctrl_alt() {
        return KeyAction::Pass;
    }
    if keyval == KEY_TAB {
        return if converting {
            KeyAction::CommitConversion
        } else if composing {
            KeyAction::CommitPreedit
        } else {
            KeyAction::Pass
        };
    }
    if keyval == KEY_F6 {
        return kana_form_key(converting, 0, KanaForm::Hiragana);
    }
    match form {
        Some((number, f)) => {
            return kana_form_key(converting, number, f);
        },
        None => {},
    }
    if converting {
        return handle_conversion_key(keyval, event.has_shift(), wide);
    }
    if keyval == KEY_SPACE || keyval == KEY_RETURN || keyval == KEY_ESCAPE || keyval
        == KEY_BACKSPACE || keyval == KEY_LEFT || keyval == KEY_RIGHT || keyval == KEY_UP || keyval
        == KEY_DOWN || keyval == KEY_PAGE_UP || keyval == KEY_PAGE_DOWN {
        return resting_key(keyval, composing, wide);
    }
    match printable_char(keyval) {
        Some(c) => match client_char(c, wide) {
            Some(a) => a,
            None => KeyAction::Pass,
        },
        None => KeyAction::Pass,
    }
}

/// What a key did for a client.
pub struct HandledKey {
    /// Whether the key was used and must not reach the application.
    pub consumed: bool,
    /// A conversion that was committed; the choices in it are to be learned.
    pub committed: Option<Committed>,
    /// Whether a reordering of the candidates is to be started.
    pub reorder: bool,
}

/// An engine that serves a client.
pub struct BonolithContext {
    /// The engine.
    pub engine: ConversionEngine,
    /// Committed text that was not collected yet.
    pub pending_commit: Option<String>,
}

/// The state behind a client.
#[verifier::ext_equal]
pub struct ContextView {
    pub engine: EngineView,
    pub pending_commit: Option<Seq<char>>,
}

impl View for BonolithContext {
    type V = ContextView;

    open spec fn view(&self) -> ContextView {
        ContextView {
            engine: self.engine@,
            pending_commit: dispatch::optional_text(self.pending_commit),
        }
    }
}

/// Text that waits to be collected, after another text may have been committed.
pub open spec fn kept(before: Option<Seq<char>>, commit: Option<Seq<char>>) -> Option<Seq<char>> {
    match commit {
        Some(t) => Some(t),
        None => before,
    }
}

/// A number as a client sees it.
pub open spec fn narrow(n: int) -> i32 {
    n as i32
}

/// The focused segment.
pub open spec fn focused(c: ConversionView) -> conversion::SegmentStateView {
    c.segments[c.focus]
}

/// The state behind a client after everything typed was committed.
pub open spec fn input_committed(v: ContextView) -> ContextView {
    match v.engine.conversion {
        Some(_) => ContextView {
            engine: dispatch::after_commit(v.engine),
            pending_commit: Some(dispatch::converted(v.engine)),
        },
        None => if dispatch::shown(v.engine.typed).len() > 0 {
            ContextView {
                engine: EngineView { typed: engine::nothing_typed(), ..v.engine },
                pending_commit: Some(dispatch::shown(v.engine.typed)),
            }
        } else {
            v
        },
    }
}

/// Is this what there is to draw?
pub open spec fn shows(s: BonolithUiState, v: ContextView) -> bool {
    &&& dispatch::optional_text(s.committed) == v.pending_commit
    &&& s.converting == v.engine.conversion is Some
    &&& match v.engine.conversion {
        Some(c) => {
            &&& s.has_preedit
            &&& dispatch::optional_text(s.preedit) == Some(conversion::composed(c.segments))
            &&& s.segments@.len() == (if c.segments.len() < 32 {
                c.segments.len() as int
            } else {
                32
            })
            &&& s.segment_count == s.segments@.len()
            &&& s.focus_index == narrow(c.focus)
            &&& forall|i: int|
                0 <= i < s.segments@.len() ==> {
                    let r = conversion::range_at(c.segments, i);
                    &&& (#[trigger] s.segments@[i]).start_chars == narrow(r.0)
                    &&& s.segments@[i].char_len == narrow(r.1 - r.0)
                }
            &&& conversion::texts(s.candidates@) == merge::first(focused(c).candidates, 64)
            &&& s.candidate_count == s.candidates@.len()
            &&& s.selected_index == narrow(focused(c).selected)
        },
        None => {
            let text = dispatch::shown(v.engine.typed);
            &&& s.has_preedit == (text.len() > 0)
            &&& dispatch::optional_text(s.preedit) == (if text.len() > 0 {
                Some(text)
            } else {
                None
            })
            &&& s.segment_count == 0
            &&& s.focus_index == 0
            &&& s.segments@.len() == 0
            &&& s.candidate_count == 0
            &&& s.selected_index == 0
            &&& s.candidates@.len() == 0
        },
    }
}

impl BonolithContext {
    /// An engine with nothing typed and nothing committed.
    pub fn new() -> (ctx: BonolithContext)
        ensures
            ctx@ == (ContextView {
                engine: (EngineView {
                    typed: engine::nothing_typed(),
                    conversion: None,
                    reranked: None,
                    inflight: false,
                }),
                pending_commit: None,
            }),
    {
        BonolithContext { engine: ConversionEngine::new(), pending_commit: None }
    }

    /// What a key means now.
    pub fn action(&self, keyval: u32, state: u32, wide: Option<char>) -> (action: KeyAction)
        ensures
            action == client_action_of(
                self@.engine.conversion is Some,
                dispatch::shown(self@.engine.typed).len() > 0,
                (KeyEvent { keyval, state }),
                wide,
            ),
    {
        client_key_action(self.is_converting(), self.has_preedit(), KeyEvent { keyval, state }, wide)
    }

    /// Carries out the meaning of a key. Text that it commits waits to be
    /// collected.
    pub fn handle_key(
        &mut self,
        dict: &Dictionary,
        scorer: &UserScorer,
        action: KeyAction,
        reply: KanaReply,
    ) -> (result: HandledKey)
        requires
            engine::engine_ok(old(self)@.engine),
            dispatch::applies(old(self)@.engine, action),
            dict.wf(),
            scorer.wf(),
        ensures
            engine::engine_ok(final(self)@.engine),
            final(self)@ == (ContextView {
                engine: dispatch::engine_after(
                    dict@,
                    dict.log_table(),
                    *scorer,
                    old(self)@.engine,
                    action,
                    reply,
                ),
                pending_commit: kept(
                    old(self)@.pending_commit,
                    dispatch::outcome_of(old(self)@.engine, action, reply).commit,
                ),
            }),
            result.consumed == dispatch::outcome_of(old(self)@.engine, action, reply).consumed,
            result.reorder == dispatch::calls_for_reorder(old(self)@.engine, action),
            match result.committed {
                Some(c) => dispatch::commits_conversion(old(self)@.engine, action)
                    && dispatch::records_commit(c, old(self)@.engine),
                None => !dispatch::commits_conversion(old(self)@.engine, action),
            },
    {
        let result: KeyResult = dispatch_key(&mut self.engine, dict, scorer, action, reply);
        let consumed: bool = result.outcome.consumed;
        match result.outcome.commit {
            Some(text) => {
                self.pending_commit = Some(text);
            },
            None => {},
        }
        HandledKey { consumed, committed: result.committed, reorder: result.reorder }
    }

    /// Starts a conversion with the segmentation that a plan settles on. Tells
    /// whether there was one to start.
    pub fn begin(
        &mut self,
        plan: Option<SegmentationPlan>,
        verdict: Option<(i64, i64)>,
        scorer: &UserScorer,
    ) -> (consumed: bool)
        requires
            engine::engine_ok(old(self)@.engine),
            scorer.wf(),
            plan matches Some(p) ==> p.wf() && engine::covers(p, old(self)@.engine.typed.kana)
                && old(self)@.engine.typed.kana.len() > 0,
        ensures
            engine::engine_ok(final(self)@.engine),
            consumed == plan is Some,
            final(self)@.pending_commit == old(self)@.pending_commit,
            match plan {
                None => final(self)@ == old(self)@,
                Some(p) => final(self)@.engine == engine::awaiting_rerank(
                    engine::with_conversion(
                        old(self)@.engine,
                        engine::fresh_conversion(
                            *scorer,
                            old(self)@.engine.typed.kana,
                            crate::alternatives::settled(
                                crate::alternatives::alternative_views(p.alternatives@),
                                p.best as int,
                                verdict,
                            ),
                        ),
                    ),
                ),
            },
    {
        begin_conversion(&mut self.engine, plan, verdict, scorer).consumed
    }

    /// What was typed.
    pub fn get_preedit(&self) -> (text: String)
        ensures
            text@ == dispatch::shown(self@.engine.typed),
    {
        self.engine.preedit()
    }

    /// Collects committed text.
    pub fn poll_commit(&mut self) -> (text: Option<String>)
        ensures
            dispatch::optional_text(text) == old(self)@.pending_commit,
            final(self)@ == (ContextView { pending_commit: None, ..old(self)@ }),
    {
        self.pending_commit.take()
    }

    /// Is a conversion going on?
    pub fn is_converting(&self) -> (yes: bool)
        ensures
            yes == self@.engine.conversion is Some,
    {
        self.engine.conversion_state().is_some()
    }

    /// Is a reordering awaited?
    pub fn rerank_pending(&self) -> (yes: bool)
        ensures
            yes == self@.engine.inflight,
    {
        self.engine.rerank_inflight()
    }

    /// Applies a reordering that is there. Tells whether candidates changed.
    pub fn poll_apply_rerank(&mut self) -> (updated: bool)
        requires
            engine::engine_ok(old(self)@.engine),
        ensures
            engine::engine_ok(final(self)@.engine),
            final(self)@ == (ContextView {
                engine: engine::rerank_applied(old(self)@.engine),
                ..old(self)@
            }),
            updated == (final(self)@.engine.conversion != old(self)@.engine.conversion),
    {
        self.engine.apply_llm_rerank()
    }

    /// Was anything typed?
    pub fn has_preedit(&self) -> (yes: bool)
        ensures
            yes == (dispatch::shown(self@.engine.typed).len() > 0),
    {
        !self.engine.preedit().as_str().is_empty()
    }

    /// The composed text of the conversion; empty without one.
    pub fn composed_text(&self) -> (text: String)
        requires
            engine::engine_ok(self@.engine),
        ensures
            text@ == (match self@.engine.conversion {
                Some(c) => conversion::composed(c.segments),
                None => Seq::empty(),
            }),
    {
        match self.engine.conversion_state() {
            Some(s) => s.composed_text(),
            None => String::new(),
        }
    }

    /// The number of segments of the conversion; 0 without one.
    pub fn segment_count(&self) -> (n: i32)
        ensures
            n == (match self@.engine.conversion {
                Some(c) => narrow(c.segments.len() as int),
                None => 0,
            }),
    {
        match self.engine.conversion_state() {
            Some(s) => s.segments.len() as i32,
            None => 0,
        }
    }

    /// The position of the focused segment; 0 without a conversion.
    pub fn focus_index(&self) -> (n: i32)
        ensures
            n == (match self@.engine.conversion {
                Some(c) => narrow(c.focus),
                None => 0,
            }),
    {
        match self.engine.conversion_state() {
            Some(s) => s.focus as i32,
            None => 0,
        }
    }

    /// Where a segment lies in the composed text, if there is such a segment.
    fn range(&self, seg: i32) -> (range: Option<(usize, usize)>)
        requires
            engine::engine_ok(self@.engine),
        ensures
            match self@.engine.conversion {
                Some(c) => if 0 <= seg < c.segments.len() {
                    range matches Some(r) && (r.0 as int, r.1 as int) == conversion::range_at(
                        c.segments,
                        seg as int,
                    ) && r.0 <= r.1
                } else {
                    range is None
                },
                None => range is None,
            },
    {
        match self.engine.conversion_state() {
            Some(s) => {
                let ranges: Vec<(usize, usize)> = s.segment_char_ranges();
                if seg < 0 || seg as usize >= ranges.len() {
                    return None;
                }
                let r: (usize, usize) = ranges[seg as usize];
                proof {
                    conversion::law_ranges_cover_text(s@, seg as int);
                    assert((ranges@[seg as int].0 as int, ranges@[seg as int].1 as int)
                        == conversion::range_at(s@.segments, seg as int));
                }
                Some(r)
            },
            None => None,
        }
    }

    /// Where a segment starts in the composed text; 0 if there is no such
    /// segment.
    pub fn segment_start_chars(&self, seg: i32) -> (n: i32)
        requires
            engine::engine_ok(self@.engine),
        ensures
            n == (match self@.engine.conversion {
                Some(c) => if 0 <= seg < c.segments.len() {
                    narrow(conversion::range_at(c.segments, seg as int).0)
                } else {
                    0
                },
                None => 0,
            }),
    {
        match self.range(seg) {
            Some((start, _)) => start as i32,
            None => 0,
        }
    }

    /// How long a segment is in the composed text; 0 if there is no such
    /// segment.
    pub fn segment_char_len(&self, seg: i32) -> (n: i32)
        requires
            engine::engine_ok(self@.engine),
        ensures
            n == (match self@.engine.conversion {
                Some(c) => if 0 <= seg < c.segments.len() {
                    let r = conversion::range_at(c.segments, seg as int);
                    narrow(r.1 - r.0)
                } else {
                    0
                },
                None => 0,
            }),
    {
        match self.range(seg) {
            Some((start, end)) => (end - start) as i32,
            None => 0,
        }
    }

    /// The number of candidates of the focused segment; 0 without a conversion.
    pub fn candidate_count(&self) -> (n: i32)
        requires
            engine::engine_ok(self@.engine),
        ensures
            n == (match self@.engine.conversion {
                Some(c) => narrow(focused(c).candidates.len() as int),
                None => 0,
            }),
    {
        match self.engine.conversion_state() {
            Some(s) => {
                assert(s@.segments[s.focus as int] == s.segments@[s.focus as int]@);
                s.segments[s.focus].candidates.len() as i32
            },
            None => 0,
        }
    }

    /// A candidate of the focused segment; empty if there is no such candidate.
    pub fn candidate_text(&self, index: i32) -> (text: String)
        requires
            engine::engine_ok(self@.engine),
        ensures
            text@ == (match self@.engine.conversion {
                Some(c) => if 0 <= index < focused(c).candidates.len() {
                    focused(c).candidates[index as int]
                } else {
                    Seq::empty()
                },
                None => Seq::empty(),
            }),
    {
        match self.engine.conversion_state() {
            Some(s) => {
                let seg = &s.segments[s.focus];
                assert(s@.segments[s.focus as int] == seg@);
                assert(seg@.candidates.len() == seg.candidates@.len());
                if index < 0 || index as usize >= seg.candidates.len() {
                    String::new()
                } else {
                    seg.candidates[index as usize].clone()
                }
            },
            None => String::new(),
        }
    }

    /// The position of the chosen candidate of the focused segment; 0 without a
    /// conversion.
    pub fn selected_index(&self) -> (n: i32)
        requires
            engine::engine_ok(self@.engine),
        ensures
            n == (match self@.engine.conversion {
                Some(c) => narrow(focused(c).selected),
                None => 0,
            }),
    {
        match self.engine.conversion_state() {
            Some(s) => {
                assert(s@.segments[s.focus as int] == s.segments@[s.focus as int]@);
                s.segments[s.focus].selected as i32
            },
            None => 0,
        }
    }

    /// Forgets everything that was typed, converted or committed.
    pub fn reset(&mut self)
        requires
            engine::engine_ok(old(self)@.engine),
        ensures
            engine::engine_ok(final(self)@.engine),
            final(self)@ == (ContextView {
                engine: dispatch::after_commit(old(self)@.engine),
                pending_commit: None,
            }),
    {
        self.engine.reset();
        self.engine.clear_conversion();
        self.pending_commit = None;
    }

    /// Commits the conversion, or else what was typed, so that nothing gets lost
    /// when the focus does.
    pub fn commit_input(&mut self) -> (committed: Option<Committed>)
        requires
            engine::engine_ok(old(self)@.engine),
        ensures
            engine::engine_ok(final(self)@.engine),
            final(self)@ == input_committed(old(self)@),
            match committed {
                Some(c) => old(self)@.engine.conversion is Some && dispatch::records_commit(
                    c,
                    old(self)@.engine,
                ),
                None => old(self)@.engine.conversion is None,
            },
    {
        if self.is_converting() {
            match self.engine.commit_conversion() {
                Some(c) => {
                    self.pending_commit = Some(c.text.clone());
                    Some(c)
                },
                None => None,
            }
        } else {
            let text: String = self.engine.preedit();
            if !text.as_str().is_empty() {
                self.engine.commit(text.as_str());
                self.pending_commit = Some(text);
            }
            None
        }
    }

    /// All there is to draw. Committed text is collected with it.
    pub fn get_ui_state(&mut self) -> (state: BonolithUiState)
        requires
            engine::engine_ok(old(self)@.engine),
        ensures
            final(self)@ == (ContextView { pending_commit: None, ..old(self)@ }),
            shows(state, old(self)@),
    {
        let committed: Option<String> = self.pending_commit.take();
        match self.engine.conversion_state() {
            Some(s) => conversion_ui(s, committed),
            None => {
                let text: String = self.engine.preedit();
                let has_preedit: bool = !text.as_str().is_empty();
                BonolithUiState {
                    committed,
                    converting: false,
                    has_preedit,
                    preedit: if has_preedit {
                        Some(text)
                    } else {
                        None
                    },
                    segment_count: 0,
                    focus_index: 0,
                    segments: Vec::new(),
                    candidate_count: 0,
                    selected_index: 0,
                    candidates: Vec::new(),
                }
            },
        }
    }
}

/// What there is to draw of a conversion.
fn conversion_ui(s: &ConversionState, committed: Option<String>) -> (state: BonolithUiState)
    requires
        conversion::conversion_ok(s@),
    ensures
        forall|v: ContextView|
            #![trigger shows(state, v)]
            v.engine.conversion == Some(s@) && v.pending_commit == dispatch::optional_text(
                committed,
            ) ==> shows(state, v),
{
    let ghost segs = s@.segments;
    let ranges: Vec<(usize, usize)> = s.segment_char_ranges();
    let mut segments: Vec<BonolithSegmentInfo> = Vec::new();
    let mut i: usize = 0;
    while i < ranges.len() && i < MAX_SEGMENTS
        invariant
            i <= ranges@.len(),
            i <= MAX_SEGMENTS,
            conversion::conversion_ok(s@),
            segs == s@.segments,
            ranges@.len() == segs.len(),
            forall|k: int|
                0 <= k < ranges@.len() ==> ((#[trigger] ranges@[k]).0 as int, ranges@[k].1 as int)
                    == conversion::range_at(segs, k),
            segments@.len() == i,
            forall|k: int|
                0 <= k < i ==> {
                    let r = conversion::range_at(segs, k);
                    &&& (#[trigger] segments@[k]).start_chars == narrow(r.0)
                    &&& segments@[k].char_len == narrow(r.1 - r.0)
                },
        decreases ranges@.len() - i,
    {
        let r: (usize, usize) = ranges[i];
        proof {
            conversion::law_ranges_cover_text(s@, i as int);
            assert((ranges@[i as int].0 as int, ranges@[i as int].1 as int)
                == conversion::range_at(segs, i as int));
        }
        segments.push(
            BonolithSegmentInfo { start_chars: r.0 as i32, char_len: (r.1 - r.0) as i32 },
        );
        i = i + 1;
    }
    let seg = &s.segments[s.focus];
    let ghost f = focused(s@);
    assert(f == seg@);
    assert(f.candidates.len() == seg.candidates@.len());
    let mut candidates: Vec<String> = Vec::new();
    let mut j: usize = 0;
    while j < seg.candidates.len() && j < MAX_CANDIDATES
        invariant
            j <= seg.candidates@.len(),
            j <= MAX_CANDIDATES,
            f == seg@,
            candidates@.len() == j,
            forall|k: int| 0 <= k < j ==> (#[trigger] candidates@[k])@ == f.candidates[k],
        decreases seg.candidates@.len() - j,
    {
        candidates.push(seg.candidates[j].clone());
        j = j + 1;
    }
    assert(conversion::texts(candidates@) =~= merge::first(f.candidates, 64));
    BonolithUiState {
        committed,
        converting: true,
        has_preedit: true,
        preedit: Some(s.composed_text()),
        segment_count: segments.len() as i32,
        focus_index: s.focus as i32,
        segments,
        candidate_count: candidates.len() as i32,
        selected_index: seg.selected as i32,
        candidates,
    }
}

/// When the focus is lost, the text of a conversion, or else what was typed, waits to be
/// collected and is gone from the engine; with neither nothing changes.
pub proof fn law_nothing_gets_lost(v: ContextView)
    ensures
        ({
            let out = input_committed(v);
            let typed = v.engine.typed.kana + v.engine.typed.pending;
            &&& v.engine.conversion matches Some(c) ==> out.pending_commit == Some(
                conversion::composed(c.segments),
            )
            &&& v.engine.conversion is None && typed.len() > 0 ==> out.pending_commit == Some(typed)
            &&& v.engine.conversion is Some || typed.len() > 0 ==> out.engine.conversion is None
                && out.engine.typed.kana.len() == 0 && out.engine.typed.pending.len() == 0
            &&& v.engine.conversion is None && typed.len() == 0 ==> out == v
        }),
{
}

/// Newly committed text takes the place of text that waits; without any it waits on.
pub proof fn law_latest_commit_waits(before: Option<Seq<char>>, commit: Option<Seq<char>>)
    ensures
        commit is Some ==> kept(before, commit) == commit,
        commit is None ==> kept(before, commit) == before,
{
}

/// What there is to draw of a conversion: its text, up to 32 segments that lie in the
/// text one behind the other, each where its chosen candidate stands, and up to 64
/// candidates of the focused segment.
pub proof fn law_drawn_segments_lie_in_text(s: BonolithUiState, v: ContextView, i: int)
    requires
        shows(s, v),
        engine::engine_ok(v.engine),
        v.engine.conversion is Some,
        conversion::composed(v.engine.conversion->0.segments).len() <= i32::MAX,
    ensures
        ({
            let c = v.engine.conversion->0;
            let text = conversion::composed(c.segments);
            let f = c.segments[c.focus];
            let n = s.segments@.len() as int;
            &&& s.converting && s.has_preedit
            &&& s.preedit matches Some(t) && t@ == text
            &&& n == (if c.segments.len() < 32 {
                c.segments.len() as int
            } else {
                32
            })
            &&& s.segment_count == n
            &&& s.candidate_count == s.candidates@.len()
            &&& s.candidates@.len() == (if f.candidates.len() < 64 {
                f.candidates.len() as int
            } else {
                64
            })
            &&& 0 <= i < s.candidates@.len() ==> s.candidates@[i]@ == f.candidates[i]
            &&& 0 <= i < n ==> {
                let from = s.segments@[i].start_chars as int;
                let len = s.segments@[i].char_len as int;
                &&& 0 <= from && 0 <= len && from + len <= text.len()
                &&& text.subrange(from, from + len) == c.segments[i].candidates[c.segments[i].selected]
                &&& i == 0 ==> from == 0
                &&& i + 1 < n ==> s.segments@[i + 1].start_chars == from + len
            }
        }),
{
    let c = v.engine.conversion->0;
    let f = c.segments[c.focus];
    let n = s.segments@.len() as int;
    assert(conversion::texts(s.candidates@) == merge::first(f.candidates, 64));
    assert(conversion::texts(s.candidates@).len() == s.candidates@.len());
    if 0 <= i < s.candidates@.len() {
        assert(conversion::texts(s.candidates@)[i] == s.candidates@[i]@);
    }
    if 0 <= i < n {
        conversion::law_ranges_cover_text(c, i);
        let r = conversion::range_at(c.segments, i);
        assert(s.segments@[i].start_chars == narrow(r.0));
        if i + 1 < n {
            conversion::law_ranges_cover_text(c, i + 1);
            assert(s.segments@[i + 1].start_chars == narrow(
                conversion::range_at(c.segments, i + 1).0,
            ));
        }
    }
}

} // verus!
