//! What is sent over the input bus to draw text and candidates.
//!
//! Drawn text is committed by the bus when it is hidden or the focus goes. So
//! whenever text is committed or dropped here, an empty text that is not
//! committed is drawn first.
use vstd::prelude::*;

use crate::conversion;
use crate::conversion::{ConversionState, ConversionView};
use crate::dispatch;
use crate::dispatch::{DisplayUpdate, DisplayView, KeyOutcome, OutcomeView};
use crate::scan;
use crate::scan::push_decimal;
use crate::text::char_count;

verus! {

/// The text is dropped when it is hidden.
pub const PREEDIT_CLEAR: u32 = 0;

/// The text is committed when it is hidden.
pub const PREEDIT_COMMIT: u32 = 1;

/// The kind of attribute that underlines text.
pub const ATTRIBUTE_UNDERLINE: u32 = 1;

/// A single underline.
pub const UNDERLINE_SINGLE: u32 = 1;

/// A double underline.
pub const UNDERLINE_DOUBLE: u32 = 2;

/// How many candidates are listed on a page.
pub const PAGE_SIZE: u32 = 9;

/// How often a result of a reordering is looked for.
pub const MAX_POLLS: u32 = 34;

/// How many milliseconds lie between two looks.
pub const POLL_INTERVAL_MS: u64 = 60;

/// An attribute of a stretch of text.
#[derive(Clone, Copy, Debug, PartialEq, Eq, Structural)]
pub struct TextAttribute {
    pub kind: u32,
    pub value: u32,
    pub start: u32,
    pub end: u32,
}

/// Something to send.
#[derive(Debug)]
pub enum Signal {
    /// Commit a text.
    CommitText(String),
    /// Draw a text: the text, its attributes, the place of the cursor, whether
    /// it is visible, and what happens to it when it is hidden.
    UpdatePreedit(String, Vec<TextAttribute>, u32, bool, u32),
    HidePreedit,
    /// List candidates: the candidates, the chosen one, and whether the list is
    /// visible.
    UpdateLookup(Vec<String>, u32, bool),
    HideLookup,
    /// Empty the line beside the text.
    ClearAuxiliary,
    HideAuxiliary,
}

/// The contents of something to send.
#[verifier::ext_equal]
pub enum SignalView {
    CommitText(Seq<char>),
    UpdatePreedit(Seq<char>, Seq<TextAttribute>, u32, bool, u32),
    HidePreedit,
    UpdateLookup(Seq<Seq<char>>, u32, bool),
    HideLookup,
    ClearAuxiliary,
    HideAuxiliary,
}

impl View for Signal {
    type V = SignalView;

    open spec fn view(&self) -> SignalView {
        match self {
            Signal::CommitText(t) => SignalView::CommitText(t@),
            Signal::UpdatePreedit(t, a, c, v, m) => SignalView::UpdatePreedit(t@, a@, *c, *v, *m),
            Signal::HidePreedit => SignalView::HidePreedit,
            Signal::UpdateLookup(l, s, v) => SignalView::UpdateLookup(
                conversion::texts(l@),
                *s,
                *v,
            ),
            Signal::HideLookup => SignalView::HideLookup,
            Signal::ClearAuxiliary => SignalView::ClearAuxiliary,
            Signal::HideAuxiliary => SignalView::HideAuxiliary,
        }
    }
}

/// The contents of a list of signals.
pub open spec fn signal_views(v: Seq<Signal>) -> Seq<SignalView> {
    v.map_values(|s: Signal| s@)
}

/// Everything is hidden.
pub open spec fn hidden() -> Seq<SignalView> {
    seq![SignalView::HidePreedit, SignalView::HideLookup, SignalView::HideAuxiliary]
}

/// An empty text that is not committed is drawn.
pub open spec fn neutralised() -> SignalView {
    SignalView::UpdatePreedit(Seq::empty(), Seq::empty(), 0, false, PREEDIT_CLEAR)
}

/// What was typed and converted is dropped.
pub open spec fn cancelled() -> Seq<SignalView> {
    seq![neutralised()] + hidden()
}

/// A stretch of text is underlined.
pub open spec fn underlined(value: u32, start: int, end: int) -> TextAttribute {
    TextAttribute { kind: ATTRIBUTE_UNDERLINE, value, start: start as u32, end: end as u32 }
}

/// What was typed is drawn.
pub open spec fn preedit_drawn(t: Seq<char>) -> Seq<SignalView> {
    seq![
        SignalView::UpdatePreedit(
            t,
            if t.len() > 0 {
                seq![underlined(UNDERLINE_SINGLE, 0, t.len() as int)]
            } else {
                Seq::empty()
            },
            t.len() as u32,
            t.len() > 0,
            PREEDIT_COMMIT,
        ),
        SignalView::UpdateLookup(Seq::empty(), 0, false),
        SignalView::ClearAuxiliary,
    ]
}

/// The attributes of the composed text: all of it is underlined, and the
/// focused segment twice.
pub open spec fn conversion_attributes(c: ConversionView) -> Seq<TextAttribute> {
    let r = conversion::range_at(c.segments, c.focus);
    seq![
        underlined(UNDERLINE_SINGLE, 0, conversion::composed(c.segments).len() as int),
        underlined(UNDERLINE_DOUBLE, r.0, r.1),
    ]
}

/// A conversion is drawn: its text, and the candidates of the focused segment.
pub open spec fn conversion_drawn(c: ConversionView) -> Seq<SignalView> {
    let t = conversion::composed(c.segments);
    let s = c.segments[c.focus];
    seq![
        SignalView::UpdatePreedit(
            t,
            conversion_attributes(c),
            t.len() as u32,
            true,
            PREEDIT_COMMIT,
        ),
        SignalView::UpdateLookup(s.candidates, s.selected as u32, true),
        SignalView::ClearAuxiliary,
    ]
}

/// The text to commit, with what is drawn before it.
pub open spec fn commit_sent(o: OutcomeView) -> Seq<SignalView> {
    let front = if o.commit is Some || o.display == DisplayView::Cleared {
        seq![neutralised()]
    } else {
        Seq::empty()
    };
    match o.commit {
        Some(t) => front.push(SignalView::CommitText(t)),
        None => front,
    }
}

/// What is drawn. Candidates of a conversion that was committed are hidden
/// before newly typed text is drawn.
pub open spec fn display_sent(o: OutcomeView, c: Option<ConversionView>) -> Seq<SignalView> {
    match o.display {
        DisplayView::Unchanged => Seq::empty(),
        DisplayView::Cleared => hidden(),
        DisplayView::Preedit(t) => (if o.commit is Some {
            seq![SignalView::HideLookup, SignalView::HideAuxiliary]
        } else {
            Seq::empty()
        }) + preedit_drawn(t),
        DisplayView::Conversion => match c {
            Some(v) => conversion_drawn(v),
            None => Seq::empty(),
        },
    }
}

/// Hides everything.
fn push_hidden(out: &mut Vec<Signal>)
    ensures
        signal_views(final(out)@) == signal_views(old(out)@) + hidden(),
{
    let ghost before = signal_views(out@);
    out.push(Signal::HidePreedit);
    out.push(Signal::HideLookup);
    out.push(Signal::HideAuxiliary);
    assert(signal_views(out@) =~= before + hidden());
}

/// Draws an empty text that is not committed.
fn push_neutralised(out: &mut Vec<Signal>)
    ensures
        signal_views(final(out)@) == signal_views(old(out)@).push(neutralised()),
{
    let ghost before = signal_views(out@);
    let empty: String = String::new();
    let attributes: Vec<TextAttribute> = Vec::new();
    let signal: Signal = Signal::UpdatePreedit(empty, attributes, 0, false, PREEDIT_CLEAR);
    proof {
        assert(empty@ =~= Seq::<char>::empty());
        assert(attributes@ =~= Seq::<TextAttribute>::empty());
        assert(signal@ == neutralised());
    }
    out.push(signal);
    assert(signal_views(out@) =~= before.push(neutralised()));
}

/// Drops what was typed and converted.
pub fn cancel_signals() -> (out: Vec<Signal>)
    ensures
        signal_views(out@) == cancelled(),
{
    let mut out: Vec<Signal> = Vec::new();
    push_neutralised(&mut out);
    push_hidden(&mut out);
    assert(signal_views(out@) =~= cancelled());
    out
}

/// Hides everything.
pub fn hide_signals() -> (out: Vec<Signal>)
    ensures
        signal_views(out@) == hidden(),
{
    let mut out: Vec<Signal> = Vec::new();
    push_hidden(&mut out);
    assert(signal_views(out@) =~= hidden());
    out
}

/// Draws what was typed.
fn push_preedit(out: &mut Vec<Signal>, text: String)
    ensures
        signal_views(final(out)@) == signal_views(old(out)@) + preedit_drawn(text@),
{
    let ghost before = signal_views(out@);
    let ghost t = text@;
    let n: usize = char_count(text.as_str());
    let cursor: u32 = n as u32;
    let mut attributes: Vec<TextAttribute> = Vec::new();
    if n > 0 {
        attributes.push(
            TextAttribute {
                kind: ATTRIBUTE_UNDERLINE,
                value: UNDERLINE_SINGLE,
                start: 0,
                end: cursor,
            },
        );
    }
    let ghost av = attributes@;
    let none: Vec<String> = Vec::new();
    assert(conversion::texts(none@) =~= Seq::<Seq<char>>::empty());
    out.push(Signal::UpdatePreedit(text, attributes, cursor, n > 0, PREEDIT_COMMIT));
    out.push(Signal::UpdateLookup(none, 0, false));
    out.push(Signal::ClearAuxiliary);
    proof {
        if n > 0 {
            assert(av =~= seq![underlined(UNDERLINE_SINGLE, 0, t.len() as int)]);
        } else {
            assert(av =~= Seq::<TextAttribute>::empty());
        }
        assert(signal_views(out@) =~= before + preedit_drawn(t));
    }
}

/// Draws a conversion.
fn push_conversion(out: &mut Vec<Signal>, state: &ConversionState)
    requires
        conversion::conversion_ok(state@),
    ensures
        signal_views(final(out)@) == signal_views(old(out)@) + conversion_drawn(state@),
{
    let ghost before = signal_views(out@);
    let ghost c = state@;
    let text: String = state.composed_text();
    let ghost t = text@;
    let cursor: u32 = char_count(text.as_str()) as u32;
    let ranges: Vec<(usize, usize)> = state.segment_char_ranges();
    let focus: usize = state.focus;
    assert((ranges@[focus as int].0 as int, ranges@[focus as int].1 as int)
        == conversion::range_at(c.segments, focus as int));
    let mut attributes: Vec<TextAttribute> = Vec::new();
    attributes.push(
        TextAttribute {
            kind: ATTRIBUTE_UNDERLINE,
            value: UNDERLINE_SINGLE,
            start: 0,
            end: cursor,
        },
    );
    attributes.push(
        TextAttribute {
            kind: ATTRIBUTE_UNDERLINE,
            value: UNDERLINE_DOUBLE,
            start: ranges[focus].0 as u32,
            end: ranges[focus].1 as u32,
        },
    );
    assert(attributes@ =~= conversion_attributes(c));
    let seg = &state.segments[focus];
    assert(seg@ == c.segments[focus as int]);
    let mut list: Vec<String> = Vec::new();
    let mut i: usize = 0;
    while i < seg.candidates.len()
        invariant
            i <= seg.candidates@.len(),
            list@.len() == i,
            forall|k: int| 0 <= k < i ==> (#[trigger] list@[k])@ == seg.candidates@[k]@,
        decreases seg.candidates@.len() - i,
    {
        list.push(seg.candidates[i].clone());
        i = i + 1;
    }
    assert(conversion::texts(list@) =~= seg@.candidates);
    out.push(Signal::UpdatePreedit(text, attributes, cursor, true, PREEDIT_COMMIT));
    out.push(Signal::UpdateLookup(list, seg.selected as u32, true));
    out.push(Signal::ClearAuxiliary);
    assert(signal_views(out@) =~= before + conversion_drawn(c));
}

/// Draws a conversion.
pub fn conversion_signals(state: &ConversionState) -> (out: Vec<Signal>)
    requires
        conversion::conversion_ok(state@),
    ensures
        signal_views(out@) == conversion_drawn(state@),
{
    let mut out: Vec<Signal> = Vec::new();
    push_conversion(&mut out, state);
    assert(signal_views(out@) =~= conversion_drawn(state@));
    out
}

/// What to send for the outcome of a key. `state` is the conversion that is
/// going on.
pub fn outcome_signals(outcome: KeyOutcome, state: Option<&ConversionState>) -> (out: Vec<Signal>)
    requires
        state matches Some(s) ==> conversion::conversion_ok(s@),
    ensures
        signal_views(out@) == commit_sent(outcome@) + display_sent(
            outcome@,
            match state {
                Some(s) => Some(s@),
                None => None,
            },
        ),
{
    let ghost o = outcome@;
    let mut out: Vec<Signal> = Vec::new();
    let had_commit: bool = outcome.commit.is_some();
    let cleared: bool = match outcome.display {
        DisplayUpdate::Cleared => true,
        _ => false,
    };
    assert(signal_views(out@) =~= Seq::<SignalView>::empty());
    if had_commit || cleared {
        push_neutralised(&mut out);
        assert(signal_views(out@) =~= seq![neutralised()]);
    }
    match outcome.commit {
        Some(text) => {
            let ghost t = text@;
            let ghost before = signal_views(out@);
            out.push(Signal::CommitText(text));
            assert(signal_views(out@) =~= before.push(SignalView::CommitText(t)));
        },
        None => {},
    }
    let ghost front = signal_views(out@);
    assert(front == commit_sent(o));
    match outcome.display {
        DisplayUpdate::Unchanged => {
            assert(front + Seq::<SignalView>::empty() =~= front);
        },
        DisplayUpdate::Cleared => {
            push_hidden(&mut out);
        },
        DisplayUpdate::Preedit(text) => {
            if had_commit {
                out.push(Signal::HideLookup);
                out.push(Signal::HideAuxiliary);
                assert(signal_views(out@) =~= front + seq![
                    SignalView::HideLookup,
                    SignalView::HideAuxiliary,
                ]);
            }
            let ghost t = text@;
            push_preedit(&mut out, text);
            assert(signal_views(out@) =~= front + display_sent(
                o,
                match state {
                    Some(s) => Some(s@),
                    None => None,
                },
            ));
        },
        DisplayUpdate::Conversion => match state {
            Some(s) => {
                push_conversion(&mut out, s);
            },
            None => {
                assert(front + Seq::<SignalView>::empty() =~= front);
            },
        },
    }
    out
}

/// The label of a candidate in the list: its number, counted from 1, and a
/// full stop.
pub open spec fn label_of(i: int) -> Seq<char> {
    scan::decimal((i + 1) as nat) + "."@
}

/// The label of a candidate in the list.
pub fn candidate_label(i: usize) -> (label: String)
    requires
        i < usize::MAX,
    ensures
        label@ == label_of(i as int),
{
    let mut label: String = String::new();
    push_decimal(&mut label, (i + 1) as u64);
    label.append(".");
    assert(label@ =~= label_of(i as int));
    label
}

/// Is there reason to wait on for the result of a reordering, after so many
/// looks?
pub fn keep_polling(polls: u32, ready: bool) -> (yes: bool)
    ensures
        yes == (!ready && polls < 34),
{
    !ready && polls < MAX_POLLS
}

/// Whenever text is committed, and whenever everything is hidden, an empty text
/// that is not committed is drawn first: nothing is inserted twice.
pub proof fn law_commit_is_not_doubled(o: OutcomeView, c: Option<ConversionView>)
    requires
        o.commit is Some || o.display == DisplayView::Cleared,
    ensures
        (commit_sent(o) + display_sent(o, c)).len() > 0,
        (commit_sent(o) + display_sent(o, c))[0] == neutralised(),
{
}

/// Cancelling commits nothing: the drawn text is emptied before it is hidden.
pub proof fn law_cancel_commits_nothing()
    ensures
        cancelled()[0] == neutralised(),
        forall|i: int| 0 <= i < cancelled().len() ==> !(#[trigger] cancelled()[i] is CommitText),
{
}

/// Text is committed if and only if the outcome has some: once, before anything is
/// drawn, and behind an empty text that replaces what was drawn.
pub proof fn law_commit_is_sent(o: OutcomeView, c: Option<ConversionView>)
    ensures
        ({
            let all = commit_sent(o) + display_sent(o, c);
            &&& o.commit matches Some(t) ==> all.len() >= 2 && all[1] == SignalView::CommitText(t)
                && all[0] == SignalView::UpdatePreedit(Seq::empty(), Seq::empty(), 0, false, 0)
            &&& forall|i: int|
                0 <= i < all.len() && (#[trigger] all[i]) is CommitText ==> i == 1 && o.commit
                    is Some
            &&& o.commit is None && o.display == DisplayView::Unchanged ==> all.len() == 0
        }),
{
    let front = commit_sent(o);
    let back = display_sent(o, c);
    let all = front + back;
    assert forall|i: int| 0 <= i < all.len() && (#[trigger] all[i]) is CommitText implies i == 1
        && o.commit is Some by {
        if i < front.len() {
            assert(all[i] == front[i]);
        } else {
            assert(all[i] == back[i - front.len()]);
        }
    }
}

/// Typed text is drawn with a single underline from its first to its last character
/// and the cursor behind it; no candidates are listed. It is committed when the focus
/// is lost.
pub proof fn law_typed_text_is_drawn(t: Seq<char>, o: OutcomeView, c: Option<ConversionView>)
    requires
        o.display == DisplayView::Preedit(t),
        0 < t.len() <= u32::MAX,
    ensures
        ({
            let out = display_sent(o, c);
            let n = out.len() as int;
            &&& n >= 3
            &&& out[n - 3] == SignalView::UpdatePreedit(
                t,
                seq![TextAttribute { kind: 1, value: 1, start: 0, end: t.len() as u32 }],
                t.len() as u32,
                true,
                1,
            )
            &&& out[n - 2] == SignalView::UpdateLookup(Seq::empty(), 0, false)
            &&& out[n - 1] == SignalView::ClearAuxiliary
            &&& o.commit is None ==> n == 3
            &&& o.commit is Some ==> n == 5 && out[0] == SignalView::HideLookup && out[1]
                == SignalView::HideAuxiliary
        }),
{
}

/// A conversion is drawn as its composed text, all of it underlined once and the
/// focused segment twice, with the candidates of that segment and the chosen one.
pub proof fn law_conversion_is_drawn(o: OutcomeView, c: ConversionView)
    requires
        conversion::conversion_ok(c),
        o.display == DisplayView::Conversion,
    ensures
        ({
            let out = display_sent(o, Some(c));
            let text = conversion::composed(c.segments);
            let before = conversion::composed(c.segments.take(c.focus)).len();
            let chosen = c.segments[c.focus].candidates[c.segments[c.focus].selected];
            &&& out.len() == 3
            &&& out[0] == SignalView::UpdatePreedit(
                text,
                seq![
                    TextAttribute { kind: 1, value: 1, start: 0, end: text.len() as u32 },
                    TextAttribute {
                        kind: 1,
                        value: 2,
                        start: before as u32,
                        end: (before + chosen.len()) as u32,
                    },
                ],
                text.len() as u32,
                true,
                1,
            )
            &&& out[1] == SignalView::UpdateLookup(
                c.segments[c.focus].candidates,
                c.segments[c.focus].selected as u32,
                true,
            )
            &&& out[2] == SignalView::ClearAuxiliary
        }),
{
    let front = c.segments.take(c.focus);
    let more = c.segments.take(c.focus + 1);
    assert(more =~= front.push(c.segments[c.focus]));
    conversion::law_text_is_what_was_chosen(front, c.segments[c.focus]);
}

/// Where everything is cleared, the text, the candidates and the line beside them are
/// hidden; so they are when input is given up, behind an empty text.
pub proof fn law_cleared_means_hidden(o: OutcomeView, c: Option<ConversionView>)
    requires
        o.display == DisplayView::Cleared,
    ensures
        display_sent(o, c) == seq![
            SignalView::HidePreedit,
            SignalView::HideLookup,
            SignalView::HideAuxiliary,
        ],
        cancelled() == seq![
            SignalView::UpdatePreedit(Seq::empty(), Seq::empty(), 0, false, 0),
            SignalView::HidePreedit,
            SignalView::HideLookup,
            SignalView::HideAuxiliary,
        ],
{
}

/// Candidates are numbered from 1, and different ones have different labels.
pub proof fn law_labels_count_from_one(i: int, j: int)
    requires
        0 <= i,
        0 <= j,
    ensures
        label_of(i) == scan::decimal((i + 1) as nat).push('.'),
        i != j ==> label_of(i) != label_of(j),
{
    reveal_strlit(".");
    assert(label_of(i) =~= scan::decimal((i + 1) as nat).push('.'));
    assert(label_of(j) =~= scan::decimal((j + 1) as nat).push('.'));
    scan::law_decimal_round_trip((i + 1) as nat);
    scan::law_decimal_round_trip((j + 1) as nat);
    if label_of(i) == label_of(j) {
        assert(label_of(i).drop_last() =~= scan::decimal((i + 1) as nat));
        assert(label_of(j).drop_last() =~= scan::decimal((j + 1) as nat));
    }
}

} // verus!
