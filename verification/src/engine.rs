//! The conversion engine: what is being typed, the conversion that is going on,
//! and the reordering that runs beside it.
//!
//! Keys become kana outside the engine; it is handed the outcome. Likewise it
//! says what is to be asked of the language model and is handed the answers.
use vstd::prelude::*;

use crate::alternatives;
use crate::alternatives::SegmentationPlan;
use crate::candidates;
use crate::candidates::build_segment_states;
use crate::conversion;
use crate::conversion::{ConversionState, ConversionView, KanaForm, KanaForms, SegmentStateView};
use crate::dictionary::Dictionary;
use crate::entry;
use crate::entry::Segment;
use crate::rerank;
use crate::rerank::{RerankPass, RerankedSegment, RerankedView};
use crate::resize;
use crate::segmentation;
use crate::segmenter;
use crate::segmenter::SegmentBoost;
use crate::sentence::ConversionCandidate;
use crate::text::joined;
use crate::user_scorer::UserScorer;

verus! {

/// What was typed and not committed yet.
pub struct Preedit {
    /// The kana made so far.
    pub kana: String,
    /// Letters that do not make a kana yet.
    pub pending: String,
}

/// The contents of what was typed.
#[verifier::ext_equal]
pub struct PreeditView {
    pub kana: Seq<char>,
    pub pending: Seq<char>,
}

impl View for Preedit {
    type V = PreeditView;

    open spec fn view(&self) -> PreeditView {
        PreeditView { kana: self.kana@, pending: self.pending@ }
    }
}

/// Nothing typed.
pub open spec fn nothing_typed() -> PreeditView {
    PreeditView { kana: Seq::empty(), pending: Seq::empty() }
}

/// What became of a typed key.
#[derive(Debug)]
pub enum EngineAction {
    /// The letter waits for more. Holds the text to show.
    Buffering(String),
    /// Kana came out. Holds the text to show.
    UpdatePreedit(String),
    /// Sentences to choose from.
    ShowCandidates(Vec<ConversionCandidate>),
    /// A text to commit.
    Commit(String),
}

/// The conversion engine.
pub struct ConversionEngine {
    typed: Preedit,
    conversion: Option<ConversionState>,
    reranked: Option<Vec<RerankedSegment>>,
    inflight: bool,
}

/// The state of the engine.
#[verifier::ext_equal]
pub struct EngineView {
    /// What was typed.
    pub typed: PreeditView,
    /// The conversion that is going on.
    pub conversion: Option<ConversionView>,
    /// The result of a reordering that was not applied yet.
    pub reranked: Option<Seq<RerankedView>>,
    /// Whether a reordering is awaited.
    pub inflight: bool,
}

/// The contents of an optional conversion.
pub open spec fn conversion_view(c: Option<ConversionState>) -> Option<ConversionView> {
    match c {
        Some(s) => Some(s@),
        None => None,
    }
}

impl View for ConversionEngine {
    type V = EngineView;

    closed spec fn view(&self) -> EngineView {
        EngineView {
            typed: self.typed@,
            conversion: conversion_view(self.conversion),
            reranked: match self.reranked {
                Some(r) => Some(rerank::reranked_views(r@)),
                None => None,
            },
            inflight: self.inflight,
        }
    }
}

/// A conversion that is going on is in order, and a result that waits offers
/// candidates for every segment.
pub open spec fn engine_ok(v: EngineView) -> bool {
    &&& v.conversion matches Some(c) ==> conversion::conversion_ok(c)
    &&& v.reranked matches Some(r) ==> rerank::all_offered(r)
}

/// The engine with its conversion replaced.
pub open spec fn with_conversion(v: EngineView, c: ConversionView) -> EngineView {
    EngineView { conversion: Some(c), ..v }
}

/// The engine waiting for a new reordering.
pub open spec fn awaiting_rerank(v: EngineView) -> EngineView {
    EngineView { reranked: None, inflight: true, ..v }
}

/// The conversion that segments of the kana start with.
pub open spec fn fresh_conversion(
    scorer: UserScorer,
    kana: Seq<char>,
    segs: Seq<entry::SegmentView>,
) -> ConversionView {
    ConversionView { kana, segments: candidates::fresh_states(scorer, segs), focus: 0 }
}

/// The engine after a resize: if a boundary moved, a new reordering is awaited.
pub open spec fn engine_resized(
    d: Seq<entry::EntryView>,
    logs: crate::nano::NanoTable,
    scorer: UserScorer,
    v: EngineView,
    delta: int,
) -> EngineView {
    match v.conversion {
        Some(c) => if resize::can_resize(c, delta) {
            awaiting_rerank(with_conversion(v, resize::resized(d, logs, scorer, c, delta)))
        } else {
            v
        },
        None => v,
    }
}

/// The engine with the focused segment shown in one of its kana forms.
pub open spec fn focused_in_form(v: EngineView, form: KanaForm, forms: KanaForms) -> EngineView {
    match v.conversion {
        Some(c) => with_conversion(
            v,
            conversion::focus_text_chosen(
                c,
                conversion::form_text(form, c.segments[c.focus].reading, forms),
            ),
        ),
        None => v,
    }
}

/// The engine with the focused segment shown as it is read.
pub open spec fn focused_as_read(v: EngineView) -> EngineView {
    match v.conversion {
        Some(c) => with_conversion(
            v,
            conversion::focus_text_chosen(c, c.segments[c.focus].reading),
        ),
        None => v,
    }
}

/// Does a reordering fit the segments, reading by reading?
pub open spec fn aligned(r: Seq<RerankedView>, segs: Seq<SegmentStateView>) -> bool {
    r.len() == segs.len() && forall|i: int|
        0 <= i < r.len() ==> (#[trigger] r[i]).reading == segs[i].reading
}

/// A segment with its candidates reordered, unless the user has chosen one.
pub open spec fn reordered(s: SegmentStateView, r: RerankedView) -> SegmentStateView {
    if s.user_selected || s.candidates == r.candidates {
        s
    } else {
        SegmentStateView { candidates: r.candidates, selected: 0, ..s }
    }
}

/// The segments with their candidates reordered.
pub open spec fn all_reordered(segs: Seq<SegmentStateView>, r: Seq<RerankedView>) -> Seq<
    SegmentStateView,
> {
    Seq::new(segs.len(), |i: int| reordered(segs[i], r[i]))
}

/// The engine after a reordering was applied. Without a result nothing changes;
/// a result that does not fit the conversion is dropped, and the engine goes on
/// waiting.
pub open spec fn rerank_applied(v: EngineView) -> EngineView {
    match v.reranked {
        None => v,
        Some(r) => match v.conversion {
            None => EngineView { reranked: None, inflight: false, ..v },
            Some(c) => if aligned(r, c.segments) {
                EngineView {
                    conversion: Some(
                        ConversionView { segments: all_reordered(c.segments, r), ..c },
                    ),
                    reranked: None,
                    inflight: false,
                    ..v
                }
            } else {
                EngineView { reranked: None, ..v }
            },
        },
    }
}

/// The choices of the user: reading and text of every segment whose candidate
/// the user chose.
pub open spec fn user_choices(segs: Seq<SegmentStateView>) -> Seq<(Seq<char>, Seq<char>)>
    decreases segs.len(),
{
    if segs.len() == 0 {
        Seq::empty()
    } else {
        let before = user_choices(segs.drop_last());
        if segs.last().user_selected {
            before.push((segs.last().reading, conversion::chosen(segs.last())))
        } else {
            before
        }
    }
}

/// The contents of a list of pairs of texts.
pub open spec fn pair_views(v: Seq<(String, String)>) -> Seq<(Seq<char>, Seq<char>)> {
    v.map_values(|p: (String, String)| (p.0@, p.1@))
}

/// A conversion that was committed.
pub struct Committed {
    /// The text.
    pub text: String,
    /// Reading and text of every choice of the user, to be learned.
    pub choices: Vec<(String, String)>,
    /// The conversion as it was.
    pub state: ConversionState,
}

impl ConversionEngine {
    /// An engine with nothing typed.
    pub fn new() -> (engine: ConversionEngine)
        ensures
            engine@ == (EngineView {
                typed: nothing_typed(),
                conversion: None,
                reranked: None,
                inflight: false,
            }),
    {
        let engine: ConversionEngine = ConversionEngine {
            typed: Preedit { kana: String::new(), pending: String::new() },
            conversion: None,
            reranked: None,
            inflight: false,
        };
        assert(engine@.typed =~= nothing_typed());
        engine
    }

    /// Takes over what was typed.
    pub fn take_typed(&mut self, typed: Preedit)
        ensures
            final(self)@ == (EngineView { typed: typed@, ..old(self)@ }),
    {
        self.typed = typed;
    }

    /// Takes over what a key made of the typed text. `produced` tells whether
    /// it completed a kana.
    pub fn process_key(&mut self, typed: Preedit, produced: bool) -> (action: EngineAction)
        ensures
            final(self)@ == (EngineView { typed: typed@, ..old(self)@ }),
            match action {
                EngineAction::UpdatePreedit(t) => produced && t@ == typed@.kana + typed@.pending,
                EngineAction::Buffering(t) => !produced && t@ == typed@.kana + typed@.pending,
                _ => false,
            },
    {
        self.take_typed(typed);
        if produced {
            EngineAction::UpdatePreedit(self.preedit())
        } else {
            EngineAction::Buffering(self.preedit())
        }
    }

    /// The text to show for what was typed.
    pub fn preedit(&self) -> (text: String)
        ensures
            text@ == self@.typed.kana + self@.typed.pending,
    {
        joined(self.typed.kana.as_str(), self.typed.pending.as_str())
    }

    /// The kana typed so far.
    pub fn kana(&self) -> (kana: &String)
        ensures
            kana@ == self@.typed.kana,
    {
        &self.typed.kana
    }

    /// The conversion that is going on.
    pub fn conversion_state(&self) -> (state: Option<&ConversionState>)
        ensures
            match state {
                Some(s) => self@.conversion == Some(s@),
                None => self@.conversion is None,
            },
    {
        self.conversion.as_ref()
    }

    /// Ways to segment the typed kana; `None` if no kana was typed. The engine
    /// takes words that the user chose before into account.
    pub fn plan_conversion(&self, dict: &Dictionary, scorer: &UserScorer) -> (plan: Option<
        SegmentationPlan,
    >)
        requires
            dict.wf(),
            scorer.wf(),
        ensures
            plan is None <==> self@.typed.kana.len() == 0,
            plan matches Some(p) ==> {
                &&& p.wf()
                &&& alternatives::alternative_views(p.alternatives@) == alternatives::planned(
                    dict@,
                    segmentation::segmentation(
                        dict@,
                        dict.log_table(),
                        segmenter::bonus_of(*scorer),
                        self@.typed.kana,
                    ),
                )
                &&& p.best == alternatives::best_of(
                    alternatives::alternative_views(p.alternatives@),
                    dict.log_table(),
                )
                &&& covers(p, self@.typed.kana)
            },
    {
        let n: usize = self.typed.kana.as_str().unicode_len();
        if n == 0 {
            return None;
        }
        let base: Vec<Segment> = dict.segment_with_boost(self.typed.kana.as_str(), scorer);
        let ghost bv = entry::segment_views(base@);
        proof {
            alternatives::lemma_tiles_fit(bv, self@.typed.kana, 0);
        }
        let plan: SegmentationPlan = SegmentationPlan::new(&base, dict);
        proof {
            let alts = alternatives::alternative_views(plan.alternatives@);
            assert forall|k: int| 0 <= k < alts.len() implies entry::tiles(
                #[trigger] alts[k],
                self@.typed.kana,
                0,
            ) by {
                if bv.len() > 1 {
                    alternatives::law_alternatives_cover_reading(
                        dict@,
                        bv,
                        self@.typed.kana,
                        0,
                        k,
                    );
                }
            }
        }
        Some(plan)
    }

    /// Starts the conversion of the typed kana with the segmentation that a
    /// plan settles on. `verdict` holds the model's scores of the two
    /// contenders, where the model could be asked.
    pub fn start_conversion(
        &mut self,
        plan: SegmentationPlan,
        verdict: Option<(i64, i64)>,
        scorer: &UserScorer,
    ) -> (state: Option<&ConversionState>)
        requires
            plan.wf(),
            covers(plan, old(self)@.typed.kana),
            old(self)@.typed.kana.len() > 0,
            scorer.wf(),
        ensures
            final(self)@ == awaiting_rerank(
                with_conversion(
                    old(self)@,
                    fresh_conversion(
                        *scorer,
                        old(self)@.typed.kana,
                        alternatives::settled(
                            alternatives::alternative_views(plan.alternatives@),
                            plan.best as int,
                            verdict,
                        ),
                    ),
                ),
            ),
            engine_ok(final(self)@),
            state matches Some(s) && final(self)@.conversion == Some(s@),
    {
        let ghost kana = self@.typed.kana;
        let ghost alts = alternatives::alternative_views(plan.alternatives@);
        let ghost best = plan.best as int;
        let segments: Vec<Segment> = plan.filter_segmentation(verdict);
        let ghost sv = entry::segment_views(segments@);
        proof {
            assert(alts.len() == plan.alternatives@.len());
            assert(entry::tiles(alts[0], kana, 0));
            assert(entry::tiles(alts[best], kana, 0));
            assert(entry::tiles(sv, kana, 0));
            assert forall|i: int| 0 <= i < segments@.len() implies (#[trigger] segments@[i]).start
                + 0 <= usize::MAX by {}
            resize::lemma_fresh_states(*scorer, sv, kana, 0);
        }
        let states = build_segment_states(scorer, &segments, 0);
        let ghost fresh = conversion::state_views(states@);
        let state: ConversionState = ConversionState {
            kana: self.typed.kana.clone(),
            segments: states,
            focus: 0,
        };
        proof {
            assert(fresh =~= candidates::fresh_states(*scorer, sv));
            assert(state@ =~= fresh_conversion(*scorer, kana, sv));
            resize::lemma_starts_fit(fresh);
        }
        self.conversion = Some(state);
        self.reranked = None;
        self.inflight = true;
        self.conversion.as_ref()
    }

    /// Starts a conversion of all the typed kana as one segment, shown in form
    /// number `form`. There is none if no kana was typed.
    pub fn start_kana_conversion(&mut self, forms: &KanaForms, form: usize) -> (state: Option<
        &ConversionState,
    >)
        requires
            engine_ok(old(self)@),
        ensures
            engine_ok(final(self)@),
            final(self)@ == (if old(self)@.typed.kana.len() == 0 {
                old(self)@
            } else {
                with_conversion(
                    old(self)@,
                    conversion::kana_conversion(old(self)@.typed.kana, *forms, form as int),
                )
            }),
            match state {
                Some(s) => old(self)@.typed.kana.len() > 0 && final(self)@.conversion == Some(s@),
                None => old(self)@.typed.kana.len() == 0,
            },
    {
        if self.typed.kana.as_str().unicode_len() == 0 {
            return None;
        }
        self.conversion =
        Some(ConversionState::of_kana_forms(self.typed.kana.as_str(), forms, form));
        self.conversion.as_ref()
    }

    /// Moves the focus to the next segment (`delta` above 0) or to the previous
    /// one, around the ends.
    pub fn move_focus(&mut self, delta: i32) -> (state: Option<&ConversionState>)
        requires
            engine_ok(old(self)@),
        ensures
            engine_ok(final(self)@),
            final(self)@ == (match old(self)@.conversion {
                Some(c) => with_conversion(
                    old(self)@,
                    conversion::focus_moved(c, delta as int),
                ),
                None => old(self)@,
            }),
            match state {
                Some(s) => final(self)@.conversion == Some(s@),
                None => final(self)@.conversion is None,
            },
    {
        match &mut self.conversion {
            Some(c) => {
                c.move_focus(delta);
            },
            None => {},
        }
        self.conversion.as_ref()
    }

    /// Chooses the next candidate of the focused segment (`delta` above 0) or
    /// the previous one, around the ends.
    pub fn cycle_candidate(&mut self, delta: i32) -> (state: Option<&ConversionState>)
        requires
            engine_ok(old(self)@),
        ensures
            engine_ok(final(self)@),
            final(self)@ == (match old(self)@.conversion {
                Some(c) => with_conversion(
                    old(self)@,
                    conversion::candidate_cycled(c, delta as int),
                ),
                None => old(self)@,
            }),
            match state {
                Some(s) => final(self)@.conversion == Some(s@),
                None => final(self)@.conversion is None,
            },
    {
        match &mut self.conversion {
            Some(c) => {
                c.cycle_candidate(delta);
            },
            None => {},
        }
        self.conversion.as_ref()
    }

    /// Moves the boundary behind the focused segment by one character: to the
    /// right for a `delta` above 0, else to the left. If it could be moved, the
    /// engine waits for a new reordering. Choices of the user elsewhere stay.
    pub fn resize_segment(&mut self, delta: i32, dict: &Dictionary, scorer: &UserScorer) -> (state:
        Option<&ConversionState>)
        requires
            engine_ok(old(self)@),
            dict.wf(),
            scorer.wf(),
        ensures
            engine_ok(final(self)@),
            final(self)@ == engine_resized(
                dict@,
                dict.log_table(),
                *scorer,
                old(self)@,
                delta as int,
            ),
            match state {
                Some(s) => final(self)@.conversion == Some(s@),
                None => final(self)@.conversion is None,
            },
    {
        self.move_boundary(delta, dict, scorer);
        self.conversion.as_ref()
    }

    /// Moves the boundary behind the focused segment, as
    /// [`ConversionEngine::resize_segment`] does. Tells whether it could be
    /// moved, so that a reordering is to be started.
    pub(crate) fn move_boundary(&mut self, delta: i32, dict: &Dictionary, scorer: &UserScorer) -> (
        moved: bool)
        requires
            engine_ok(old(self)@),
            dict.wf(),
            scorer.wf(),
        ensures
            engine_ok(final(self)@),
            final(self)@ == engine_resized(
                dict@,
                dict.log_table(),
                *scorer,
                old(self)@,
                delta as int,
            ),
            moved == (old(self)@.conversion matches Some(c) && resize::can_resize(
                c,
                delta as int,
            )),
    {
        let moved: bool = match &mut self.conversion {
            Some(c) => c.resize_segment(delta, dict, scorer),
            None => false,
        };
        if moved {
            self.reranked = None;
            self.inflight = true;
        }
        moved
    }

    /// Shows the focused segment in one of its kana forms. The form counts as
    /// chosen by the user.
    pub fn convert_focused_to(&mut self, form: KanaForm, forms: &KanaForms) -> (state: Option<
        &ConversionState,
    >)
        requires
            engine_ok(old(self)@),
        ensures
            engine_ok(final(self)@),
            final(self)@ == focused_in_form(old(self)@, form, *forms),
            match state {
                Some(s) => final(self)@.conversion == Some(s@),
                None => final(self)@.conversion is None,
            },
    {
        match &mut self.conversion {
            Some(c) => {
                assert(c@.segments[c.focus as int] == c.segments@[c.focus as int]@);
                let text: String = form.apply(c.segments[c.focus].reading.as_str(), forms);
                c.choose_text(text);
            },
            None => {},
        }
        self.conversion.as_ref()
    }

    /// Shows the focused segment in hiragana, as it is read.
    pub fn convert_focused_to_hiragana(&mut self) -> (state: Option<&ConversionState>)
        requires
            engine_ok(old(self)@),
        ensures
            engine_ok(final(self)@),
            final(self)@ == focused_as_read(old(self)@),
            match state {
                Some(s) => final(self)@.conversion == Some(s@),
                None => final(self)@.conversion is None,
            },
    {
        match &mut self.conversion {
            Some(c) => {
                assert(c@.segments[c.focus as int] == c.segments@[c.focus as int]@);
                let text: String = c.segments[c.focus].reading.clone();
                c.choose_text(text);
            },
            None => {},
        }
        self.conversion.as_ref()
    }

    /// Shows the focused segment in katakana.
    pub fn convert_focused_to_katakana(&mut self, forms: &KanaForms) -> (state: Option<
        &ConversionState,
    >)
        requires
            engine_ok(old(self)@),
        ensures
            engine_ok(final(self)@),
            final(self)@ == focused_in_form(old(self)@, KanaForm::Katakana, *forms),
            match state {
                Some(s) => final(self)@.conversion == Some(s@),
                None => final(self)@.conversion is None,
            },
    {
        self.convert_focused_to(KanaForm::Katakana, forms)
    }

    /// Shows the focused segment in half-width katakana.
    pub fn convert_focused_to_halfwidth_katakana(&mut self, forms: &KanaForms) -> (state: Option<
        &ConversionState,
    >)
        requires
            engine_ok(old(self)@),
        ensures
            engine_ok(final(self)@),
            final(self)@ == focused_in_form(old(self)@, KanaForm::HalfwidthKatakana, *forms),
            match state {
                Some(s) => final(self)@.conversion == Some(s@),
                None => final(self)@.conversion is None,
            },
    {
        self.convert_focused_to(KanaForm::HalfwidthKatakana, forms)
    }

    /// Shows the focused segment in romaji.
    pub fn convert_focused_to_romaji(&mut self, forms: &KanaForms) -> (state: Option<
        &ConversionState,
    >)
        requires
            engine_ok(old(self)@),
        ensures
            engine_ok(final(self)@),
            final(self)@ == focused_in_form(old(self)@, KanaForm::Romaji, *forms),
            match state {
                Some(s) => final(self)@.conversion == Some(s@),
                None => final(self)@.conversion is None,
            },
    {
        self.convert_focused_to(KanaForm::Romaji, forms)
    }

    /// Shows the focused segment in full-width romaji.
    pub fn convert_focused_to_fullwidth_romaji(&mut self, forms: &KanaForms) -> (state: Option<
        &ConversionState,
    >)
        requires
            engine_ok(old(self)@),
        ensures
            engine_ok(final(self)@),
            final(self)@ == focused_in_form(old(self)@, KanaForm::FullwidthRomaji, *forms),
            match state {
                Some(s) => final(self)@.conversion == Some(s@),
                None => final(self)@.conversion is None,
            },
    {
        self.convert_focused_to(KanaForm::FullwidthRomaji, forms)
    }

    /// Drops the conversion; what was typed stays.
    pub fn clear_conversion(&mut self)
        requires
            engine_ok(old(self)@),
        ensures
            engine_ok(final(self)@),
            final(self)@ == (EngineView { conversion: None, ..old(self)@ }),
    {
        self.conversion = None;
    }

    /// Forgets what was typed.
    pub fn reset(&mut self)
        ensures
            final(self)@ == (EngineView { typed: nothing_typed(), ..old(self)@ }),
    {
        self.typed = Preedit { kana: String::new(), pending: String::new() };
        assert(self@.typed =~= nothing_typed());
    }

    /// Commits a text: what was typed is forgotten.
    pub fn commit(&mut self, text: &str) -> (out: String)
        ensures
            out@ == text@,
            final(self)@ == (EngineView { typed: nothing_typed(), ..old(self)@ }),
    {
        self.reset();
        text.to_owned()
    }

    /// Commits the conversion that is going on, if there is one: its text, and
    /// the choices of the user. The conversion and what was typed are
    /// forgotten.
    pub fn commit_conversion(&mut self) -> (done: Option<Committed>)
        requires
            engine_ok(old(self)@),
        ensures
            engine_ok(final(self)@),
            match old(self)@.conversion {
                Some(c) => {
                    &&& final(self)@ == (EngineView {
                        typed: nothing_typed(),
                        conversion: None,
                        ..old(self)@
                    })
                    &&& done matches Some(d) && {
                        &&& d.text@ == conversion::composed(c.segments)
                        &&& pair_views(d.choices@) == user_choices(c.segments)
                        &&& d.state@ == c
                    }
                },
                None => done is None && final(self)@ == old(self)@,
            },
    {
        match self.conversion.take() {
            None => None,
            Some(state) => {
                let text: String = state.composed_text();
                let choices: Vec<(String, String)> = choices_of(&state);
                self.reset();
                Some(Committed { text, choices, state })
            },
        }
    }

    /// The snapshot that a reordering of the conversion works on.
    pub fn rerank_pass(&self, scorer: &UserScorer) -> (pass: Option<RerankPass>)
        requires
            engine_ok(self@),
            scorer.wf(),
        ensures
            pass is None <==> self@.conversion is None,
            pass matches Some(p) ==> {
                &&& p.wf()
                &&& p.inputs() == rerank::snapshots(*scorer, self@.conversion->0.segments)
                &&& p.done() == Seq::<RerankedView>::empty()
            },
    {
        match &self.conversion {
            Some(c) => Some(RerankPass::new(c, scorer)),
            None => None,
        }
    }

    /// Takes over the result of a reordering. `None` stands for a pass that
    /// broke down: nothing is awaited any more.
    pub fn rerank_done(&mut self, result: Option<Vec<RerankedSegment>>)
        requires
            engine_ok(old(self)@),
            result matches Some(r) ==> rerank::all_offered(rerank::reranked_views(r@)),
        ensures
            engine_ok(final(self)@),
            final(self)@ == (match result {
                Some(r) => EngineView {
                    reranked: Some(rerank::reranked_views(r@)),
                    ..old(self)@
                },
                None => EngineView { inflight: false, ..old(self)@ },
            }),
    {
        match result {
            Some(r) => {
                self.reranked = Some(r);
            },
            None => {
                self.inflight = false;
            },
        }
    }

    /// Is there a result of a reordering that was not applied yet?
    pub fn has_llm_rerank_result(&self) -> (ready: bool)
        ensures
            ready == self@.reranked is Some,
    {
        self.reranked.is_some()
    }

    /// Is a reordering awaited?
    pub fn rerank_inflight(&self) -> (waiting: bool)
        ensures
            waiting == self@.inflight,
    {
        self.inflight
    }

    /// Applies the result of a reordering, if there is one that fits the
    /// conversion. Tells whether candidates changed.
    pub fn apply_llm_rerank(&mut self) -> (updated: bool)
        requires
            engine_ok(old(self)@),
        ensures
            engine_ok(final(self)@),
            final(self)@ == rerank_applied(old(self)@),
            updated == (final(self)@.conversion != old(self)@.conversion),
    {
        let result: Vec<RerankedSegment> = match self.reranked.take() {
            None => {
                return false;
            },
            Some(r) => r,
        };
        match &mut self.conversion {
            None => {
                self.inflight = false;
                false
            },
            Some(c) => {
                if !readings_align(&result, c) {
                    return false;
                }
                self.inflight = false;
                reorder_segments(c, result)
            },
        }
    }
}

/// The choices of the user in a conversion.
fn choices_of(state: &ConversionState) -> (out: Vec<(String, String)>)
    requires
        conversion::conversion_ok(state@),
    ensures
        pair_views(out@) == user_choices(state@.segments),
{
    let ghost segs = state@.segments;
    let mut out: Vec<(String, String)> = Vec::new();
    let mut i: usize = 0;
    assert(pair_views(out@) =~= user_choices(segs.take(0)));
    while i < state.segments.len()
        invariant
            i <= state.segments@.len(),
            segs == state@.segments,
            conversion::conversion_ok(state@),
            pair_views(out@) == user_choices(segs.take(i as int)),
        decreases state.segments@.len() - i,
    {
        let ghost before = out@;
        proof {
            assert(segs[i as int] == state.segments@[i as int]@);
            assert(conversion::segment_ok(segs[i as int]));
            assert(segs.take(i + 1).drop_last() =~= segs.take(i as int));
            assert(segs.take(i + 1).last() == segs[i as int]);
        }
        let seg = &state.segments[i];
        if seg.user_selected {
            out.push((seg.reading.clone(), seg.candidates[seg.selected].clone()));
            assert(pair_views(out@) =~= pair_views(before).push(
                (segs[i as int].reading, conversion::chosen(segs[i as int])),
            ));
        }
        i = i + 1;
    }
    assert(segs.take(i as int) =~= segs);
    out
}

/// Does a reordering fit the segments, reading by reading?
fn readings_align(result: &Vec<RerankedSegment>, state: &ConversionState) -> (yes: bool)
    ensures
        yes == aligned(rerank::reranked_views(result@), state@.segments),
{
    let ghost r = rerank::reranked_views(result@);
    let ghost segs = state@.segments;
    assert(r.len() == result@.len());
    assert(segs.len() == state.segments@.len());
    if result.len() != state.segments.len() {
        return false;
    }
    let mut i: usize = 0;
    while i < result.len()
        invariant
            i <= result@.len(),
            result@.len() == state.segments@.len(),
            r == rerank::reranked_views(result@),
            segs == state@.segments,
            forall|k: int| 0 <= k < i ==> (#[trigger] r[k]).reading == segs[k].reading,
        decreases result@.len() - i,
    {
        assert(r[i as int] == result@[i as int]@);
        assert(segs[i as int] == state.segments@[i as int]@);
        if result[i].reading != state.segments[i].reading {
            return false;
        }
        i = i + 1;
    }
    true
}

/// Are two lists of texts the same?
fn same_texts(a: &Vec<String>, b: &Vec<String>) -> (same: bool)
    ensures
        same == (conversion::texts(a@) == conversion::texts(b@)),
{
    let ghost x = conversion::texts(a@);
    let ghost y = conversion::texts(b@);
    assert(x.len() == a@.len() && y.len() == b@.len());
    if a.len() != b.len() {
        return false;
    }
    let mut i: usize = 0;
    while i < a.len()
        invariant
            i <= a@.len(),
            a@.len() == b@.len(),
            x == conversion::texts(a@),
            y == conversion::texts(b@),
            forall|k: int| 0 <= k < i ==> #[trigger] x[k] == y[k],
        decreases a@.len() - i,
    {
        assert(x[i as int] == a@[i as int]@);
        assert(y[i as int] == b@[i as int]@);
        if a[i] != b[i] {
            return false;
        }
        i = i + 1;
    }
    assert(x =~= y);
    true
}

/// Reorders the candidates of the segments that the user has not chosen.
fn reorder_segments(state: &mut ConversionState, result: Vec<RerankedSegment>) -> (updated: bool)
    requires
        conversion::conversion_ok(old(state)@),
        aligned(rerank::reranked_views(result@), old(state)@.segments),
        forall|i: int|
            0 <= i < result@.len() ==> (#[trigger] rerank::reranked_views(
                result@,
            )[i]).candidates.len() > 0,
    ensures
        conversion::conversion_ok(final(state)@),
        final(state)@ == (ConversionView {
            segments: all_reordered(
                old(state)@.segments,
                rerank::reranked_views(result@),
            ),
            ..old(state)@
        }),
        updated == (final(state)@ != old(state)@),
{
    let ghost v = state@;
    let ghost r = rerank::reranked_views(result@);
    let ghost want = all_reordered(v.segments, r);
    let mut updated: bool = false;
    let mut i: usize = 0;
    while i < result.len()
        invariant
            i <= result@.len(),
            r == rerank::reranked_views(result@),
            result@.len() == r.len(),
            aligned(r, v.segments),
            want == all_reordered(v.segments, r),
            forall|k: int| 0 <= k < r.len() ==> (#[trigger] r[k]).candidates.len() > 0,
            state@.kana == v.kana,
            state@.focus == v.focus,
            state@.segments.len() == v.segments.len(),
            state.segments@.len() == v.segments.len(),
            forall|k: int| 0 <= k < i ==> #[trigger] state@.segments[k] == want[k],
            forall|k: int|
                i <= k < v.segments.len() ==> #[trigger] state@.segments[k] == v.segments[k],
            updated == exists|k: int| 0 <= k < i && #[trigger] want[k] != v.segments[k],
        decreases result@.len() - i,
    {
        let ghost s = v.segments[i as int];
        let ghost before = state@.segments;
        assert(r[i as int] == result@[i as int]@);
        assert(state@.segments[i as int] == state.segments@[i as int]@);
        assert(state@.segments[i as int] == s);
        if !state.segments[i].user_selected && !same_texts(
            &state.segments[i].candidates,
            &result[i].candidates,
        ) {
            let fresh: Vec<String> = copied_texts(&result[i].candidates);
            let seg = &mut state.segments[i];
            seg.candidates = fresh;
            seg.selected = 0;
            updated = true;
            proof {
                assert(state@.segments =~= before.update(i as int, want[i as int]));
                assert(want[i as int].candidates != s.candidates);
            }
        } else {
            assert(want[i as int] == s);
        }
        i = i + 1;
    }
    proof {
        assert(state@.segments =~= want);
        conversion::lemma_same_readings(v.segments, want);
        assert forall|k: int| 0 <= k < want.len() implies conversion::segment_ok(
            #[trigger] want[k],
        ) by {
            assert(conversion::segment_ok(v.segments[k]));
            assert(r[k].candidates.len() > 0);
        }
        if updated {
            let k = choose|k: int| 0 <= k < i && #[trigger] want[k] != v.segments[k];
            assert(state@.segments[k] != v.segments[k]);
        } else {
            assert forall|k: int| 0 <= k < want.len() implies #[trigger] want[k]
                == v.segments[k] by {}
            assert(want =~= v.segments);
        }
    }
    updated
}

/// Copies of the texts.
fn copied_texts(list: &Vec<String>) -> (out: Vec<String>)
    ensures
        conversion::texts(out@) == conversion::texts(list@),
{
    let ghost all = conversion::texts(list@);
    let mut out: Vec<String> = Vec::new();
    let mut i: usize = 0;
    while i < list.len()
        invariant
            i <= list@.len(),
            all == conversion::texts(list@),
            out@.len() == i,
            forall|k: int| 0 <= k < i ==> (#[trigger] out@[k])@ == all[k],
        decreases list@.len() - i,
    {
        out.push(list[i].clone());
        i = i + 1;
    }
    assert(conversion::texts(out@) =~= all);
    out
}

/// Does every way to segment in the plan cover the kana?
pub open spec fn covers(plan: SegmentationPlan, kana: Seq<char>) -> bool {
    forall|k: int|
        0 <= k < plan.alternatives@.len() ==> entry::tiles(
            #[trigger] alternatives::alternative_views(plan.alternatives@)[k],
            kana,
            0,
        )
}

/// A reordering leaves alone what the user chose.
pub proof fn law_choice_survives_rerank(v: EngineView, i: int)
    requires
        engine_ok(v),
        v.conversion is Some,
        0 <= i < v.conversion->0.segments.len(),
        v.conversion->0.segments[i].user_selected,
    ensures
        rerank_applied(v).conversion matches Some(c) && c.segments[i]
            == v.conversion->0.segments[i],
{
}

/// A reordering never touches kana, readings or focus, and a conversion that
/// was in order stays so.
pub proof fn law_rerank_keeps_segmentation(v: EngineView)
    requires
        engine_ok(v),
        v.conversion is Some,
    ensures
        engine_ok(rerank_applied(v)),
        rerank_applied(v).conversion matches Some(c) && {
            &&& c.kana == v.conversion->0.kana
            &&& c.focus == v.conversion->0.focus
            &&& c.segments.len() == v.conversion->0.segments.len()
            &&& forall|i: int|
                0 <= i < c.segments.len() ==> (#[trigger] c.segments[i]).reading
                    == v.conversion->0.segments[i].reading
        },
{
    if v.reranked is Some && aligned(v.reranked->0, v.conversion->0.segments) {
        let r = v.reranked->0;
        let a = v.conversion->0.segments;
        let b = all_reordered(a, r);
        conversion::lemma_same_readings(a, b);
        assert forall|k: int| 0 <= k < b.len() implies conversion::segment_ok(
            #[trigger] b[k],
        ) by {
            assert(conversion::segment_ok(a[k]));
            assert(r[k].candidates.len() > 0);
        }
    }
}

/// A result for another segmentation changes nothing but to be dropped; the
/// engine goes on waiting.
pub proof fn law_stale_result_is_dropped(v: EngineView)
    requires
        v.conversion is Some,
        v.reranked is Some,
        !aligned(v.reranked->0, v.conversion->0.segments),
    ensures
        rerank_applied(v).conversion == v.conversion,
        rerank_applied(v).reranked is None,
        rerank_applied(v).inflight == v.inflight,
{
}

/// A reordering can be applied once: after that there is none to apply.
pub proof fn law_rerank_is_applied_once(v: EngineView)
    ensures
        rerank_applied(rerank_applied(v)) == rerank_applied(v),
{
}

/// A reordering for the segments of the conversion is shown: each segment that the user
/// has not chosen for gets the new order and shows its first candidate, unless the
/// order is the one it has. After that nothing is awaited.
pub proof fn law_reordering_is_shown(v: EngineView, i: int)
    requires
        v.conversion is Some,
        v.reranked is Some,
        ({
            let segs = v.conversion->0.segments;
            let r = v.reranked->0;
            &&& r.len() == segs.len()
            &&& forall|k: int| 0 <= k < r.len() ==> (#[trigger] r[k]).reading == segs[k].reading
        }),
        0 <= i < v.conversion->0.segments.len(),
    ensures
        ({
            let before = v.conversion->0.segments[i];
            let r = v.reranked->0[i];
            let out = rerank_applied(v);
            let after = out.conversion->0.segments[i];
            &&& out.conversion is Some
            &&& out.reranked is None && !out.inflight && out.typed == v.typed
            &&& after.reading == before.reading && after.start == before.start
            &&& after.user_selected == before.user_selected
            &&& !before.user_selected && before.candidates != r.candidates ==> after.candidates
                == r.candidates && after.selected == 0
            &&& before.user_selected || before.candidates == r.candidates ==> after == before
        }),
{
    let segs = v.conversion->0.segments;
    assert(all_reordered(segs, v.reranked->0)[i] == reordered(segs[i], v.reranked->0[i]));
}

/// A commit reports what the user chose: reading and text of each segment that was
/// chosen for, in order, and of no other.
pub proof fn law_choices_are_reported(segs: Seq<SegmentStateView>, s: SegmentStateView)
    ensures
        s.user_selected ==> user_choices(segs.push(s)) == user_choices(segs).push(
            (s.reading, s.candidates[s.selected]),
        ),
        !s.user_selected ==> user_choices(segs.push(s)) == user_choices(segs),
        user_choices(Seq::<SegmentStateView>::empty()).len() == 0,
{
    assert(segs.push(s).drop_last() =~= segs);
}

/// A conversion starts with its first segment in focus and nothing chosen. Each segment
/// offers its reading and all words found for it.
pub proof fn law_conversion_starts_open(
    scorer: UserScorer,
    kana: Seq<char>,
    segs: Seq<entry::SegmentView>,
    i: int,
)
    requires
        0 <= i < segs.len(),
    ensures
        ({
            let c = fresh_conversion(scorer, kana, segs);
            let s = c.segments[i];
            &&& c.kana == kana && c.focus == 0 && c.segments.len() == segs.len()
            &&& s.reading == segs[i].reading && s.start == segs[i].start
            &&& s.selected == 0 && !s.user_selected
            &&& forall|t: Seq<char>| #[trigger]
                s.candidates.contains(t) <==> (t == segs[i].reading || exists|e: int|
                    0 <= e < segs[i].candidates.len() && (
                    #[trigger] segs[i].candidates[e]).surface == t)
        }),
{
    let s = fresh_conversion(scorer, kana, segs).segments[i];
    assert forall|t: Seq<char>| #[trigger]
        s.candidates.contains(t) <==> (t == segs[i].reading || exists|e: int|
            0 <= e < segs[i].candidates.len() && (#[trigger] segs[i].candidates[e]).surface
                == t) by {
        candidates::law_every_word_is_offered(
            scorer,
            segs[i].reading,
            segs[i].candidates,
            t,
        );
    }
}

/// Waiting for a reordering forgets an earlier one.
pub proof fn law_waiting_starts_anew(v: EngineView)
    ensures
        awaiting_rerank(v).inflight,
        awaiting_rerank(v).reranked is None,
        awaiting_rerank(v).conversion == v.conversion,
        awaiting_rerank(v).typed == v.typed,
{
}

/// Shown as it is read, the focused segment has its reading as chosen text; the others
/// stay as they are.
pub proof fn law_focused_segment_is_shown_as_read(v: EngineView, k: int)
    requires
        engine_ok(v),
        v.conversion is Some,
        0 <= k < v.conversion->0.segments.len(),
    ensures
        ({
            let c = v.conversion->0;
            let w = focused_as_read(v);
            let s = w.conversion->0.segments[c.focus];
            &&& w.conversion is Some && w.typed == v.typed
            &&& w.conversion->0.focus == c.focus && w.conversion->0.kana == c.kana
            &&& k != c.focus ==> w.conversion->0.segments[k] == c.segments[k]
            &&& s.reading == c.segments[c.focus].reading && s.user_selected
            &&& 0 <= s.selected < s.candidates.len()
            &&& s.candidates[s.selected] == s.reading
        }),
{
    let c = v.conversion->0;
    conversion::lemma_position_of(
        c.segments[c.focus].candidates,
        c.segments[c.focus].reading,
    );
    assert(conversion::segment_ok(c.segments[c.focus]));
}

} // verus!
