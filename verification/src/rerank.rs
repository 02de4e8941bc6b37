//! Reordering the candidates of a conversion by what a language model makes of
//! them.
//!
//! The model is asked about one segment after the other, in the context of what
//! was committed and of the best candidates of the segments before. A pass
//! works on a snapshot of the conversion; its result carries the readings, so
//! that a result that no longer fits can be told.
use vstd::prelude::*;

use crate::conversion;
use crate::conversion::{ConversionState, SegmentStateView};
use crate::llm::NEUTRAL_SCORE;
use crate::nano::ONE;
use crate::rank;
use crate::rank::order_desc;
use crate::text::{char_count, joined, same_text};
use crate::user_scorer::UserScorer;

verus! {

/// How many candidates of a segment the model is asked about.
pub const RERANK_TOP: usize = 5;

/// A segment in a snapshot: its candidates, and what was learned of each.
pub struct RerankInput {
    pub reading: String,
    pub candidates: Vec<String>,
    /// What was learned of the candidates, in billionths.
    pub learned: Vec<i64>,
}

/// The contents of a segment in a snapshot.
#[verifier::ext_equal]
pub struct RerankInputView {
    pub reading: Seq<char>,
    pub candidates: Seq<Seq<char>>,
    pub learned: Seq<int>,
}

impl View for RerankInput {
    type V = RerankInputView;

    open spec fn view(&self) -> RerankInputView {
        RerankInputView {
            reading: self.reading@,
            candidates: conversion::texts(self.candidates@),
            learned: self.learned@.map_values(|x: i64| x as int),
        }
    }
}

/// A segment with its candidates in their new order.
pub struct RerankedSegment {
    pub reading: String,
    pub candidates: Vec<String>,
}

/// The contents of a reordered segment.
#[verifier::ext_equal]
pub struct RerankedView {
    pub reading: Seq<char>,
    pub candidates: Seq<Seq<char>>,
}

impl View for RerankedSegment {
    type V = RerankedView;

    open spec fn view(&self) -> RerankedView {
        RerankedView { reading: self.reading@, candidates: conversion::texts(self.candidates@) }
    }
}

/// The contents of reordered segments.
pub open spec fn reranked_views(v: Seq<RerankedSegment>) -> Seq<RerankedView> {
    v.map_values(|r: RerankedSegment| r@)
}

/// The contents of a snapshot.
pub open spec fn input_views(v: Seq<RerankInput>) -> Seq<RerankInputView> {
    v.map_values(|r: RerankInput| r@)
}

/// The snapshot of a segment.
pub open spec fn snapshot(scorer: UserScorer, s: SegmentStateView) -> RerankInputView {
    RerankInputView {
        reading: s.reading,
        candidates: s.candidates,
        learned: s.candidates.map_values(|c: Seq<char>| scorer.score_of(s.reading, c)),
    }
}

/// The snapshot of a conversion.
pub open spec fn snapshots(scorer: UserScorer, segs: Seq<SegmentStateView>) -> Seq<
    RerankInputView,
> {
    segs.map_values(|s: SegmentStateView| snapshot(scorer, s))
}

/// Does every segment have candidates?
pub open spec fn all_offered(r: Seq<RerankedView>) -> bool {
    forall|i: int| 0 <= i < r.len() ==> (#[trigger] r[i]).candidates.len() > 0
}

/// Is there anything to decide for this segment? Single characters are left
/// alone.
pub open spec fn is_contested(x: RerankInputView) -> bool {
    x.candidates.len() > 1 && x.reading.len() >= 2
}

/// How many candidates the model is asked about.
pub open spec fn asked_count(x: RerankInputView) -> int {
    if !is_contested(x) {
        0
    } else if x.candidates.len() < 5 {
        x.candidates.len() as int
    } else {
        5
    }
}

/// The model's score as it counts: the plain reading is always a likely
/// continuation, so it gets the neutral score whatever the model says.
pub open spec fn effective_score(reading: Seq<char>, surface: Seq<char>, llm: int) -> int {
    if surface == reading {
        NEUTRAL_SCORE as int
    } else {
        llm
    }
}

/// Sixty times the weight of candidate `i`, in billionths. The weight is four
/// tenths of its rank (which goes from 1 down to 0.7), six tenths of the
/// model's score and half of what was learned.
pub open spec fn weight(x: RerankInputView, llm: Seq<int>, i: int) -> int {
    24_000_000_000 - (7_200_000_000int / asked_count(x)) * i + 36 * effective_score(
        x.reading,
        x.candidates[i],
        llm[i],
    ) + 30 * x.learned[i]
}

/// The weights of the candidates that the model was asked about.
pub open spec fn weights(x: RerankInputView, llm: Seq<int>) -> Seq<int> {
    Seq::new(asked_count(x) as nat, |i: int| weight(x, llm, i))
}

/// The candidates in their new order: those that the model was asked about by
/// descending weight, ties in order, then the others.
pub open spec fn reranked(x: RerankInputView, llm: Seq<int>) -> Seq<Seq<char>> {
    rank::taken(x.candidates, rank::ranking(weights(x, llm))) + x.candidates.skip(asked_count(x))
}

/// The first candidates of the segments that are done, one after the other.
pub open spec fn leading(done: Seq<RerankedView>) -> Seq<char>
    decreases done.len(),
{
    if done.len() == 0 {
        Seq::empty()
    } else {
        leading(done.drop_last()) + done.last().candidates[0]
    }
}

/// What the model has to be asked about a segment.
pub struct RerankRequest {
    /// The text that goes before.
    pub context: String,
    /// The candidates to score; `None` where the score does not matter.
    pub candidates: Vec<Option<String>>,
}

/// Which candidates of a segment the model has to score.
pub open spec fn asked(x: RerankInputView) -> Seq<Option<Seq<char>>> {
    Seq::new(
        asked_count(x) as nat,
        |i: int|
            if x.candidates[i] == x.reading {
                None
            } else {
                Some(x.candidates[i])
            },
    )
}

/// The contents of a list of optional texts.
pub open spec fn optional_texts(v: Seq<Option<String>>) -> Seq<Option<Seq<char>>> {
    v.map_values(
        |o: Option<String>|
            match o {
                Some(s) => Some(s@),
                None => None,
            },
    )
}

/// A pass over the segments of a conversion.
pub struct RerankPass {
    inputs: Vec<RerankInput>,
    done: Vec<RerankedSegment>,
    preceding: String,
}

proof fn lemma_reranked_shape(x: RerankInputView, llm: Seq<int>)
    ensures
        reranked(x, llm).len() == x.candidates.len(),
{
    rank::lemma_ranking(weights(x, llm));
}

/// Reordering loses nothing and adds nothing: the same candidates are there,
/// as many as before.
pub proof fn law_rerank_keeps_candidates(x: RerankInputView, llm: Seq<int>)
    ensures
        reranked(x, llm).len() == x.candidates.len(),
        forall|t: Seq<char>| #[trigger]
            reranked(x, llm).contains(t) <==> x.candidates.contains(t),
{
    let n = asked_count(x);
    let keys = weights(x, llm);
    let order = rank::ranking(keys);
    let out = reranked(x, llm);
    rank::lemma_ranking(keys);
    assert forall|t: Seq<char>| #[trigger] out.contains(t) <==> x.candidates.contains(t) by {
        if out.contains(t) {
            let w = choose|w: int| 0 <= w < out.len() && out[w] == t;
            if w < n {
                assert(out[w] == x.candidates[order[w]]);
            } else {
                assert(out[w] == x.candidates[w]);
            }
        }
        if x.candidates.contains(t) {
            let w = choose|w: int| 0 <= w < x.candidates.len() && x.candidates[w] == t;
            if w < n {
                assert(order.contains(w));
                let k = choose|k: int| 0 <= k < order.len() && order[k] == w;
                assert(out[k] == t);
            } else {
                assert(out[w] == t);
            }
        }
    }
}

/// The candidate that weighs more than every other one the model was asked
/// about comes first.
pub proof fn lemma_heaviest_first(x: RerankInputView, llm: Seq<int>, i: int)
    requires
        0 <= i < asked_count(x),
        forall|j: int|
            0 <= j < asked_count(x) && j != i ==> weight(x, llm, i) > #[trigger] weight(x, llm, j),
    ensures
        reranked(x, llm)[0] == x.candidates[i],
{
    let keys = weights(x, llm);
    let order = rank::ranking(keys);
    rank::lemma_ranking(keys);
    assert(order.contains(i));
    let k = choose|k: int| 0 <= k < order.len() && order[k] == i;
    if k > 0 {
        assert(rank::ranks_before(keys, order[0], order[k]));
        assert(keys[order[0]] == weight(x, llm, order[0]));
        assert(keys[i] == weight(x, llm, i));
    }
}

proof fn lemma_rank_step(n: int)
    requires
        2 <= n <= 5,
    ensures
        7_200_000_000int / n == (if n == 2 {
            3_600_000_000int
        } else if n == 3 {
            2_400_000_000int
        } else if n == 4 {
            1_800_000_000int
        } else {
            1_440_000_000int
        }),
{
    assert(n == 2 ==> 7_200_000_000int / n == 3_600_000_000) by (nonlinear_arith);
    assert(n == 3 ==> 7_200_000_000int / n == 2_400_000_000) by (nonlinear_arith);
    assert(n == 4 ==> 7_200_000_000int / n == 1_800_000_000) by (nonlinear_arith);
    assert(n == 5 ==> 7_200_000_000int / n == 1_440_000_000) by (nonlinear_arith);
}

/// A candidate that the user has fully reinforced ends up first, whatever the
/// model says within the band of its scores, if nothing was learned of the
/// others.
pub proof fn law_learned_candidate_wins(x: RerankInputView, llm: Seq<int>, i: int)
    requires
        0 <= i < asked_count(x),
        x.learned[i] == ONE,
        forall|j: int| 0 <= j < asked_count(x) && j != i ==> #[trigger] x.learned[j] == 0,
        forall|j: int|
            0 <= j < asked_count(x) ==> 300_000_000 <= #[trigger] llm[j] <= 900_000_000,
    ensures
        reranked(x, llm)[0] == x.candidates[i],
{
    let n = asked_count(x);
    assert forall|j: int| 0 <= j < n && j != i implies weight(x, llm, i) > #[trigger] weight(
        x,
        llm,
        j,
    ) by {
        assert(x.learned[j] == 0);
        assert(300_000_000 <= llm[j] <= 900_000_000);
        assert(300_000_000 <= llm[i] <= 900_000_000);
        assert(2 <= n <= 5);
        let unit = 7_200_000_000int / n;
        lemma_rank_step(n);
        assert(0 <= unit * j) by (nonlinear_arith)
            requires
                0 <= unit,
                0 <= j,
        ;
        assert(unit * i <= 5_760_000_000) by (nonlinear_arith)
            requires
                0 <= i < n,
                (n == 2 && unit == 3_600_000_000) || (n == 3 && unit == 2_400_000_000) || (n == 4
                    && unit == 1_800_000_000) || (n == 5 && unit == 1_440_000_000),
        ;
    }
    lemma_heaviest_first(x, llm, i);
}

/// The model's score as it counts.
pub fn rerank_llm_score(reading: &str, surface: &str, llm: i64) -> (score: i64)
    ensures
        score == effective_score(reading@, surface@, llm as int),
{
    if same_text(surface, reading) {
        NEUTRAL_SCORE
    } else {
        llm
    }
}

/// How many candidates of a segment the model is asked about.
fn count_asked(x: &RerankInput) -> (n: usize)
    ensures
        n == asked_count(x@),
        n <= RERANK_TOP,
        n <= x.candidates@.len(),
{
    assert(x@.candidates.len() == x.candidates@.len());
    if x.candidates.len() > 1 && char_count(x.reading.as_str()) >= 2 {
        if x.candidates.len() < RERANK_TOP {
            x.candidates.len()
        } else {
            RERANK_TOP
        }
    } else {
        0
    }
}

/// The candidates of a segment in their new order.
pub fn rerank_candidates(x: &RerankInput, scores: &Vec<i64>) -> (out: Vec<String>)
    requires
        x.learned@.len() == x.candidates@.len(),
        scores@.len() == asked_count(x@),
    ensures
        conversion::texts(out@) == reranked(x@, scores@.map_values(|s: i64| s as int)),
{
    let ghost llm = scores@.map_values(|s: i64| s as int);
    let ghost v = x@;
    let n: usize = count_asked(x);
    let unit: i128 = if n == 2 {
        3_600_000_000
    } else if n == 3 {
        2_400_000_000
    } else if n == 4 {
        1_800_000_000
    } else {
        1_440_000_000
    };
    proof {
        if n > 0 {
            lemma_rank_step(n as int);
        }
    }
    let mut keys: Vec<i128> = Vec::new();
    let mut i: usize = 0;
    while i < n
        invariant
            i <= n <= RERANK_TOP,
            n == asked_count(v),
            n <= x.candidates@.len(),
            v == x@,
            llm == scores@.map_values(|s: i64| s as int),
            x.learned@.len() == x.candidates@.len(),
            scores@.len() == n,
            n > 0 ==> unit == 7_200_000_000int / n as int,
            0 <= unit <= 3_600_000_000,
            keys@.len() == i,
            forall|k: int| 0 <= k < i ==> (#[trigger] keys@[k]) as int == weight(v, llm, k),
        decreases n - i,
    {
        assert(v.candidates[i as int] == x.candidates@[i as int]@);
        assert(v.learned[i as int] == x.learned@[i as int] as int);
        assert(llm[i as int] == scores@[i as int] as int);
        let score: i64 = rerank_llm_score(
            x.reading.as_str(),
            x.candidates[i].as_str(),
            scores[i],
        );
        assert(0 <= unit * i <= 3_600_000_000 * 5) by (nonlinear_arith)
            requires
                0 <= unit <= 3_600_000_000,
                0 <= i <= 5,
        ;
        let key: i128 = 24_000_000_000 - unit * (i as i128) + 36 * (score as i128) + 30 * (
        x.learned[i] as i128);
        keys.push(key);
        i = i + 1;
    }
    let order: Vec<usize> = order_desc(&keys);
    let ghost ints = order@.map_values(|k: usize| k as int);
    proof {
        assert(keys@.map_values(|k: i128| k as int) =~= weights(v, llm));
        rank::lemma_ranking(weights(v, llm));
    }
    let ghost want = reranked(v, llm);
    let mut out: Vec<String> = Vec::new();
    let mut j: usize = 0;
    while j < n
        invariant
            j <= n,
            n == order@.len(),
            n <= x.candidates@.len(),
            n == asked_count(v),
            v == x@,
            ints == order@.map_values(|k: usize| k as int),
            ints == rank::ranking(weights(v, llm)),
            want == reranked(v, llm),
            out@.len() == j,
            forall|m: int| 0 <= m < order@.len() ==> (#[trigger] order@[m]) < n,
            forall|m: int| 0 <= m < j ==> (#[trigger] out@[m])@ == want[m],
        decreases n - j,
    {
        assert(ints[j as int] == order@[j as int] as int);
        out.push(x.candidates[order[j]].clone());
        j = j + 1;
    }
    while j < x.candidates.len()
        invariant
            n <= j <= x.candidates@.len(),
            n == asked_count(v),
            v == x@,
            rank::ranking(weights(v, llm)).len() == n,
            want == reranked(v, llm),
            out@.len() == j,
            forall|m: int| 0 <= m < j ==> (#[trigger] out@[m])@ == want[m],
        decreases x.candidates@.len() - j,
    {
        assert(v.candidates[j as int] == x.candidates@[j as int]@);
        out.push(x.candidates[j].clone());
        j = j + 1;
    }
    assert(conversion::texts(out@) =~= want);
    out
}

impl RerankPass {
    /// The snapshot this pass works on.
    pub closed spec fn inputs(self) -> Seq<RerankInputView> {
        input_views(self.inputs@)
    }

    /// The segments that are done.
    pub closed spec fn done(self) -> Seq<RerankedView> {
        reranked_views(self.done@)
    }

    /// What holds at every step.
    pub closed spec fn wf(self) -> bool {
        &&& self.done@.len() <= self.inputs@.len()
        &&& self.preceding@ == leading(self.done())
        &&& forall|i: int|
            0 <= i < self.inputs@.len() ==> {
                &&& (#[trigger] self.inputs@[i]).candidates@.len() > 0
                &&& self.inputs@[i].learned@.len() == self.inputs@[i].candidates@.len()
            }
        &&& all_offered(self.done())
    }

    /// Is every segment done?
    pub open spec fn finished(self) -> bool {
        self.done().len() >= self.inputs().len()
    }

    /// The segment whose turn it is.
    pub open spec fn current(self) -> RerankInputView {
        self.inputs()[self.done().len() as int]
    }

    /// A pass over the segments of a conversion.
    pub fn new(state: &ConversionState, scorer: &UserScorer) -> (pass: RerankPass)
        requires
            conversion::conversion_ok(state@),
            scorer.wf(),
        ensures
            pass.wf(),
            pass.inputs() == snapshots(*scorer, state@.segments),
            pass.done() == Seq::<RerankedView>::empty(),
    {
        let ghost want = snapshots(*scorer, state@.segments);
        let mut inputs: Vec<RerankInput> = Vec::new();
        let mut i: usize = 0;
        while i < state.segments.len()
            invariant
                i <= state.segments@.len(),
                conversion::conversion_ok(state@),
                scorer.wf(),
                want == snapshots(*scorer, state@.segments),
                inputs@.len() == i,
                forall|k: int| 0 <= k < i ==> (#[trigger] inputs@[k])@ == want[k],
                forall|k: int|
                    0 <= k < i ==> {
                        &&& (#[trigger] inputs@[k]).candidates@.len() > 0
                        &&& inputs@[k].learned@.len() == inputs@[k].candidates@.len()
                    },
            decreases state.segments@.len() - i,
        {
            let seg = &state.segments[i];
            let ghost sv = state@.segments[i as int];
            assert(sv == state.segments@[i as int]@);
            assert(conversion::segment_ok(sv));
            let mut candidates: Vec<String> = Vec::new();
            let mut learned: Vec<i64> = Vec::new();
            let mut j: usize = 0;
            while j < seg.candidates.len()
                invariant
                    j <= seg.candidates@.len(),
                    scorer.wf(),
                    sv == seg@,
                    candidates@.len() == j,
                    learned@.len() == j,
                    forall|k: int| 0 <= k < j ==> (#[trigger] candidates@[k])@ == sv.candidates[k],
                    forall|k: int|
                        0 <= k < j ==> (#[trigger] learned@[k]) as int == scorer.score_of(
                            sv.reading,
                            sv.candidates[k],
                        ),
                decreases seg.candidates@.len() - j,
            {
                assert(sv.candidates[j as int] == seg.candidates@[j as int]@);
                candidates.push(seg.candidates[j].clone());
                learned.push(scorer.score(seg.reading.as_str(), seg.candidates[j].as_str()));
                j = j + 1;
            }
            let input: RerankInput = RerankInput {
                reading: seg.reading.clone(),
                candidates,
                learned,
            };
            proof {
                assert(sv.candidates.len() == seg.candidates@.len());
                assert(input@.candidates =~= sv.candidates);
                assert(input@.learned =~= snapshot(*scorer, sv).learned);
                assert(input@ == want[i as int]);
            }
            inputs.push(input);
            i = i + 1;
        }
        let pass: RerankPass = RerankPass {
            inputs,
            done: Vec::new(),
            preceding: String::new(),
        };
        assert(pass.inputs() =~= want);
        assert(pass.done() =~= Seq::empty());
        pass
    }

    /// What the model has to be asked next; `None` when every segment is done.
    /// `committed` is the text that was committed before.
    pub fn request(&self, committed: &str) -> (req: Option<RerankRequest>)
        requires
            self.wf(),
        ensures
            req is None <==> self.finished(),
            req matches Some(r) ==> {
                &&& r.context@ == committed@ + leading(self.done())
                &&& optional_texts(r.candidates@) == asked(self.current())
            },
    {
        let at: usize = self.done.len();
        assert(self.done().len() == at);
        assert(self.inputs().len() == self.inputs@.len());
        if at >= self.inputs.len() {
            return None;
        }
        let x: &RerankInput = &self.inputs[at];
        assert(x@ == self.current());
        let n: usize = count_asked(x);
        let mut list: Vec<Option<String>> = Vec::new();
        let mut i: usize = 0;
        while i < n
            invariant
                i <= n,
                n == asked_count(x@),
                n <= x.candidates@.len(),
                optional_texts(list@) == asked(x@).take(i as int),
                list@.len() == i,
            decreases n - i,
        {
            let ghost before = list@;
            assert(x@.candidates[i as int] == x.candidates@[i as int]@);
            if same_text(x.candidates[i].as_str(), x.reading.as_str()) {
                list.push(None);
            } else {
                list.push(Some(x.candidates[i].clone()));
            }
            i = i + 1;
            proof {
                assert(optional_texts(list@).drop_last() =~= optional_texts(before));
                assert(optional_texts(list@) =~= asked(x@).take(i as int));
            }
        }
        assert(asked(x@).take(i as int) =~= asked(x@));
        Some(RerankRequest { context: joined(committed, self.preceding.as_str()), candidates: list })
    }

    /// Reorders the segment whose turn it is by the model's scores, in
    /// billionths, one for each candidate that was asked about.
    pub fn step(&mut self, scores: &Vec<i64>)
        requires
            old(self).wf(),
            !old(self).finished(),
            scores@.len() == asked_count(old(self).current()),
        ensures
            final(self).wf(),
            final(self).inputs() == old(self).inputs(),
            final(self).done() == old(self).done().push(
                (RerankedView {
                    reading: old(self).current().reading,
                    candidates: reranked(
                        old(self).current(),
                        scores@.map_values(|s: i64| s as int),
                    ),
                }),
            ),
    {
        let ghost before = self.done();
        let at: usize = self.done.len();
        proof {
            assert(self.done().len() == at);
            assert(self.inputs().len() == self.inputs@.len());
            assert(self.current() == self.inputs@[at as int]@);
            lemma_reranked_shape(self.current(), scores@.map_values(|s: i64| s as int));
        }
        let candidates: Vec<String> = rerank_candidates(&self.inputs[at], scores);
        let ghost cv = conversion::texts(candidates@);
        assert(candidates@.len() == cv.len());
        let segment: RerankedSegment = RerankedSegment {
            reading: self.inputs[at].reading.clone(),
            candidates,
        };
        self.preceding.append(segment.candidates[0].as_str());
        let ghost sv = segment@;
        self.done.push(segment);
        proof {
            assert(self.done() =~= before.push(sv));
            assert(self.done().drop_last() =~= before);
            assert(self.preceding@ == leading(self.done()));
        }
    }

    /// The segments with their candidates in the new order.
    pub fn finish(self) -> (out: Vec<RerankedSegment>)
        requires
            self.wf(),
            self.finished(),
        ensures
            reranked_views(out@) == self.done(),
            all_offered(reranked_views(out@)),
    {
        self.done
    }
}

/// What is ahead among the candidates that were asked about is ahead among all,
/// and the other way round for one that was asked about.
proof fn lemma_front_ahead(front: Seq<Seq<char>>, tail: Seq<Seq<char>>, t: Seq<char>, u: Seq<char>)
    ensures
        rank::ahead(front, t, u) ==> rank::ahead(front + tail, t, u),
        rank::ahead(front + tail, t, u) && front.contains(t) ==> rank::ahead(front, t, u),
{
    let all = front + tail;
    if rank::ahead(front, t, u) {
        let p = choose|p: int|
            0 <= p < front.len() && #[trigger] front[p] == t && forall|q: int|
                0 <= q <= p ==> #[trigger] front[q] != u;
        assert(all[p] == t);
        assert forall|q: int| 0 <= q <= p implies #[trigger] all[q] != u by {
            assert(all[q] == front[q]);
        }
    }
    if rank::ahead(all, t, u) && front.contains(t) {
        let p = choose|p: int|
            0 <= p < all.len() && #[trigger] all[p] == t && forall|q: int|
                0 <= q <= p ==> #[trigger] all[q] != u;
        let m = choose|m: int| 0 <= m < front.len() && front[m] == t;
        let w = if p < front.len() { p } else { m };
        assert(front[w] == t);
        assert forall|q: int| 0 <= q <= w implies #[trigger] front[q] != u by {
            assert(all[q] == front[q]);
        }
    }
}

/// Weights that rise for `t` and sink for `u` keep `t` ahead.
proof fn lemma_weights_promote(
    x: RerankInputView,
    y: RerankInputView,
    a: Seq<int>,
    b: Seq<int>,
    i: int,
    u: Seq<char>,
)
    requires
        x.candidates == y.candidates,
        x.reading == y.reading,
        0 <= i < asked_count(x),
        x.candidates[i] != u,
        forall|k: int|
            0 <= k < asked_count(x) && #[trigger] x.candidates[k] == x.candidates[i] ==> weight(
                x,
                a,
                k,
            ) <= weight(y, b, k),
        forall|k: int|
            0 <= k < asked_count(x) && #[trigger] x.candidates[k] == u ==> weight(x, a, k)
                >= weight(y, b, k),
        rank::ahead(reranked(x, a), x.candidates[i], u),
    ensures
        rank::ahead(reranked(y, b), x.candidates[i], u),
{
    let s = x.candidates;
    let n = asked_count(x);
    let t = s[i];
    let ka = weights(x, a);
    let kb = weights(y, b);
    let tail = s.skip(n);
    let fa = rank::taken(s, rank::ranking(ka));
    let fb = rank::taken(s, rank::ranking(kb));
    rank::lemma_ranking(ka);
    assert(rank::ranking(ka).contains(i));
    let p = choose|p: int| 0 <= p < rank::ranking(ka).len() && rank::ranking(ka)[p] == i;
    assert(fa[p] == t);
    lemma_front_ahead(fa, tail, t, u);
    rank::lemma_stays_ahead(s, ka, kb, t, u);
    lemma_front_ahead(fb, tail, t, u);
}

/// A candidate that weighs more than everything written as `u` is ahead of it.
proof fn lemma_weight_decides(x: RerankInputView, llm: Seq<int>, i: int, u: Seq<char>)
    requires
        0 <= i < asked_count(x),
        x.candidates[i] != u,
        forall|j: int|
            0 <= j < asked_count(x) && #[trigger] x.candidates[j] == u ==> weight(x, llm, j)
                < weight(x, llm, i) || (weight(x, llm, j) == weight(x, llm, i) && i < j),
    ensures
        rank::ahead(reranked(x, llm), x.candidates[i], u),
{
    let keys = weights(x, llm);
    rank::lemma_ranked_ahead(x.candidates, keys, i, u);
    lemma_front_ahead(
        rank::taken(x.candidates, rank::ranking(keys)),
        x.candidates.skip(asked_count(x)),
        x.candidates[i],
        u,
    );
}

/// The model decides in favour of what it rates higher: raising its score of one
/// candidate, all else equal, never moves that candidate behind one it was ahead
/// of.
pub proof fn law_model_promotes(
    x: RerankInputView,
    llm: Seq<int>,
    raised: int,
    i: int,
    u: Seq<char>,
)
    requires
        llm.len() == asked(x).len(),
        0 <= i < llm.len(),
        x.candidates[i] != u,
        raised >= llm[i],
        rank::ahead(reranked(x, llm), x.candidates[i], u),
    ensures
        rank::ahead(reranked(x, llm.update(i, raised)), x.candidates[i], u),
{
    let b = llm.update(i, raised);
    assert forall|k: int|
        0 <= k < asked_count(x) && #[trigger] x.candidates[k] == x.candidates[i] implies weight(
        x,
        llm,
        k,
    ) <= weight(x, b, k) by {
        if k != i {
            assert(b[k] == llm[k]);
        }
    }
    assert forall|k: int| 0 <= k < asked_count(x) && #[trigger] x.candidates[k] == u implies weight(
        x,
        llm,
        k,
    ) >= weight(x, b, k) by {
        assert(b[k] == llm[k]);
    }
    lemma_weights_promote(x, x, llm, b, i, u);
}

/// What was learned decides in its favour, too: a higher learned score of one
/// candidate, all else equal, never moves it behind one it was ahead of.
pub proof fn law_learning_promotes_in_context(
    x: RerankInputView,
    y: RerankInputView,
    llm: Seq<int>,
    i: int,
    u: Seq<char>,
)
    requires
        x.reading == y.reading,
        x.candidates == y.candidates,
        x.learned.len() == y.learned.len() == x.candidates.len(),
        0 <= i < x.candidates.len(),
        x.learned[i] <= y.learned[i],
        forall|k: int| 0 <= k < x.learned.len() && k != i ==> x.learned[k] == #[trigger] y.learned[k],
        x.candidates[i] != u,
        rank::ahead(reranked(x, llm), x.candidates[i], u),
    ensures
        rank::ahead(reranked(y, llm), x.candidates[i], u),
{
    if i < asked_count(x) {
        assert forall|k: int|
            0 <= k < asked_count(x) && #[trigger] x.candidates[k] == x.candidates[i] implies weight(
            x,
            llm,
            k,
        ) <= weight(y, llm, k) by {
            if k != i {
                assert(x.learned[k] == y.learned[k]);
            }
        }
        assert forall|k: int| 0 <= k < asked_count(x) && #[trigger] x.candidates[k] == u implies weight(
            x,
            llm,
            k,
        ) >= weight(y, llm, k) by {
            assert(x.learned[k] == y.learned[k]);
        }
        lemma_weights_promote(x, y, llm, llm, i, u);
    } else {
        assert(weights(x, llm) =~= weights(y, llm)) by {
            assert forall|k: int| 0 <= k < asked_count(x) implies weight(x, llm, k) == weight(
                y,
                llm,
                k,
            ) by {
                assert(x.learned[k] == y.learned[k]);
            }
        }
    }
}

/// How rank, model and learning weigh against each other among the first five
/// candidates: a step of rank counts three tenths of four tenths over their
/// number, the model's score six tenths, what was learned a half. The plain
/// reading counts as if the model had scored it a half. Among equals the earlier
/// candidate stays first.
pub proof fn law_weights_decide(x: RerankInputView, llm: Seq<int>, i: int, u: Seq<char>, n: int)
    requires
        x.reading.len() >= 2,
        x.candidates.len() >= 2,
        n == (if x.candidates.len() < 5 {
            x.candidates.len() as int
        } else {
            5
        }),
        0 <= i < n,
        x.candidates[i] != u,
        forall|j: int|
            0 <= j < n && #[trigger] x.candidates[j] == u ==> {
                let own = if x.candidates[i] == x.reading {
                    500_000_000
                } else {
                    llm[i]
                };
                let other = if x.candidates[j] == x.reading {
                    500_000_000
                } else {
                    llm[j]
                };
                let gain = n * (36 * (own - other) + 30 * (x.learned[i] - x.learned[j]));
                gain > 7_200_000_000 * (i - j) || (gain == 7_200_000_000 * (i - j) && i < j)
            },
    ensures
        rank::ahead(reranked(x, llm), x.candidates[i], u),
{
    assert(n == asked_count(x));
    lemma_rank_step(n);
    let unit = 7_200_000_000int / n;
    assert(n * unit == 7_200_000_000) by (nonlinear_arith)
        requires
            (n == 2 && unit == 3_600_000_000) || (n == 3 && unit == 2_400_000_000) || (n == 4
                && unit == 1_800_000_000) || (n == 5 && unit == 1_440_000_000),
    ;
    assert forall|j: int| 0 <= j < n && #[trigger] x.candidates[j] == u implies weight(x, llm, j)
        < weight(x, llm, i) || (weight(x, llm, j) == weight(x, llm, i) && i < j) by {
        let own = effective_score(x.reading, x.candidates[i], llm[i]);
        let other = effective_score(x.reading, x.candidates[j], llm[j]);
        let lead = 36 * (own - other) + 30 * (x.learned[i] - x.learned[j]);
        assert(weight(x, llm, i) - weight(x, llm, j) == lead - unit * (i - j)) by {
            assert(unit * i - unit * j == unit * (i - j)) by (nonlinear_arith);
        }
        assert(n * (lead - unit * (i - j)) == n * lead - 7_200_000_000 * (i - j)) by (nonlinear_arith)
            requires
                n * unit == 7_200_000_000,
        {
            assert(n * (unit * (i - j)) == (n * unit) * (i - j));
        }
        assert(n * (lead - unit * (i - j)) > 0 ==> lead - unit * (i - j) > 0) by (nonlinear_arith)
            requires
                n > 0,
        ;
        assert(n * (lead - unit * (i - j)) == 0 ==> lead - unit * (i - j) == 0) by (nonlinear_arith)
            requires
                n > 0,
        ;
    }
    lemma_weight_decides(x, llm, i, u);
}

/// A clear verdict of the model settles the order: of two candidates of which
/// nothing was learned and neither of which is the plain reading, one whose score
/// is higher by more than two tenths comes first, whatever their rank.
pub proof fn law_clear_verdict_wins(x: RerankInputView, llm: Seq<int>, i: int, u: Seq<char>)
    requires
        x.reading.len() >= 2,
        x.candidates.len() >= 2,
        0 <= i < x.candidates.len(),
        i < 5,
        x.candidates[i] != u,
        x.candidates[i] != x.reading,
        u != x.reading,
        x.learned[i] == 0,
        forall|j: int|
            0 <= j < x.candidates.len() && j < 5 && #[trigger] x.candidates[j] == u ==> x.learned[j]
                == 0 && llm[i] > llm[j] + 200_000_000,
    ensures
        rank::ahead(reranked(x, llm), x.candidates[i], u),
{
    let n = asked_count(x);
    assert forall|j: int| 0 <= j < n && #[trigger] x.candidates[j] == u implies n * (36 * (llm[i]
        - llm[j]) + 30 * (x.learned[i] - x.learned[j])) > 7_200_000_000 * (i - j) by {
        let d = llm[i] - llm[j];
        assert(n * (36 * d) > 7_200_000_000 * (i - j)) by (nonlinear_arith)
            requires
                d > 200_000_000,
                i - j < n,
                n >= 2,
        ;
    }
    law_weights_decide(x, llm, i, u, n);
}

/// What the model says of the plain reading makes no difference.
pub proof fn law_plain_reading_is_not_judged(
    x: RerankInputView,
    a: Seq<int>,
    b: Seq<int>,
)
    requires
        forall|k: int|
            0 <= k < x.candidates.len() && #[trigger] x.candidates[k] != x.reading ==> a[k] == b[k],
    ensures
        reranked(x, a) == reranked(x, b),
{
    assert(weights(x, a) =~= weights(x, b)) by {
        assert forall|k: int| 0 <= k < asked_count(x) implies weight(x, a, k) == weight(x, b, k) by {
            let c = x.candidates[k];
        }
    }
}

/// Only the first five candidates are reordered, and none where the reading is a
/// single character or there is nothing to choose from.
pub proof fn law_others_keep_their_place(x: RerankInputView, llm: Seq<int>, k: int)
    requires
        0 <= k < x.candidates.len(),
        k >= 5 || x.reading.len() < 2 || x.candidates.len() < 2,
    ensures
        reranked(x, llm)[k] == x.candidates[k],
{
    rank::lemma_ranking(weights(x, llm));
}

/// The model is asked about the first five candidates, in order, but not about
/// the plain reading; where there is nothing to decide it is not asked.
pub proof fn law_model_is_asked(x: RerankInputView)
    ensures
        x.reading.len() < 2 || x.candidates.len() < 2 ==> asked(x).len() == 0,
        x.reading.len() >= 2 && 2 <= x.candidates.len() <= 5 ==> asked(x).len()
            == x.candidates.len(),
        x.reading.len() >= 2 && x.candidates.len() > 5 ==> asked(x).len() == 5,
        forall|k: int|
            0 <= k < asked(x).len() ==> #[trigger] asked(x)[k] == (if x.candidates[k] == x.reading {
                None
            } else {
                Some(x.candidates[k])
            }),
{
}

/// The context of a segment is made of the leading candidates of the segments
/// before it, in order.
pub proof fn law_context_is_what_leads(done: Seq<RerankedView>, next: RerankedView)
    ensures
        leading(Seq::<RerankedView>::empty()).len() == 0,
        leading(done.push(next)) == leading(done) + next.candidates[0],
{
    assert(done.push(next).drop_last() =~= done);
}

/// A pass works on the candidates as they are shown, and on what was learned of
/// each under the reading of its segment.
pub proof fn law_snapshot_is_faithful(
    scorer: UserScorer,
    segs: Seq<SegmentStateView>,
    i: int,
    k: int,
)
    requires
        0 <= i < segs.len(),
        0 <= k < segs[i].candidates.len(),
    ensures
        snapshots(scorer, segs).len() == segs.len(),
        snapshots(scorer, segs)[i].reading == segs[i].reading,
        snapshots(scorer, segs)[i].candidates == segs[i].candidates,
        snapshots(scorer, segs)[i].learned.len() == segs[i].candidates.len(),
        snapshots(scorer, segs)[i].learned[k] == scorer.score_of(
            segs[i].reading,
            segs[i].candidates[k],
        ),
{
}

} // verus!
