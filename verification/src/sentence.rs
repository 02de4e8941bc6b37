//! Whole sentences as candidates.
//!
//! Besides the conversion by segments, a reading can be turned into a list of
//! complete sentences: the leading words, the leading words with one of them
//! exchanged, and the plain kana.
use vstd::prelude::*;

use crate::alternatives;
use crate::alternatives::{compose_between, compose_top_candidates};
use crate::conversion;
use crate::conversion::{find_text, ConversionState, SegmentStateView};
use crate::dictionary::Dictionary;
use crate::engine::ConversionEngine;
use crate::entry;
use crate::entry::{Segment, SegmentView};
use crate::merge;
use crate::pos::PartOfSpeech;
use crate::rank;
use crate::rank::order_desc;
use crate::segmentation;
use crate::segmenter;

verus! {

/// How many words besides the leading one are tried for a segment.
pub const EXCHANGES: usize = 3;

/// How many alternatives of a segment are kept on record.
pub const RECORDED_ALTERNATIVES: usize = 5;

/// The sentence with word `k` of segment `i` in place of the leading one.
pub open spec fn exchanged(segs: Seq<SegmentView>, i: int, k: int) -> Seq<char> {
    alternatives::leading_texts(segs.take(i)) + segs[i].candidates[k].surface
        + alternatives::leading_texts(segs.skip(i + 1))
}

/// How many words are tried for a segment.
pub open spec fn exchange_count(s: SegmentView) -> int {
    if s.candidates.len() == 0 {
        0
    } else if s.candidates.len() - 1 < 3 {
        s.candidates.len() - 1
    } else {
        3
    }
}

/// The sentences with a word of segment `i` exchanged.
pub open spec fn exchanges_at(segs: Seq<SegmentView>, i: int) -> Seq<Seq<char>> {
    Seq::new(exchange_count(segs[i]) as nat, |k: int| exchanged(segs, i, k + 1))
}

/// The sentences with a word of one of the first `n` segments exchanged.
pub open spec fn exchanges(segs: Seq<SegmentView>, n: int) -> Seq<Seq<char>>
    decreases n,
{
    if n <= 0 {
        Seq::empty()
    } else {
        exchanges(segs, n - 1) + exchanges_at(segs, n - 1)
    }
}

/// All sentences, before repetitions are left out.
pub open spec fn all_sentences(segs: Seq<SegmentView>) -> Seq<Seq<char>> {
    seq![alternatives::leading_texts(segs)] + exchanges(segs, segs.len() as int)
        + seq![entry::joined_readings(segs)]
}

/// The candidate sentences: the leading words, the exchanges from left to
/// right, the plain kana, and nothing twice.
pub open spec fn sentences(segs: Seq<SegmentView>) -> Seq<Seq<char>> {
    conversion::distinct(all_sentences(segs))
}

/// Adds a sentence unless it is there already.
fn push_new(list: &mut Vec<String>, text: String, Ghost(done): Ghost<Seq<Seq<char>>>)
    requires
        conversion::texts(old(list)@) == conversion::distinct(done),
    ensures
        conversion::texts(final(list)@) == conversion::distinct(done.push(text@)),
{
    let ghost before = list@;
    proof {
        assert(done.push(text@).drop_last() =~= done);
        conversion::lemma_position_of(conversion::texts(list@), text@);
    }
    let ghost t = text@;
    if find_text(list, &text) == list.len() {
        list.push(text);
        assert(conversion::texts(list@) =~= conversion::texts(before).push(t));
    }
}

/// The readings of the segments, one after the other.
fn join_readings(segments: &Vec<Segment>) -> (text: String)
    ensures
        text@ == entry::joined_readings(entry::segment_views(segments@)),
{
    let ghost sv = entry::segment_views(segments@);
    let mut text: String = String::new();
    let mut i: usize = 0;
    assert(text@ =~= entry::joined_readings(sv.take(0)));
    while i < segments.len()
        invariant
            i <= segments@.len(),
            sv == entry::segment_views(segments@),
            text@ == entry::joined_readings(sv.take(i as int)),
        decreases segments@.len() - i,
    {
        proof {
            assert(sv[i as int] == segments@[i as int]@);
            assert(sv.take(i + 1).drop_last() =~= sv.take(i as int));
            assert(sv.take(i + 1).last() == sv[i as int]);
        }
        text.append(segments[i].reading.as_str());
        i = i + 1;
    }
    assert(sv.take(i as int) =~= sv);
    text
}

/// The candidate sentences for a segmented reading.
pub fn build_candidates(segments: &Vec<Segment>) -> (list: Vec<String>)
    ensures
        conversion::texts(list@) == sentences(entry::segment_views(segments@)),
{
    let ghost sv = entry::segment_views(segments@);
    let mut list: Vec<String> = Vec::new();
    let ghost mut done = Seq::<Seq<char>>::empty();
    assert(conversion::texts(list@) =~= conversion::distinct(done));
    let best: String = compose_top_candidates(segments);
    push_new(&mut list, best, Ghost(done));
    let ghost start = seq![alternatives::leading_texts(sv)];
    proof {
        assert(done.push(start[0]) =~= start);
        done = start;
    }
    let mut i: usize = 0;
    assert(start + exchanges(sv, 0) =~= start);
    while i < segments.len()
        invariant
            i <= segments@.len(),
            sv == entry::segment_views(segments@),
            done == start + exchanges(sv, i as int),
            conversion::texts(list@) == conversion::distinct(done),
        decreases segments@.len() - i,
    {
        let ghost so_far = done;
        let ghost here = exchanges_at(sv, i as int);
        proof {
            assert(sv[i as int] == segments@[i as int]@);
            assert(sv[i as int].candidates.len() == segments@[i as int].candidates@.len());
            assert(so_far + here.take(0) =~= so_far);
        }
        let total: usize = segments.len();
        let n: usize = segments[i].candidates.len();
        let mut k: usize = 1;
        while k < n && k <= EXCHANGES
            invariant
                i < segments@.len(),
                total == segments@.len(),
                1 <= k <= EXCHANGES + 1,
                n == segments@[i as int].candidates@.len(),
                k <= n || n == 0,
                sv == entry::segment_views(segments@),
                sv[i as int] == segments@[i as int]@,
                here == exchanges_at(sv, i as int),
                n == 0 ==> k == 1,
                done == so_far + here.take(k - 1),
                conversion::texts(list@) == conversion::distinct(done),
            decreases n - k,
        {
            let mut text: String = compose_between(segments, 0, i);
            text.append(segments[i].candidates[k].surface.as_str());
            let rest: String = compose_between(segments, i + 1, total);
            text.append(rest.as_str());
            let ghost t = text@;
            proof {
                assert(sv.subrange(0, i as int) =~= sv.take(i as int));
                assert(sv.subrange(i + 1, total as int) =~= sv.skip(i + 1));
                assert(sv[i as int].candidates[k as int]
                    == segments@[i as int].candidates@[k as int]@);
                assert(t == here[k - 1]);
            }
            push_new(&mut list, text, Ghost(done));
            proof {
                assert(here.take(k as int) =~= here.take(k - 1).push(t));
                assert(done.push(t) =~= so_far + here.take(k as int));
                done = done.push(t);
            }
            k = k + 1;
        }
        proof {
            assert(here.take(k - 1) =~= here);
            assert(so_far + here =~= start + exchanges(sv, i + 1));
        }
        i = i + 1;
    }
    let plain: String = join_readings(segments);
    let ghost p = plain@;
    push_new(&mut list, plain, Ghost(done));
    proof {
        assert(done.push(p) =~= all_sentences(sv));
    }
    list
}

/// A word as grammar sees it.
#[derive(Debug)]
pub struct GrammarToken {
    pub surface: String,
    pub pos: PartOfSpeech,
}

/// The part of speech of the leading word.
pub open spec fn leading_pos(s: SegmentView) -> PartOfSpeech {
    if s.candidates.len() > 0 {
        s.candidates[0].pos
    } else {
        PartOfSpeech::Other
    }
}

/// The leading words of the segments as grammar sees them.
pub fn tokens_for_grammar(segments: &Vec<Segment>) -> (tokens: Vec<GrammarToken>)
    ensures
        tokens@.len() == segments@.len(),
        forall|i: int|
            0 <= i < tokens@.len() ==> {
                let s = entry::segment_views(segments@)[i];
                &&& (#[trigger] tokens@[i]).surface@ == alternatives::leading_text(s)
                &&& tokens@[i].pos == leading_pos(s)
            },
{
    let ghost sv = entry::segment_views(segments@);
    let mut tokens: Vec<GrammarToken> = Vec::new();
    let mut i: usize = 0;
    while i < segments.len()
        invariant
            i <= segments@.len(),
            sv == entry::segment_views(segments@),
            tokens@.len() == i,
            forall|k: int|
                0 <= k < i ==> {
                    &&& (#[trigger] tokens@[k]).surface@ == alternatives::leading_text(sv[k])
                    &&& tokens@[k].pos == leading_pos(sv[k])
                },
        decreases segments@.len() - i,
    {
        let seg: &Segment = &segments[i];
        assert(sv[i as int] == seg@);
        assert(sv[i as int].candidates.len() == seg.candidates@.len());
        if seg.candidates.len() > 0 {
            tokens.push(
                GrammarToken {
                    surface: seg.candidates[0].surface.clone(),
                    pos: seg.candidates[0].pos,
                },
            );
        } else {
            tokens.push(GrammarToken { surface: seg.reading.clone(), pos: PartOfSpeech::Other });
        }
        i = i + 1;
    }
    tokens
}

impl ConversionEngine {
    /// The candidate sentences for the kana that was typed, and the leading
    /// words as grammar sees them. There are none without kana. Grammar and model
    /// score them; see [`rank_sentences`].
    pub fn convert(&self, dict: &Dictionary) -> (query: (Vec<String>, Vec<GrammarToken>))
        requires
            dict.wf(),
        ensures
            ({
                let segs = segmentation::segmentation(
                    dict@,
                    dict.log_table(),
                    segmenter::no_bonus(),
                    self@.typed.kana,
                );
                if self@.typed.kana.len() == 0 {
                    query.0@.len() == 0 && query.1@.len() == 0
                } else {
                    &&& conversion::texts(query.0@) == sentences(segs)
                    &&& query.1@.len() == segs.len()
                    &&& forall|i: int|
                        0 <= i < query.1@.len() ==> {
                            &&& (#[trigger] query.1@[i]).surface@ == alternatives::leading_text(
                                segs[i],
                            )
                            &&& query.1@[i].pos == leading_pos(segs[i])
                        }
                }
            }),
    {
        let kana: &str = self.kana().as_str();
        if kana.is_empty() {
            return (Vec::new(), Vec::new());
        }
        let segments: Vec<Segment> = dict.segment(kana);
        (build_candidates(&segments), tokens_for_grammar(&segments))
    }
}

/// A candidate sentence with its scores, in billionths.
#[derive(Debug)]
pub struct ConversionCandidate {
    /// The sentence.
    pub text: String,
    /// What grammar makes of it.
    pub grammar_score: i64,
    /// What the language model makes of it.
    pub llm_score: i64,
    /// Ten times the combined score: four parts grammar, six parts model.
    pub score: i128,
}

/// Ten times the combined score of a sentence.
pub open spec fn combined(grammar: int, llm: int) -> int {
    4 * grammar + 6 * llm
}

/// The combined scores.
pub open spec fn combined_scores(grammar: Seq<i64>, llm: Seq<i64>) -> Seq<int> {
    Seq::new(grammar.len(), |i: int| combined(grammar[i] as int, llm[i] as int))
}

/// The sentences with their scores, best first, ties in order.
pub fn rank_sentences(texts: &Vec<String>, grammar: &Vec<i64>, llm: &Vec<i64>) -> (out: Vec<
    ConversionCandidate,
>)
    requires
        texts@.len() == grammar@.len(),
        texts@.len() == llm@.len(),
    ensures
        out@.len() == texts@.len(),
        forall|k: int|
            0 <= k < out@.len() ==> {
                let i = rank::ranking(combined_scores(grammar@, llm@))[k];
                &&& 0 <= i < texts@.len()
                &&& (#[trigger] out@[k]).text@ == texts@[i]@
                &&& out@[k].grammar_score == grammar@[i]
                &&& out@[k].llm_score == llm@[i]
                &&& out@[k].score == combined_scores(grammar@, llm@)[i]
            },
{
    let ghost want = combined_scores(grammar@, llm@);
    let n: usize = texts.len();
    let mut keys: Vec<i128> = Vec::new();
    let mut i: usize = 0;
    while i < n
        invariant
            i <= n,
            n == texts@.len(),
            n == grammar@.len(),
            n == llm@.len(),
            want == combined_scores(grammar@, llm@),
            keys@.len() == i,
            forall|k: int| 0 <= k < i ==> (#[trigger] keys@[k]) as int == want[k],
        decreases n - i,
    {
        keys.push(4 * (grammar[i] as i128) + 6 * (llm[i] as i128));
        i = i + 1;
    }
    let order: Vec<usize> = order_desc(&keys);
    let ghost ints = order@.map_values(|k: usize| k as int);
    assert(keys@.map_values(|k: i128| k as int) =~= want);
    let mut out: Vec<ConversionCandidate> = Vec::new();
    let mut j: usize = 0;
    while j < n
        invariant
            j <= n,
            n == order@.len(),
            n == texts@.len(),
            n == grammar@.len(),
            n == llm@.len(),
            n == keys@.len(),
            want == combined_scores(grammar@, llm@),
            ints == order@.map_values(|k: usize| k as int),
            ints == rank::ranking(want),
            forall|k: int| 0 <= k < n ==> (#[trigger] keys@[k]) as int == want[k],
            forall|k: int| 0 <= k < n ==> (#[trigger] order@[k]) < n,
            out@.len() == j,
            forall|k: int|
                0 <= k < j ==> {
                    let i = ints[k];
                    &&& 0 <= i < n
                    &&& (#[trigger] out@[k]).text@ == texts@[i]@
                    &&& out@[k].grammar_score == grammar@[i]
                    &&& out@[k].llm_score == llm@[i]
                    &&& out@[k].score == want[i]
                },
        decreases n - j,
    {
        assert(ints[j as int] == order@[j as int] as int);
        let at: usize = order[j];
        out.push(
            ConversionCandidate {
                text: texts[at].clone(),
                grammar_score: grammar[at],
                llm_score: llm[at],
                score: keys[at],
            },
        );
        j = j + 1;
    }
    out
}

/// A segment of a committed conversion, as it goes on record.
#[derive(Debug)]
pub struct SegmentRecord {
    pub reading: String,
    pub selected: String,
    pub user_selected: bool,
    /// The leading candidates.
    pub alternatives: Vec<String>,
}

/// Does the record show this segment?
pub open spec fn records(r: SegmentRecord, s: SegmentStateView) -> bool {
    &&& r.reading@ == s.reading
    &&& r.selected@ == conversion::chosen(s)
    &&& r.user_selected == s.user_selected
    &&& conversion::texts(r.alternatives@) == merge::first(s.candidates, 5)
}

/// The segments of a conversion, as they go on record.
pub fn conversion_record(state: &ConversionState) -> (out: Vec<SegmentRecord>)
    requires
        conversion::conversion_ok(state@),
    ensures
        out@.len() == state@.segments.len(),
        forall|i: int|
            0 <= i < out@.len() ==> records(#[trigger] out@[i], state@.segments[i]),
{
    let ghost segs = state@.segments;
    let mut out: Vec<SegmentRecord> = Vec::new();
    let mut i: usize = 0;
    while i < state.segments.len()
        invariant
            i <= state.segments@.len(),
            segs == state@.segments,
            conversion::conversion_ok(state@),
            out@.len() == i,
            forall|k: int| 0 <= k < i ==> records(#[trigger] out@[k], segs[k]),
        decreases state.segments@.len() - i,
    {
        let seg = &state.segments[i];
        let ghost s = segs[i as int];
        assert(s == seg@);
        assert(conversion::segment_ok(s));
        assert(s.candidates.len() == seg.candidates@.len());
        let mut kept: Vec<String> = Vec::new();
        let mut j: usize = 0;
        while j < seg.candidates.len() && j < RECORDED_ALTERNATIVES
            invariant
                j <= seg.candidates@.len(),
                j <= RECORDED_ALTERNATIVES,
                s == seg@,
                kept@.len() == j,
                forall|k: int| 0 <= k < j ==> (#[trigger] kept@[k])@ == s.candidates[k],
            decreases seg.candidates@.len() - j,
        {
            kept.push(seg.candidates[j].clone());
            j = j + 1;
        }
        assert(conversion::texts(kept@) =~= merge::first(s.candidates, 5));
        out.push(
            SegmentRecord {
                reading: seg.reading.clone(),
                selected: seg.candidates[seg.selected].clone(),
                user_selected: seg.user_selected,
                alternatives: kept,
            },
        );
        i = i + 1;
    }
    out
}

/// No sentence is offered twice, and the plain kana is always offered.
pub proof fn law_sentences_differ(segs: Seq<SegmentView>, i: int, j: int)
    requires
        0 <= i < j < sentences(segs).len(),
    ensures
        sentences(segs)[i] != sentences(segs)[j],
        sentences(segs).contains(entry::joined_readings(segs)),
{
    let all = all_sentences(segs);
    conversion::lemma_distinct(all);
    assert(all.last() == entry::joined_readings(segs));
    assert(all.contains(all[all.len() - 1]));
}

/// The sentence of the leading words comes first.
pub proof fn law_leading_sentence_is_first(segs: Seq<SegmentView>)
    ensures
        sentences(segs).len() > 0,
        sentences(segs)[0] == alternatives::leading_texts(segs),
{
    let all = all_sentences(segs);
    assert(all[0] == alternatives::leading_texts(segs));
    conversion::lemma_distinct_head(all);
}

proof fn lemma_exchanges_hold(segs: Seq<SegmentView>, n: int, i: int, k: int)
    requires
        0 <= i < n,
        1 <= k <= exchange_count(segs[i]),
    ensures
        exchanges(segs, n).contains(exchanged(segs, i, k)),
    decreases n,
{
    let before = exchanges(segs, n - 1);
    let new = exchanges_at(segs, n - 1);
    if i < n - 1 {
        lemma_exchanges_hold(segs, n - 1, i, k);
        let w = choose|w: int| 0 <= w < before.len() && before[w] == exchanged(segs, i, k);
        assert((before + new)[w] == exchanged(segs, i, k));
    } else {
        assert(new[k - 1] == exchanged(segs, i, k));
        assert((before + new)[before.len() + k - 1] == exchanged(segs, i, k));
    }
}

proof fn lemma_exchanges_from(segs: Seq<SegmentView>, n: int, w: int) -> (ik: (int, int))
    requires
        0 <= w < exchanges(segs, n).len(),
    ensures
        0 <= ik.0 < n,
        1 <= ik.1 <= exchange_count(segs[ik.0]),
        exchanges(segs, n)[w] == exchanged(segs, ik.0, ik.1),
    decreases n,
{
    let before = exchanges(segs, n - 1);
    if w < before.len() {
        lemma_exchanges_from(segs, n - 1, w)
    } else {
        (n - 1, w - before.len() + 1)
    }
}

/// Each sentence in which one segment shows its second, third or fourth word instead of
/// the leading one is offered.
pub proof fn law_exchanges_are_offered(segs: Seq<SegmentView>, i: int, k: int)
    requires
        0 <= i < segs.len(),
        1 <= k <= 3,
        k < segs[i].candidates.len(),
    ensures
        sentences(segs).contains(
            alternatives::leading_texts(segs.take(i)) + segs[i].candidates[k].surface
                + alternatives::leading_texts(segs.skip(i + 1)),
        ),
{
    let all = all_sentences(segs);
    let some = exchanges(segs, segs.len() as int);
    lemma_exchanges_hold(segs, segs.len() as int, i, k);
    let w = choose|w: int| 0 <= w < some.len() && some[w] == exchanged(segs, i, k);
    assert(all[1 + w] == exchanged(segs, i, k));
    conversion::lemma_distinct(all);
    assert(all.contains(all[1 + w]));
}

/// Nothing else is offered but the sentence of the leading words, the plain reading and
/// sentences with one exchanged word.
pub proof fn law_only_one_word_is_exchanged(segs: Seq<SegmentView>, t: Seq<char>)
    requires
        sentences(segs).contains(t),
    ensures
        t == alternatives::leading_texts(segs) || t == entry::joined_readings(segs) || exists|
            i: int,
            k: int,
        |
            0 <= i < segs.len() && 1 <= k <= 3 && k < segs[i].candidates.len() && t
                == alternatives::leading_texts(segs.take(i)) + (
            #[trigger] segs[i].candidates[k]).surface + alternatives::leading_texts(
                segs.skip(i + 1),
            ),
{
    let all = all_sentences(segs);
    let some = exchanges(segs, segs.len() as int);
    conversion::lemma_distinct(all);
    assert(all.contains(t));
    let w = choose|w: int| 0 <= w < all.len() && all[w] == t;
    if w == 0 {
    } else if w <= some.len() {
        assert(all[w] == some[w - 1]);
        let ik = lemma_exchanges_from(segs, segs.len() as int, w - 1);
        assert(t == exchanged(segs, ik.0, ik.1));
        assert(t == alternatives::leading_texts(segs.take(ik.0))
            + segs[ik.0].candidates[ik.1].surface + alternatives::leading_texts(
            segs.skip(ik.0 + 1),
        ));
    }
}

/// Grammar counts for four tenths of a sentence, the model for six tenths.
pub proof fn law_grammar_and_model_combine(grammar: Seq<i64>, llm: Seq<i64>, i: int)
    requires
        0 <= i < grammar.len(),
    ensures
        combined_scores(grammar, llm).len() == grammar.len(),
        combined_scores(grammar, llm)[i] == 4 * grammar[i] + 6 * llm[i],
{
}

/// What is recorded of a converted segment: its reading, the text that was chosen,
/// whether the user chose it, and the first five candidates.
pub proof fn law_record_is_faithful(r: SegmentRecord, s: SegmentStateView, i: int)
    requires
        records(r, s),
    ensures
        r.reading@ == s.reading,
        r.selected@ == s.candidates[s.selected],
        r.user_selected == s.user_selected,
        r.alternatives@.len() == (if s.candidates.len() < 5 {
            s.candidates.len() as int
        } else {
            5
        }),
        0 <= i < r.alternatives@.len() ==> r.alternatives@[i]@ == s.candidates[i],
{
    assert(conversion::texts(r.alternatives@).len() == r.alternatives@.len());
    if 0 <= i < r.alternatives@.len() {
        assert(conversion::texts(r.alternatives@)[i] == r.alternatives@[i]@);
    }
}

/// The leading word of a segment gives its kind; a segment without words is of none.
pub proof fn law_leading_word_gives_kind(s: SegmentView)
    ensures
        s.candidates.len() > 0 ==> leading_pos(s) == s.candidates[0].pos,
        s.candidates.len() == 0 ==> leading_pos(s) is Other,
        s.candidates.len() > 0 ==> alternatives::leading_text(s) == s.candidates[0].surface,
        s.candidates.len() == 0 ==> alternatives::leading_text(s) == s.reading,
{
}

} // verus!
