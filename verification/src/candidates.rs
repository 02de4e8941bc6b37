//! Ranking of the candidates of a segment.
//!
//! A candidate ranks by the frequency of its word, by what the user chose
//! before, and by how it is written. The plain reading is always offered.
use vstd::prelude::*;

use crate::conversion;
use crate::conversion::{find_text, SegmentState, SegmentStateView};
use crate::entry;
use crate::entry::{DictionaryEntry, EntryView, Segment, SegmentView};
use crate::pos::PartOfSpeech;
use crate::rank;
use crate::rank::order_desc;
use crate::text::{chars_of, same_text};
use crate::user_scorer;
use crate::user_scorer::UserScorer;

verus! {

/// What one step of frequency is worth: a ten-thousandth.
pub const FREQUENCY_UNIT: i64 = 100_000;

/// What the plain reading is worth before anything was learned: a tenth.
pub const KANA_BASE: i64 = 100_000_000;

/// Is the text written in katakana alone?
pub open spec fn all_katakana(s: Seq<char>) -> bool {
    s.len() > 0 && forall|i: int|
        0 <= i < s.len() ==> ('\u{30a1}' <= #[trigger] s[i] <= '\u{30f6}' || s[i] == 'ー')
}

/// Correction for the way a word is written: katakana spellings lose 0.3, and
/// a word written as it is read gains up to 0.2, depending on its kind.
pub open spec fn writing_bonus(reading: Seq<char>, surface: Seq<char>, p: PartOfSpeech) -> int {
    if surface == reading {
        match p {
            PartOfSpeech::Particle | PartOfSpeech::Auxiliary => 200_000_000,
            PartOfSpeech::Verb | PartOfSpeech::Adjective | PartOfSpeech::Adverb => 150_000_000,
            PartOfSpeech::Noun => 100_000_000,
            _ => 0,
        }
    } else if all_katakana(surface) {
        -300_000_000
    } else {
        0
    }
}

/// What an entry is worth as a candidate: its frequency in ten-thousandths,
/// twice what was learned of it, and the correction for the way it is written.
pub open spec fn worth(scorer: UserScorer, reading: Seq<char>, e: EntryView) -> int {
    e.frequency * FREQUENCY_UNIT + 2 * scorer.score_of(reading, e.surface) + writing_bonus(
        reading,
        e.surface,
        e.pos,
    )
}

/// What the plain reading is worth as a candidate.
pub open spec fn kana_worth(scorer: UserScorer, reading: Seq<char>) -> int {
    2 * scorer.score_of(reading, reading) + KANA_BASE
}

/// What each of the entries is worth.
pub open spec fn worths(scorer: UserScorer, reading: Seq<char>, entries: Seq<EntryView>) -> Seq<
    int,
> {
    entries.map_values(|e: EntryView| worth(scorer, reading, e))
}

/// The entries from the most to the least worth, ties in order.
pub open spec fn by_worth(scorer: UserScorer, reading: Seq<char>, entries: Seq<EntryView>) -> Seq<
    EntryView,
> {
    rank::taken(entries, rank::ranking(worths(scorer, reading, entries)))
}

/// Position of the first value below `k`, or the number of values.
pub open spec fn first_below(values: Seq<int>, k: int) -> int
    decreases values.len(),
{
    if values.len() == 0 {
        0
    } else {
        let before = first_below(values.drop_last(), k);
        if before < values.len() - 1 {
            before
        } else if values.last() < k {
            values.len() - 1
        } else {
            values.len() as int
        }
    }
}

/// The candidates for a reading: the surfaces of the entries by worth. Where
/// the reading itself is not among them it is put in front of the first entry
/// that is worth less.
pub open spec fn candidate_texts(
    scorer: UserScorer,
    reading: Seq<char>,
    entries: Seq<EntryView>,
) -> Seq<Seq<char>> {
    let sorted = by_worth(scorer, reading, entries);
    let surfaces = sorted.map_values(|e: EntryView| e.surface);
    if surfaces.contains(reading) {
        surfaces
    } else {
        surfaces.insert(
            first_below(worths(scorer, reading, sorted), kana_worth(scorer, reading)),
            reading,
        )
    }
}

/// A segment at the start of its conversion: the best candidate is chosen.
pub open spec fn fresh_state(scorer: UserScorer, seg: SegmentView) -> SegmentStateView {
    SegmentStateView {
        reading: seg.reading,
        start: seg.start,
        candidates: candidate_texts(scorer, seg.reading, seg.candidates),
        selected: 0,
        user_selected: false,
    }
}

/// The segments at the start of their conversion.
pub open spec fn fresh_states(scorer: UserScorer, segs: Seq<SegmentView>) -> Seq<SegmentStateView> {
    segs.map_values(|s: SegmentView| fresh_state(scorer, s))
}

pub proof fn lemma_first_below(values: Seq<int>, k: int)
    ensures
        0 <= first_below(values, k) <= values.len(),
    decreases values.len(),
{
    if values.len() > 0 {
        lemma_first_below(values.drop_last(), k);
    }
}

/// The plain reading is always among the candidates.
pub proof fn law_reading_is_offered(scorer: UserScorer, reading: Seq<char>, entries: Seq<EntryView>)
    ensures
        candidate_texts(scorer, reading, entries).contains(reading),
        candidate_texts(scorer, reading, entries).len() > 0,
{
    let sorted = by_worth(scorer, reading, entries);
    let surfaces = sorted.map_values(|e: EntryView| e.surface);
    if !surfaces.contains(reading) {
        let at = first_below(worths(scorer, reading, sorted), kana_worth(scorer, reading));
        lemma_first_below(worths(scorer, reading, sorted), kana_worth(scorer, reading));
        assert(surfaces.insert(at, reading)[at] == reading);
    }
}

/// Correction for the way a word is written.
pub fn surface_adjustment(reading: &str, surface: &str, p: PartOfSpeech) -> (nano: i64)
    ensures
        nano == writing_bonus(reading@, surface@, p),
        -300_000_000 <= nano <= 200_000_000,
{
    if same_text(surface, reading) {
        return match p {
            PartOfSpeech::Particle | PartOfSpeech::Auxiliary => 200_000_000,
            PartOfSpeech::Verb | PartOfSpeech::Adjective | PartOfSpeech::Adverb => 150_000_000,
            PartOfSpeech::Noun => 100_000_000,
            _ => 0,
        };
    }
    let chars: Vec<char> = chars_of(surface);
    if chars.len() == 0 {
        return 0;
    }
    let mut i: usize = 0;
    while i < chars.len()
        invariant
            i <= chars@.len(),
            chars@ == surface@,
            chars@.len() > 0,
            surface@ != reading@,
            forall|k: int|
                0 <= k < i ==> ('\u{30a1}' <= #[trigger] surface@[k] <= '\u{30f6}' || surface@[k]
                    == 'ー'),
        decreases chars@.len() - i,
    {
        let c: char = chars[i];
        if !(('\u{30a1}' <= c && c <= '\u{30f6}') || c == 'ー') {
            assert(!('\u{30a1}' <= surface@[i as int] <= '\u{30f6}' || surface@[i as int] == 'ー'));
            return 0;
        }
        i = i + 1;
    }
    -300_000_000
}

/// What an entry is worth as a candidate.
pub fn effective_score_with(scorer: &UserScorer, reading: &str, e: &DictionaryEntry) -> (nano: i64)
    requires
        scorer.wf(),
    ensures
        nano == worth(*scorer, reading@, e@),
{
    let user: i64 = scorer.score(reading, e.surface.as_str());
    let adjustment: i64 = surface_adjustment(reading, e.surface.as_str(), e.pos);
    (e.frequency as i64) * FREQUENCY_UNIT + 2 * user + adjustment
}

/// The candidates for a reading.
pub fn rank_candidates(scorer: &UserScorer, reading: &str, entries: &Vec<DictionaryEntry>) -> (out:
    Vec<String>)
    requires
        scorer.wf(),
    ensures
        conversion::texts(out@) == candidate_texts(
            *scorer,
            reading@,
            entry::entry_views(entries@),
        ),
{
    let ghost all = entry::entry_views(entries@);
    let ghost want = worths(*scorer, reading@, all);
    let mut keys: Vec<i128> = Vec::new();
    let mut i: usize = 0;
    while i < entries.len()
        invariant
            i <= entries@.len(),
            scorer.wf(),
            all == entry::entry_views(entries@),
            want == worths(*scorer, reading@, all),
            keys@.len() == i,
            forall|k: int| 0 <= k < i ==> (#[trigger] keys@[k]) as int == want[k],
        decreases entries@.len() - i,
    {
        let w: i64 = effective_score_with(scorer, reading, &entries[i]);
        assert(want[i as int] == w as int);
        keys.push(w as i128);
        i = i + 1;
    }
    assert(keys@.map_values(|k: i128| k as int) =~= want);
    let order: Vec<usize> = order_desc(&keys);
    let ghost ints = order@.map_values(|k: usize| k as int);
    let ghost sorted = by_worth(*scorer, reading@, all);
    let ghost surfaces = sorted.map_values(|e: EntryView| e.surface);
    let mut out: Vec<String> = Vec::new();
    let mut j: usize = 0;
    while j < order.len()
        invariant
            j <= order@.len(),
            order@.len() == entries@.len(),
            all == entry::entry_views(entries@),
            ints == order@.map_values(|k: usize| k as int),
            ints == rank::ranking(want),
            want == worths(*scorer, reading@, all),
            sorted == by_worth(*scorer, reading@, all),
            surfaces == sorted.map_values(|e: EntryView| e.surface),
            out@.len() == j,
            forall|m: int| 0 <= m < order@.len() ==> (#[trigger] order@[m]) < entries@.len(),
            forall|m: int| 0 <= m < j ==> (#[trigger] out@[m])@ == surfaces[m],
        decreases order@.len() - j,
    {
        assert(ints[j as int] == order@[j as int] as int);
        out.push(entries[order[j]].surface.clone());
        j = j + 1;
    }
    assert(conversion::texts(out@) =~= surfaces);
    let own: String = reading.to_owned();
    proof {
        conversion::lemma_position_of(surfaces, reading@);
    }
    if find_text(&out, &own) < out.len() {
        return out;
    }
    let kana: i64 = 2 * scorer.score(reading, reading) + KANA_BASE;
    let ghost sorted_worths = worths(*scorer, reading@, sorted);
    let mut at: usize = 0;
    while at < order.len() && keys[order[at]] >= kana as i128
        invariant
            at <= order@.len(),
            order@.len() == entries@.len(),
            keys@.len() == entries@.len(),
            all == entry::entry_views(entries@),
            ints == order@.map_values(|k: usize| k as int),
            ints == rank::ranking(want),
            want == worths(*scorer, reading@, all),
            sorted == by_worth(*scorer, reading@, all),
            sorted_worths == worths(*scorer, reading@, sorted),
            forall|k: int| 0 <= k < keys@.len() ==> (#[trigger] keys@[k]) as int == want[k],
            forall|m: int| 0 <= m < order@.len() ==> (#[trigger] order@[m]) < entries@.len(),
            first_below(sorted_worths.take(at as int), kana as int) == at,
        decreases order@.len() - at,
    {
        proof {
            assert(ints[at as int] == order@[at as int] as int);
            assert(sorted_worths[at as int] == want[order@[at as int] as int]);
            assert(sorted_worths.take(at + 1).drop_last() =~= sorted_worths.take(at as int));
            assert(sorted_worths.take(at + 1).last() == sorted_worths[at as int]);
        }
        at = at + 1;
    }
    proof {
        if at < order@.len() {
            assert(ints[at as int] == order@[at as int] as int);
            assert(sorted_worths[at as int] == want[order@[at as int] as int]);
            assert(sorted_worths.take(at + 1).drop_last() =~= sorted_worths.take(at as int));
            assert(sorted_worths.take(at + 1).last() == sorted_worths[at as int]);
            lemma_first_below_prefix(sorted_worths, kana as int, at + 1);
        } else {
            assert(sorted_worths.take(at as int) =~= sorted_worths);
        }
        assert(at == first_below(sorted_worths, kana as int));
    }
    out.insert(at, own);
    assert(conversion::texts(out@) =~= surfaces.insert(at as int, reading@));
    out
}

proof fn lemma_first_below_prefix(values: Seq<int>, k: int, n: int)
    requires
        0 <= n <= values.len(),
        first_below(values.take(n), k) < n,
    ensures
        first_below(values, k) == first_below(values.take(n), k),
    decreases values.len() - n,
{
    if n < values.len() {
        assert(values.take(n + 1).drop_last() =~= values.take(n));
        lemma_first_below_prefix(values, k, n + 1);
    } else {
        assert(values.take(n) =~= values);
    }
}

/// The segments at the start of their conversion, moved by `base` characters.
pub fn build_segment_states(scorer: &UserScorer, segs: &Vec<Segment>, base: usize) -> (out: Vec<
    SegmentState,
>)
    requires
        scorer.wf(),
        forall|i: int| 0 <= i < segs@.len() ==> (#[trigger] segs@[i]).start + base <= usize::MAX,
    ensures
        conversion::state_views(out@) == shifted(
            fresh_states(*scorer, entry::segment_views(segs@)),
            base as int,
        ),
{
    let ghost want = shifted(fresh_states(*scorer, entry::segment_views(segs@)), base as int);
    let mut out: Vec<SegmentState> = Vec::new();
    let mut i: usize = 0;
    while i < segs.len()
        invariant
            i <= segs@.len(),
            scorer.wf(),
            forall|k: int|
                0 <= k < segs@.len() ==> (#[trigger] segs@[k]).start + base <= usize::MAX,
            want == shifted(
                fresh_states(*scorer, entry::segment_views(segs@)),
                base as int,
            ),
            out@.len() == i,
            forall|k: int| 0 <= k < i ==> (#[trigger] out@[k])@ == want[k],
        decreases segs@.len() - i,
    {
        let s: &Segment = &segs[i];
        let candidates: Vec<String> = rank_candidates(scorer, s.reading.as_str(), &s.candidates);
        let state: SegmentState = SegmentState {
            reading: s.reading.clone(),
            start: s.start + base,
            candidates,
            selected: 0,
            user_selected: false,
        };
        proof {
            assert(entry::segment_views(segs@)[i as int] == segs@[i as int]@);
            assert(state@ == want[i as int]);
        }
        out.push(state);
        i = i + 1;
    }
    assert(conversion::state_views(out@) =~= want);
    out
}

/// The segments moved by `base` characters.
pub open spec fn shifted(segs: Seq<SegmentStateView>, base: int) -> Seq<SegmentStateView> {
    segs.map_values(
        |s: SegmentStateView| SegmentStateView { start: s.start + base, ..s },
    )
}

/// The surfaces of the entries.
pub open spec fn surfaces_of(entries: Seq<EntryView>) -> Seq<Seq<char>> {
    entries.map_values(|e: EntryView| e.surface)
}

proof fn lemma_below(values: Seq<int>, k: int)
    ensures
        0 <= first_below(values, k) <= values.len(),
        forall|i: int| 0 <= i < first_below(values, k) ==> #[trigger] values[i] >= k,
        first_below(values, k) < values.len() ==> values[first_below(values, k)] < k,
    decreases values.len(),
{
    if values.len() > 0 {
        let rest = values.drop_last();
        lemma_below(rest, k);
        let at = first_below(values, k);
        assert forall|i: int| 0 <= i < at implies #[trigger] values[i] >= k by {
            if i < rest.len() {
                assert(values[i] == rest[i]);
            }
        }
        if at < rest.len() {
            assert(values[at] == rest[at]);
        }
    }
}

/// Where the plain reading goes if no entry is written so.
spec fn kana_place(scorer: UserScorer, reading: Seq<char>, entries: Seq<EntryView>) -> int {
    first_below(
        worths(scorer, reading, by_worth(scorer, reading, entries)),
        kana_worth(scorer, reading),
    )
}

/// The surfaces by worth, and where the plain reading goes.
proof fn lemma_list(scorer: UserScorer, reading: Seq<char>, entries: Seq<EntryView>)
    ensures
        ({
            let keys = worths(scorer, reading, entries);
            let by = rank::taken(surfaces_of(entries), rank::ranking(keys));
            let kana = kana_worth(scorer, reading);
            let list = candidate_texts(scorer, reading, entries);
            &&& by.len() == entries.len()
            &&& by.contains(reading) <==> surfaces_of(entries).contains(reading)
            &&& by.contains(reading) ==> list == by
            &&& !by.contains(reading) ==> {
                let at = kana_place(scorer, reading, entries);
                &&& 0 <= at <= by.len()
                &&& list == by.insert(at, reading)
                &&& forall|p: int|
                    0 <= p < by.len() ==> (p < at <==> keys[#[trigger] rank::ranking(keys)[p]]
                        >= kana)
            }
        }),
{
    let keys = worths(scorer, reading, entries);
    let order = rank::ranking(keys);
    let by = rank::taken(surfaces_of(entries), order);
    let kana = kana_worth(scorer, reading);
    let sorted = by_worth(scorer, reading, entries);
    rank::lemma_ranking(keys);
    assert(by =~= sorted.map_values(|e: EntryView| e.surface));
    if by.contains(reading) {
        let p = choose|p: int| 0 <= p < by.len() && by[p] == reading;
        assert(surfaces_of(entries)[order[p]] == reading);
    }
    if surfaces_of(entries).contains(reading) {
        let i = choose|i: int| 0 <= i < entries.len() && surfaces_of(entries)[i] == reading;
        assert(order.contains(i));
        let p = choose|p: int| 0 <= p < order.len() && order[p] == i;
        assert(by[p] == reading);
    }
    if !by.contains(reading) {
        let values = worths(scorer, reading, sorted);
        let at = first_below(values, kana);
        lemma_below(values, kana);
        assert(candidate_texts(scorer, reading, entries) == by.insert(at, reading));
        assert forall|p: int| 0 <= p < by.len() implies (p < at <==> keys[#[trigger] order[p]]
            >= kana) by {
            assert(values[p] == keys[order[p]]);
            if p > at {
                assert(values[at] == keys[order[at]]);
                assert(rank::ranks_before(keys, order[at], order[p]));
            }
        }
    }
}

/// If a scorer rates `t` at least as high as another one does and everything
/// else at most as high, `t` stays ahead of whatever it was ahead of.
proof fn lemma_rated_higher(
    a: UserScorer,
    b: UserScorer,
    reading: Seq<char>,
    entries: Seq<EntryView>,
    t: Seq<char>,
    u: Seq<char>,
)
    requires
        t != u,
        a.score_of(reading, t) <= b.score_of(reading, t),
        forall|x: Seq<char>|
            x != t ==> #[trigger] a.score_of(reading, x) >= b.score_of(reading, x),
        rank::ahead(candidate_texts(a, reading, entries), t, u),
    ensures
        rank::ahead(candidate_texts(b, reading, entries), t, u),
{
    let ss = surfaces_of(entries);
    let ka = worths(a, reading, entries);
    let kb = worths(b, reading, entries);
    let oa = rank::ranking(ka);
    let ob = rank::ranking(kb);
    let la = rank::taken(ss, oa);
    let lb = rank::taken(ss, ob);
    let ca = candidate_texts(a, reading, entries);
    let cb = candidate_texts(b, reading, entries);
    lemma_list(a, reading, entries);
    lemma_list(b, reading, entries);
    rank::lemma_ranking(ka);
    rank::lemma_ranking(kb);
    assert forall|k: int| 0 <= k < ka.len() && #[trigger] ss[k] == t implies ka[k] <= kb[k] by {
        assert(entries[k].surface == t);
    }
    assert forall|k: int| 0 <= k < ka.len() && #[trigger] ss[k] != t implies ka[k] >= kb[k] by {
        assert(a.score_of(reading, entries[k].surface) >= b.score_of(reading, entries[k].surface));
    }
    if la.contains(reading) {
        rank::lemma_stays_ahead(ss, ka, kb, t, u);
    } else {
        let ata = kana_place(a, reading, entries);
        let atb = kana_place(b, reading, entries);
        let p = choose|p: int|
            0 <= p < ca.len() && #[trigger] ca[p] == t && forall|q: int|
                0 <= q <= p ==> #[trigger] ca[q] != u;
        if t == reading {
            if p != ata {
                let p0 = if p < ata { p } else { p - 1 };
                assert(la[p0] == t);
            }
            assert(ca[ata] == reading);
            assert(cb[atb] == reading);
            assert forall|q: int| 0 <= q <= atb implies #[trigger] cb[q] != u by {
                if q < atb && cb[q] == u {
                    assert(cb[q] == lb[q]);
                    let j = ob[q];
                    assert(ss[j] == u);
                    assert(oa.contains(j));
                    let m = choose|m: int| 0 <= m < oa.len() && oa[m] == j;
                    assert(la[m] == u);
                    assert(kb[j] >= kana_worth(b, reading));
                    assert(ka[j] >= kb[j]);
                    assert(m < ata);
                    assert(ca[m] == u);
                }
            }
        } else if u == reading {
            assert(ca[ata] == reading);
            assert(p < ata);
            assert(ca[p] == la[p]);
            let i = oa[p];
            assert(ss[i] == t);
            assert(ka[i] >= kana_worth(a, reading));
            assert(a.score_of(reading, u) >= b.score_of(reading, u));
            assert(ob.contains(i));
            let m = choose|m: int| 0 <= m < ob.len() && ob[m] == i;
            assert(lb[m] == t);
            assert(m < atb);
            assert(cb[m] == t);
            assert forall|q: int| 0 <= q <= m implies #[trigger] cb[q] != u by {
                assert(cb[q] == lb[q]);
            }
        } else {
            assert(rank::ahead(la, t, u)) by {
                assert(ca[ata] == reading);
                let p0 = if p < ata { p } else { p - 1 };
                assert(la[p0] == t);
                assert forall|q: int| 0 <= q <= p0 implies #[trigger] la[q] != u by {
                    if q < ata {
                        assert(ca[q] == la[q]);
                    } else {
                        assert(ca[q + 1] == la[q]);
                    }
                }
            }
            rank::lemma_stays_ahead(ss, ka, kb, t, u);
            let m0 = choose|m: int|
                0 <= m < lb.len() && #[trigger] lb[m] == t && forall|q: int|
                    0 <= q <= m ==> #[trigger] lb[q] != u;
            let m = if m0 < atb { m0 } else { m0 + 1 };
            assert(cb[m] == t);
            assert forall|q: int| 0 <= q <= m implies #[trigger] cb[q] != u by {
                if q < atb {
                    assert(cb[q] == lb[q]);
                } else if q > atb {
                    assert(cb[q] == lb[q - 1]);
                } else {
                    assert(cb[q] == reading);
                }
            }
        }
    }
}

/// An entry that is worth more than everything written as `u` comes before it.
proof fn lemma_worth_decides(
    scorer: UserScorer,
    reading: Seq<char>,
    entries: Seq<EntryView>,
    i: int,
    u: Seq<char>,
)
    requires
        0 <= i < entries.len(),
        entries[i].surface != u,
        forall|j: int|
            0 <= j < entries.len() && (#[trigger] entries[j]).surface == u ==> worth(
                scorer,
                reading,
                entries[j],
            ) < worth(scorer, reading, entries[i]),
        u == reading && !surfaces_of(entries).contains(reading) ==> worth(
            scorer,
            reading,
            entries[i],
        ) >= kana_worth(scorer, reading),
    ensures
        rank::ahead(candidate_texts(scorer, reading, entries), entries[i].surface, u),
{
    let t = entries[i].surface;
    let ss = surfaces_of(entries);
    let keys = worths(scorer, reading, entries);
    let order = rank::ranking(keys);
    let by = rank::taken(ss, order);
    let list = candidate_texts(scorer, reading, entries);
    lemma_list(scorer, reading, entries);
    rank::lemma_ranking(keys);
    assert forall|j: int| 0 <= j < keys.len() && #[trigger] ss[j] == u implies keys[j] < keys[i] by {
        assert(entries[j].surface == u);
    }
    rank::lemma_ranked_ahead(ss, keys, i, u);
    if !by.contains(reading) {
        let at = kana_place(scorer, reading, entries);
        assert(order.contains(i));
        let m = choose|m: int| 0 <= m < order.len() && order[m] == i;
        assert(by[m] == t);
        assert(t != reading);
        let p = if m < at { m } else { m + 1 };
        assert(list[p] == t);
        assert forall|q: int| 0 <= q <= p implies #[trigger] list[q] != u by {
            if q != at {
                let q0 = if q < at { q } else { q - 1 };
                assert(list[q] == by[q0]);
                if q0 < m && by[q0] == u {
                    assert(ss[order[q0]] == u);
                    assert(rank::ranks_before(keys, order[q0], order[m]));
                }
            }
        }
    }
}

/// The plain reading comes before everything that is worth less.
proof fn lemma_kana_decides(
    scorer: UserScorer,
    reading: Seq<char>,
    entries: Seq<EntryView>,
    u: Seq<char>,
)
    requires
        u != reading,
        !surfaces_of(entries).contains(reading),
        forall|j: int|
            0 <= j < entries.len() && (#[trigger] entries[j]).surface == u ==> worth(
                scorer,
                reading,
                entries[j],
            ) < kana_worth(scorer, reading),
    ensures
        rank::ahead(candidate_texts(scorer, reading, entries), reading, u),
{
    let ss = surfaces_of(entries);
    let keys = worths(scorer, reading, entries);
    let order = rank::ranking(keys);
    let by = rank::taken(ss, order);
    let list = candidate_texts(scorer, reading, entries);
    let at = kana_place(scorer, reading, entries);
    lemma_list(scorer, reading, entries);
    rank::lemma_ranking(keys);
    assert(list[at] == reading);
    assert forall|q: int| 0 <= q <= at implies #[trigger] list[q] != u by {
        if q < at && list[q] == u {
            assert(list[q] == by[q]);
            assert(ss[order[q]] == u);
            assert(entries[order[q]].surface == u);
        }
    }
}

/// Is the word written in an ordinary way: neither as it is read nor in katakana
/// alone?
pub open spec fn ordinary(reading: Seq<char>, surface: Seq<char>) -> bool {
    surface != reading && (surface.len() == 0 || exists|i: int|
        0 <= i < surface.len() && !('\u{30a1}' <= #[trigger] surface[i] <= '\u{30f6}') && surface[i]
            != 'ー')
}

/// Every word of a reading is offered, and the plain reading; nothing else is.
pub proof fn law_every_word_is_offered(
    scorer: UserScorer,
    reading: Seq<char>,
    entries: Seq<EntryView>,
    t: Seq<char>,
)
    ensures
        candidate_texts(scorer, reading, entries).contains(t) <==> (t == reading || exists|i: int|
            0 <= i < entries.len() && (#[trigger] entries[i]).surface == t),
        entries.len() <= candidate_texts(scorer, reading, entries).len() <= entries.len() + 1,
{
    let ss = surfaces_of(entries);
    let keys = worths(scorer, reading, entries);
    let order = rank::ranking(keys);
    let by = rank::taken(ss, order);
    let list = candidate_texts(scorer, reading, entries);
    let at = kana_place(scorer, reading, entries);
    lemma_list(scorer, reading, entries);
    law_reading_is_offered(scorer, reading, entries);
    rank::lemma_ranking(keys);
    if list.contains(t) && t != reading {
        let p = choose|p: int| 0 <= p < list.len() && list[p] == t;
        let q = if by.contains(reading) || p < at { p } else { p - 1 };
        assert(by[q] == t);
        assert(entries[order[q]].surface == t);
    }
    if exists|i: int| 0 <= i < entries.len() && (#[trigger] entries[i]).surface == t {
        let i = choose|i: int| 0 <= i < entries.len() && (#[trigger] entries[i]).surface == t;
        assert(order.contains(i));
        let q = choose|q: int| 0 <= q < order.len() && order[q] == i;
        assert(by[q] == t);
        if !by.contains(reading) {
            let p = if q < at { q } else { q + 1 };
            assert(list[p] == t);
        }
    }
}

/// What the user chose more often comes first: of two words written in an
/// ordinary way, of which the one is no rarer than the other, that with the
/// higher learned score is ahead.
pub proof fn law_learned_word_leads(
    scorer: UserScorer,
    reading: Seq<char>,
    entries: Seq<EntryView>,
    i: int,
    u: Seq<char>,
)
    requires
        0 <= i < entries.len(),
        ordinary(reading, entries[i].surface),
        ordinary(reading, u),
        scorer.score_of(reading, entries[i].surface) > scorer.score_of(reading, u),
        forall|j: int|
            0 <= j < entries.len() && (#[trigger] entries[j]).surface == u ==> entries[j].frequency
                <= entries[i].frequency,
    ensures
        rank::ahead(candidate_texts(scorer, reading, entries), entries[i].surface, u),
{
    lemma_worth_decides(scorer, reading, entries, i, u);
}

/// Of two words that were learned alike and are written in an ordinary way, the
/// more frequent one comes first.
pub proof fn law_frequent_word_leads(
    scorer: UserScorer,
    reading: Seq<char>,
    entries: Seq<EntryView>,
    i: int,
    u: Seq<char>,
)
    requires
        0 <= i < entries.len(),
        ordinary(reading, entries[i].surface),
        ordinary(reading, u),
        scorer.score_of(reading, entries[i].surface) >= scorer.score_of(reading, u),
        forall|j: int|
            0 <= j < entries.len() && (#[trigger] entries[j]).surface == u ==> entries[j].frequency
                < entries[i].frequency,
    ensures
        rank::ahead(candidate_texts(scorer, reading, entries), entries[i].surface, u),
{
    lemma_worth_decides(scorer, reading, entries, i, u);
}

/// How learning and frequency weigh against each other: a score of one is worth
/// twenty thousand steps of frequency.
pub proof fn law_learning_outweighs_frequency(
    scorer: UserScorer,
    reading: Seq<char>,
    entries: Seq<EntryView>,
    i: int,
    u: Seq<char>,
)
    requires
        0 <= i < entries.len(),
        entries[i].surface != u,
        ordinary(reading, entries[i].surface),
        ordinary(reading, u),
        forall|j: int|
            0 <= j < entries.len() && (#[trigger] entries[j]).surface == u ==> 20_000 * (
            scorer.score_of(reading, entries[i].surface) - scorer.score_of(reading, u))
                > 1_000_000_000 * (entries[j].frequency - entries[i].frequency),
    ensures
        rank::ahead(candidate_texts(scorer, reading, entries), entries[i].surface, u),
{
    lemma_worth_decides(scorer, reading, entries, i, u);
}

/// A word written in katakana alone loses three thousand steps of frequency
/// against one that is written in an ordinary way.
pub proof fn law_katakana_is_held_back(
    scorer: UserScorer,
    reading: Seq<char>,
    entries: Seq<EntryView>,
    i: int,
    u: Seq<char>,
)
    requires
        0 <= i < entries.len(),
        entries[i].surface != u,
        scorer.score_of(reading, entries[i].surface) == scorer.score_of(reading, u),
    ensures
        ordinary(reading, entries[i].surface) && u != reading && !ordinary(reading, u) && (forall|
            j: int,
        |
            0 <= j < entries.len() && (#[trigger] entries[j]).surface == u ==> entries[j].frequency
                < entries[i].frequency + 3000) ==> rank::ahead(
            candidate_texts(scorer, reading, entries),
            entries[i].surface,
            u,
        ),
        ordinary(reading, u) && entries[i].surface != reading && !ordinary(
            reading,
            entries[i].surface,
        ) && (forall|j: int|
            0 <= j < entries.len() && (#[trigger] entries[j]).surface == u ==> entries[j].frequency
                + 3000 < entries[i].frequency) ==> rank::ahead(
            candidate_texts(scorer, reading, entries),
            entries[i].surface,
            u,
        ),
{
    let t = entries[i].surface;
    if ordinary(reading, t) && u != reading && !ordinary(reading, u) && (forall|j: int|
        0 <= j < entries.len() && (#[trigger] entries[j]).surface == u ==> entries[j].frequency
            < entries[i].frequency + 3000) {
        lemma_worth_decides(scorer, reading, entries, i, u);
    }
    if ordinary(reading, u) && t != reading && !ordinary(reading, t) && (forall|j: int|
        0 <= j < entries.len() && (#[trigger] entries[j]).surface == u ==> entries[j].frequency
            + 3000 < entries[i].frequency) {
        lemma_worth_decides(scorer, reading, entries, i, u);
    }
}

/// A word that is written as it is read gains steps of frequency by its kind:
/// particles and auxiliaries two thousand, verbs, adjectives and adverbs fifteen
/// hundred, nouns a thousand, others none.
pub proof fn law_kana_words_are_favoured(
    scorer: UserScorer,
    reading: Seq<char>,
    entries: Seq<EntryView>,
    i: int,
    u: Seq<char>,
    gain: int,
)
    requires
        0 <= i < entries.len(),
        entries[i].surface == reading,
        gain == (match entries[i].pos {
            PartOfSpeech::Particle | PartOfSpeech::Auxiliary => 2000int,
            PartOfSpeech::Verb | PartOfSpeech::Adjective | PartOfSpeech::Adverb => 1500,
            PartOfSpeech::Noun => 1000,
            _ => 0,
        }),
        ordinary(reading, u),
        scorer.score_of(reading, reading) == scorer.score_of(reading, u),
    ensures
        (forall|j: int|
            0 <= j < entries.len() && (#[trigger] entries[j]).surface == u ==> entries[j].frequency
                < entries[i].frequency + gain) ==> rank::ahead(
            candidate_texts(scorer, reading, entries),
            reading,
            u,
        ),
        (forall|j: int|
            0 <= j < entries.len() && (#[trigger] entries[j]).surface == reading ==> j == i) && (
        exists|j: int|
            0 <= j < entries.len() && (#[trigger] entries[j]).surface == u && entries[j].frequency
                > entries[i].frequency + gain) ==> rank::ahead(
            candidate_texts(scorer, reading, entries),
            u,
            reading,
        ),
{
    if forall|j: int|
        0 <= j < entries.len() && (#[trigger] entries[j]).surface == u ==> entries[j].frequency
            < entries[i].frequency + gain {
        lemma_worth_decides(scorer, reading, entries, i, u);
    }
    if (forall|j: int|
        0 <= j < entries.len() && (#[trigger] entries[j]).surface == reading ==> j == i) && (exists|
        j: int,
    |
        0 <= j < entries.len() && (#[trigger] entries[j]).surface == u && entries[j].frequency
            > entries[i].frequency + gain) {
        let j = choose|j: int|
            0 <= j < entries.len() && (#[trigger] entries[j]).surface == u && entries[j].frequency
                > entries[i].frequency + gain;
        assert(surfaces_of(entries)[i] == reading);
        lemma_worth_decides(scorer, reading, entries, j, reading);
    }
}

/// Where no word is written as it is read, the plain reading stands among words
/// that were learned as little like one of frequency a thousand: behind those
/// that are no rarer, in front of the others. What was learned of it counts like
/// what was learned of a word.
pub proof fn law_plain_reading_has_its_place(
    scorer: UserScorer,
    reading: Seq<char>,
    entries: Seq<EntryView>,
    i: int,
)
    requires
        0 <= i < entries.len(),
        ordinary(reading, entries[i].surface),
        forall|j: int| 0 <= j < entries.len() ==> (#[trigger] entries[j]).surface != reading,
    ensures
        20_000 * scorer.score_of(reading, entries[i].surface) + 1_000_000_000 * entries[i].frequency
            >= 20_000 * scorer.score_of(reading, reading) + 1_000_000_000 * 1000 ==> rank::ahead(
            candidate_texts(scorer, reading, entries),
            entries[i].surface,
            reading,
        ),
        (forall|j: int|
            0 <= j < entries.len() && (#[trigger] entries[j]).surface == entries[i].surface
                ==> 20_000 * scorer.score_of(reading, entries[i].surface) + 1_000_000_000
                * entries[j].frequency < 20_000 * scorer.score_of(reading, reading)
                + 1_000_000_000 * 1000) ==> rank::ahead(
            candidate_texts(scorer, reading, entries),
            reading,
            entries[i].surface,
        ),
{
    assert(!surfaces_of(entries).contains(reading)) by {
        if surfaces_of(entries).contains(reading) {
            let j = choose|j: int| 0 <= j < entries.len() && surfaces_of(entries)[j] == reading;
            assert(entries[j].surface == reading);
        }
    }
    let s = entries[i].surface;
    if 20_000 * scorer.score_of(reading, s) + 1_000_000_000 * entries[i].frequency >= 20_000
        * scorer.score_of(reading, reading) + 1_000_000_000 * 1000 {
        lemma_worth_decides(scorer, reading, entries, i, reading);
    }
    if forall|j: int|
        0 <= j < entries.len() && (#[trigger] entries[j]).surface == s ==> 20_000 * scorer.score_of(
            reading,
            s,
        ) + 1_000_000_000 * entries[j].frequency < 20_000 * scorer.score_of(reading, reading)
            + 1_000_000_000 * 1000 {
        lemma_kana_decides(scorer, reading, entries, s);
    }
}

/// Choosing a candidate never moves it back: whatever it was ahead of before the
/// selection was counted, it is ahead of afterwards, also where the store gave up
/// other selections to make room.
pub proof fn law_selection_promotes(
    before: UserScorer,
    after: UserScorer,
    reading: Seq<char>,
    entries: Seq<EntryView>,
    chosen: Seq<char>,
    evicted: Seq<(String, String)>,
    u: Seq<char>,
)
    requires
        before.score_table().wf(),
        forall|a: int, b: int|
            0 <= a <= b ==> #[trigger] before.score_table().at(a)
                <= #[trigger] before.score_table().at(b),
        after.score_table() == before.score_table(),
        after.counts() == user_scorer::without_pairs(
            user_scorer::counted(before.counts(), user_scorer::score_key(reading, chosen)),
            evicted,
        ),
        forall|i: int|
            0 <= i < evicted.len() ==> user_scorer::score_key(
                (#[trigger] evicted[i]).0@,
                evicted[i].1@,
            ) != user_scorer::score_key(reading, chosen),
        chosen != u,
        rank::ahead(candidate_texts(before, reading, entries), chosen, u),
    ensures
        rank::ahead(candidate_texts(after, reading, entries), chosen, u),
{
    let m = before.counts();
    let table = before.score_table();
    let k = user_scorer::score_key(reading, chosen);
    let counted = user_scorer::counted(m, k);
    user_scorer::law_learning_never_lowers(m, table, k);
    user_scorer::law_only_evicted_pairs_go(counted, evicted, k);
    assert forall|x: Seq<char>| x != chosen implies #[trigger] before.score_of(reading, x)
        >= after.score_of(reading, x) by {
        let j = user_scorer::score_key(reading, x);
        assert(j.skip((reading.len() + 1) as int) =~= x);
        assert(k.skip((reading.len() + 1) as int) =~= chosen);
        assert(j != k);
        user_scorer::law_only_evicted_pairs_go(counted, evicted, j);
        user_scorer::law_selection_is_counted(m, k, j);
        if m.contains_key(j) {
            crate::nano::lemma_value_within(table@, m[j] as int);
        }
    }
    lemma_rated_higher(before, after, reading, entries, chosen, u);
}

} // verus!
