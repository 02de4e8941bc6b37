//! Moving the boundary between a segment and the next.
//!
//! The focused segment takes a character from its neighbour or gives one away.
//! The candidates of both are looked up anew; a neighbour that received a
//! character may fall apart into several segments.
use vstd::prelude::*;

use crate::candidates;
use crate::candidates::{build_segment_states, rank_candidates};
use crate::conversion;
use crate::conversion::{ConversionState, ConversionView, SegmentState, SegmentStateView};
use crate::dictionary::Dictionary;
use crate::entry;
use crate::entry::{DictionaryEntry, EntryView, Segment, SegmentView};
use crate::nano::NanoTable;
use crate::segmentation;
use crate::segmenter;
use crate::text::{chars_of, text_between, text_of_char};
use crate::user_scorer::UserScorer;

verus! {

/// Can the boundary behind the focused segment be moved? To the right there
/// has to be a next segment, to the left the segment must keep a character.
pub open spec fn can_resize(v: ConversionView, delta: int) -> bool {
    if delta > 0 {
        v.focus + 1 < v.segments.len()
    } else {
        v.segments[v.focus].reading.len() > 1
    }
}

/// The segments that take the place of the focused one and the next, when the
/// focused one takes the first character of the next.
pub open spec fn extended(cur: SegmentStateView, next: SegmentStateView) -> Seq<
    SegmentStateView,
> {
    let grown = SegmentStateView { reading: cur.reading.push(next.reading[0]), ..cur };
    if next.reading.len() == 1 {
        seq![grown]
    } else {
        seq![
            grown,
            SegmentStateView { reading: next.reading.skip(1), start: next.start + 1, ..next },
        ]
    }
}

/// The segments that take the place of the focused one and the next, when the
/// focused one gives its last character to the next.
pub open spec fn shrunk(cur: SegmentStateView, next: SegmentStateView) -> Seq<SegmentStateView> {
    seq![
        SegmentStateView { reading: cur.reading.drop_last(), ..cur },
        SegmentStateView {
            reading: seq![cur.reading.last()] + next.reading,
            start: next.start - 1,
            ..next
        },
    ]
}

/// The segments that take the place of the focused one, when it is the last
/// one and its last character becomes a segment of its own.
pub open spec fn split_off(cur: SegmentStateView) -> Seq<SegmentStateView> {
    seq![
        SegmentStateView { reading: cur.reading.drop_last(), ..cur },
        SegmentStateView {
            reading: seq![cur.reading.last()],
            start: cur.start + cur.reading.len() - 1,
            candidates: seq![seq![cur.reading.last()]],
            selected: 0,
            user_selected: false,
        },
    ]
}

/// The segments that take the place of the focused one and the next.
pub open spec fn pair_moved(v: ConversionView, delta: int) -> Seq<SegmentStateView> {
    if delta > 0 {
        extended(v.segments[v.focus], v.segments[v.focus + 1])
    } else if v.focus + 1 < v.segments.len() {
        shrunk(v.segments[v.focus], v.segments[v.focus + 1])
    } else {
        split_off(v.segments[v.focus])
    }
}

/// The segments behind the focused one and the next.
pub open spec fn tail_of(v: ConversionView) -> Seq<SegmentStateView> {
    if v.focus + 2 <= v.segments.len() {
        v.segments.skip(v.focus + 2)
    } else {
        Seq::empty()
    }
}

/// The segment with its candidates looked up anew. The first one is shown, which
/// nobody chose.
pub open spec fn looked_up(
    d: Seq<EntryView>,
    logs: NanoTable,
    scorer: UserScorer,
    s: SegmentStateView,
) -> SegmentStateView {
    SegmentStateView {
        candidates: candidates::candidate_texts(
            scorer,
            s.reading,
            segmentation::unit_candidates(d, logs, s.reading),
        ),
        selected: 0,
        user_selected: false,
        ..s
    }
}

/// The segment looked up anew; if `split`, and its reading falls into several
/// segments, these segments.
pub open spec fn looked_up_or_split(
    d: Seq<EntryView>,
    logs: NanoTable,
    scorer: UserScorer,
    s: SegmentStateView,
    split: bool,
) -> Seq<SegmentStateView> {
    let pieces = segmentation::segmentation(d, logs, segmenter::no_bonus(), s.reading);
    if split && pieces.len() >= 2 {
        candidates::shifted(candidates::fresh_states(scorer, pieces), s.start)
    } else {
        seq![looked_up(d, logs, scorer, s)]
    }
}

/// The moved pair with its candidates looked up.
pub open spec fn pair_resized(
    d: Seq<EntryView>,
    logs: NanoTable,
    scorer: UserScorer,
    v: ConversionView,
    delta: int,
) -> Seq<SegmentStateView> {
    let pair = pair_moved(v, delta);
    let head = seq![looked_up(d, logs, scorer, pair[0])];
    if pair.len() > 1 {
        head + looked_up_or_split(d, logs, scorer, pair[1], delta < 0)
    } else {
        head
    }
}

/// The segments behind the resized pair: the next one is looked up too, where
/// the pair has become one segment.
pub open spec fn tail_resized(
    d: Seq<EntryView>,
    logs: NanoTable,
    scorer: UserScorer,
    v: ConversionView,
    delta: int,
) -> Seq<SegmentStateView> {
    let tail = tail_of(v);
    if pair_moved(v, delta).len() == 1 && tail.len() > 0 {
        seq![looked_up(d, logs, scorer, tail[0])] + tail.skip(1)
    } else {
        tail
    }
}

/// The conversion with the boundary behind the focused segment moved by one
/// character: to the right for a `delta` above 0, else to the left. It stays as
/// it is where the boundary cannot be moved.
pub open spec fn resized(
    d: Seq<EntryView>,
    logs: NanoTable,
    scorer: UserScorer,
    v: ConversionView,
    delta: int,
) -> ConversionView {
    if can_resize(v, delta) {
        ConversionView {
            segments: v.segments.take(v.focus) + pair_resized(d, logs, scorer, v, delta)
                + tail_resized(d, logs, scorer, v, delta),
            ..v
        }
    } else {
        v
    }
}

/// Each segment starts where the readings before it end, counted from `base`.
#[verifier::opaque]
pub open spec fn starts_from(segs: Seq<SegmentStateView>, base: int) -> bool {
    forall|i: int|
        0 <= i < segs.len() ==> (#[trigger] segs[i]).start == base + conversion::kana_of(
            segs.take(i),
        ).len()
}

proof fn lemma_kana_add(a: Seq<SegmentStateView>, b: Seq<SegmentStateView>)
    ensures
        conversion::kana_of(a + b) == conversion::kana_of(a) + conversion::kana_of(b),
    decreases b.len(),
{
    if b.len() == 0 {
        assert(a + b =~= a);
        assert(conversion::kana_of(a) + conversion::kana_of(b) =~= conversion::kana_of(a));
    } else {
        lemma_kana_add(a, b.drop_last());
        assert((a + b).drop_last() =~= a + b.drop_last());
        assert((a + b).last() == b.last());
        assert(conversion::kana_of(a + b) =~= conversion::kana_of(a) + conversion::kana_of(b));
    }
}

proof fn lemma_starts_add(a: Seq<SegmentStateView>, b: Seq<SegmentStateView>, base: int)
    ensures
        starts_from(a + b, base) <==> (starts_from(a, base) && starts_from(
            b,
            base + conversion::kana_of(a).len(),
        )),
{
    reveal(starts_from);
    let s = a + b;
    let n = a.len() as int;
    assert forall|i: int| 0 <= i < n implies s.take(i) == #[trigger] a.take(i) by {
        assert(s.take(i) =~= a.take(i));
    }
    assert forall|i: int| 0 <= i < b.len() implies conversion::kana_of(s.take(n + i)).len()
        == conversion::kana_of(a).len() + conversion::kana_of(#[trigger] b.take(i)).len() by {
        assert(s.take(n + i) =~= a + b.take(i));
        lemma_kana_add(a, b.take(i));
    }
    if starts_from(s, base) {
        assert forall|i: int| 0 <= i < a.len() implies (#[trigger] a[i]).start == base
            + conversion::kana_of(a.take(i)).len() by {
            assert(s[i] == a[i]);
            assert(s.take(i) == a.take(i));
        }
        assert forall|i: int| 0 <= i < b.len() implies (#[trigger] b[i]).start == base
            + conversion::kana_of(a).len() + conversion::kana_of(b.take(i)).len() by {
            assert(s[n + i] == b[i]);
            let t = b.take(i);
        }
    }
    if starts_from(a, base) && starts_from(b, base + conversion::kana_of(a).len()) {
        assert forall|i: int| 0 <= i < s.len() implies (#[trigger] s[i]).start == base
            + conversion::kana_of(s.take(i)).len() by {
            if i < n {
                assert(s[i] == a[i]);
                assert(s.take(i) == a.take(i));
            } else {
                assert(s[i] == b[i - n]);
                let t = b.take(i - n);
                assert(conversion::kana_of(s.take(n + (i - n))).len() == conversion::kana_of(
                    a,
                ).len() + conversion::kana_of(b.take(i - n)).len());
            }
        }
    }
}

proof fn lemma_one(s: SegmentStateView, base: int)
    ensures
        conversion::kana_of(seq![s]) == s.reading,
        starts_from(seq![s], base) <==> s.start == base,
{
    reveal(starts_from);
    let one = seq![s];
    reveal_with_fuel(conversion::kana_of, 2);
    assert(one.drop_last() =~= Seq::empty());
    assert(conversion::kana_of(one) =~= s.reading);
    assert(one.take(0) =~= Seq::<SegmentStateView>::empty());
    if starts_from(one, base) {
        assert(one[0].start == base);
    }
}

proof fn lemma_two(s: SegmentStateView, t: SegmentStateView, base: int)
    ensures
        conversion::kana_of(seq![s, t]) == s.reading + t.reading,
        starts_from(seq![s, t], base) <==> (s.start == base && t.start == base
            + s.reading.len()),
{
    lemma_one(s, base);
    lemma_one(t, base + s.reading.len());
    assert(seq![s, t] =~= seq![s] + seq![t]);
    lemma_kana_add(seq![s], seq![t]);
    lemma_starts_add(seq![s], seq![t], base);
}

/// Segments that cover a reading, at the start of their conversion and moved to
/// where the reading stands, spell it out.
pub proof fn lemma_fresh_states(
    scorer: UserScorer,
    segs: Seq<SegmentView>,
    input: Seq<char>,
    base: int,
)
    requires
        entry::tiles(segs, input, 0),
    ensures
        conversion::kana_of(candidates::shifted(candidates::fresh_states(scorer, segs), base))
            == input,
        starts_from(candidates::shifted(candidates::fresh_states(scorer, segs), base), base),
        forall|i: int|
            0 <= i < segs.len() ==> conversion::segment_ok(
                #[trigger] candidates::shifted(
                    candidates::fresh_states(scorer, segs),
                    base,
                )[i],
            ),
{
    let out = candidates::shifted(candidates::fresh_states(scorer, segs), base);
    reveal(starts_from);
    entry::law_tiles_spell_input(segs, input, 0);
    lemma_same_spelling(scorer, segs, base);
    assert forall|i: int| 0 <= i < out.len() implies (#[trigger] out[i]).start == base
        + conversion::kana_of(out.take(i)).len() by {
        let part = segs.take(i);
        entry::lemma_tiles_cut(segs, input, 0, i);
        entry::law_tiles_spell_input(part, input.take(segs[i].start), 0);
        lemma_same_spelling(scorer, part, base);
        assert(out.take(i) =~= candidates::shifted(
            candidates::fresh_states(scorer, part),
            base,
        ));
        assert(out[i].start == segs[i].start + base);
    }
    assert forall|i: int| 0 <= i < segs.len() implies conversion::segment_ok(
        #[trigger] out[i],
    ) by {
        assert(out[i].reading == segs[i].reading);
        candidates::law_reading_is_offered(scorer, segs[i].reading, segs[i].candidates);
    }
}

proof fn lemma_same_spelling(scorer: UserScorer, segs: Seq<SegmentView>, base: int)
    ensures
        conversion::kana_of(candidates::shifted(candidates::fresh_states(scorer, segs), base))
            == entry::joined_readings(segs),
    decreases segs.len(),
{
    let out = candidates::shifted(candidates::fresh_states(scorer, segs), base);
    if segs.len() > 0 {
        let rest = segs.drop_last();
        lemma_same_spelling(scorer, rest, base);
        assert(out.drop_last() =~= candidates::shifted(
            candidates::fresh_states(scorer, rest),
            base,
        ));
        assert(out.last().reading == segs.last().reading);
    } else {
        assert(out =~= Seq::empty());
    }
}

proof fn lemma_looked_up_ok(
    d: Seq<EntryView>,
    logs: NanoTable,
    scorer: UserScorer,
    s: SegmentStateView,
)
    requires
        s.reading.len() >= 1,
    ensures
        conversion::segment_ok(looked_up(d, logs, scorer, s)),
{
    candidates::law_reading_is_offered(
        scorer,
        s.reading,
        segmentation::unit_candidates(d, logs, s.reading),
    );
}

proof fn lemma_split_ok(
    d: Seq<EntryView>,
    logs: NanoTable,
    scorer: UserScorer,
    s: SegmentStateView,
    split: bool,
)
    requires
        s.reading.len() >= 1,
    ensures
        ({
            let out = looked_up_or_split(d, logs, scorer, s, split);
            &&& out.len() >= 1
            &&& conversion::kana_of(out) == s.reading
            &&& starts_from(out, s.start)
            &&& forall|i: int| 0 <= i < out.len() ==> conversion::segment_ok(#[trigger] out[i])
        }),
{
    let pieces = segmentation::segmentation(d, logs, segmenter::no_bonus(), s.reading);
    segmentation::law_segmentation_tiles(d, logs, segmenter::no_bonus(), s.reading);
    lemma_fresh_states(scorer, pieces, s.reading, s.start);
    lemma_looked_up_ok(d, logs, scorer, s);
    lemma_one(looked_up(d, logs, scorer, s), s.start);
}

/// The pair that is moved: the focused segment and the next, where there is
/// one.
spec fn pair_of(v: ConversionView) -> Seq<SegmentStateView> {
    if v.focus + 1 < v.segments.len() {
        seq![v.segments[v.focus], v.segments[v.focus + 1]]
    } else {
        seq![v.segments[v.focus]]
    }
}

/// What holds of every conversion, with the starts of the segments as one
/// fact.
spec fn sound(v: ConversionView) -> bool {
    &&& 0 <= v.focus < v.segments.len()
    &&& forall|i: int|
        0 <= i < v.segments.len() ==> conversion::segment_ok(#[trigger] v.segments[i])
    &&& conversion::kana_of(v.segments) == v.kana
    &&& starts_from(v.segments, 0)
}

proof fn lemma_sound(v: ConversionView)
    ensures
        sound(v) <==> conversion::conversion_ok(v),
{
    lemma_starts_fit(v.segments);
}

/// Starts that are counted from 0 are those of a conversion.
pub proof fn lemma_starts_fit(segs: Seq<SegmentStateView>)
    ensures
        starts_from(segs, 0) <==> conversion::starts_fit(segs),
{
    reveal(starts_from);
    reveal(conversion::starts_fit);
    assert(starts_from(segs, 0) == conversion::starts_fit(segs));
}

proof fn lemma_pair_start(v: ConversionView)
    requires
        0 <= v.focus < v.segments.len(),
        starts_from(v.segments, 0),
    ensures
        v.segments[v.focus].start == conversion::kana_of(v.segments.take(v.focus)).len(),
{
    reveal(starts_from);
}

proof fn lemma_pair(v: ConversionView, delta: int)
    requires
        sound(v),
        can_resize(v, delta),
    ensures
        v.segments == v.segments.take(v.focus) + pair_of(v) + tail_of(v),
        conversion::kana_of(pair_moved(v, delta)) == conversion::kana_of(pair_of(v)),
        starts_from(pair_of(v), v.segments[v.focus].start),
        starts_from(pair_moved(v, delta), v.segments[v.focus].start),
        v.segments[v.focus].start == conversion::kana_of(v.segments.take(v.focus)).len(),
        starts_from(v.segments.take(v.focus), 0),
        starts_from(
            tail_of(v),
            (conversion::kana_of(v.segments.take(v.focus)) + conversion::kana_of(
                pair_of(v),
            )).len() as int,
        ),
        1 <= pair_moved(v, delta).len() <= 2,
        forall|i: int|
            0 <= i < pair_moved(v, delta).len() ==> (#[trigger] pair_moved(
                v,
                delta,
            )[i]).reading.len() >= 1,
{
    let f = v.focus;
    let segs = v.segments;
    let cur = segs[f];
    let front = segs.take(f);
    assert(conversion::segment_ok(cur));
    assert(segs =~= front + pair_of(v) + tail_of(v));
    lemma_starts_add(front + pair_of(v), tail_of(v), 0);
    lemma_starts_add(front, pair_of(v), 0);
    lemma_kana_add(front, pair_of(v));
    lemma_pair_start(v);
    if f + 1 < segs.len() {
        let next = segs[f + 1];
        assert(conversion::segment_ok(next));
        lemma_two(cur, next, cur.start);
        let pair = pair_moved(v, delta);
        if pair.len() == 2 {
            lemma_two(pair[0], pair[1], cur.start);
            assert(pair =~= seq![pair[0], pair[1]]);
        } else {
            lemma_one(pair[0], cur.start);
            assert(pair =~= seq![pair[0]]);
        }
        assert(conversion::kana_of(pair) =~= cur.reading + next.reading);
    } else {
        lemma_one(cur, cur.start);
        let pair = split_off(cur);
        lemma_two(pair[0], pair[1], cur.start);
        assert(pair =~= seq![pair[0], pair[1]]);
        assert(conversion::kana_of(pair) =~= cur.reading);
    }
}

proof fn lemma_pair_resized(
    d: Seq<EntryView>,
    logs: NanoTable,
    scorer: UserScorer,
    v: ConversionView,
    delta: int,
)
    requires
        sound(v),
        can_resize(v, delta),
    ensures
        conversion::kana_of(pair_resized(d, logs, scorer, v, delta)) == conversion::kana_of(
            pair_of(v),
        ),
        starts_from(pair_resized(d, logs, scorer, v, delta), v.segments[v.focus].start),
        pair_resized(d, logs, scorer, v, delta).len() >= 1,
        forall|i: int|
            0 <= i < pair_resized(d, logs, scorer, v, delta).len() ==> conversion::segment_ok(
                #[trigger] pair_resized(d, logs, scorer, v, delta)[i],
            ),
{
    let pair = pair_moved(v, delta);
    let mid = pair_resized(d, logs, scorer, v, delta);
    let start = v.segments[v.focus].start;
    lemma_pair(v, delta);
    let head = looked_up(d, logs, scorer, pair[0]);
    lemma_looked_up_ok(d, logs, scorer, pair[0]);
    lemma_one(head, start);
    lemma_one(pair[0], start);
    if pair.len() > 1 {
        let rest = looked_up_or_split(d, logs, scorer, pair[1], delta < 0);
        lemma_split_ok(d, logs, scorer, pair[1], delta < 0);
        assert(pair =~= seq![pair[0], pair[1]]);
        lemma_two(pair[0], pair[1], start);
        lemma_kana_add(seq![head], rest);
        lemma_starts_add(seq![head], rest, start);
        assert forall|i: int| 0 <= i < mid.len() implies conversion::segment_ok(
            #[trigger] mid[i],
        ) by {
            if i > 0 {
                assert(mid[i] == rest[i - 1]);
            }
        }
    } else {
        assert(pair =~= seq![pair[0]]);
        assert(mid =~= seq![head]);
    }
}

proof fn lemma_tail_resized(
    d: Seq<EntryView>,
    logs: NanoTable,
    scorer: UserScorer,
    v: ConversionView,
    delta: int,
    mark: int,
)
    requires
        sound(v),
        starts_from(tail_of(v), mark),
    ensures
        conversion::kana_of(tail_resized(d, logs, scorer, v, delta)) == conversion::kana_of(
            tail_of(v),
        ),
        starts_from(tail_resized(d, logs, scorer, v, delta), mark),
        forall|i: int|
            0 <= i < tail_resized(d, logs, scorer, v, delta).len() ==> conversion::segment_ok(
                #[trigger] tail_resized(d, logs, scorer, v, delta)[i],
            ),
{
    let f = v.focus;
    let tail = tail_of(v);
    let end = tail_resized(d, logs, scorer, v, delta);
    let anew = pair_moved(v, delta).len() == 1 && tail.len() > 0;
    if anew {
        let first = looked_up(d, logs, scorer, tail[0]);
        assert(tail[0] == v.segments[f + 2]);
        lemma_looked_up_ok(d, logs, scorer, tail[0]);
        lemma_one(first, mark);
        lemma_one(tail[0], mark);
        assert(tail =~= seq![tail[0]] + tail.skip(1));
        lemma_kana_add(seq![first], tail.skip(1));
        lemma_kana_add(seq![tail[0]], tail.skip(1));
        lemma_starts_add(seq![first], tail.skip(1), mark);
        lemma_starts_add(seq![tail[0]], tail.skip(1), mark);
    }
    assert forall|i: int| 0 <= i < end.len() implies conversion::segment_ok(
        #[trigger] end[i],
    ) by {
        if !(anew && i == 0) {
            assert(end[i] == v.segments[f + 2 + i]);
        }
    }
}

proof fn lemma_resize_sound(
    d: Seq<EntryView>,
    logs: NanoTable,
    scorer: UserScorer,
    v: ConversionView,
    delta: int,
)
    requires
        sound(v),
    ensures
        sound(resized(d, logs, scorer, v, delta)),
{
    if can_resize(v, delta) {
        let f = v.focus;
        let front = v.segments.take(f);
        let mid = pair_resized(d, logs, scorer, v, delta);
        let tail = tail_of(v);
        let end = tail_resized(d, logs, scorer, v, delta);
        let out = resized(d, logs, scorer, v, delta).segments;
        lemma_pair(v, delta);
        lemma_pair_resized(d, logs, scorer, v, delta);
        let mark = (conversion::kana_of(front) + conversion::kana_of(pair_of(v))).len() as int;
        lemma_tail_resized(d, logs, scorer, v, delta, mark);
        lemma_kana_add(front, mid);
        lemma_kana_add(front + mid, end);
        lemma_kana_add(front, pair_of(v));
        lemma_kana_add(front + pair_of(v), tail);
        lemma_starts_add(front, mid, 0);
        lemma_starts_add(front + mid, end, 0);
        assert forall|i: int| 0 <= i < out.len() implies conversion::segment_ok(
            #[trigger] out[i],
        ) by {
            if i < f {
                assert(out[i] == v.segments[i]);
            } else if i < f + mid.len() {
                assert(out[i] == mid[i - f]);
            } else {
                assert(out[i] == end[i - f - mid.len()]);
            }
        }
    }
}

/// Resizing moves boundaries only: the conversion stays a conversion of the
/// same kana, with the same segment in focus.
pub proof fn law_resize_keeps_kana(
    d: Seq<EntryView>,
    logs: NanoTable,
    scorer: UserScorer,
    v: ConversionView,
    delta: int,
)
    requires
        conversion::conversion_ok(v),
    ensures
        conversion::conversion_ok(resized(d, logs, scorer, v, delta)),
        resized(d, logs, scorer, v, delta).kana == v.kana,
        resized(d, logs, scorer, v, delta).focus == v.focus,
{
    lemma_sound(v);
    lemma_resize_sound(d, logs, scorer, v, delta);
    lemma_sound(resized(d, logs, scorer, v, delta));
}

proof fn lemma_end_within(segs: Seq<SegmentStateView>, i: int)
    requires
        starts_from(segs, 0),
        0 <= i < segs.len(),
    ensures
        segs[i].start + segs[i].reading.len() <= conversion::kana_of(segs).len(),
{
    let front = segs.take(i);
    let rest = segs.skip(i + 1);
    reveal(starts_from);
    assert(segs =~= front + seq![segs[i]] + rest);
    lemma_kana_add(front + seq![segs[i]], rest);
    lemma_kana_add(front, seq![segs[i]]);
    lemma_one(segs[i], 0);
}

/// The segments after the boundary was moved and before anything is looked up.
spec fn boundary_moved(v: ConversionView, delta: int) -> Seq<SegmentStateView> {
    v.segments.take(v.focus) + pair_moved(v, delta) + tail_of(v)
}

/// Looks up the candidates of a segment anew and shows the first one, which
/// nobody chose.
fn relookup_segment(seg: &mut SegmentState, dict: &Dictionary, scorer: &UserScorer)
    requires
        dict.wf(),
        scorer.wf(),
    ensures
        final(seg)@ == looked_up(dict@, dict.log_table(), *scorer, old(seg)@),
{
    let entries: Vec<DictionaryEntry> = dict.candidates_for_unit(seg.reading.as_str());
    let found: Vec<String> = rank_candidates(scorer, seg.reading.as_str(), &entries);
    seg.candidates = found;
    seg.selected = 0;
    seg.user_selected = false;
}

/// Looks up the segment at `at` anew. If `split`, and its reading falls into
/// several segments, these take its place.
fn relookup_or_split_segment(
    segments: &mut Vec<SegmentState>,
    at: usize,
    split: bool,
    dict: &Dictionary,
    scorer: &UserScorer,
)
    requires
        at < old(segments)@.len(),
        old(segments)@[at as int].start + old(segments)@[at as int].reading@.len() <= usize::MAX,
        dict.wf(),
        scorer.wf(),
    ensures
        ({
            let v = conversion::state_views(old(segments)@);
            conversion::state_views(final(segments)@) == v.take(at as int) + looked_up_or_split(
                dict@,
                dict.log_table(),
                *scorer,
                v[at as int],
                split,
            ) + v.skip(at + 1)
        }),
{
    let ghost v = conversion::state_views(segments@);
    assert(v[at as int] == segments@[at as int]@);
    if split {
        let pieces: Vec<Segment> = dict.segment(segments[at].reading.as_str());
        let ghost pv = entry::segment_views(pieces@);
        assert(pv.len() == pieces@.len());
        if pieces.len() >= 2 {
            let start: usize = segments[at].start;
            assert forall|i: int| 0 <= i < pieces@.len() implies (#[trigger] pieces@[i]).start
                + start <= usize::MAX by {
                assert(pv[i] == pieces@[i]@);
            }
            let mut states: Vec<SegmentState> = build_segment_states(scorer, &pieces, start);
            let ghost sv = conversion::state_views(states@);
            let mut rest: Vec<SegmentState> = segments.split_off(at);
            rest.remove(0);
            let ghost rv = conversion::state_views(rest@);
            segments.append(&mut states);
            segments.append(&mut rest);
            proof {
                assert(rv =~= v.skip(at + 1));
                assert(conversion::state_views(segments@) =~= v.take(at as int) + sv + rv);
            }
            return;
        }
    }
    relookup_segment(&mut segments[at], dict, scorer);
    proof {
        let one = looked_up(dict@, dict.log_table(), *scorer, v[at as int]);
        assert(conversion::state_views(segments@) =~= v.update(at as int, one));
        assert(v.update(at as int, one) =~= v.take(at as int) + seq![one] + v.skip(at + 1));
    }
}

impl ConversionState {
    /// Moves the boundary behind the focused segment, as far as it can be
    /// moved, and leaves the candidates alone.
    fn move_boundary(&mut self, delta: i32) -> (moved: bool)
        requires
            conversion::conversion_ok(old(self)@),
        ensures
            moved == can_resize(old(self)@, delta as int),
            final(self).kana@ == old(self).kana@,
            final(self).focus == old(self).focus,
            conversion::state_views(final(self).segments@) == (if moved {
                boundary_moved(old(self)@, delta as int)
            } else {
                old(self)@.segments
            }),
    {
        let ghost v = self@;
        let ghost want = boundary_moved(v, delta as int);
        let f: usize = self.focus;
        let n: usize = self.segments.len();
        let total: usize = self.kana.as_str().unicode_len();
        proof {
            lemma_sound(v);
            assert(v.segments.len() == n);
            assert(v.segments[f as int] == self.segments@[f as int]@);
            lemma_end_within(v.segments, f as int);
            if f + 1 < n {
                assert(v.segments[f + 1] == self.segments@[f + 1]@);
                lemma_end_within(v.segments, f + 1);
                lemma_pair_order(v);
            }
        }
        if delta > 0 {
            if n - f < 2 {
                return false;
            }
            assert(conversion::segment_ok(v.segments[f + 1]));
            let next_chars: Vec<char> = chars_of(self.segments[f + 1].reading.as_str());
            let cur: &mut SegmentState = &mut self.segments[f];
            cur.reading.push(next_chars[0]);
            if next_chars.len() == 1 {
                self.segments.remove(f + 1);
                assert(conversion::state_views(self.segments@) =~= want);
            } else {
                let rest: String = text_between(next_chars.as_slice(), 1, next_chars.len());
                let next: &mut SegmentState = &mut self.segments[f + 1];
                next.reading = rest;
                next.start = next.start + 1;
                proof {
                    assert(next_chars@.subrange(1, next_chars@.len() as int)
                        =~= next_chars@.skip(1));
                    assert(conversion::state_views(self.segments@) =~= want);
                }
            }
        } else {
            let chars: Vec<char> = chars_of(self.segments[f].reading.as_str());
            let m: usize = chars.len();
            if m <= 1 {
                return false;
            }
            let last: char = chars[m - 1];
            let kept: String = text_between(chars.as_slice(), 0, m - 1);
            assert(kept@ =~= chars@.drop_last());
            let from: usize = self.segments[f].start;
            let cur: &mut SegmentState = &mut self.segments[f];
            cur.reading = kept;
            if n - f >= 2 {
                let mut grown: String = text_of_char(last);
                grown.append(self.segments[f + 1].reading.as_str());
                let next: &mut SegmentState = &mut self.segments[f + 1];
                next.reading = grown;
                next.start = next.start - 1;
                assert(conversion::state_views(self.segments@) =~= want);
            } else {
                let mut own: Vec<String> = Vec::new();
                own.push(text_of_char(last));
                assert(conversion::texts(own@) =~= seq![seq![last]]);
                let made: SegmentState = SegmentState {
                    reading: text_of_char(last),
                    start: from + (m - 1),
                    candidates: own,
                    selected: 0,
                    user_selected: false,
                };
                self.segments.push(made);
                assert(conversion::state_views(self.segments@) =~= want);
            }
        }
        true
    }

    /// Moves the boundary behind the focused segment by one character: to the
    /// right for a `delta` above 0, else to the left. The candidates of the
    /// segments on both sides are looked up anew. Tells whether the boundary
    /// could be moved.
    pub fn resize_segment(&mut self, delta: i32, dict: &Dictionary, scorer: &UserScorer) -> (moved:
        bool)
        requires
            conversion::conversion_ok(old(self)@),
            dict.wf(),
            scorer.wf(),
        ensures
            moved == can_resize(old(self)@, delta as int),
            final(self)@ == resized(
                dict@,
                dict.log_table(),
                *scorer,
                old(self)@,
                delta as int,
            ),
            conversion::conversion_ok(final(self)@),
    {
        let ghost v = self@;
        let ghost logs = dict.log_table();
        let ghost pair = pair_moved(v, delta as int);
        let ghost want = resized(dict@, logs, *scorer, v, delta as int);
        proof {
            law_resize_keeps_kana(dict@, logs, *scorer, v, delta as int);
        }
        let total: usize = self.kana.as_str().unicode_len();
        if !self.move_boundary(delta) {
            assert(self@ =~= want);
            return false;
        }
        let f: usize = self.focus;
        let ghost w = conversion::state_views(self.segments@);
        proof {
            lemma_sound(v);
            lemma_pair(v, delta as int);
            if pair.len() == 2 {
                lemma_moved_within(v, delta as int);
            }
            assert(w == boundary_moved(v, delta as int));
            assert(w.len() == v.segments.take(f as int).len() + pair.len() + tail_of(v).len());
            assert(w.len() == self.segments@.len());
            assert(w[f as int] == pair[0]);
            assert(self.segments@[f as int]@ == w[f as int]);
            lemma_head_within(v, delta as int);
        }
        relookup_or_split_segment(&mut self.segments, f, false, dict, scorer);
        let ghost head = looked_up(dict@, logs, *scorer, pair[0]);
        let ghost x = conversion::state_views(self.segments@);
        assert(x =~= w.update(f as int, head));
        if self.segments.len() - f >= 2 {
            proof {
                assert(x[f + 1] == w[f + 1]);
                if pair.len() == 2 {
                    assert(w[f + 1] == pair[1]);
                } else {
                    assert(w[f + 1] == tail_of(v)[0]);
                    assert(w[f + 1] == v.segments[f + 2]);
                    lemma_end_within(v.segments, f + 2);
                }
            }
            relookup_or_split_segment(&mut self.segments, f + 1, delta < 0, dict, scorer);
            proof {
                lemma_assembled(dict@, logs, *scorer, v, delta as int, x);
                assert(self@ =~= want);
            }
        } else {
            proof {
                assert(pair.len() == 1);
                assert(tail_of(v).len() == 0);
                assert(self@ =~= want);
            }
        }
        true
    }
}

proof fn lemma_assembled(
    d: Seq<EntryView>,
    logs: NanoTable,
    scorer: UserScorer,
    v: ConversionView,
    delta: int,
    x: Seq<SegmentStateView>,
)
    requires
        sound(v),
        can_resize(v, delta),
        x == boundary_moved(v, delta).update(
            v.focus,
            looked_up(d, logs, scorer, pair_moved(v, delta)[0]),
        ),
        x.len() >= v.focus + 2,
    ensures
        x.take(v.focus + 1) + looked_up_or_split(d, logs, scorer, x[v.focus + 1], delta < 0)
            + x.skip(v.focus + 2) == resized(d, logs, scorer, v, delta).segments,
{
    let f = v.focus;
    let pair = pair_moved(v, delta);
    let head = looked_up(d, logs, scorer, pair[0]);
    let next = looked_up_or_split(d, logs, scorer, x[f + 1], delta < 0);
    let tail = tail_of(v);
    lemma_pair(v, delta);
    assert(x.take(f + 1) =~= v.segments.take(f) + seq![head]);
    if pair.len() == 2 {
        assert(x[f + 1] == pair[1]);
        assert(x.skip(f + 2) =~= tail);
        assert(pair_resized(d, logs, scorer, v, delta) == seq![head] + next);
        assert(x.take(f + 1) + next + tail =~= v.segments.take(f) + (seq![head] + next) + tail);
    } else {
        assert(x[f + 1] == tail[0]);
        assert(x.skip(f + 2) =~= tail.skip(1));
        assert(pair_resized(d, logs, scorer, v, delta) == seq![head]);
        assert(next =~= seq![looked_up(d, logs, scorer, tail[0])]);
        assert(x.take(f + 1) + next + tail.skip(1) =~= v.segments.take(f) + seq![head] + (next
            + tail.skip(1)));
    }
}

proof fn lemma_pair_order(v: ConversionView)
    requires
        sound(v),
        v.focus + 1 < v.segments.len(),
    ensures
        v.segments[v.focus + 1].start == v.segments[v.focus].start
            + v.segments[v.focus].reading.len(),
{
    let f = v.focus;
    let front = v.segments.take(f);
    let cur = v.segments[f];
    reveal(starts_from);
    assert(v.segments.take(f + 1) =~= front + seq![cur]);
    lemma_kana_add(front, seq![cur]);
    lemma_one(cur, 0);
}

proof fn lemma_head_within(v: ConversionView, delta: int)
    requires
        sound(v),
        can_resize(v, delta),
    ensures
        pair_moved(v, delta)[0].start + pair_moved(v, delta)[0].reading.len() <= v.kana.len(),
{
    let f = v.focus;
    lemma_end_within(v.segments, f);
    if f + 1 < v.segments.len() {
        lemma_end_within(v.segments, f + 1);
        lemma_pair_order(v);
        assert(conversion::segment_ok(v.segments[f + 1]));
    }
}

proof fn lemma_moved_within(v: ConversionView, delta: int)
    requires
        sound(v),
        can_resize(v, delta),
        pair_moved(v, delta).len() == 2,
    ensures
        pair_moved(v, delta)[1].start + pair_moved(v, delta)[1].reading.len() <= v.kana.len(),
{
    let pair = pair_moved(v, delta);
    let front = v.segments.take(v.focus);
    let start = v.segments[v.focus].start;
    lemma_pair(v, delta);
    lemma_two(pair[0], pair[1], start);
    assert(pair =~= seq![pair[0], pair[1]]);
    lemma_kana_add(front, pair_of(v));
    lemma_kana_add(front + pair_of(v), tail_of(v));
}

/// How many segments at the end a moved boundary leaves as they were.
pub open spec fn left_alone(v: ConversionView, delta: int) -> int {
    let tail = tail_of(v).len() as int;
    if pair_moved(v, delta).len() == 1 && tail > 0 {
        tail - 1
    } else {
        tail
    }
}

/// Moving a boundary chooses nothing. Whatever the user had chosen before, the
/// segments whose candidates were looked up anew are open to reordering and
/// count as no choice. Those before and behind them stay as they were.
pub proof fn law_resize_chooses_nothing(
    d: Seq<EntryView>,
    logs: NanoTable,
    scorer: UserScorer,
    v: ConversionView,
    delta: int,
    i: int,
)
    requires
        conversion::conversion_ok(v),
        can_resize(v, delta),
        0 <= i < resized(d, logs, scorer, v, delta).segments.len(),
    ensures
        ({
            let out = resized(d, logs, scorer, v, delta).segments;
            let end = out.len() - left_alone(v, delta);
            &&& v.focus < end
            &&& i < v.focus ==> out[i] == v.segments[i]
            &&& v.focus <= i < end ==> !out[i].user_selected
            &&& end <= i ==> out[i] == v.segments[i - out.len() + v.segments.len()]
        }),
{
    let front = v.segments.take(v.focus);
    let mid = pair_resized(d, logs, scorer, v, delta);
    let end = tail_resized(d, logs, scorer, v, delta);
    let tail = tail_of(v);
    let all = front + mid + end;
    assert(resized(d, logs, scorer, v, delta).segments == all);
    assert(forall|k: int| 0 <= k < mid.len() ==> !(#[trigger] mid[k]).user_selected);
    if i < front.len() {
        assert(all[i] == v.segments[i]);
    } else if i < front.len() + mid.len() {
        assert(all[i] == mid[i - front.len()]);
    } else {
        let k = i - front.len() - mid.len();
        assert(all[i] == end[k]);
        if !(pair_moved(v, delta).len() == 1 && tail.len() > 0 && k == 0) {
            assert(end[k] == tail[k]);
            assert(tail[k] == v.segments[v.focus + 2 + k]);
        }
    }
}

proof fn lemma_words_are_offered(
    d: Seq<EntryView>,
    logs: NanoTable,
    scorer: UserScorer,
    s: SegmentStateView,
)
    requires
        d.len() <= usize::MAX,
    ensures
        forall|j: int|
            0 <= j < d.len() && (#[trigger] d[j]).reading == s.reading ==> looked_up(
                d,
                logs,
                scorer,
                s,
            ).candidates.contains(d[j].surface),
        looked_up(d, logs, scorer, s).candidates.contains(s.reading),
{
    let found = segmentation::unit_candidates(d, logs, s.reading);
    candidates::law_reading_is_offered(scorer, s.reading, found);
    assert forall|j: int| 0 <= j < d.len() && (#[trigger] d[j]).reading == s.reading implies
        looked_up(d, logs, scorer, s).candidates.contains(d[j].surface) by {
        segmentation::law_unit_has_its_words(d, logs, s.reading, j);
        assert(found.contains(d[j]));
        let w = choose|w: int| 0 <= w < found.len() && found[w] == d[j];
        candidates::law_every_word_is_offered(scorer, s.reading, found, d[j].surface);
        assert(found[w].surface == d[j].surface);
    }
}

/// Does the segment offer the surface of every dictionary entry with its reading, and
/// the reading itself, and show its first candidate, which nobody chose?
pub open spec fn offers_its_words(d: Seq<EntryView>, s: SegmentStateView) -> bool {
    &&& forall|j: int|
        0 <= j < d.len() && (#[trigger] d[j]).reading == s.reading ==> s.candidates.contains(
            d[j].surface,
        )
    &&& s.candidates.contains(s.reading)
    &&& s.selected == 0
    &&& !s.user_selected
}

/// A moved boundary changes the focused segment by one character: it takes the first
/// one of the next segment or gives its own last one away. It then offers every word
/// that the dictionary has for its new reading.
pub proof fn law_focused_segment_is_looked_up(
    d: Seq<EntryView>,
    logs: NanoTable,
    scorer: UserScorer,
    v: ConversionView,
    delta: int,
)
    requires
        conversion::conversion_ok(v),
        d.len() <= usize::MAX,
        if delta > 0 {
            v.focus + 1 < v.segments.len()
        } else {
            v.segments[v.focus].reading.len() > 1
        },
    ensures
        ({
            let s = resized(d, logs, scorer, v, delta).segments[v.focus];
            let cur = v.segments[v.focus];
            &&& v.focus < resized(d, logs, scorer, v, delta).segments.len()
            &&& s.start == cur.start
            &&& s.reading == (if delta > 0 {
                cur.reading + seq![v.segments[v.focus + 1].reading[0]]
            } else {
                cur.reading.take(cur.reading.len() - 1)
            })
            &&& offers_its_words(d, s)
        }),
{
    let front = v.segments.take(v.focus);
    let mid = pair_resized(d, logs, scorer, v, delta);
    let pair = pair_moved(v, delta);
    let out = resized(d, logs, scorer, v, delta).segments;
    assert(out[v.focus] == mid[0]);
    assert(mid[0] == looked_up(d, logs, scorer, pair[0]));
    lemma_words_are_offered(d, logs, scorer, pair[0]);
    let cur = v.segments[v.focus].reading;
    if delta > 0 {
        let c = v.segments[v.focus + 1].reading[0];
        assert(cur.push(c) =~= cur + seq![c]);
    } else {
        assert(cur.drop_last() =~= cur.take(cur.len() - 1));
    }
}

/// When the focused segment grows, the next one loses its first character and offers
/// the words for what is left. It goes away when nothing is left, and then the one
/// behind it is looked up anew. All others stay as they are.
pub proof fn law_next_segment_shrinks(
    d: Seq<EntryView>,
    logs: NanoTable,
    scorer: UserScorer,
    v: ConversionView,
    delta: int,
    i: int,
)
    requires
        conversion::conversion_ok(v),
        d.len() <= usize::MAX,
        delta > 0,
        v.focus + 1 < v.segments.len(),
    ensures
        ({
            let out = resized(d, logs, scorer, v, delta).segments;
            let n = v.segments.len() as int;
            let f = v.focus;
            let next = v.segments[f + 1];
            &&& 0 <= i < f ==> out[i] == v.segments[i]
            &&& next.reading.len() > 1 ==> {
                &&& out.len() == n
                &&& out[f + 1].reading == next.reading.skip(1)
                &&& out[f + 1].start == next.start + 1
                &&& offers_its_words(d, out[f + 1])
                &&& f + 2 <= i < n ==> out[i] == v.segments[i]
            }
            &&& next.reading.len() == 1 ==> {
                &&& out.len() == n - 1
                &&& f + 1 < out.len() ==> {
                    &&& out[f + 1].reading == v.segments[f + 2].reading
                    &&& out[f + 1].start == v.segments[f + 2].start
                    &&& offers_its_words(d, out[f + 1])
                }
                &&& f + 2 <= i < out.len() ==> out[i] == v.segments[i + 1]
            }
        }),
{
    let f = v.focus;
    let front = v.segments.take(f);
    let mid = pair_resized(d, logs, scorer, v, delta);
    let pair = pair_moved(v, delta);
    let tail = tail_of(v);
    let end = tail_resized(d, logs, scorer, v, delta);
    let out = resized(d, logs, scorer, v, delta).segments;
    assert(out =~= front + mid + end);
    if v.segments[f + 1].reading.len() > 1 {
        assert(mid =~= seq![
            looked_up(d, logs, scorer, pair[0]),
            looked_up(d, logs, scorer, pair[1]),
        ]);
        lemma_words_are_offered(d, logs, scorer, pair[1]);
        assert(out[f + 1] == mid[1]);
        if f + 2 <= i < v.segments.len() {
            assert(out[i] == tail[i - f - 2]);
        }
    } else {
        assert(v.segments[f + 1].reading.len() == 1) by {
            assert(conversion::segment_ok(v.segments[f + 1]));
        }
        assert(mid =~= seq![looked_up(d, logs, scorer, pair[0])]);
        if tail.len() > 0 {
            lemma_words_are_offered(d, logs, scorer, tail[0]);
            assert(out[f + 1] == end[0]);
            assert(tail[0] == v.segments[f + 2]);
            if f + 2 <= i < out.len() {
                assert(out[i] == end[i - f - 1]);
                assert(end[i - f - 1] == tail[i - f - 1]);
            }
        }
    }
}

/// The reading that follows the focused segment once its last character is given away.
spec fn given_away(v: ConversionView) -> Seq<char> {
    let cur = v.segments[v.focus];
    if v.focus + 1 < v.segments.len() {
        seq![cur.reading.last()] + v.segments[v.focus + 1].reading
    } else {
        seq![cur.reading.last()]
    }
}

proof fn lemma_shrunk(
    d: Seq<EntryView>,
    logs: NanoTable,
    scorer: UserScorer,
    v: ConversionView,
    delta: int,
)
    requires
        conversion::conversion_ok(v),
        delta < 0,
        v.segments[v.focus].reading.len() > 1,
    ensures
        ({
            let pair = pair_moved(v, delta);
            &&& pair.len() == 2
            &&& pair[1].reading == given_away(v)
            &&& pair[1].start == v.segments[v.focus].start + v.segments[v.focus].reading.len() - 1
            &&& resized(d, logs, scorer, v, delta).segments == v.segments.take(v.focus) + (seq![
                looked_up(d, logs, scorer, pair[0]),
            ] + looked_up_or_split(d, logs, scorer, pair[1], true)) + tail_of(v)
        }),
{
    lemma_next_start(v);
}

/// When the focused segment shrinks, its last character is put in front of the next
/// segment, or becomes one where there is none. If the dictionary divides that reading
/// into several segments these take its place, each with its words; else it is one
/// segment that offers the words for it. All others stay as they are.
#[verifier::spinoff_prover]
#[verifier::rlimit(60)]
pub proof fn law_next_segment_grows(
    d: Seq<EntryView>,
    logs: NanoTable,
    scorer: UserScorer,
    v: ConversionView,
    delta: int,
    i: int,
)
    requires
        conversion::conversion_ok(v),
        d.len() <= usize::MAX,
        delta < 0,
        v.segments[v.focus].reading.len() > 1,
    ensures
        ({
            let out = resized(d, logs, scorer, v, delta).segments;
            let n = v.segments.len() as int;
            let f = v.focus;
            let cur = v.segments[f];
            let rest = if f + 1 < n {
                seq![cur.reading.last()] + v.segments[f + 1].reading
            } else {
                seq![cur.reading.last()]
            };
            let start = cur.start + cur.reading.len() - 1;
            let pieces = segmentation::segmentation(d, logs, segmenter::no_bonus(), rest);
            let behind = if f + 2 <= n {
                n - f - 2
            } else {
                0
            };
            let m = out.len() - behind - f - 1;
            &&& 0 <= i < f ==> out[i] == v.segments[i]
            &&& f + 1 + m <= i < out.len() ==> out[i] == v.segments[i - out.len() + n]
            &&& pieces.len() < 2 ==> {
                &&& m == 1
                &&& out[f + 1].reading == rest
                &&& out[f + 1].start == start
                &&& offers_its_words(d, out[f + 1])
            }
            &&& pieces.len() >= 2 ==> {
                &&& m == pieces.len()
                &&& 0 <= i < m ==> {
                    &&& out[f + 1 + i].reading == pieces[i].reading
                    &&& out[f + 1 + i].start == start + pieces[i].start
                    &&& forall|e: int|
                        0 <= e < pieces[i].candidates.len() ==> out[f + 1
                            + i].candidates.contains((#[trigger] pieces[i].candidates[e]).surface)
                    &&& out[f + 1 + i].candidates.contains(pieces[i].reading)
                    &&& out[f + 1 + i].selected == 0 && !out[f + 1 + i].user_selected
                }
            }
        }),
{
    let f = v.focus;
    let n = v.segments.len() as int;
    let front = v.segments.take(f);
    let pair = pair_moved(v, delta);
    let tail = tail_of(v);
    let out = resized(d, logs, scorer, v, delta).segments;
    let pieces = segmentation::segmentation(d, logs, segmenter::no_bonus(), given_away(v));
    let split = looked_up_or_split(d, logs, scorer, pair[1], true);
    let mid = seq![looked_up(d, logs, scorer, pair[0])] + split;
    lemma_shrunk(d, logs, scorer, v, delta);
    assert(tail.len() == if f + 2 <= n {
        n - f - 2
    } else {
        0
    });
    assert(mid.len() == split.len() + 1);
    assert(out.len() == f + mid.len() + tail.len());
    let m = out.len() - tail.len() - f - 1;
    assert(m == split.len());
    if 0 <= i < f {
        assert(out[i] == front[i]);
    }
    if f + 1 + m <= i < out.len() {
        assert(out[i] == tail[i - f - 1 - m]);
    }
    if pieces.len() < 2 {
        lemma_words_are_offered(d, logs, scorer, pair[1]);
        assert(split.len() == 1);
        assert(out[f + 1] == mid[1]);
        assert(mid[1] == split[0]);
    } else {
        let fresh = candidates::fresh_states(scorer, pieces);
        assert(split == candidates::shifted(fresh, pair[1].start));
        if 0 <= i < pieces.len() {
            assert(out[f + 1 + i] == mid[1 + i]);
            assert(mid[1 + i] == split[i]);
            assert(fresh[i] == candidates::fresh_state(scorer, pieces[i]));
            let found = pieces[i].candidates;
            candidates::law_reading_is_offered(scorer, pieces[i].reading, found);
            assert forall|e: int| 0 <= e < found.len() implies out[f + 1 + i].candidates.contains(
                (#[trigger] found[e]).surface,
            ) by {
                candidates::law_every_word_is_offered(
                    scorer,
                    pieces[i].reading,
                    found,
                    found[e].surface,
                );
            }
        }
    }
}

proof fn lemma_next_start(v: ConversionView)
    requires
        conversion::conversion_ok(v),
    ensures
        v.focus + 1 < v.segments.len() ==> v.segments[v.focus + 1].start
            == v.segments[v.focus].start + v.segments[v.focus].reading.len(),
{
    lemma_sound(v);
    if v.focus + 1 < v.segments.len() {
        let f = v.focus;
        reveal(starts_from);
        let a = v.segments.take(f);
        let b = v.segments.take(f + 1);
        assert(b.drop_last() =~= a);
        assert(b.last() == v.segments[f]);
        assert(v.segments[f].start == conversion::kana_of(a).len());
        assert(v.segments[f + 1].start == conversion::kana_of(b).len());
    }
}

/// A boundary stays where it is when there is nothing to take from behind it, or
/// nothing to give away that would leave the focused segment a character.
pub proof fn law_boundary_may_be_fixed(
    d: Seq<EntryView>,
    logs: NanoTable,
    scorer: UserScorer,
    v: ConversionView,
    delta: int,
)
    requires
        if delta > 0 {
            v.focus + 1 >= v.segments.len()
        } else {
            v.segments[v.focus].reading.len() <= 1
        },
    ensures
        resized(d, logs, scorer, v, delta) == v,
{
}

} // verus!
