//! Other ways to segment a reading, and the choice among them.
//!
//! Neighbouring segments that make a word together may be merged, and long
//! segments that fall into two words may be split. The alternative that scores
//! best is taken, unless a language model clearly prefers the first one.
use vstd::prelude::*;

use crate::dictionary;
use crate::dictionary::Dictionary;
use crate::entry;
use crate::entry::{DictionaryEntry, EntryView, Segment, SegmentView};
use crate::merge;
use crate::nano::{NanoTable, ONE, TABLE_LIMIT};
use crate::pos;
use crate::pos::{connection_cost, PartOfSpeech};
use crate::rank;
use crate::rank::order_desc;
use crate::text::{chars_of, joined, text_between};

verus! {

/// How many ways to segment a reading are compared.
pub const MAX_ALTERNATIVES: usize = 8;

/// The frequency assumed of a segment that the dictionary does not know.
pub const UNKNOWN_FREQUENCY: u32 = 100;

/// What a connection cost of a thousandth takes off a score: three tenths of
/// it.
pub const CONNECTION_WEIGHT: i128 = 300_000;

/// What every segment takes off a score: a half.
pub const SEGMENT_PENALTY: i128 = 500_000_000;

/// By how much the model must prefer the first segmentation for it to stand.
pub const OVERRULE_MARGIN: i64 = 150_000_000;

/// The score of a segmentation with a word that never occurs.
pub const LOWEST: i128 = -1_267_650_600_228_229_401_496_703_205_376;

/// The reading of two neighbouring segments together.
pub open spec fn pair_reading(base: Seq<SegmentView>, i: int) -> Seq<char> {
    base[i].reading + base[i + 1].reading
}

/// Do two neighbouring segments make a word together?
pub open spec fn makes_word(d: Seq<EntryView>, base: Seq<SegmentView>, i: int) -> bool {
    dictionary::lookup_of(d, pair_reading(base, i)).len() > 0
}

/// The places, among the first `n`, where two neighbours make a word together.
pub open spec fn merge_places(d: Seq<EntryView>, base: Seq<SegmentView>, n: int) -> Seq<int>
    decreases n,
{
    if n <= 0 {
        Seq::empty()
    } else if makes_word(d, base, n - 1) {
        merge_places(d, base, n - 1).push(n - 1)
    } else {
        merge_places(d, base, n - 1)
    }
}

/// All places where two neighbours make a word together.
pub open spec fn all_merge_places(d: Seq<EntryView>, base: Seq<SegmentView>) -> Seq<int> {
    merge_places(d, base, base.len() - 1)
}

/// Two neighbouring segments as one word.
pub open spec fn merged_pair(d: Seq<EntryView>, base: Seq<SegmentView>, i: int) -> SegmentView {
    SegmentView {
        reading: pair_reading(base, i),
        start: base[i].start,
        len: base[i].len + base[i + 1].len,
        candidates: dictionary::lookup_of(d, pair_reading(base, i)),
    }
}

/// The segments from `i` on, with the pairs at the given places merged.
pub open spec fn merged_from(
    d: Seq<EntryView>,
    base: Seq<SegmentView>,
    places: Seq<int>,
    i: int,
) -> Seq<SegmentView>
    decreases base.len() - i,
{
    if i < 0 || i >= base.len() {
        Seq::empty()
    } else if places.contains(i) && i + 1 < base.len() {
        seq![merged_pair(d, base, i)] + merged_from(d, base, places, i + 2)
    } else {
        seq![base[i]] + merged_from(d, base, places, i + 1)
    }
}

/// Do all pairs that are merged from `i` on make a word?
pub open spec fn merges_fit(
    d: Seq<EntryView>,
    base: Seq<SegmentView>,
    places: Seq<int>,
    i: int,
) -> bool
    decreases base.len() - i,
{
    if i < 0 || i >= base.len() {
        true
    } else if places.contains(i) && i + 1 < base.len() {
        makes_word(d, base, i) && merges_fit(d, base, places, i + 2)
    } else {
        merges_fit(d, base, places, i + 1)
    }
}

/// From the left, the places that do not share a segment with the one before.
pub open spec fn apart(places: Seq<int>) -> Seq<int>
    decreases places.len(),
{
    if places.len() == 0 {
        Seq::empty()
    } else {
        let before = apart(places.drop_last());
        if before.len() > 0 && places.last() <= before.last() + 1 {
            before
        } else {
            before.push(places.last())
        }
    }
}

/// The segmentations with one pair merged, for each of the places.
pub open spec fn single_merges(
    d: Seq<EntryView>,
    base: Seq<SegmentView>,
    places: Seq<int>,
) -> Seq<Seq<SegmentView>> {
    places.map_values(|i: int| merged_from(d, base, seq![i], 0))
}

/// The segmentation with as many pairs merged as fit, if these are two or more.
pub open spec fn multi_merge(
    d: Seq<EntryView>,
    base: Seq<SegmentView>,
    places: Seq<int>,
) -> Seq<Seq<SegmentView>> {
    if apart(places).len() >= 2 {
        seq![merged_from(d, base, apart(places), 0)]
    } else {
        Seq::empty()
    }
}

/// The places at which a reading of `n` characters may be split: two or more
/// characters on the left, two or more on the right.
pub open spec fn split_places(n: int) -> Seq<int> {
    if n < 4 {
        Seq::empty()
    } else {
        Seq::new((n - 3) as nat, |k: int| k + 2)
    }
}

/// How close a place is to the middle, the closest being the largest.
pub open spec fn closeness(n: int) -> Seq<int> {
    split_places(n).map_values(
        |p: int|
            if p >= n / 2 {
                n / 2 - p
            } else {
                p - n / 2
            },
    )
}

/// The places at which a reading of `n` characters may be split, from the
/// middle outwards, the left one first.
pub open spec fn split_order(n: int) -> Seq<int> {
    rank::taken(split_places(n), rank::ranking(closeness(n)))
}

/// The segmentation with segment `i` split after `p` characters.
pub open spec fn split_at(d: Seq<EntryView>, base: Seq<SegmentView>, i: int, p: int) -> Seq<
    SegmentView,
> {
    let s = base[i];
    let left = s.reading.take(p);
    let right = s.reading.skip(p);
    base.take(i) + seq![
        SegmentView {
            reading: left,
            start: s.start,
            len: p,
            candidates: dictionary::lookup_of(d, left),
        },
        SegmentView {
            reading: right,
            start: s.start + p,
            len: s.reading.len() - p,
            candidates: dictionary::lookup_of(d, right),
        },
    ] + base.skip(i + 1)
}

/// Does segment `i` fall into two words after `p` characters?
pub open spec fn splits_into_words(
    d: Seq<EntryView>,
    base: Seq<SegmentView>,
    i: int,
    p: int,
) -> bool {
    dictionary::lookup_of(d, base[i].reading.take(p)).len() > 0 && dictionary::lookup_of(
        d,
        base[i].reading.skip(p),
    ).len() > 0
}

/// The segmentations with segment `i` split, for the first `k` places in
/// order.
pub open spec fn splits_of(
    d: Seq<EntryView>,
    base: Seq<SegmentView>,
    i: int,
    k: int,
) -> Seq<Seq<SegmentView>>
    decreases k,
{
    if k <= 0 {
        Seq::empty()
    } else {
        let before = splits_of(d, base, i, k - 1);
        let p = split_order(base[i].reading.len() as int)[k - 1];
        if splits_into_words(d, base, i, p) {
            before.push(split_at(d, base, i, p))
        } else {
            before
        }
    }
}

/// The segmentations with one of the first `n` segments split.
pub open spec fn splits_before(d: Seq<EntryView>, base: Seq<SegmentView>, n: int) -> Seq<
    Seq<SegmentView>,
>
    decreases n,
{
    if n <= 0 {
        Seq::empty()
    } else {
        splits_before(d, base, n - 1) + splits_of(
            d,
            base,
            n - 1,
            split_places(base[n - 1].reading.len() as int).len() as int,
        )
    }
}

/// All ways to segment that are looked at: the given one, single merges, the
/// merge of all that fits, and splits.
pub open spec fn all_ways(d: Seq<EntryView>, base: Seq<SegmentView>) -> Seq<Seq<SegmentView>> {
    let places = all_merge_places(d, base);
    seq![base] + single_merges(d, base, places) + multi_merge(d, base, places) + splits_before(
        d,
        base,
        base.len() as int,
    )
}

/// The ways to segment that are compared: the first eight.
pub open spec fn alternatives_of(d: Seq<EntryView>, base: Seq<SegmentView>) -> Seq<
    Seq<SegmentView>,
> {
    merge::first(all_ways(d, base), 8)
}

/// The contents of a list of segmentations.
pub open spec fn alternative_views(v: Seq<Vec<Segment>>) -> Seq<Seq<SegmentView>> {
    v.map_values(|a: Vec<Segment>| entry::segment_views(a@))
}

proof fn lemma_first_push<T>(done: Seq<T>, x: T)
    ensures
        merge::first(done.push(x), 8) == (if done.len() < 8 {
            merge::first(done, 8).push(x)
        } else {
            merge::first(done, 8)
        }),
{
    if done.len() < 8 {
        assert(merge::first(done.push(x), 8) =~= merge::first(done, 8).push(x));
    } else {
        assert(merge::first(done.push(x), 8) =~= merge::first(done, 8));
    }
}

/// Copies of the segments.
fn copied_segments(segs: &Vec<Segment>) -> (out: Vec<Segment>)
    ensures
        entry::segment_views(out@) == entry::segment_views(segs@),
{
    let mut out: Vec<Segment> = Vec::new();
    push_segments(&mut out, segs, 0, segs.len());
    assert(entry::segment_views(out@) =~= entry::segment_views(segs@));
    out
}

/// Appends copies of the segments from `from` up to (not with) `to`.
fn push_segments(out: &mut Vec<Segment>, segs: &Vec<Segment>, from: usize, to: usize)
    requires
        from <= to <= segs@.len(),
    ensures
        entry::segment_views(final(out)@) == entry::segment_views(old(out)@)
            + entry::segment_views(segs@).subrange(from as int, to as int),
{
    let ghost start = entry::segment_views(out@);
    let ghost all = entry::segment_views(segs@);
    let mut i: usize = from;
    assert(start + all.subrange(from as int, from as int) =~= start);
    while i < to
        invariant
            from <= i <= to <= segs@.len(),
            all == entry::segment_views(segs@),
            entry::segment_views(out@) == start + all.subrange(from as int, i as int),
        decreases to - i,
    {
        let ghost before = out@;
        let copy: Segment = segs[i].clone();
        out.push(copy);
        i = i + 1;
        proof {
            assert(entry::segment_views(out@) =~= entry::segment_views(before).push(
                all[i - 1],
            ));
            assert(entry::segment_views(out@) =~= start + all.subrange(from as int, i as int));
        }
    }
}

/// Is `x` in the list?
fn holds(list: &Vec<usize>, x: usize) -> (found: bool)
    ensures
        found == list@.map_values(|i: usize| i as int).contains(x as int),
{
    let ghost ints = list@.map_values(|i: usize| i as int);
    let mut i: usize = 0;
    while i < list.len()
        invariant
            i <= list@.len(),
            ints == list@.map_values(|i: usize| i as int),
            forall|k: int| 0 <= k < i ==> #[trigger] ints[k] != x as int,
        decreases list@.len() - i,
    {
        assert(ints[i as int] == list@[i as int] as int);
        if list[i] == x {
            return true;
        }
        i = i + 1;
    }
    false
}

/// What holds of the segments of one reading: none is empty, each starts where
/// the one before it ended, and positions fit a machine word.
pub open spec fn positions_fit(segs: Seq<SegmentView>) -> bool {
    &&& forall|i: int|
        0 <= i < segs.len() ==> {
            &&& (#[trigger] segs[i]).start + segs[i].len <= usize::MAX
            &&& 1 <= segs[i].len == segs[i].reading.len()
        }
    &&& forall|i: int, j: int|
        0 <= i < segs.len() && j == i + 1 && j < segs.len() ==> (#[trigger] segs[i]).start
            + segs[i].len == (#[trigger] segs[j]).start
}

/// What merging and splitting ask of segments: two neighbours together, and a
/// place within a reading, fit a machine word.
pub open spec fn parts_fit(segs: Seq<SegmentView>) -> bool {
    &&& forall|i: int|
        0 <= i < segs.len() ==> (#[trigger] segs[i]).start + segs[i].reading.len() <= usize::MAX
    &&& forall|i: int, j: int|
        0 <= i < segs.len() && j == i + 1 && j < segs.len() ==> (#[trigger] segs[i]).len + (
        #[trigger] segs[j]).len <= usize::MAX
}

/// Segments that cover a text have fitting positions.
pub proof fn lemma_tiles_fit(segs: Seq<SegmentView>, input: Seq<char>, base: int)
    requires
        entry::tiles(segs, input, base),
        base + input.len() <= usize::MAX,
    ensures
        positions_fit(segs),
{
}

/// The segments with the pairs at the given places merged. There is no such
/// segmentation where a merged pair is not a word.
pub fn build_merged_segmentation(base: &Vec<Segment>, places: &Vec<usize>, dict: &Dictionary) -> (
    out: Option<Vec<Segment>>)
    requires
        dict.wf(),
        parts_fit(entry::segment_views(base@)),
    ensures
        ({
            let bv = entry::segment_views(base@);
            let pv = places@.map_values(|i: usize| i as int);
            match out {
                Some(v) => merges_fit(dict@, bv, pv, 0) && entry::segment_views(v@)
                    == merged_from(dict@, bv, pv, 0),
                None => !merges_fit(dict@, bv, pv, 0),
            }
        }),
{
    let ghost bv = entry::segment_views(base@);
    let ghost pv = places@.map_values(|i: usize| i as int);
    let ghost whole = merged_from(dict@, bv, pv, 0);
    let n: usize = base.len();
    let mut out: Vec<Segment> = Vec::new();
    let mut i: usize = 0;
    assert(entry::segment_views(out@) + merged_from(dict@, bv, pv, 0) =~= whole);
    while i < n
        invariant
            i <= n,
            n == base@.len(),
            dict.wf(),
            bv == entry::segment_views(base@),
            pv == places@.map_values(|i: usize| i as int),
            parts_fit(bv),
            whole == merged_from(dict@, bv, pv, 0),
            merges_fit(dict@, bv, pv, 0) == merges_fit(dict@, bv, pv, i as int),
            whole == entry::segment_views(out@) + merged_from(dict@, bv, pv, i as int),
        decreases n - i,
    {
        let ghost done = entry::segment_views(out@);
        assert(bv[i as int] == base@[i as int]@);
        if n - i >= 2 && holds(places, i) {
            assert(bv[i + 1] == base@[i + 1]@);
            let reading: String = joined(base[i].reading.as_str(), base[i + 1].reading.as_str());
            let candidates: Vec<DictionaryEntry> = dict.lookup_copies(reading.as_str());
            assert(entry::entry_views(candidates@).len() == candidates@.len());
            if candidates.len() == 0 {
                return None;
            }
            assert(bv[i as int].len + bv[i + 1].len <= usize::MAX);
            let pair: Segment = Segment {
                reading,
                start: base[i].start,
                len: base[i].len + base[i + 1].len,
                candidates,
            };
            let ghost sv = pair@;
            out.push(pair);
            i = i + 2;
            proof {
                assert(sv == merged_pair(dict@, bv, i - 2));
                assert(entry::segment_views(out@) =~= done.push(sv));
                assert(whole =~= entry::segment_views(out@) + merged_from(
                    dict@,
                    bv,
                    pv,
                    i as int,
                ));
            }
        } else {
            let copy: Segment = base[i].clone();
            out.push(copy);
            i = i + 1;
            proof {
                assert(entry::segment_views(out@) =~= done.push(bv[i - 1]));
                assert(whole =~= entry::segment_views(out@) + merged_from(
                    dict@,
                    bv,
                    pv,
                    i as int,
                ));
            }
        }
    }
    assert(entry::segment_views(out@) =~= whole);
    Some(out)
}

proof fn lemma_single_fits(d: Seq<EntryView>, base: Seq<SegmentView>, x: int, i: int)
    requires
        makes_word(d, base, x),
        i >= 0,
    ensures
        merges_fit(d, base, seq![x], i),
    decreases base.len() - i,
{
    if i < base.len() {
        if seq![x].contains(i) && i + 1 < base.len() {
            assert(i == x);
            lemma_single_fits(d, base, x, i + 2);
        } else {
            lemma_single_fits(d, base, x, i + 1);
        }
    }
}

proof fn lemma_all_fit(d: Seq<EntryView>, base: Seq<SegmentView>, places: Seq<int>, i: int)
    requires
        forall|k: int| 0 <= k < places.len() ==> makes_word(d, base, #[trigger] places[k]),
        i >= 0,
    ensures
        merges_fit(d, base, places, i),
    decreases base.len() - i,
{
    if i < base.len() {
        if places.contains(i) && i + 1 < base.len() {
            let k = choose|k: int| 0 <= k < places.len() && places[k] == i;
            assert(makes_word(d, base, places[k]));
            lemma_all_fit(d, base, places, i + 2);
        } else {
            lemma_all_fit(d, base, places, i + 1);
        }
    }
}

/// The places where two neighbours make a word together.
fn find_merge_places(base: &Vec<Segment>, dict: &Dictionary) -> (out: Vec<usize>)
    requires
        dict.wf(),
    ensures
        out@.map_values(|i: usize| i as int) == all_merge_places(
            dict@,
            entry::segment_views(base@),
        ),
        forall|k: int|
            0 <= k < out@.len() ==> makes_word(
                dict@,
                entry::segment_views(base@),
                (#[trigger] out@[k]) as int,
            ),
{
    let ghost bv = entry::segment_views(base@);
    let n: usize = base.len();
    let mut out: Vec<usize> = Vec::new();
    assert(out@.map_values(|i: usize| i as int) =~= Seq::<int>::empty());
    if n == 0 {
        return out;
    }
    let mut i: usize = 0;
    while i < n - 1
        invariant
            n == base@.len(),
            n > 0,
            i <= n - 1,
            dict.wf(),
            bv == entry::segment_views(base@),
            out@.map_values(|i: usize| i as int) == merge_places(dict@, bv, i as int),
            forall|k: int|
                0 <= k < out@.len() ==> makes_word(dict@, bv, (#[trigger] out@[k]) as int),
        decreases n - i,
    {
        let ghost before = out@;
        proof {
            assert(bv[i as int] == base@[i as int]@);
            assert(bv[i + 1] == base@[i + 1]@);
        }
        let reading: String = joined(base[i].reading.as_str(), base[i + 1].reading.as_str());
        let found = dict.lookup(reading.as_str());
        assert(found@.map_values(|e: &DictionaryEntry| e@).len() == found@.len());
        if found.len() > 0 {
            out.push(i);
            assert(out@.map_values(|i: usize| i as int) =~= before.map_values(
                |i: usize| i as int,
            ).push(i as int));
        }
        i = i + 1;
    }
    out
}

/// From the left, the places that do not share a segment with the one before.
fn keep_apart(places: &Vec<usize>) -> (out: Vec<usize>)
    ensures
        out@.map_values(|i: usize| i as int) == apart(places@.map_values(|i: usize| i as int)),
        forall|k: int| 0 <= k < out@.len() ==> places@.contains(#[trigger] out@[k]),
{
    let ghost pv = places@.map_values(|i: usize| i as int);
    let mut out: Vec<usize> = Vec::new();
    let mut i: usize = 0;
    assert(out@.map_values(|i: usize| i as int) =~= apart(pv.take(0)));
    while i < places.len()
        invariant
            i <= places@.len(),
            pv == places@.map_values(|i: usize| i as int),
            out@.map_values(|i: usize| i as int) == apart(pv.take(i as int)),
            forall|k: int| 0 <= k < out@.len() ==> places@.contains(#[trigger] out@[k]),
        decreases places@.len() - i,
    {
        let ghost ints = out@.map_values(|i: usize| i as int);
        let p: usize = places[i];
        let m: usize = out.len();
        proof {
            assert(pv.take(i + 1).drop_last() =~= pv.take(i as int));
            assert(pv.take(i + 1).last() == p as int);
            assert(places@.contains(places@[i as int]));
            if m > 0 {
                assert(ints.last() == out@[m - 1] as int);
            }
        }
        let clash: bool = m > 0 && (p <= out[m - 1] || p - out[m - 1] <= 1);
        if !clash {
            out.push(p);
            assert(out@.map_values(|i: usize| i as int) =~= ints.push(p as int));
        }
        i = i + 1;
    }
    assert(pv.take(i as int) =~= pv);
    out
}

/// The places at which a reading of `n` characters may be split, in order.
fn ordered_split_places(n: usize) -> (out: Vec<usize>)
    requires
        n >= 4,
    ensures
        out@.map_values(|p: usize| p as int) == split_order(n as int),
        forall|k: int| 0 <= k < out@.len() ==> 2 <= (#[trigger] out@[k]) && out@[k] + 2 <= n,
{
    let ghost nn = n as int;
    let mid: usize = n / 2;
    let mut keys: Vec<i128> = Vec::new();
    let mut p: usize = 2;
    while p < n - 1
        invariant
            n >= 4,
            nn == n,
            mid == n / 2,
            2 <= p <= n - 1,
            keys@.len() == p - 2,
            forall|k: int| 0 <= k < p - 2 ==> (#[trigger] keys@[k]) as int == closeness(nn)[k],
        decreases n - p,
    {
        let key: i128 = if p >= mid {
            (mid as i128) - (p as i128)
        } else {
            (p as i128) - (mid as i128)
        };
        proof {
            let k = p - 2;
            assert(split_places(nn)[k] == p);
            assert(closeness(nn)[k] == key as int);
        }
        keys.push(key);
        p = p + 1;
    }
    assert(keys@.map_values(|k: i128| k as int) =~= closeness(nn));
    let order: Vec<usize> = order_desc(&keys);
    let ghost ints = order@.map_values(|k: usize| k as int);
    let mut out: Vec<usize> = Vec::new();
    let mut j: usize = 0;
    while j < order.len()
        invariant
            j <= order@.len(),
            n >= 4,
            order@.len() == n - 3,
            out@.len() == j,
            forall|m: int| 0 <= m < order@.len() ==> (#[trigger] order@[m]) < n - 3,
            forall|m: int| 0 <= m < j ==> (#[trigger] out@[m]) == order@[m] + 2,
        decreases order@.len() - j,
    {
        out.push(order[j] + 2);
        j = j + 1;
    }
    proof {
        let want = split_order(nn);
        assert forall|m: int| 0 <= m < out@.len() implies out@.map_values(
            |p: usize| p as int,
        )[m] == want[m] by {
            assert(ints[m] == rank::ranking(closeness(nn))[m]);
            assert(ints[m] == order@[m] as int);
            assert(out@[m] == order@[m] + 2);
        }
        assert(want.len() == order@.len());
        assert(out@.map_values(|p: usize| p as int) =~= want);
    }
    out
}

/// The segmentation with segment `i` split after `p` characters, if both parts
/// are words.
fn try_split(base: &Vec<Segment>, i: usize, p: usize, chars: &Vec<char>, dict: &Dictionary) -> (
    out: Option<Vec<Segment>>)
    requires
        dict.wf(),
        i < base@.len(),
        chars@ == base@[i as int].reading@,
        p <= chars@.len(),
        parts_fit(entry::segment_views(base@)),
    ensures
        ({
            let bv = entry::segment_views(base@);
            match out {
                Some(v) => splits_into_words(dict@, bv, i as int, p as int)
                    && entry::segment_views(v@) == split_at(dict@, bv, i as int, p as int),
                None => !splits_into_words(dict@, bv, i as int, p as int),
            }
        }),
{
    let ghost bv = entry::segment_views(base@);
    assert(bv[i as int] == base@[i as int]@);
    let left: String = text_between(chars.as_slice(), 0, p);
    let right: String = text_between(chars.as_slice(), p, chars.len());
    proof {
        assert(left@ =~= chars@.take(p as int));
        assert(right@ =~= chars@.skip(p as int));
    }
    let left_entries: Vec<DictionaryEntry> = dict.lookup_copies(left.as_str());
    let right_entries: Vec<DictionaryEntry> = dict.lookup_copies(right.as_str());
    proof {
        assert(entry::entry_views(left_entries@).len() == left_entries@.len());
        assert(entry::entry_views(right_entries@).len() == right_entries@.len());
    }
    if left_entries.len() == 0 || right_entries.len() == 0 {
        return None;
    }
    let a: Segment = Segment {
        reading: left,
        start: base[i].start,
        len: p,
        candidates: left_entries,
    };
    let b: Segment = Segment {
        reading: right,
        start: base[i].start + p,
        len: chars.len() - p,
        candidates: right_entries,
    };
    let ghost av = a@;
    let ghost bw = b@;
    let mut out: Vec<Segment> = Vec::new();
    push_segments(&mut out, base, 0, i);
    let ghost first_part = entry::segment_views(out@);
    out.push(a);
    out.push(b);
    let ghost second_part = entry::segment_views(out@);
    let total: usize = base.len();
    push_segments(&mut out, base, i + 1, total);
    proof {
        assert(first_part =~= bv.take(i as int));
        assert(second_part =~= first_part + seq![av, bw]);
        assert(bv.subrange(i + 1, bv.len() as int) =~= bv.skip(i + 1));
        assert(entry::segment_views(out@) =~= split_at(dict@, bv, i as int, p as int));
    }
    Some(out)
}

/// Adds the ways to segment with one segment split, as far as there is room.
fn push_splits(
    alts: &mut Vec<Vec<Segment>>,
    base: &Vec<Segment>,
    dict: &Dictionary,
    Ghost(done): Ghost<Seq<Seq<SegmentView>>>,
)
    requires
        dict.wf(),
        parts_fit(entry::segment_views(base@)),
        alternative_views(old(alts)@) == merge::first(done, 8),
    ensures
        alternative_views(final(alts)@) == merge::first(
            done + splits_before(dict@, entry::segment_views(base@), base@.len() as int),
            8,
        ),
{
    let ghost bv = entry::segment_views(base@);
    let mut i: usize = 0;
    assert(done + splits_before(dict@, bv, 0) =~= done);
    while i < base.len()
        invariant
            i <= base@.len(),
            dict.wf(),
            bv == entry::segment_views(base@),
            parts_fit(bv),
            alternative_views(alts@) == merge::first(
                done + splits_before(dict@, bv, i as int),
                8,
            ),
        decreases base@.len() - i,
    {
        assert(bv[i as int] == base@[i as int]@);
        let chars: Vec<char> = chars_of(base[i].reading.as_str());
        let ghost so_far = done + splits_before(dict@, bv, i as int);
        let ghost count = split_places(chars@.len() as int).len() as int;
        if chars.len() >= 4 && alts.len() < MAX_ALTERNATIVES {
            let places: Vec<usize> = ordered_split_places(chars.len());
            let ghost order = split_order(chars@.len() as int);
            let mut k: usize = 0;
            proof {
                assert(so_far + splits_of(dict@, bv, i as int, 0) =~= so_far);
                rank::lemma_ranking(closeness(chars@.len() as int));
                assert(order.len() == count);
            }
            while k < places.len()
                invariant
                    i < base@.len(),
                    k <= places@.len(),
                    dict.wf(),
                    bv == entry::segment_views(base@),
                    parts_fit(bv),
                    chars@ == base@[i as int].reading@,
                    chars@ == bv[i as int].reading,
                    order == split_order(chars@.len() as int),
                    places@.map_values(|p: usize| p as int) == order,
                    places@.len() == count,
                    forall|m: int|
                        0 <= m < places@.len() ==> 2 <= (#[trigger] places@[m]) && places@[m] + 2
                            <= chars@.len(),
                    alternative_views(alts@) == merge::first(
                        so_far + splits_of(dict@, bv, i as int, k as int),
                        8,
                    ),
                decreases places@.len() - k,
            {
                let ghost now = so_far + splits_of(dict@, bv, i as int, k as int);
                let ghost before = alts@;
                proof {
                    assert(order[k as int] == places@[k as int] as int);
                    assert(alternative_views(alts@).len() == alts@.len());
                }
                if alts.len() < MAX_ALTERNATIVES {
                    match try_split(base, i, places[k], &chars, dict) {
                        Some(alt) => {
                            let ghost av = entry::segment_views(alt@);
                            alts.push(alt);
                            proof {
                                lemma_first_push(now, av);
                                assert(alternative_views(alts@) =~= alternative_views(
                                    before,
                                ).push(av));
                                assert(so_far + splits_of(dict@, bv, i as int, k + 1)
                                    =~= now.push(av));
                            }
                        },
                        None => {
                            assert(so_far + splits_of(dict@, bv, i as int, k + 1) =~= now);
                        },
                    }
                } else {
                    proof {
                        let next = so_far + splits_of(dict@, bv, i as int, k + 1);
                        assert(now.len() >= 8);
                        assert(merge::first(next, 8) =~= merge::first(now, 8));
                    }
                }
                k = k + 1;
            }
        } else {
            proof {
                let next = so_far + splits_of(dict@, bv, i as int, count);
                assert(alternative_views(alts@).len() == alts@.len());
                if chars@.len() < 4 {
                    assert(next =~= so_far);
                } else {
                    assert(so_far.len() >= 8);
                    assert(merge::first(next, 8) =~= merge::first(so_far, 8));
                }
            }
        }
        proof {
            assert(so_far + splits_of(dict@, bv, i as int, count) =~= done + splits_before(
                dict@,
                bv,
                i + 1,
            ));
        }
        i = i + 1;
    }
}

/// The ways to segment that are compared. The first one is the given one.
pub fn generate_alternative_segmentations(base: &Vec<Segment>, dict: &Dictionary) -> (alts: Vec<
    Vec<Segment>,
>)
    requires
        dict.wf(),
        parts_fit(entry::segment_views(base@)),
    ensures
        alternative_views(alts@) == alternatives_of(dict@, entry::segment_views(base@)),
{
    let ghost bv = entry::segment_views(base@);
    let mut alts: Vec<Vec<Segment>> = Vec::new();
    let copy: Vec<Segment> = copied_segments(base);
    alts.push(copy);
    let places: Vec<usize> = find_merge_places(base, dict);
    let ghost pv = all_merge_places(dict@, bv);
    let ghost singles = single_merges(dict@, bv, pv);
    let ghost start = seq![bv];
    proof {
        assert(alternative_views(alts@) =~= start);
        assert(start + singles.take(0) =~= start);
        assert(merge::first(start, 8) =~= start);
    }
    let mut i: usize = 0;
    while i < places.len()
        invariant
            i <= places@.len(),
            dict.wf(),
            bv == entry::segment_views(base@),
            parts_fit(bv),
            pv == all_merge_places(dict@, bv),
            pv == places@.map_values(|i: usize| i as int),
            singles == single_merges(dict@, bv, pv),
            forall|k: int|
                0 <= k < places@.len() ==> makes_word(dict@, bv, (#[trigger] places@[k]) as int),
            alternative_views(alts@) == merge::first(start + singles.take(i as int), 8),
        decreases places@.len() - i,
    {
        let ghost now = start + singles.take(i as int);
        let ghost before = alts@;
        proof {
            assert(pv[i as int] == places@[i as int] as int);
            assert(singles.take(i + 1) =~= singles.take(i as int).push(singles[i as int]));
            assert(start + singles.take(i + 1) =~= now.push(singles[i as int]));
            lemma_first_push(now, singles[i as int]);
            assert(alternative_views(alts@).len() == alts@.len());
        }
        if alts.len() < MAX_ALTERNATIVES {
            let mut one: Vec<usize> = Vec::new();
            one.push(places[i]);
            proof {
                assert(one@.map_values(|i: usize| i as int) =~= seq![pv[i as int]]);
                lemma_single_fits(dict@, bv, pv[i as int], 0);
            }
            match build_merged_segmentation(base, &one, dict) {
                Some(alt) => {
                    let ghost av = entry::segment_views(alt@);
                    alts.push(alt);
                    assert(alternative_views(alts@) =~= alternative_views(before).push(av));
                },
                None => {},
            }
        }
        i = i + 1;
    }
    assert(singles.take(i as int) =~= singles);
    let ghost so_far = start + singles;
    let ghost multi = multi_merge(dict@, bv, pv);
    let together: Vec<usize> = keep_apart(&places);
    assert(together@.map_values(|i: usize| i as int).len() == together@.len());
    proof {
        assert(alternative_views(alts@).len() == alts@.len());
    }
    if together.len() >= 2 {
        let ghost before = alts@;
        proof {
            let tv = together@.map_values(|i: usize| i as int);
            assert forall|k: int| 0 <= k < tv.len() implies makes_word(
                dict@,
                bv,
                #[trigger] tv[k],
            ) by {
                assert(places@.contains(together@[k]));
                let w = choose|w: int| 0 <= w < places@.len() && places@[w] == together@[k];
                assert(makes_word(dict@, bv, places@[w] as int));
            }
            lemma_all_fit(dict@, bv, tv, 0);
            lemma_first_push(so_far, multi[0]);
            assert(so_far + multi =~= so_far.push(multi[0]));
        }
        if alts.len() < MAX_ALTERNATIVES {
            match build_merged_segmentation(base, &together, dict) {
                Some(alt) => {
                    let ghost av = entry::segment_views(alt@);
                    alts.push(alt);
                    assert(alternative_views(alts@) =~= alternative_views(before).push(av));
                },
                None => {},
            }
        }
    } else {
        assert(so_far + multi =~= so_far);
    }
    push_splits(&mut alts, base, dict, Ghost(so_far + multi));
    alts
}


/// The frequency of the first word of a segment.
pub open spec fn leading_frequency(s: SegmentView) -> int {
    if s.candidates.len() > 0 {
        s.candidates[0].frequency as int
    } else {
        UNKNOWN_FREQUENCY as int
    }
}

/// The logarithms of the leading frequencies, each counted once for every
/// character of its segment.
pub open spec fn weighted_logs(segs: Seq<SegmentView>, logs: NanoTable) -> int
    decreases segs.len(),
{
    if segs.len() == 0 {
        0
    } else {
        weighted_logs(segs.drop_last(), logs) + segs.last().len * logs.at(
            leading_frequency(segs.last()),
        )
    }
}

/// Is this segment a single character that is no particle or auxiliary?
pub open spec fn is_fragment(s: SegmentView) -> bool {
    s.len == 1 && !(s.candidates.len() > 0 && (s.candidates[0].pos == PartOfSpeech::Particle
        || s.candidates[0].pos == PartOfSpeech::Auxiliary))
}

/// How many segments are fragments.
pub open spec fn fragments(segs: Seq<SegmentView>) -> int
    decreases segs.len(),
{
    if segs.len() == 0 {
        0
    } else {
        fragments(segs.drop_last()) + (if is_fragment(segs.last()) {
            1int
        } else {
            0int
        })
    }
}

/// The part of speech of the last segment that has a word.
pub open spec fn last_pos(segs: Seq<SegmentView>) -> Option<PartOfSpeech>
    decreases segs.len(),
{
    if segs.len() == 0 {
        None
    } else if segs.last().candidates.len() > 0 {
        Some(segs.last().candidates[0].pos)
    } else {
        last_pos(segs.drop_last())
    }
}

/// The connection costs along the segments that have a word.
pub open spec fn connections(segs: Seq<SegmentView>) -> int
    decreases segs.len(),
{
    if segs.len() == 0 {
        0
    } else if segs.last().candidates.len() > 0 {
        connections(segs.drop_last()) + pos::connection(
            last_pos(segs.drop_last()),
            segs.last().candidates[0].pos,
        )
    } else {
        connections(segs.drop_last())
    }
}

/// Does some segment lead with a word of frequency 0, whose logarithm has no
/// bound below?
pub open spec fn has_impossible(segs: Seq<SegmentView>) -> bool {
    exists|i: int| 0 <= i < segs.len() && #[trigger] leading_frequency(segs[i]) == 0
}

/// How natural a segmentation looks, in billionths: the mean logarithm of the
/// leading frequencies over the characters, less a unit for every fragment,
/// three tenths of the connection costs and a half for every segment.
pub open spec fn heuristic(segs: Seq<SegmentView>, logs: NanoTable) -> int {
    if segs.len() == 0 {
        0
    } else if has_impossible(segs) {
        LOWEST as int
    } else {
        weighted_logs(segs, logs) / entry::total_len(segs) - ONE * fragments(segs) - CONNECTION_WEIGHT
            * connections(segs) - SEGMENT_PENALTY * segs.len()
    }
}

proof fn lemma_total_len(segs: Seq<SegmentView>)
    requires
        positions_fit(segs),
        segs.len() > 0,
    ensures
        entry::total_len(segs) == segs.last().start + segs.last().len - segs[0].start,
    decreases segs.len(),
{
    let rest = segs.drop_last();
    assert(segs.last() == segs[segs.len() - 1]);
    if rest.len() == 0 {
        assert(entry::total_len(rest) == 0);
    } else {
        assert forall|i: int| 0 <= i < rest.len() implies {
            &&& (#[trigger] rest[i]).start + rest[i].len <= usize::MAX
            &&& 1 <= rest[i].len == rest[i].reading.len()
        } by {
            assert(rest[i] == segs[i]);
        }
        assert forall|i: int, j: int|
            0 <= i < rest.len() && j == i + 1 && j < rest.len() implies (
        #[trigger] rest[i]).start + rest[i].len == (#[trigger] rest[j]).start by {
            assert(rest[i] == segs[i] && rest[j] == segs[j]);
        }
        lemma_total_len(rest);
        assert(rest.last() == segs[segs.len() - 2]);
        assert(segs[segs.len() - 2].start + segs[segs.len() - 2].len == segs[segs.len()
            - 1].start);
    }
}

/// How natural a segmentation looks.
pub fn score_segmentation_heuristic(segments: &Vec<Segment>, logs: &NanoTable) -> (score: i128)
    requires
        positions_fit(entry::segment_views(segments@)),
        logs.wf(),
    ensures
        score == heuristic(entry::segment_views(segments@), *logs),
{
    let ghost sv = entry::segment_views(segments@);
    let n: usize = segments.len();
    if n == 0 {
        return 0;
    }
    let mut total: i128 = 0;
    let mut weighted: i128 = 0;
    let mut lone: i128 = 0;
    let mut cost: i128 = 0;
    let mut prev: Option<PartOfSpeech> = None;
    let mut i: usize = 0;
    while i < n
        invariant
            i <= n,
            n == segments@.len(),
            sv == entry::segment_views(segments@),
            positions_fit(sv),
            logs.wf(),
            total == entry::total_len(sv.take(i as int)),
            weighted == weighted_logs(sv.take(i as int), *logs),
            lone == fragments(sv.take(i as int)),
            cost == connections(sv.take(i as int)),
            prev == last_pos(sv.take(i as int)),
            i <= total <= usize::MAX,
            0 <= weighted <= total * TABLE_LIMIT,
            0 <= lone <= i,
            0 <= cost <= 8000 * i,
            forall|k: int| 0 <= k < i ==> #[trigger] leading_frequency(sv[k]) != 0,
        decreases n - i,
    {
        let ghost part = sv.take(i + 1);
        proof {
            assert(sv[i as int] == segments@[i as int]@);
            assert(part.drop_last() =~= sv.take(i as int));
            assert(part.last() == sv[i as int]);
            assert forall|a: int| 0 <= a < part.len() implies {
                &&& (#[trigger] part[a]).start + part[a].len <= usize::MAX
                &&& 1 <= part[a].len == part[a].reading.len()
            } by {
                assert(part[a] == sv[a]);
            }
            assert forall|a: int, b: int|
                0 <= a < part.len() && b == a + 1 && b < part.len() implies (
            #[trigger] part[a]).start + part[a].len == (#[trigger] part[b]).start by {
                assert(part[a] == sv[a] && part[b] == sv[b]);
            }
            lemma_total_len(part);
        }
        let words: &Vec<DictionaryEntry> = &segments[i].candidates;
        assert(sv[i as int].candidates.len() == words@.len());
        let len: usize = segments[i].len;
        let freq: u32 = if words.len() > 0 {
            words[0].frequency
        } else {
            UNKNOWN_FREQUENCY
        };
        assert(freq == leading_frequency(sv[i as int]));
        if freq == 0 {
            assert(has_impossible(sv));
            return LOWEST;
        }
        let log: i64 = logs.value(freq);
        assert(0 <= len * log <= len * TABLE_LIMIT) by (nonlinear_arith)
            requires
                0 <= log <= TABLE_LIMIT,
                0 <= len,
        ;
        assert((total + len) * TABLE_LIMIT == total * TABLE_LIMIT + len * TABLE_LIMIT)
            by (nonlinear_arith);
        weighted = weighted + (len as i128) * (log as i128);
        total = total + (len as i128);
        let grammatical: bool = words.len() > 0 && (words[0].pos == PartOfSpeech::Particle
            || words[0].pos == PartOfSpeech::Auxiliary);
        if len == 1 && !grammatical {
            lone = lone + 1;
        }
        if words.len() > 0 {
            cost = cost + (connection_cost(prev, words[0].pos) as i128);
            prev = Some(words[0].pos);
        }
        i = i + 1;
    }
    assert(sv.take(i as int) =~= sv);
    assert(!has_impossible(sv));
    assert(0 <= weighted / total <= weighted) by (nonlinear_arith)
        requires
            0 <= weighted,
            1 <= total,
    ;
    weighted / total - (ONE as i128) * lone - CONNECTION_WEIGHT * cost - SEGMENT_PENALTY * (
    n as i128)
}

/// The text made of the first word of every segment; a segment without words
/// stands for itself.
pub open spec fn leading_text(s: SegmentView) -> Seq<char> {
    if s.candidates.len() > 0 {
        s.candidates[0].surface
    } else {
        s.reading
    }
}

/// The leading texts of the segments, one after the other.
pub open spec fn leading_texts(segs: Seq<SegmentView>) -> Seq<char>
    decreases segs.len(),
{
    if segs.len() == 0 {
        Seq::empty()
    } else {
        leading_texts(segs.drop_last()) + leading_text(segs.last())
    }
}

/// The leading texts of the segments from `from` up to (not with) `to`.
pub fn compose_between(segments: &Vec<Segment>, from: usize, to: usize) -> (text: String)
    requires
        from <= to <= segments@.len(),
    ensures
        text@ == leading_texts(entry::segment_views(segments@).subrange(from as int, to as int)),
{
    let ghost sv = entry::segment_views(segments@);
    let mut text: String = String::new();
    let mut i: usize = from;
    assert(text@ =~= leading_texts(sv.subrange(from as int, from as int)));
    while i < to
        invariant
            from <= i <= to <= segments@.len(),
            sv == entry::segment_views(segments@),
            text@ == leading_texts(sv.subrange(from as int, i as int)),
        decreases to - i,
    {
        proof {
            assert(sv[i as int] == segments@[i as int]@);
            let next = sv.subrange(from as int, i + 1);
            assert(next.drop_last() =~= sv.subrange(from as int, i as int));
            assert(next.last() == sv[i as int]);
            assert(sv[i as int].candidates.len() == segments@[i as int].candidates@.len());
        }
        if segments[i].candidates.len() > 0 {
            text.append(segments[i].candidates[0].surface.as_str());
        } else {
            text.append(segments[i].reading.as_str());
        }
        i = i + 1;
    }
    text
}

/// Composes the text from the first word of each segment.
pub fn compose_top_candidates(segments: &Vec<Segment>) -> (text: String)
    ensures
        text@ == leading_texts(entry::segment_views(segments@)),
{
    let ghost sv = entry::segment_views(segments@);
    let text: String = compose_between(segments, 0, segments.len());
    assert(sv.subrange(0, sv.len() as int) =~= sv);
    text
}

/// The ways to segment to decide between, and the one that looks best.
pub struct SegmentationPlan {
    /// The ways to segment; the first is the given one.
    pub alternatives: Vec<Vec<Segment>>,
    /// Which one looks most natural.
    pub best: usize,
}

/// The ways to segment that a plan holds: with at most one segment there is
/// nothing to decide.
pub open spec fn planned(d: Seq<EntryView>, base: Seq<SegmentView>) -> Seq<Seq<SegmentView>> {
    if base.len() <= 1 {
        seq![base]
    } else {
        alternatives_of(d, base)
    }
}

/// The scores of the ways to segment.
pub open spec fn scores_of(alts: Seq<Seq<SegmentView>>, logs: NanoTable) -> Seq<int> {
    alts.map_values(|a: Seq<SegmentView>| heuristic(a, logs))
}

/// The position of the highest score, the first one among equals.
pub open spec fn best_of(alts: Seq<Seq<SegmentView>>, logs: NanoTable) -> int {
    rank::ranking(scores_of(alts, logs))[0]
}

/// The segmentation that is taken once the model has been asked: the best
/// looking one, unless the model clearly prefers the first.
pub open spec fn settled(
    alts: Seq<Seq<SegmentView>>,
    best: int,
    verdict: Option<(i64, i64)>,
) -> Seq<SegmentView> {
    match verdict {
        Some((base, other)) => if best != 0 && base > other + OVERRULE_MARGIN {
            alts[0]
        } else {
            alts[best]
        },
        None => alts[best],
    }
}

impl SegmentationPlan {
    /// There is a best one among the alternatives.
    pub open spec fn wf(self) -> bool {
        self.best < self.alternatives@.len()
    }

    /// The ways to segment, and the one that looks best.
    pub fn new(base: &Vec<Segment>, dict: &Dictionary) -> (plan: SegmentationPlan)
        requires
            dict.wf(),
            positions_fit(entry::segment_views(base@)),
        ensures
            plan.wf(),
            alternative_views(plan.alternatives@) == planned(dict@, entry::segment_views(base@)),
            plan.best == best_of(alternative_views(plan.alternatives@), dict.log_table()),
    {
        let ghost bv = entry::segment_views(base@);
        let alternatives: Vec<Vec<Segment>> = if base.len() <= 1 {
            let mut one: Vec<Vec<Segment>> = Vec::new();
            let copy: Vec<Segment> = copied_segments(base);
            one.push(copy);
            assert(alternative_views(one@) =~= seq![bv]);
            one
        } else {
            generate_alternative_segmentations(base, dict)
        };
        let ghost av = alternative_views(alternatives@);
        let ghost scores = scores_of(av, dict.log_table());
        let mut keys: Vec<i128> = Vec::new();
        let mut i: usize = 0;
        proof {
            assert(av.len() == alternatives@.len());
            lemma_alternatives_fit(dict@, bv);
            assert(av == planned(dict@, bv));
        }
        while i < alternatives.len()
            invariant
                i <= alternatives@.len(),
                dict.wf(),
                av == alternative_views(alternatives@),
                scores == scores_of(av, dict.log_table()),
                keys@.len() == i,
                forall|k: int| 0 <= k < av.len() ==> positions_fit(#[trigger] av[k]),
                forall|k: int| 0 <= k < i ==> (#[trigger] keys@[k]) as int == scores[k],
            decreases alternatives@.len() - i,
        {
            assert(av[i as int] == entry::segment_views(alternatives@[i as int]@));
            let key: i128 = score_segmentation_heuristic(&alternatives[i], dict.logs());
            keys.push(key);
            i = i + 1;
        }
        assert(keys@.map_values(|k: i128| k as int) =~= scores);
        let order: Vec<usize> = order_desc(&keys);
        proof {
            assert(av.len() > 0);
            assert(order@.map_values(|i: usize| i as int)[0] == order@[0] as int);
        }
        let best: usize = order[0];
        SegmentationPlan { alternatives, best }
    }

    /// The texts to put before the model: that of the first segmentation and
    /// that of the best looking one, if these are two.
    pub fn contenders(&self) -> (texts: Option<(String, String)>)
        requires
            self.wf(),
        ensures
            match texts {
                Some((base, best)) => {
                    &&& self.best != 0
                    &&& base@ == leading_texts(alternative_views(self.alternatives@)[0])
                    &&& best@ == leading_texts(
                        alternative_views(self.alternatives@)[self.best as int],
                    )
                },
                None => self.best == 0,
            },
    {
        if self.best == 0 {
            None
        } else {
            Some(
                (
                    compose_top_candidates(&self.alternatives[0]),
                    compose_top_candidates(&self.alternatives[self.best]),
                ),
            )
        }
    }

    /// The segmentation that is taken. `verdict` holds the model's scores of
    /// the two contenders, in billionths, where the model could be asked.
    pub fn filter_segmentation(self, verdict: Option<(i64, i64)>) -> (segments: Vec<Segment>)
        requires
            self.wf(),
        ensures
            entry::segment_views(segments@) == settled(
                alternative_views(self.alternatives@),
                self.best as int,
                verdict,
            ),
    {
        let overruled: bool = match verdict {
            Some((base, other)) => self.best != 0 && (base as i128) > (other as i128) + (
            OVERRULE_MARGIN as i128),
            None => false,
        };
        let mut alternatives: Vec<Vec<Segment>> = self.alternatives;
        let at: usize = if overruled {
            0
        } else {
            self.best
        };
        alternatives.remove(at)
    }
}

proof fn lemma_one_tiles(s: SegmentView, x: Seq<char>, base: int)
    requires
        s.reading == x,
        s.start == base,
        s.len == x.len(),
        x.len() >= 1,
    ensures
        entry::tiles(seq![s], x, base),
{
    assert(x.subrange(0, x.len() as int) =~= x);
}

#[verifier::spinoff_prover]
#[verifier::rlimit(40)]
proof fn lemma_merged_tiles(
    d: Seq<EntryView>,
    segs: Seq<SegmentView>,
    places: Seq<int>,
    i: int,
    input: Seq<char>,
    base: int,
)
    requires
        entry::tiles(segs, input, base),
        0 <= i <= segs.len(),
    ensures
        entry::tiles(
            merged_from(d, segs, places, i),
            input.skip(entry::cut_at(segs, input, base, i)),
            base + entry::cut_at(segs, input, base, i),
        ),
    decreases segs.len() - i,
{
    let c = entry::cut_at(segs, input, base, i);
    entry::lemma_tiles_cut(segs, input, base, i);
    if i < segs.len() {
        let merge = places.contains(i) && i + 1 < segs.len();
        let next = if merge {
            i + 2
        } else {
            i + 1
        };
        let head = if merge {
            merged_pair(d, segs, i)
        } else {
            segs[i]
        };
        let e = entry::cut_at(segs, input, base, next);
        entry::lemma_tiles_cut(segs, input, base, next);
        lemma_merged_tiles(d, segs, places, next, input, base);
        if merge {
            assert(segs[i + 1].start == segs[i].start + segs[i].len);
        }
        if next < segs.len() {
            assert(segs[next].start == segs[next - 1].start + segs[next - 1].len);
        } else {
            assert(segs.last() == segs[next - 1]);
        }
        let x = input.subrange(c, e);
        assert(head.reading =~= x);
        lemma_one_tiles(head, x, base + c);
        entry::lemma_tiles_add(
            seq![head],
            x,
            merged_from(d, segs, places, next),
            input.skip(e),
            base + c,
        );
        assert(x + input.skip(e) =~= input.skip(c));
    }
}

proof fn lemma_split_tiles(
    d: Seq<EntryView>,
    segs: Seq<SegmentView>,
    i: int,
    p: int,
    input: Seq<char>,
    base: int,
)
    requires
        entry::tiles(segs, input, base),
        0 <= i < segs.len(),
        0 < p < segs[i].reading.len(),
    ensures
        entry::tiles(split_at(d, segs, i, p), input, base),
{
    let c = entry::cut_at(segs, input, base, i);
    let e = entry::cut_at(segs, input, base, i + 1);
    entry::lemma_tiles_cut(segs, input, base, i);
    entry::lemma_tiles_cut(segs, input, base, i + 1);
    if i + 1 < segs.len() {
        assert(segs[i + 1].start == segs[i].start + segs[i].len);
    } else {
        assert(segs.last() == segs[i]);
    }
    let both = split_at(d, segs, i, p);
    let left = both[i];
    let right = both[i + 1];
    let x = input.subrange(c, c + p);
    let y = input.subrange(c + p, e);
    assert(left.reading =~= x);
    assert(right.reading =~= y);
    lemma_one_tiles(left, x, base + c);
    lemma_one_tiles(right, y, base + c + p);
    entry::lemma_tiles_add(segs.take(i), input.take(c), seq![left], x, base);
    entry::lemma_tiles_add(
        segs.take(i) + seq![left],
        input.take(c) + x,
        seq![right],
        y,
        base,
    );
    entry::lemma_tiles_add(
        segs.take(i) + seq![left] + seq![right],
        input.take(c) + x + y,
        segs.skip(i + 1),
        input.skip(e),
        base,
    );
    assert(segs.take(i) + seq![left] + seq![right] + segs.skip(i + 1) =~= both);
    assert(input.take(c) + x + y + input.skip(e) =~= input);
}

proof fn lemma_split_order(n: int, k: int)
    requires
        0 <= k < split_places(n).len(),
    ensures
        split_order(n).len() == split_places(n).len(),
        2 <= split_order(n)[k] <= n - 2,
{
    rank::lemma_ranking(closeness(n));
    let at = rank::ranking(closeness(n))[k];
    assert(split_order(n)[k] == split_places(n)[at]);
}

proof fn lemma_splits_tile(
    d: Seq<EntryView>,
    segs: Seq<SegmentView>,
    i: int,
    k: int,
    input: Seq<char>,
    base: int,
)
    requires
        entry::tiles(segs, input, base),
        0 <= i < segs.len(),
        0 <= k <= split_places(segs[i].reading.len() as int).len(),
    ensures
        forall|m: int|
            0 <= m < splits_of(d, segs, i, k).len() ==> entry::tiles(
                #[trigger] splits_of(d, segs, i, k)[m],
                input,
                base,
            ),
    decreases k,
{
    if k > 0 {
        let n = segs[i].reading.len() as int;
        lemma_splits_tile(d, segs, i, k - 1, input, base);
        lemma_split_order(n, k - 1);
        lemma_split_tiles(d, segs, i, split_order(n)[k - 1], input, base);
        let before = splits_of(d, segs, i, k - 1);
        let now = splits_of(d, segs, i, k);
        assert forall|m: int| 0 <= m < now.len() implies entry::tiles(
            #[trigger] now[m],
            input,
            base,
        ) by {
            if m < before.len() {
                assert(now[m] == before[m]);
            }
        }
    }
}

proof fn lemma_all_splits_tile(
    d: Seq<EntryView>,
    segs: Seq<SegmentView>,
    n: int,
    input: Seq<char>,
    base: int,
)
    requires
        entry::tiles(segs, input, base),
        0 <= n <= segs.len(),
    ensures
        forall|m: int|
            0 <= m < splits_before(d, segs, n).len() ==> entry::tiles(
                #[trigger] splits_before(d, segs, n)[m],
                input,
                base,
            ),
    decreases n,
{
    if n > 0 {
        let count = split_places(segs[n - 1].reading.len() as int).len() as int;
        lemma_all_splits_tile(d, segs, n - 1, input, base);
        lemma_splits_tile(d, segs, n - 1, count, input, base);
        let a = splits_before(d, segs, n - 1);
        let b = splits_of(d, segs, n - 1, count);
        let now = splits_before(d, segs, n);
        assert forall|m: int| 0 <= m < now.len() implies entry::tiles(
            #[trigger] now[m],
            input,
            base,
        ) by {
            if m < a.len() {
                assert(now[m] == a[m]);
            } else {
                assert(now[m] == b[m - a.len()]);
            }
        }
    }
}

/// Merging and splitting move boundaries only: every way to segment that is
/// compared covers the same reading, without gap or overlap.
pub proof fn law_alternatives_cover_reading(
    d: Seq<EntryView>,
    segs: Seq<SegmentView>,
    input: Seq<char>,
    base: int,
    k: int,
)
    requires
        entry::tiles(segs, input, base),
        0 <= k < alternatives_of(d, segs).len(),
    ensures
        entry::tiles(alternatives_of(d, segs)[k], input, base),
{
    let places = all_merge_places(d, segs);
    let singles = single_merges(d, segs, places);
    let multi = multi_merge(d, segs, places);
    let splits = splits_before(d, segs, segs.len() as int);
    let all = all_ways(d, segs);
    let way = alternatives_of(d, segs)[k];
    assert(way == all[k]);
    lemma_all_splits_tile(d, segs, segs.len() as int, input, base);
    entry::lemma_tiles_cut(segs, input, base, 0);
    assert(entry::cut_at(segs, input, base, 0) == 0);
    assert(input.skip(0) =~= input);
    if k == 0 {
        assert(way == segs);
    } else if k <= singles.len() {
        assert(way == singles[k - 1]);
        lemma_merged_tiles(d, segs, seq![places[k - 1]], 0, input, base);
    } else if k <= singles.len() + multi.len() {
        assert(way == multi[k - 1 - singles.len()]);
        lemma_merged_tiles(d, segs, apart(places), 0, input, base);
    } else {
        assert(way == splits[k - 1 - singles.len() - multi.len()]);
    }
}

/// Whatever the model answers, the segmentation that is taken covers the
/// reading.
pub proof fn law_settled_covers_reading(
    d: Seq<EntryView>,
    segs: Seq<SegmentView>,
    logs: NanoTable,
    verdict: Option<(i64, i64)>,
    input: Seq<char>,
    base: int,
)
    requires
        entry::tiles(segs, input, base),
    ensures
        entry::tiles(
            settled(planned(d, segs), best_of(planned(d, segs), logs), verdict),
            input,
            base,
        ),
{
    let alts = planned(d, segs);
    let best = best_of(alts, logs);
    rank::lemma_ranking(scores_of(alts, logs));
    assert(alts.len() > 0);
    assert(0 <= best < alts.len());
    if segs.len() > 1 {
        law_alternatives_cover_reading(d, segs, input, base, 0);
        law_alternatives_cover_reading(d, segs, input, base, best);
    }
}

proof fn lemma_fit_tiles(segs: Seq<SegmentView>)
    requires
        positions_fit(segs),
        segs.len() > 0,
    ensures
        entry::tiles(segs, entry::joined_readings(segs), segs[0].start),
        entry::joined_readings(segs).len() == segs.last().start + segs.last().len - segs[0].start,
    decreases segs.len(),
{
    let rest = segs.drop_last();
    let s = segs[segs.len() - 1];
    assert(segs.last() == s);
    lemma_one_tiles(s, s.reading, s.start);
    if rest.len() == 0 {
        assert(entry::joined_readings(rest) =~= Seq::<char>::empty());
        assert(entry::joined_readings(segs) =~= s.reading);
        assert(segs =~= seq![s]);
    } else {
        assert forall|i: int| 0 <= i < rest.len() implies {
            &&& (#[trigger] rest[i]).start + rest[i].len <= usize::MAX
            &&& 1 <= rest[i].len == rest[i].reading.len()
        } by {
            assert(rest[i] == segs[i]);
        }
        assert forall|i: int, j: int|
            0 <= i < rest.len() && j == i + 1 && j < rest.len() implies (
        #[trigger] rest[i]).start + rest[i].len == (#[trigger] rest[j]).start by {
            assert(rest[i] == segs[i] && rest[j] == segs[j]);
        }
        lemma_fit_tiles(rest);
        let t = segs[segs.len() - 2];
        assert(rest.last() == t);
        assert(t.start + t.len == s.start);
        entry::lemma_tiles_add(
            rest,
            entry::joined_readings(rest),
            seq![s],
            s.reading,
            segs[0].start,
        );
        assert(rest + seq![s] =~= segs);
    }
}

proof fn lemma_alternatives_fit(d: Seq<EntryView>, segs: Seq<SegmentView>)
    requires
        positions_fit(segs),
    ensures
        forall|k: int|
            0 <= k < planned(d, segs).len() ==> positions_fit(#[trigger] planned(d, segs)[k]),
{
    let alts = planned(d, segs);
    if segs.len() > 1 {
        let input = entry::joined_readings(segs);
        lemma_fit_tiles(segs);
        assert(segs.last() == segs[segs.len() - 1]);
        assert forall|k: int| 0 <= k < alts.len() implies positions_fit(#[trigger] alts[k]) by {
            law_alternatives_cover_reading(d, segs, input, segs[0].start, k);
            lemma_tiles_fit(alts[k], input, segs[0].start);
        }
    }
}

/// The given segmentation is always among those that are compared, as the first
/// one, and there are never more than eight.
pub proof fn law_given_segmentation_is_first(d: Seq<EntryView>, base: Seq<SegmentView>)
    ensures
        1 <= alternatives_of(d, base).len() <= MAX_ALTERNATIVES,
        alternatives_of(d, base)[0] == base,
{
    assert(all_ways(d, base)[0] == base);
}

proof fn lemma_places_hold(d: Seq<EntryView>, base: Seq<SegmentView>, n: int, i: int)
    requires
        0 <= i < n,
        makes_word(d, base, i),
    ensures
        merge_places(d, base, n).contains(i),
    decreases n,
{
    let before = merge_places(d, base, n - 1);
    let after = merge_places(d, base, n);
    if i == n - 1 {
        assert(after[before.len() as int] == i);
    } else {
        lemma_places_hold(d, base, n - 1, i);
        let w = choose|w: int| 0 <= w < before.len() && before[w] == i;
        assert(after[w] == i);
    }
}

proof fn lemma_places_fit(d: Seq<EntryView>, base: Seq<SegmentView>, n: int)
    ensures
        forall|w: int|
            0 <= w < merge_places(d, base, n).len() ==> 0 <= #[trigger] merge_places(
                d,
                base,
                n,
            )[w] < n && makes_word(d, base, merge_places(d, base, n)[w]),
    decreases n,
{
    if n > 0 {
        lemma_places_fit(d, base, n - 1);
        let before = merge_places(d, base, n - 1);
        let out = merge_places(d, base, n);
        assert forall|w: int| 0 <= w < out.len() implies 0 <= #[trigger] out[w] < n && makes_word(
            d,
            base,
            out[w],
        ) by {
            if w < before.len() {
                assert(out[w] == before[w]);
            }
        }
    }
}

proof fn lemma_merged_alone(d: Seq<EntryView>, base: Seq<SegmentView>, i: int, s: int)
    requires
        0 <= i,
        i + 1 < base.len(),
        0 <= s <= base.len(),
        s != i + 1,
    ensures
        s <= i ==> merged_from(d, base, seq![i], s) == base.subrange(s, i) + seq![
            merged_pair(d, base, i),
        ] + base.skip(i + 2),
        s > i ==> merged_from(d, base, seq![i], s) == base.skip(s),
    decreases base.len() - s,
{
    let one = seq![i];
    assert(one.contains(i)) by {
        assert(one[0] == i);
    }
    if s < base.len() {
        if s == i {
            lemma_merged_alone(d, base, i, s + 2);
            assert(merged_from(d, base, one, s) =~= base.subrange(s, i) + seq![
                merged_pair(d, base, i),
            ] + base.skip(i + 2));
        } else {
            assert(!one.contains(s));
            lemma_merged_alone(d, base, i, s + 1);
            if s < i {
                assert(merged_from(d, base, one, s) =~= base.subrange(s, i) + seq![
                    merged_pair(d, base, i),
                ] + base.skip(i + 2));
            } else {
                assert(merged_from(d, base, one, s) =~= base.skip(s));
            }
        }
    } else {
        assert(merged_from(d, base, one, s) =~= base.skip(s));
    }
}

proof fn lemma_among_first<T>(all: Seq<T>, x: T, k: int)
    requires
        0 <= k < all.len(),
        all[k] == x,
    ensures
        merge::first(all, 8).contains(x) || merge::first(all, 8).len() == 8,
{
    if k < merge::first(all, 8).len() {
        assert(merge::first(all, 8)[k] == x);
    }
}

/// Where the dictionary has a word for the joined reading of two neighbours, the
/// division in which they are one segment with its words is an alternative, unless
/// there are eight already.
pub proof fn law_merges_are_tried(d: Seq<EntryView>, base: Seq<SegmentView>, i: int)
    requires
        0 <= i,
        i + 1 < base.len(),
        dictionary::lookup_of(d, base[i].reading + base[i + 1].reading).len() > 0,
    ensures
        ({
            let reading = base[i].reading + base[i + 1].reading;
            let one = SegmentView {
                reading,
                start: base[i].start,
                len: base[i].len + base[i + 1].len,
                candidates: dictionary::lookup_of(d, reading),
            };
            alternatives_of(d, base).contains(base.take(i) + seq![one] + base.skip(i + 2))
                || alternatives_of(d, base).len() == 8
        }),
{
    let places = all_merge_places(d, base);
    let singles = single_merges(d, base, places);
    lemma_places_hold(d, base, base.len() - 1, i);
    let w = choose|w: int| 0 <= w < places.len() && places[w] == i;
    lemma_merged_alone(d, base, i, 0);
    assert(base.subrange(0, i) =~= base.take(i));
    assert(singles[w] == merged_from(d, base, seq![i], 0));
    assert(all_ways(d, base)[1 + w] == singles[w]);
    lemma_among_first(all_ways(d, base), singles[w], 1 + w);
}

proof fn lemma_split_places(n: int, p: int)
    requires
        2 <= p <= n - 2,
    ensures
        split_places(n).contains(p),
        split_order(n).contains(p),
{
    let places = split_places(n);
    let order = rank::ranking(closeness(n));
    assert(places[p - 2] == p);
    rank::lemma_ranking(closeness(n));
    assert(order.contains(p - 2));
    let k = choose|k: int| 0 <= k < order.len() && order[k] == p - 2;
    assert(split_order(n)[k] == p);
}

proof fn lemma_splits_hold(d: Seq<EntryView>, base: Seq<SegmentView>, i: int, k: int, t: int)
    requires
        0 <= t < k,
        splits_into_words(d, base, i, split_order(base[i].reading.len() as int)[t]),
    ensures
        splits_of(d, base, i, k).contains(
            split_at(d, base, i, split_order(base[i].reading.len() as int)[t]),
        ),
    decreases k,
{
    let before = splits_of(d, base, i, k - 1);
    let after = splits_of(d, base, i, k);
    let way = split_at(d, base, i, split_order(base[i].reading.len() as int)[t]);
    if t == k - 1 {
        assert(after[before.len() as int] == way);
    } else {
        lemma_splits_hold(d, base, i, k - 1, t);
        let w = choose|w: int| 0 <= w < before.len() && before[w] == way;
        assert(after[w] == way);
    }
}

proof fn lemma_all_splits_hold(
    d: Seq<EntryView>,
    base: Seq<SegmentView>,
    n: int,
    i: int,
    way: Seq<SegmentView>,
)
    requires
        0 <= i < n,
        splits_of(
            d,
            base,
            i,
            split_places(base[i].reading.len() as int).len() as int,
        ).contains(way),
    ensures
        splits_before(d, base, n).contains(way),
    decreases n,
{
    let before = splits_before(d, base, n - 1);
    let new = splits_of(
        d,
        base,
        n - 1,
        split_places(base[n - 1].reading.len() as int).len() as int,
    );
    if i == n - 1 {
        let w = choose|w: int| 0 <= w < new.len() && new[w] == way;
        assert((before + new)[before.len() + w] == way);
    } else {
        lemma_all_splits_hold(d, base, n - 1, i, way);
        let w = choose|w: int| 0 <= w < before.len() && before[w] == way;
        assert((before + new)[w] == way);
    }
}

/// Where a segment falls into two words of two characters or more, the division with
/// the two in its place is an alternative, unless there are eight already.
pub proof fn law_splits_are_tried(d: Seq<EntryView>, base: Seq<SegmentView>, i: int, p: int)
    requires
        0 <= i < base.len(),
        2 <= p <= base[i].reading.len() - 2,
        dictionary::lookup_of(d, base[i].reading.take(p)).len() > 0,
        dictionary::lookup_of(d, base[i].reading.skip(p)).len() > 0,
    ensures
        ({
            let s = base[i];
            let left = SegmentView {
                reading: s.reading.take(p),
                start: s.start,
                len: p,
                candidates: dictionary::lookup_of(d, s.reading.take(p)),
            };
            let right = SegmentView {
                reading: s.reading.skip(p),
                start: s.start + p,
                len: s.reading.len() - p,
                candidates: dictionary::lookup_of(d, s.reading.skip(p)),
            };
            alternatives_of(d, base).contains(base.take(i) + seq![left, right] + base.skip(i + 1))
                || alternatives_of(d, base).len() == 8
        }),
{
    let n = base[i].reading.len() as int;
    let order = split_order(n);
    lemma_split_places(n, p);
    rank::lemma_ranking(closeness(n));
    let t = choose|t: int| 0 <= t < order.len() && order[t] == p;
    let way = split_at(d, base, i, p);
    lemma_splits_hold(d, base, i, split_places(n).len() as int, t);
    lemma_all_splits_hold(d, base, base.len() as int, i, way);
    let places = all_merge_places(d, base);
    let front = seq![base] + single_merges(d, base, places) + multi_merge(d, base, places);
    let splits = splits_before(d, base, base.len() as int);
    let w = choose|w: int| 0 <= w < splits.len() && splits[w] == way;
    assert(all_ways(d, base)[front.len() + w] == way);
    lemma_among_first(all_ways(d, base), way, front.len() + w);
}

/// Divisions near the middle are tried first.
pub proof fn law_middle_is_tried_first(n: int, p: int, q: int)
    requires
        2 <= p <= n - 2,
        2 <= q <= n - 2,
        ({
            let m = n / 2;
            let from_p = if p >= m {
                p - m
            } else {
                m - p
            };
            let from_q = if q >= m {
                q - m
            } else {
                m - q
            };
            from_p < from_q || (from_p == from_q && p < q)
        }),
    ensures
        rank::ahead(split_order(n), p, q),
{
    let places = split_places(n);
    let keys = closeness(n);
    assert(places[p - 2] == p);
    assert forall|j: int| 0 <= j < keys.len() && #[trigger] places[j] == q implies keys[j] < keys[p
        - 2] || (keys[j] == keys[p - 2] && p - 2 < j) by {
        assert(j == q - 2);
        assert(keys[j] == if q >= n / 2 {
            n / 2 - q
        } else {
            q - n / 2
        });
        assert(keys[p - 2] == if p >= n / 2 {
            n / 2 - p
        } else {
            p - n / 2
        });
    }
    rank::lemma_ranked_ahead(places, keys, p - 2, q);
}

/// Is the segment one of those given, or one for which the dictionary has words?
pub open spec fn known_or_given(d: Seq<EntryView>, base: Seq<SegmentView>, s: SegmentView) -> bool {
    base.contains(s) || (s.candidates == dictionary::lookup_of(d, s.reading)
        && s.candidates.len() > 0)
}

proof fn lemma_merged_known(d: Seq<EntryView>, base: Seq<SegmentView>, places: Seq<int>, i: int)
    requires
        0 <= i,
        forall|w: int|
            0 <= w < places.len() ==> makes_word(d, base, #[trigger] places[w]),
    ensures
        forall|k: int|
            0 <= k < merged_from(d, base, places, i).len() ==> known_or_given(
                d,
                base,
                #[trigger] merged_from(d, base, places, i)[k],
            ),
    decreases base.len() - i,
{
    if i < base.len() {
        let out = merged_from(d, base, places, i);
        if places.contains(i) && i + 1 < base.len() {
            lemma_merged_known(d, base, places, i + 2);
            let w = choose|w: int| 0 <= w < places.len() && places[w] == i;
            assert(makes_word(d, base, places[w]));
            let rest = merged_from(d, base, places, i + 2);
            assert forall|k: int| 0 <= k < out.len() implies known_or_given(
                d,
                base,
                #[trigger] out[k],
            ) by {
                if k > 0 {
                    assert(out[k] == rest[k - 1]);
                }
            }
        } else {
            lemma_merged_known(d, base, places, i + 1);
            let rest = merged_from(d, base, places, i + 1);
            assert forall|k: int| 0 <= k < out.len() implies known_or_given(
                d,
                base,
                #[trigger] out[k],
            ) by {
                if k > 0 {
                    assert(out[k] == rest[k - 1]);
                } else {
                    assert(base[i] == out[k]);
                }
            }
        }
    }
}

proof fn lemma_apart(places: Seq<int>)
    requires
        forall|x: int, y: int|
            0 <= x < y < places.len() ==> #[trigger] places[x] < #[trigger] places[y],
    ensures
        places.len() > 0 ==> apart(places).len() > 0 && apart(places)[0] == places[0]
            && apart(places).last() <= places.last(),
        forall|w: int| 0 <= w < apart(places).len() ==> places.contains(#[trigger] apart(places)[w]),
        forall|x: int, y: int|
            0 <= x < y < apart(places).len() ==> #[trigger] apart(places)[x] + 2
                <= #[trigger] apart(places)[y],
        forall|w: int|
            0 <= w < places.len() ==> apart(places).contains(#[trigger] places[w]) || apart(
                places,
            ).contains(places[w] - 1),
    decreases places.len(),
{
    if places.len() > 0 {
        let rest = places.drop_last();
        let last = places.last();
        assert forall|x: int, y: int| 0 <= x < y < rest.len() implies #[trigger] rest[x]
            < #[trigger] rest[y] by {
            assert(rest[x] == places[x] && rest[y] == places[y]);
        }
        lemma_apart(rest);
        let before = apart(rest);
        let out = apart(places);
        assert forall|w: int| 0 <= w < out.len() implies places.contains(#[trigger] out[w]) by {
            if w < before.len() {
                assert(out[w] == before[w]);
                let v = choose|v: int| 0 <= v < rest.len() && rest[v] == before[w];
                assert(places[v] == out[w]);
            } else {
                assert(places[places.len() - 1] == out[w]);
            }
        }
        if rest.len() > 0 {
            assert(rest[0] == places[0]);
            assert(rest.last() == places[places.len() - 2]);
            assert(rest.last() < places[places.len() - 1]);
        }
        assert forall|x: int, y: int| 0 <= x < y < out.len() implies #[trigger] out[x] + 2
            <= #[trigger] out[y] by {
            assert(out[x] == before[x]);
            if y < before.len() {
                assert(out[y] == before[y]);
            } else if x < before.len() - 1 {
                assert(before[x] + 2 <= before[before.len() - 1]);
            }
        }
        assert forall|w: int| 0 <= w < places.len() implies out.contains(#[trigger] places[w])
            || out.contains(places[w] - 1) by {
            if w < rest.len() {
                assert(rest[w] == places[w]);
                if before.contains(rest[w]) {
                    let v = choose|v: int| 0 <= v < before.len() && before[v] == rest[w];
                    assert(out[v] == places[w]);
                } else {
                    let v = choose|v: int| 0 <= v < before.len() && before[v] == rest[w] - 1;
                    assert(out[v] == places[w] - 1);
                }
            } else if before.len() > 0 && last <= before.last() + 1 {
                assert(out[out.len() - 1] == last - 1);
            } else {
                assert(out[out.len() - 1] == last);
            }
        }
    }
}

/// Of the places where neighbours make a word, the division that joins several takes
/// the first one and none that shares a segment with one taken before; every place is
/// taken or directly behind a taken one.
pub proof fn law_joined_pairs_stay_apart(places: Seq<int>, w: int)
    requires
        forall|x: int, y: int|
            0 <= x < y < places.len() ==> #[trigger] places[x] < #[trigger] places[y],
        0 <= w < places.len(),
    ensures
        apart(places)[0] == places[0],
        forall|x: int, y: int|
            0 <= x < y < apart(places).len() ==> #[trigger] apart(places)[x] + 2
                <= #[trigger] apart(places)[y],
        apart(places).contains(places[w]) || apart(places).contains(places[w] - 1),
        forall|x: int| 0 <= x < apart(places).len() ==> places.contains(#[trigger] apart(places)[x]),
{
    lemma_apart(places);
}

proof fn lemma_splits_known(d: Seq<EntryView>, base: Seq<SegmentView>, i: int, k: int)
    requires
        0 <= i < base.len(),
    ensures
        forall|x: int, y: int|
            0 <= x < splits_of(d, base, i, k).len() && 0 <= y < splits_of(d, base, i, k)[x].len()
                ==> known_or_given(d, base, #[trigger] splits_of(d, base, i, k)[x][y]),
    decreases k,
{
    if k > 0 {
        lemma_splits_known(d, base, i, k - 1);
        let before = splits_of(d, base, i, k - 1);
        let out = splits_of(d, base, i, k);
        let p = split_order(base[i].reading.len() as int)[k - 1];
        assert forall|x: int, y: int| 0 <= x < out.len() && 0 <= y < out[x].len() implies
            known_or_given(d, base, #[trigger] out[x][y]) by {
            if x < before.len() {
                assert(out[x] == before[x]);
                assert(known_or_given(d, base, before[x][y]));
            } else {
                let way = split_at(d, base, i, p);
                assert(out[x] == way);
                if y < i {
                    assert(way[y] == base[y]);
                } else if y > i + 1 {
                    assert(way[y] == base[y - 1]);
                }
            }
        }
    }
}

proof fn lemma_all_splits_known(d: Seq<EntryView>, base: Seq<SegmentView>, n: int)
    requires
        n <= base.len(),
    ensures
        forall|x: int, y: int|
            0 <= x < splits_before(d, base, n).len() && 0 <= y < splits_before(d, base, n)[x].len()
                ==> known_or_given(d, base, #[trigger] splits_before(d, base, n)[x][y]),
    decreases n,
{
    if n > 0 {
        lemma_all_splits_known(d, base, n - 1);
        let k = split_places(base[n - 1].reading.len() as int).len() as int;
        lemma_splits_known(d, base, n - 1, k);
        let before = splits_before(d, base, n - 1);
        let new = splits_of(d, base, n - 1, k);
        let out = splits_before(d, base, n);
        assert forall|x: int, y: int| 0 <= x < out.len() && 0 <= y < out[x].len() implies
            known_or_given(d, base, #[trigger] out[x][y]) by {
            if x < before.len() {
                assert(out[x] == before[x]);
                assert(known_or_given(d, base, before[x][y]));
            } else {
                assert(out[x] == new[x - before.len()]);
                assert(known_or_given(d, base, new[x - before.len()][y]));
            }
        }
    }
}

/// An alternative brings in nothing unknown: each of its segments is one of those given
/// or has words of the dictionary.
pub proof fn law_alternatives_are_known(d: Seq<EntryView>, base: Seq<SegmentView>, k: int, y: int)
    requires
        0 <= k < alternatives_of(d, base).len(),
        0 <= y < alternatives_of(d, base)[k].len(),
    ensures
        known_or_given(d, base, alternatives_of(d, base)[k][y]),
{
    let places = all_merge_places(d, base);
    let singles = single_merges(d, base, places);
    let multi = multi_merge(d, base, places);
    let splits = splits_before(d, base, base.len() as int);
    let all = all_ways(d, base);
    let way = alternatives_of(d, base)[k];
    assert(way == all[k]);
    lemma_places_fit(d, base, base.len() - 1);
    lemma_all_splits_known(d, base, base.len() as int);
    if k == 0 {
        assert(way == base);
        assert(base.contains(base[y]));
    } else if k <= singles.len() {
        assert(way == singles[k - 1]);
        let one = seq![places[k - 1]];
        assert(forall|w: int| 0 <= w < one.len() ==> makes_word(d, base, #[trigger] one[w]));
        lemma_merged_known(d, base, one, 0);
    } else if k <= singles.len() + multi.len() {
        assert(way == multi[k - 1 - singles.len()]);
        lemma_places_rise(d, base, base.len() - 1);
        lemma_apart(places);
        let some = apart(places);
        assert forall|w: int| 0 <= w < some.len() implies makes_word(
            d,
            base,
            #[trigger] some[w],
        ) by {
            assert(places.contains(some[w]));
            let v = choose|v: int| 0 <= v < places.len() && places[v] == some[w];
            assert(makes_word(d, base, places[v]));
        }
        lemma_merged_known(d, base, some, 0);
    } else {
        let x = k - 1 - singles.len() - multi.len();
        assert(way == splits[x]);
        assert(known_or_given(d, base, splits[x][y]));
    }
}

proof fn lemma_places_rise(d: Seq<EntryView>, base: Seq<SegmentView>, n: int)
    ensures
        forall|x: int, y: int|
            0 <= x < y < merge_places(d, base, n).len() ==> #[trigger] merge_places(d, base, n)[x]
                < #[trigger] merge_places(d, base, n)[y],
    decreases n,
{
    if n > 0 {
        lemma_places_rise(d, base, n - 1);
        lemma_places_fit(d, base, n - 1);
        let before = merge_places(d, base, n - 1);
        let out = merge_places(d, base, n);
        assert forall|x: int, y: int| 0 <= x < y < out.len() implies #[trigger] out[x]
            < #[trigger] out[y] by {
            assert(out[x] == before[x]);
            if y < before.len() {
                assert(out[y] == before[y]);
            }
        }
    }
}

/// A single segment has no alternatives.
pub proof fn law_single_segment_stays(d: Seq<EntryView>, base: Seq<SegmentView>)
    ensures
        base.len() <= 1 ==> planned(d, base) == seq![base],
        base.len() > 1 ==> planned(d, base) == alternatives_of(d, base),
{
}

/// How a division is rated: by the average over its characters of the logarithm of the
/// frequency of their word, less 1 for every fragment, less 0.3 of the connection costs
/// and less 0.5 for every segment. A word of frequency 0 puts it last.
pub proof fn law_division_is_rated(segs: Seq<SegmentView>, logs: NanoTable)
    requires
        segs.len() > 0,
    ensures
        (forall|i: int|
            0 <= i < segs.len() && (#[trigger] segs[i]).candidates.len() > 0
                ==> segs[i].candidates[0].frequency > 0) ==> heuristic(segs, logs)
            == weighted_logs(segs, logs) / entry::total_len(segs) - 1_000_000_000 * fragments(segs)
            - 300_000 * connections(segs) - 500_000_000 * segs.len(),
        (exists|i: int|
            0 <= i < segs.len() && (#[trigger] segs[i]).candidates.len() > 0
                && segs[i].candidates[0].frequency == 0) ==> heuristic(segs, logs)
            == -1_267_650_600_228_229_401_496_703_205_376,
{
    if exists|i: int|
        0 <= i < segs.len() && (#[trigger] segs[i]).candidates.len() > 0
            && segs[i].candidates[0].frequency == 0 {
        let i = choose|i: int|
            0 <= i < segs.len() && (#[trigger] segs[i]).candidates.len() > 0
                && segs[i].candidates[0].frequency == 0;
        assert(leading_frequency(segs[i]) == 0);
    }
}

/// What one more segment adds to the rating of a division. An unknown word counts with
/// frequency 100. A single character is a fragment unless its first word is a particle
/// or an auxiliary. Words connect across unknown segments.
pub proof fn law_segments_add_up(segs: Seq<SegmentView>, s: SegmentView, logs: NanoTable)
    ensures
        ({
            let more = segs.push(s);
            &&& weighted_logs(more, logs) == weighted_logs(segs, logs) + s.len * logs.at(
                if s.candidates.len() > 0 {
                    s.candidates[0].frequency as int
                } else {
                    100
                },
            )
            &&& fragments(more) == fragments(segs) + (if s.len == 1 && (s.candidates.len() == 0 || !(
            s.candidates[0].pos is Particle || s.candidates[0].pos is Auxiliary)) {
                1int
            } else {
                0int
            })
            &&& s.candidates.len() == 0 ==> connections(more) == connections(segs) && last_pos(more)
                == last_pos(segs)
            &&& s.candidates.len() > 0 ==> connections(more) == connections(segs) + pos::connection(
                last_pos(segs),
                s.candidates[0].pos,
            ) && last_pos(more) == Some(s.candidates[0].pos)
            &&& leading_texts(more) == leading_texts(segs) + (if s.candidates.len() > 0 {
                s.candidates[0].surface
            } else {
                s.reading
            })
        }),
        ({
            let none = Seq::<SegmentView>::empty();
            weighted_logs(none, logs) == 0 && fragments(none) == 0 && connections(none) == 0
                && last_pos(none) is None && leading_texts(none).len() == 0
        }),
{
    assert(segs.push(s).drop_last() =~= segs);
}

/// The best alternative is rated highest, the first of those rated so.
pub proof fn law_best_is_rated_highest(alts: Seq<Seq<SegmentView>>, logs: NanoTable, k: int)
    requires
        0 <= k < alts.len(),
    ensures
        ({
            let best = best_of(alts, logs);
            &&& 0 <= best < alts.len()
            &&& heuristic(alts[best], logs) >= heuristic(alts[k], logs)
            &&& heuristic(alts[best], logs) == heuristic(alts[k], logs) ==> best <= k
        }),
{
    let keys = scores_of(alts, logs);
    let order = rank::ranking(keys);
    rank::lemma_ranking(keys);
    assert(order.contains(k));
    let q = choose|q: int| 0 <= q < order.len() && order[q] == k;
    if q > 0 {
        assert(rank::ranks_before(keys, order[0], order[q]));
    }
}

/// The model can overrule the rating: where another division is rated best and the
/// model prefers the given one by more than 0.15, the given one stays. In all other
/// cases the best one is taken.
pub proof fn law_model_may_overrule(
    alts: Seq<Seq<SegmentView>>,
    best: int,
    verdict: Option<(i64, i64)>,
)
    ensures
        best != 0 && (verdict matches Some(s) && s.0 - s.1 > 150_000_000) ==> settled(
            alts,
            best,
            verdict,
        ) == alts[0],
        best == 0 || verdict is None || (verdict matches Some(s) && s.0 - s.1 <= 150_000_000)
            ==> settled(alts, best, verdict) == alts[best],
{
}

proof fn lemma_merged_len(
    d: Seq<EntryView>,
    base: Seq<SegmentView>,
    some: Seq<int>,
    i: int,
    p: int,
)
    requires
        0 <= i <= base.len(),
        0 <= p <= some.len(),
        forall|x: int, y: int|
            0 <= x < y < some.len() ==> #[trigger] some[x] + 2 <= #[trigger] some[y],
        forall|w: int| 0 <= w < some.len() ==> 0 <= #[trigger] some[w] < base.len() - 1,
        forall|w: int| 0 <= w < p ==> #[trigger] some[w] + 2 <= i,
        forall|w: int| p <= w < some.len() ==> #[trigger] some[w] >= i,
    ensures
        merged_from(d, base, some, i).len() == base.len() - i - (some.len() - p),
    decreases base.len() - i,
{
    if i < base.len() {
        if p < some.len() && some[p] == i {
            assert(some.contains(i));
            assert forall|w: int| p + 1 <= w < some.len() implies #[trigger] some[w] >= i + 2 by {
                assert(some[p] + 2 <= some[w]);
            }
            assert forall|w: int| 0 <= w < p + 1 implies #[trigger] some[w] + 2 <= i + 2 by {}
            lemma_merged_len(d, base, some, i + 2, p + 1);
        } else {
            assert(!some.contains(i)) by {
                if some.contains(i) {
                    let w = choose|w: int| 0 <= w < some.len() && some[w] == i;
                    if w > p {
                        assert(some[p] + 2 <= some[w]);
                    }
                }
            }
            assert forall|w: int| p <= w < some.len() implies #[trigger] some[w] >= i + 1 by {
                assert(some.contains(some[w]));
            }
            lemma_merged_len(d, base, some, i + 1, p);
        }
    } else if p < some.len() {
        assert(some[p] < base.len() - 1);
    }
}

/// Where two pairs of neighbours that share no segment make words, a division that joins
/// two pairs or more is an alternative, unless there are eight already.
pub proof fn law_several_merges_are_tried(d: Seq<EntryView>, base: Seq<SegmentView>, i: int, j: int)
    requires
        0 <= i,
        i + 2 <= j,
        j + 1 < base.len(),
        dictionary::lookup_of(d, base[i].reading + base[i + 1].reading).len() > 0,
        dictionary::lookup_of(d, base[j].reading + base[j + 1].reading).len() > 0,
    ensures
        alternatives_of(d, base).len() == 8 || exists|k: int|
            0 <= k < alternatives_of(d, base).len() && (#[trigger] alternatives_of(
                d,
                base,
            )[k]).len() <= base.len() - 2,
{
    let n = base.len() - 1;
    let places = all_merge_places(d, base);
    let some = apart(places);
    lemma_places_hold(d, base, n, i);
    lemma_places_hold(d, base, n, j);
    lemma_places_rise(d, base, n);
    lemma_places_fit(d, base, n);
    lemma_apart(places);
    let a = choose|w: int| 0 <= w < places.len() && places[w] == i;
    let b = choose|w: int| 0 <= w < places.len() && places[w] == j;
    assert(some.contains(places[a]) || some.contains(places[a] - 1));
    assert(some.contains(places[b]) || some.contains(places[b] - 1));
    let x = choose|w: int| 0 <= w < some.len() && (some[w] == i || some[w] == i - 1);
    let y = choose|w: int| 0 <= w < some.len() && (some[w] == j || some[w] == j - 1);
    assert(some[x] < some[y]);
    assert(some.len() >= 2);
    assert forall|w: int| 0 <= w < some.len() implies 0 <= #[trigger] some[w] < base.len() - 1 by {
        assert(places.contains(some[w]));
        let v = choose|v: int| 0 <= v < places.len() && places[v] == some[w];
        assert(0 <= places[v] < n);
    }
    lemma_merged_len(d, base, some, 0, 0);
    let way = merged_from(d, base, some, 0);
    let singles = single_merges(d, base, places);
    let at = 1 + singles.len();
    assert(all_ways(d, base)[at as int] == way);
    lemma_among_first(all_ways(d, base), way, at as int);
    if alternatives_of(d, base).contains(way) {
        let k = choose|k: int|
            0 <= k < alternatives_of(d, base).len() && alternatives_of(d, base)[k] == way;
        assert(alternatives_of(d, base)[k].len() <= base.len() - 2);
    }
}

} // verus!
