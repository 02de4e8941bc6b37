//! Segmentation of a reading: words along the cheapest path, then units.
use vstd::prelude::*;

use crate::dictionary;
use crate::dictionary::Dictionary;
use crate::entry;
use crate::entry::{DictionaryEntry, EntryView, Segment, SegmentView};
use crate::lattice;
use crate::merge;
use crate::nano::NanoTable;
use crate::pos::PartOfSpeech;
use crate::rank;
use crate::rank::order_desc;
use crate::segmenter;
use crate::segmenter::{words_along_cheapest_path, NoBoost, SegmentBoost};
use crate::text::{chars_of, joined};

verus! {

/// How many candidates of each piece take part when a unit is spelled out.
pub const PIECE_CANDIDATES: usize = 3;

/// How many spellings of a unit are kept.
pub const UNIT_SPELLINGS: usize = 12;

/// The segmentation of `input`.
pub open spec fn segmentation(
    d: Seq<EntryView>,
    logs: NanoTable,
    bonus: segmenter::Bonus,
    input: Seq<char>,
) -> Seq<SegmentView> {
    merge::joined_from(d, merge::split_heads(d, segmenter::split_words(d, logs, bonus, input)), 0)
}

proof fn lemma_words_tile(
    d: Seq<EntryView>,
    logs: NanoTable,
    bonus: segmenter::Bonus,
    input: Seq<char>,
)
    ensures
        entry::tiles(segmenter::split_words(d, logs, bonus, input), input, 0),
{
    let w = segmenter::word_lattice(d, logs, bonus, input);
    let path = lattice::best_path(w, input.len() as int);
    let segs = segmenter::split_words(d, logs, bonus, input);
    lattice::law_path_is_chain(w, input.len() as int);
    assert forall|k: int| 0 <= k < segs.len() implies {
        &&& (#[trigger] segs[k]).len >= 1
        &&& 0 <= segs[k].start
        &&& segs[k].start + segs[k].len <= input.len()
        &&& segs[k].reading == input.subrange(segs[k].start - 0, segs[k].start - 0 + segs[k].len)
    } by {
        assert(0 <= path[k].0 < path[k].1 <= input.len());
    }
    assert forall|k: int, m: int| 0 <= k < segs.len() && m == k + 1 && m < segs.len() implies (
    #[trigger] segs[m]).start == (#[trigger] segs[k]).start + segs[k].len by {
        assert(path[k].1 == path[m].0);
    }
    if segs.len() > 0 {
        assert(segs.last() == segmenter::segment_at(d, input, path.last()));
    }
}

proof fn lemma_front_tiles(segs: Seq<SegmentView>, input: Seq<char>, base: int)
    requires
        entry::tiles(segs, input, base),
        segs.len() > 0,
    ensures
        base <= segs.last().start <= base + input.len(),
        entry::tiles(segs.drop_last(), input.take(segs.last().start - base), base),
        entry::tiles(
            seq![segs.last()],
            input.skip(segs.last().start - base),
            segs.last().start,
        ),
{
    let last = segs[segs.len() - 1];
    let rest = segs.drop_last();
    let cut = last.start - base;
    let front = input.take(cut);
    assert forall|k: int| 0 <= k < rest.len() implies {
        &&& (#[trigger] rest[k]).len >= 1
        &&& base <= rest[k].start
        &&& rest[k].start + rest[k].len <= base + front.len()
        &&& rest[k].reading == front.subrange(
            rest[k].start - base,
            rest[k].start - base + rest[k].len,
        )
    } by {
        assert(rest[k] == segs[k]);
        entry::lemma_before(segs, input, base, k, segs.len() - 1);
        assert(rest[k].reading =~= front.subrange(
            rest[k].start - base,
            rest[k].start - base + rest[k].len,
        ));
    }
    assert forall|k: int, m: int| 0 <= k < rest.len() && m == k + 1 && m < rest.len() implies (
    #[trigger] rest[m]).start == (#[trigger] rest[k]).start + rest[k].len by {
        assert(rest[k] == segs[k] && rest[m] == segs[m]);
    }
    if rest.len() > 0 {
        assert(rest[0] == segs[0]);
        assert(rest.last() == segs[segs.len() - 2]);
    }
    let tail = input.skip(cut);
    let one = seq![last];
    assert(one[0].reading =~= tail.subrange(0, one[0].len));
    assert(one.last() == last);
}

proof fn lemma_split_heads_tile(
    d: Seq<EntryView>,
    segs: Seq<SegmentView>,
    input: Seq<char>,
    base: int,
)
    requires
        entry::tiles(segs, input, base),
    ensures
        entry::tiles(merge::split_heads(d, segs), input, base),
    decreases segs.len(),
{
    if segs.len() > 0 {
        let last = segs.last();
        let cut = last.start - base;
        lemma_front_tiles(segs, input, base);
        lemma_split_heads_tile(d, segs.drop_last(), input.take(cut), base);
        let tail = input.skip(cut);
        let parts = merge::split_head(d, last);
        assert(entry::tiles(parts, tail, last.start)) by {
            let one = seq![last];
            assert(one[0].reading == tail.subrange(0, one[0].len));
            assert(one.last() == last);
            assert(last.reading =~= tail);
            if merge::hides_particle(d, last) {
                assert(parts[0].reading =~= tail.subrange(0, 1));
                assert(parts[1].reading =~= tail.subrange(1, 2));
                assert(parts.last() == parts[1]);
            }
        }
        entry::lemma_tiles_add(
            merge::split_heads(d, segs.drop_last()),
            input.take(cut),
            parts,
            tail,
            base,
        );
        assert(input.take(cut) + tail =~= input);
    }
}

proof fn lemma_pair_tiles(
    d: Seq<EntryView>,
    segs: Seq<SegmentView>,
    i: int,
    input: Seq<char>,
    base: int,
)
    requires
        entry::tiles(segs, input, base),
        0 <= i,
        i + 1 < segs.len(),
        merge::joined_pair(d, segs[i], segs[i + 1]) is Some,
    ensures
        entry::tiles(
            segs.remove(i + 1).update(i, merge::joined_pair(d, segs[i], segs[i + 1])->0),
            input,
            base,
        ),
{
    let m = merge::joined_pair(d, segs[i], segs[i + 1])->0;
    let next = segs.remove(i + 1).update(i, m);
    assert(segs[i + 1].start == segs[i].start + segs[i].len);
    assert(m.reading =~= input.subrange(m.start - base, m.start - base + m.len));
    assert forall|k: int| 0 <= k < next.len() implies {
        &&& (#[trigger] next[k]).len >= 1
        &&& base <= next[k].start
        &&& next[k].start + next[k].len <= base + input.len()
        &&& next[k].reading == input.subrange(
            next[k].start - base,
            next[k].start - base + next[k].len,
        )
    } by {
        if k < i {
            assert(next[k] == segs[k]);
        } else if k > i {
            assert(next[k] == segs[k + 1]);
        }
    }
    assert forall|k: int, l: int|
        0 <= k < next.len() && l == k + 1 && l < next.len() implies (
    #[trigger] next[l]).start == (#[trigger] next[k]).start + next[k].len by {
        if l < i {
            assert(next[k] == segs[k] && next[l] == segs[l]);
        } else if l == i {
            assert(next[k] == segs[k]);
            assert(segs[l].start == segs[k].start + segs[k].len);
        } else if k == i {
            assert(next[l] == segs[l + 1]);
            assert(segs[i + 2].start == segs[i + 1].start + segs[i + 1].len);
        } else {
            assert(next[k] == segs[k + 1] && next[l] == segs[l + 1]);
        }
    }
    if i == 0 {
        assert(next[0] == m);
    } else {
        assert(next[0] == segs[0]);
    }
    if i + 2 == segs.len() {
        assert(next.last() == m);
        assert(segs.last() == segs[i + 1]);
    } else {
        assert(next.last() == segs.last());
    }
}

proof fn lemma_joined_tile(
    d: Seq<EntryView>,
    segs: Seq<SegmentView>,
    i: int,
    input: Seq<char>,
    base: int,
)
    requires
        entry::tiles(segs, input, base),
    ensures
        entry::tiles(merge::joined_from(d, segs, i), input, base),
    decreases segs.len() - i,
{
    if i < 0 || i + 1 >= segs.len() {
    } else {
        match merge::joined_pair(d, segs[i], segs[i + 1]) {
            None => {
                lemma_joined_tile(d, segs, i + 1, input, base);
            },
            Some(m) => {
                let next = segs.remove(i + 1).update(i, m);
                lemma_pair_tiles(d, segs, i, input, base);
                lemma_joined_tile(d, next, i, input, base);
            },
        }
    }
}

/// Is there one segment that holds all from position `from` up to position `to`?
pub open spec fn lies_in_one(segs: Seq<SegmentView>, from: int, to: int) -> bool {
    exists|j: int|
        0 <= j < segs.len() && (#[trigger] segs[j]).start <= from && to <= segs[j].start
            + segs[j].len
}

proof fn lemma_joining_keeps_whole(
    d: Seq<EntryView>,
    segs: Seq<SegmentView>,
    i: int,
    input: Seq<char>,
    base: int,
    from: int,
    to: int,
)
    requires
        entry::tiles(segs, input, base),
        lies_in_one(segs, from, to),
    ensures
        lies_in_one(merge::joined_from(d, segs, i), from, to),
    decreases segs.len() - i,
{
    if i < 0 || i + 1 >= segs.len() {
    } else {
        match merge::joined_pair(d, segs[i], segs[i + 1]) {
            None => {
                lemma_joining_keeps_whole(d, segs, i + 1, input, base, from, to);
            },
            Some(m) => {
                let next = segs.remove(i + 1).update(i, m);
                lemma_pair_tiles(d, segs, i, input, base);
                let j = choose|j: int|
                    0 <= j < segs.len() && (#[trigger] segs[j]).start <= from && to <= segs[j].start
                        + segs[j].len;
                assert(segs[i + 1].start == segs[i].start + segs[i].len);
                if j < i {
                    assert(next[j] == segs[j]);
                } else if j <= i + 1 {
                    assert(next[i] == m);
                } else {
                    assert(next[j - 1] == segs[j]);
                }
                lemma_joining_keeps_whole(d, next, i, input, base, from, to);
            },
        }
    }
}

proof fn lemma_taken_together(
    d: Seq<EntryView>,
    segs: Seq<SegmentView>,
    i: int,
    k: int,
    input: Seq<char>,
    base: int,
)
    requires
        entry::tiles(segs, input, base),
        0 <= i <= k,
        k + 1 < segs.len(),
        forall|a: SegmentView| (#[trigger] merge::joined_pair(d, a, segs[k])) is None,
        merge::joined_pair(d, segs[k], segs[k + 1]) is Some,
    ensures
        lies_in_one(
            merge::joined_from(d, segs, i),
            segs[k].start,
            segs[k + 1].start + segs[k + 1].len,
        ),
    decreases segs.len() - i,
{
    match merge::joined_pair(d, segs[i], segs[i + 1]) {
        None => {
            lemma_taken_together(d, segs, i + 1, k, input, base);
        },
        Some(m) => {
            let next = segs.remove(i + 1).update(i, m);
            lemma_pair_tiles(d, segs, i, input, base);
            if i == k {
                assert(segs[k + 1].start == segs[k].start + segs[k].len);
                assert(next[k] == m);
                assert(lies_in_one(next, segs[k].start, segs[k + 1].start + segs[k + 1].len));
                lemma_joining_keeps_whole(
                    d,
                    next,
                    i,
                    input,
                    base,
                    segs[k].start,
                    segs[k + 1].start + segs[k + 1].len,
                );
            } else {
                assert(i + 1 != k);
                assert(next[k - 1] == segs[k] && next[k] == segs[k + 1]);
                lemma_taken_together(d, next, i, k - 1, input, base);
            }
        },
    }
}

/// Does a segment start at position `at`?
pub open spec fn starts_at(segs: Seq<SegmentView>, at: int) -> bool {
    exists|j: int| 0 <= j < segs.len() && (#[trigger] segs[j]).start == at
}

proof fn lemma_begins(
    d: Seq<EntryView>,
    segs: Seq<SegmentView>,
    i: int,
    k: int,
    input: Seq<char>,
    base: int,
)
    requires
        entry::tiles(segs, input, base),
        0 <= k < segs.len(),
        k <= i || forall|a: SegmentView| (#[trigger] merge::joined_pair(d, a, segs[k])) is None,
    ensures
        starts_at(merge::joined_from(d, segs, i), segs[k].start),
    decreases segs.len() - i,
{
    if i < 0 || i + 1 >= segs.len() {
        assert(merge::joined_from(d, segs, i)[k].start == segs[k].start);
    } else {
        match merge::joined_pair(d, segs[i], segs[i + 1]) {
            None => {
                lemma_begins(d, segs, i + 1, k, input, base);
            },
            Some(m) => {
                let next = segs.remove(i + 1).update(i, m);
                lemma_pair_tiles(d, segs, i, input, base);
                if k < i {
                    assert(next[k] == segs[k]);
                    lemma_begins(d, next, i, k, input, base);
                } else if k == i {
                    assert(next[i] == m);
                    lemma_begins(d, next, i, i, input, base);
                } else {
                    assert(k != i + 1);
                    assert(next[k - 1] == segs[k]);
                    lemma_begins(d, next, i, k - 1, input, base);
                }
            },
        }
    }
}

/// Joining takes no word apart: every word lies in one segment.
pub proof fn law_joining_keeps_words_whole(
    d: Seq<EntryView>,
    segs: Seq<SegmentView>,
    k: int,
    input: Seq<char>,
    base: int,
)
    requires
        entry::tiles(segs, input, base),
        0 <= k < segs.len(),
    ensures
        lies_in_one(merge::joined_from(d, segs, 0), segs[k].start, segs[k].start + segs[k].len),
{
    lemma_joining_keeps_whole(
        d,
        segs,
        0,
        input,
        base,
        segs[k].start,
        segs[k].start + segs[k].len,
    );
}

/// A verb keeps the auxiliary behind it: wherever the words hold one whose strongest
/// candidate is a verb directly before one whose strongest candidate is an auxiliary,
/// both end up in the same segment.
pub proof fn law_verb_keeps_its_auxiliary(
    d: Seq<EntryView>,
    segs: Seq<SegmentView>,
    k: int,
    input: Seq<char>,
    base: int,
)
    requires
        entry::tiles(segs, input, base),
        0 <= k,
        k + 1 < segs.len(),
        merge::dominant_pos_of(segs[k].candidates) == Some(PartOfSpeech::Verb),
        merge::dominant_pos_of(segs[k + 1].candidates) == Some(PartOfSpeech::Auxiliary),
    ensures
        lies_in_one(
            merge::joined_from(d, segs, 0),
            segs[k].start,
            segs[k + 1].start + segs[k + 1].len,
        ),
{
    lemma_taken_together(d, segs, 0, k, input, base);
}

/// A prefix keeps the noun or suffix behind it, wherever it stands.
pub proof fn law_prefix_keeps_its_noun(
    d: Seq<EntryView>,
    segs: Seq<SegmentView>,
    k: int,
    input: Seq<char>,
    base: int,
)
    requires
        entry::tiles(segs, input, base),
        0 <= k,
        k + 1 < segs.len(),
        merge::dominant_pos_of(segs[k].candidates) == Some(PartOfSpeech::Prefix),
        merge::dominant_pos_of(segs[k + 1].candidates) == Some(PartOfSpeech::Noun)
            || merge::dominant_pos_of(segs[k + 1].candidates) == Some(PartOfSpeech::Suffix),
    ensures
        lies_in_one(
            merge::joined_from(d, segs, 0),
            segs[k].start,
            segs[k + 1].start + segs[k + 1].len,
        ),
{
    lemma_taken_together(d, segs, 0, k, input, base);
}

/// A noun at the beginning keeps the particle or conjunction behind it.
pub proof fn law_noun_keeps_its_particle(
    d: Seq<EntryView>,
    segs: Seq<SegmentView>,
    input: Seq<char>,
    base: int,
)
    requires
        entry::tiles(segs, input, base),
        segs.len() >= 2,
        merge::dominant_pos_of(segs[0].candidates) == Some(PartOfSpeech::Noun),
        merge::dominant_pos_of(segs[1].candidates) == Some(PartOfSpeech::Particle)
            || merge::dominant_pos_of(segs[1].candidates) == Some(PartOfSpeech::Conjunction),
    ensures
        lies_in_one(
            merge::joined_from(d, segs, 0),
            segs[0].start,
            segs[1].start + segs[1].len,
        ),
{
    let m = merge::joined_pair(d, segs[0], segs[1])->0;
    let next = segs.remove(1).update(0, m);
    assert(merge::joined_pair(d, segs[0], segs[1]) is Some);
    lemma_pair_tiles(d, segs, 0, input, base);
    assert(segs[1].start == segs[0].start + segs[0].len);
    assert(next[0] == m);
    assert(lies_in_one(next, segs[0].start, segs[1].start + segs[1].len));
    lemma_joining_keeps_whole(
        d,
        next,
        0,
        input,
        base,
        segs[0].start,
        segs[1].start + segs[1].len,
    );
}

/// A verb, an adjective, an adverb, an interjection, a prefix and a word of no known
/// kind begin a segment of their own.
pub proof fn law_independent_words_begin_segments(
    d: Seq<EntryView>,
    segs: Seq<SegmentView>,
    k: int,
    input: Seq<char>,
    base: int,
)
    requires
        entry::tiles(segs, input, base),
        0 <= k < segs.len(),
        ({
            let p = merge::dominant_pos_of(segs[k].candidates);
            p is None || p->0 is Verb || p->0 is Adjective || p->0 is Adverb
                || p->0 is Interjection || p->0 is Prefix || p->0 is Other
        }),
    ensures
        starts_at(merge::joined_from(d, segs, 0), segs[k].start),
{
    lemma_begins(d, segs, 0, k, input, base);
}

/// The same for a whole reading: of the words along the cheapest path, with hidden
/// particles taken out, a verb and the auxiliary behind it are in one segment.
pub proof fn law_segmentation_keeps_verb_and_auxiliary(
    d: Seq<EntryView>,
    logs: NanoTable,
    bonus: segmenter::Bonus,
    input: Seq<char>,
    k: int,
)
    requires
        ({
            let words = merge::split_heads(d, segmenter::split_words(d, logs, bonus, input));
            &&& 0 <= k
            &&& k + 1 < words.len()
            &&& merge::dominant_pos_of(words[k].candidates) == Some(PartOfSpeech::Verb)
            &&& merge::dominant_pos_of(words[k + 1].candidates) == Some(PartOfSpeech::Auxiliary)
        }),
    ensures
        ({
            let words = merge::split_heads(d, segmenter::split_words(d, logs, bonus, input));
            lies_in_one(
                segmentation(d, logs, bonus, input),
                words[k].start,
                words[k + 1].start + words[k + 1].len,
            )
        }),
{
    let words = segmenter::split_words(d, logs, bonus, input);
    lemma_words_tile(d, logs, bonus, input);
    lemma_split_heads_tile(d, words, input, 0);
    law_verb_keeps_its_auxiliary(d, merge::split_heads(d, words), k, input, 0);
}

/// Whatever the dictionary, the table of logarithms and the bonuses, the
/// segments cover the reading from its first to its last character without gap
/// or overlap.
pub proof fn law_segmentation_tiles(
    d: Seq<EntryView>,
    logs: NanoTable,
    bonus: segmenter::Bonus,
    input: Seq<char>,
)
    ensures
        entry::tiles(segmentation(d, logs, bonus, input), input, 0),
        entry::joined_readings(segmentation(d, logs, bonus, input)) == input,
{
    let words = segmenter::split_words(d, logs, bonus, input);
    lemma_words_tile(d, logs, bonus, input);
    lemma_split_heads_tile(d, words, input, 0);
    lemma_joined_tile(d, merge::split_heads(d, words), 0, input, 0);
    entry::law_tiles_spell_input(segmentation(d, logs, bonus, input), input, 0);
}

/// A spelling of the first pieces of a unit and the frequency of its rarest
/// word.
pub type Spelling = (Seq<char>, u32);

/// The spelling continued by a word.
pub open spec fn continued(s: Spelling, e: EntryView) -> Spelling {
    (
        s.0 + e.surface,
        if s.1 <= e.frequency {
            s.1
        } else {
            e.frequency
        },
    )
}

/// The spelling continued by each of `words`.
pub open spec fn continued_by(s: Spelling, words: Seq<EntryView>) -> Seq<Spelling> {
    words.map_values(|e: EntryView| continued(s, e))
}

/// Each spelling continued by each of `words`.
pub open spec fn all_continued(spellings: Seq<Spelling>, words: Seq<EntryView>) -> Seq<Spelling>
    decreases spellings.len(),
{
    if spellings.len() == 0 {
        Seq::empty()
    } else {
        all_continued(spellings.drop_last(), words) + continued_by(spellings.last(), words)
    }
}

/// The spellings continued by one more piece: by its leading candidates, or by
/// its kana where it has none.
pub open spec fn with_piece(spellings: Seq<Spelling>, seg: SegmentView) -> Seq<Spelling> {
    if seg.candidates.len() == 0 {
        spellings.map_values(|s: Spelling| (s.0 + seg.reading, s.1))
    } else {
        all_continued(spellings, merge::first(seg.candidates, 3))
    }
}

/// The best spellings: by descending frequency, ties in order, twelve at most.
pub open spec fn best_spellings(spellings: Seq<Spelling>) -> Seq<Spelling> {
    merge::first(
        rank::taken(spellings, rank::ranking(spellings.map_values(|s: Spelling| s.1 as int))),
        12,
    )
}

/// The spellings of a sequence of pieces.
pub open spec fn spellings_of(segs: Seq<SegmentView>) -> Seq<Spelling>
    decreases segs.len(),
{
    if segs.len() == 0 {
        seq![(Seq::<char>::empty(), u32::MAX)]
    } else {
        best_spellings(with_piece(spellings_of(segs.drop_last()), segs.last()))
    }
}

/// A spelling as an entry for the whole unit.
pub open spec fn spelled_entry(reading: Seq<char>, s: Spelling) -> EntryView {
    EntryView { reading, surface: s.0, pos: PartOfSpeech::Other, frequency: s.1 }
}

/// The candidates for a reading that has to stay in one unit: the dictionary's
/// words for it, or else the spellings of its pieces. There are none when the
/// reading is a single piece that the dictionary does not know.
pub open spec fn unit_candidates(d: Seq<EntryView>, logs: NanoTable, reading: Seq<char>) -> Seq<
    EntryView,
> {
    let own = dictionary::lookup_of(d, reading);
    let pieces = segmentation(d, logs, segmenter::no_bonus(), reading);
    if own.len() > 0 || pieces.len() < 2 {
        own
    } else {
        spellings_of(pieces).map_values(|s: Spelling| spelled_entry(reading, s))
    }
}

/// A spelling in the making.
struct Draft {
    surface: String,
    frequency: u32,
}

spec fn draft_views(drafts: Seq<Draft>) -> Seq<Spelling> {
    drafts.map_values(|d: Draft| (d.surface@, d.frequency))
}

/// The drafts continued by one more piece.
fn drafts_with(drafts: &Vec<Draft>, seg: &Segment) -> (out: Vec<Draft>)
    ensures
        draft_views(out@) == with_piece(draft_views(drafts@), seg@),
{
    let ghost dv = draft_views(drafts@);
    let ghost words = merge::first(seg@.candidates, 3);
    let mut out: Vec<Draft> = Vec::new();
    let mut i: usize = 0;
    if seg.candidates.len() == 0 {
        while i < drafts.len()
            invariant
                i <= drafts@.len(),
                dv == draft_views(drafts@),
                out@.len() == i,
                forall|k: int|
                    0 <= k < i ==> (#[trigger] out@[k]).surface@ == drafts@[k].surface@
                        + seg.reading@ && out@[k].frequency == drafts@[k].frequency,
            decreases drafts@.len() - i,
        {
            out.push(
                Draft {
                    surface: joined(drafts[i].surface.as_str(), seg.reading.as_str()),
                    frequency: drafts[i].frequency,
                },
            );
            i = i + 1;
        }
        assert(draft_views(out@) =~= with_piece(dv, seg@));
        return out;
    }
    let count: usize = if seg.candidates.len() < PIECE_CANDIDATES {
        seg.candidates.len()
    } else {
        PIECE_CANDIDATES
    };
    assert(words.len() == count);
    assert(draft_views(out@) =~= all_continued(dv.take(0), words));
    while i < drafts.len()
        invariant
            i <= drafts@.len(),
            dv == draft_views(drafts@),
            words == merge::first(seg@.candidates, 3),
            words.len() == count,
            count <= seg.candidates@.len(),
            draft_views(out@) == all_continued(dv.take(i as int), words),
        decreases drafts@.len() - i,
    {
        let ghost done = draft_views(out@);
        let ghost row = continued_by(dv[i as int], words);
        let mut j: usize = 0;
        assert(done + row.take(0) =~= done);
        while j < count
            invariant
                i < drafts@.len(),
                j <= count,
                dv == draft_views(drafts@),
                words == merge::first(seg@.candidates, 3),
                words.len() == count,
                count <= seg.candidates@.len(),
                row == continued_by(dv[i as int], words),
                draft_views(out@) == done + row.take(j as int),
            decreases count - j,
        {
            let ghost before = out@;
            let f: u32 = if drafts[i].frequency <= seg.candidates[j].frequency {
                drafts[i].frequency
            } else {
                seg.candidates[j].frequency
            };
            let next: Draft = Draft {
                surface: joined(drafts[i].surface.as_str(), seg.candidates[j].surface.as_str()),
                frequency: f,
            };
            proof {
                assert(words[j as int] == seg.candidates@[j as int]@);
                assert(dv[i as int] == (drafts@[i as int].surface@, drafts@[i as int].frequency));
                assert((next.surface@, next.frequency) == row[j as int]);
            }
            out.push(next);
            j = j + 1;
            assert(draft_views(out@) =~= draft_views(before).push(row[j - 1]));
            assert(draft_views(out@) =~= done + row.take(j as int));
        }
        proof {
            assert(row.take(j as int) =~= row);
            assert(dv.take(i + 1).drop_last() =~= dv.take(i as int));
            assert(dv.take(i + 1).last() == dv[i as int]);
        }
        i = i + 1;
    }
    assert(dv.take(i as int) =~= dv);
    out
}

/// The best drafts.
fn best_drafts(drafts: &Vec<Draft>) -> (out: Vec<Draft>)
    ensures
        draft_views(out@) == best_spellings(draft_views(drafts@)),
{
    let ghost dv = draft_views(drafts@);
    let ghost want = dv.map_values(|s: Spelling| s.1 as int);
    let mut keys: Vec<i128> = Vec::new();
    let mut i: usize = 0;
    while i < drafts.len()
        invariant
            i <= drafts@.len(),
            keys@.len() == i,
            forall|j: int| 0 <= j < i ==> (#[trigger] keys@[j]) == drafts@[j].frequency,
        decreases drafts@.len() - i,
    {
        keys.push(drafts[i].frequency as i128);
        i = i + 1;
    }
    assert(keys@.map_values(|k: i128| k as int) =~= want);
    let order: Vec<usize> = order_desc(&keys);
    let ghost ints = order@.map_values(|k: usize| k as int);
    let mut out: Vec<Draft> = Vec::new();
    let mut j: usize = 0;
    while j < order.len() && j < UNIT_SPELLINGS
        invariant
            j <= order@.len(),
            j <= UNIT_SPELLINGS,
            order@.len() == drafts@.len(),
            out@.len() == j,
            forall|m: int| 0 <= m < order@.len() ==> (#[trigger] order@[m]) < drafts@.len(),
            forall|m: int|
                0 <= m < j ==> (#[trigger] out@[m]).surface@ == drafts@[order@[m] as int].surface@
                    && out@[m].frequency == drafts@[order@[m] as int].frequency,
        decreases order@.len() - j,
    {
        out.push(
            Draft {
                surface: drafts[order[j]].surface.clone(),
                frequency: drafts[order[j]].frequency,
            },
        );
        j = j + 1;
    }
    proof {
        let sorted = rank::taken(dv, rank::ranking(want));
        assert forall|m: int| 0 <= m < out@.len() implies draft_views(out@)[m] == sorted[m] by {
            assert(ints[m] == rank::ranking(want)[m]);
            assert(ints[m] == order@[m] as int);
        }
        assert(sorted.len() == drafts@.len());
        assert(draft_views(out@) =~= merge::first(sorted, 12));
    }
    out
}

impl Dictionary {
    /// Splits a reading into segments, with bonuses for words that the user
    /// prefers.
    pub fn segment_with_boost<B: SegmentBoost>(&self, input: &str, boost: &B) -> (segs: Vec<
        Segment,
    >)
        requires
            self.wf(),
            boost.ready(),
        ensures
            entry::segment_views(segs@) == segmentation(
                self@,
                self.log_table(),
                segmenter::bonus_of(*boost),
                input@,
            ),
            entry::tiles(entry::segment_views(segs@), input@, 0),
    {
        let chars: Vec<char> = chars_of(input);
        let count: usize = chars.len();
        let ghost bonus = segmenter::bonus_of(*boost);
        let words: Vec<Segment> = words_along_cheapest_path(self, boost, &chars);
        let ghost wv = entry::segment_views(words@);
        proof {
            lemma_words_tile(self@, self.log_table(), bonus, input@);
            lemma_split_heads_tile(self@, wv, input@, 0);
            law_segmentation_tiles(self@, self.log_table(), bonus, input@);
            assert forall|i: int| 0 <= i < words@.len() implies (#[trigger] words@[i]).start
                + words@[i].reading@.len() <= usize::MAX by {
                assert(wv[i] == words@[i]@);
                assert(wv[i].start + wv[i].len <= input@.len());
            }
        }
        let parts: Vec<Segment> = self.split_particle_head_segments(words);
        let ghost pv = entry::segment_views(parts@);
        proof {
            entry::lemma_tiles_len(pv, input@, 0);
            assert(input@.len() == count);
        }
        self.merge_affix_compounds(parts)
    }

    /// Splits a reading into segments.
    pub fn segment(&self, input: &str) -> (segs: Vec<Segment>)
        requires
            self.wf(),
        ensures
            entry::segment_views(segs@) == segmentation(
                self@,
                self.log_table(),
                segmenter::no_bonus(),
                input@,
            ),
            entry::tiles(entry::segment_views(segs@), input@, 0),
    {
        assert(segmenter::bonus_of(NoBoost) =~= segmenter::no_bonus());
        self.segment_with_boost(input, &NoBoost)
    }

    /// The candidates for a reading that has to stay in one segment.
    pub fn candidates_for_unit(&self, reading: &str) -> (out: Vec<DictionaryEntry>)
        requires
            self.wf(),
        ensures
            entry::entry_views(out@) == unit_candidates(self@, self.log_table(), reading@),
    {
        let own: Vec<DictionaryEntry> = self.lookup_copies(reading);
        assert(entry::entry_views(own@).len() == own@.len());
        if own.len() > 0 {
            return own;
        }
        let pieces: Vec<Segment> = self.segment(reading);
        let ghost pv = entry::segment_views(pieces@);
        assert(pv.len() == pieces@.len());
        if pieces.len() < 2 {
            return own;
        }
        let mut drafts: Vec<Draft> = Vec::new();
        drafts.push(Draft { surface: String::new(), frequency: u32::MAX });
        let mut i: usize = 0;
        assert(draft_views(drafts@) =~= spellings_of(pv.take(0)));
        while i < pieces.len()
            invariant
                i <= pieces@.len(),
                pv == entry::segment_views(pieces@),
                draft_views(drafts@) == spellings_of(pv.take(i as int)),
            decreases pieces@.len() - i,
        {
            let longer: Vec<Draft> = drafts_with(&drafts, &pieces[i]);
            drafts = best_drafts(&longer);
            proof {
                assert(pv.take(i + 1).drop_last() =~= pv.take(i as int));
                assert(pv.take(i + 1).last() == pieces@[i as int]@);
            }
            i = i + 1;
        }
        assert(pv.take(i as int) =~= pv);
        let ghost want = unit_candidates(self@, self.log_table(), reading@);
        let mut out: Vec<DictionaryEntry> = Vec::new();
        let mut k: usize = 0;
        while k < drafts.len()
            invariant
                k <= drafts@.len(),
                out@.len() == k,
                draft_views(drafts@) == spellings_of(pv),
                forall|m: int|
                    0 <= m < k ==> (#[trigger] out@[m])@ == spelled_entry(
                        reading@,
                        spellings_of(pv)[m],
                    ),
            decreases drafts@.len() - k,
        {
            assert(draft_views(drafts@)[k as int] == (
                drafts@[k as int].surface@,
                drafts@[k as int].frequency,
            ));
            out.push(
                DictionaryEntry {
                    reading: reading.to_owned(),
                    surface: drafts[k].surface.clone(),
                    pos: PartOfSpeech::Other,
                    frequency: drafts[k].frequency,
                },
            );
            k = k + 1;
        }
        assert(entry::entry_views(out@) =~= want);
        out
    }
}

proof fn lemma_continued_holds(spellings: Seq<Spelling>, words: Seq<EntryView>, x: int, y: int)
    requires
        0 <= x < spellings.len(),
        0 <= y < words.len(),
    ensures
        all_continued(spellings, words).contains(continued(spellings[x], words[y])),
    decreases spellings.len(),
{
    let before = all_continued(spellings.drop_last(), words);
    let new = continued_by(spellings.last(), words);
    let word = continued(spellings[x], words[y]);
    if x < spellings.len() - 1 {
        lemma_continued_holds(spellings.drop_last(), words, x, y);
        let w = choose|w: int| 0 <= w < before.len() && before[w] == word;
        assert((before + new)[w] == word);
    } else {
        assert(new[y] == word);
        assert((before + new)[before.len() + y] == word);
    }
}

proof fn lemma_continued_from(spellings: Seq<Spelling>, words: Seq<EntryView>, i: int) -> (xy: (
    int,
    int,
))
    requires
        0 <= i < all_continued(spellings, words).len(),
    ensures
        0 <= xy.0 < spellings.len(),
        0 <= xy.1 < words.len(),
        all_continued(spellings, words)[i] == continued(spellings[xy.0], words[xy.1]),
    decreases spellings.len(),
{
    let before = all_continued(spellings.drop_last(), words);
    if i < before.len() {
        lemma_continued_from(spellings.drop_last(), words, i)
    } else {
        (spellings.len() - 1, i - before.len())
    }
}

/// Is the spelling in the list, unless twelve others that are no rarer take all the
/// places?
pub open spec fn has_place(spellings: Seq<Spelling>, s: Spelling) -> bool {
    ||| spellings.contains(s)
    ||| spellings.len() == 12 && forall|i: int|
        0 <= i < spellings.len() ==> (#[trigger] spellings[i]).1 >= s.1
}

proof fn lemma_best_spellings(all: Seq<Spelling>)
    ensures
        best_spellings(all).len() <= 12,
        all.len() <= 12 ==> best_spellings(all).len() == all.len(),
        forall|i: int| 0 <= i < best_spellings(all).len() ==> all.contains(
            #[trigger] best_spellings(all)[i],
        ),
        forall|i: int, j: int|
            0 <= i < j < best_spellings(all).len() ==> (#[trigger] best_spellings(all)[i]).1 >= (
            #[trigger] best_spellings(all)[j]).1,
        forall|x: int| 0 <= x < all.len() ==> has_place(best_spellings(all), #[trigger] all[x]),
{
    let keys = all.map_values(|s: Spelling| s.1 as int);
    let order = rank::ranking(keys);
    let sorted = rank::taken(all, order);
    let out = best_spellings(all);
    rank::lemma_ranking(keys);
    assert forall|i: int| 0 <= i < out.len() implies all.contains(#[trigger] out[i]) by {
        assert(out[i] == all[order[i]]);
    }
    assert forall|i: int, j: int| 0 <= i < j < out.len() implies (#[trigger] out[i]).1 >= (
    #[trigger] out[j]).1 by {
        assert(rank::ranks_before(keys, order[i], order[j]));
        assert(out[i] == all[order[i]] && out[j] == all[order[j]]);
    }
    assert forall|x: int| 0 <= x < all.len() implies has_place(out, #[trigger] all[x]) by {
        assert(order.contains(x));
        let q = choose|q: int| 0 <= q < order.len() && order[q] == x;
        if q < out.len() {
            assert(out[q] == all[x]);
        } else {
            assert forall|i: int| 0 <= i < out.len() implies (#[trigger] out[i]).1 >= all[x].1 by {
                assert(rank::ranks_before(keys, order[i], order[q]));
                assert(out[i] == all[order[i]]);
            }
        }
    }
}

/// How one more piece continues the spellings of a unit. There are twelve at most,
/// the most frequent first. Each of them is a spelling of the pieces before with one
/// of the first three words for the new piece, or with its kana where it has no word,
/// and is as frequent as the rarer of the two.
pub proof fn law_spellings_grow(segs: Seq<SegmentView>, s: SegmentView, i: int, j: int)
    requires
        0 <= i < spellings_of(segs.push(s)).len(),
    ensures
        ({
            let before = spellings_of(segs);
            let after = spellings_of(segs.push(s));
            let t = after[i];
            &&& after.len() <= 12
            &&& i < j < after.len() ==> t.1 >= after[j].1
            &&& s.candidates.len() == 0 ==> exists|x: int|
                0 <= x < before.len() && t.0 == (#[trigger] before[x]).0 + s.reading && t.1
                    == before[x].1
            &&& s.candidates.len() > 0 ==> exists|x: int, y: int|
                0 <= x < before.len() && 0 <= y < s.candidates.len() && y < 3 && t.0 == (
                #[trigger] before[x]).0 + (#[trigger] s.candidates[y]).surface && t.1 == (
                if before[x].1 <= s.candidates[y].frequency {
                    before[x].1
                } else {
                    s.candidates[y].frequency
                })
        }),
{
    let before = spellings_of(segs);
    let words = merge::first(s.candidates, 3);
    let all = with_piece(before, s);
    assert(segs.push(s).drop_last() =~= segs);
    lemma_best_spellings(all);
    let after = spellings_of(segs.push(s));
    assert(all.contains(after[i]));
    let w = choose|w: int| 0 <= w < all.len() && all[w] == after[i];
    if s.candidates.len() == 0 {
        assert(after[i].0 == before[w].0 + s.reading);
    } else {
        let xy = lemma_continued_from(before, words, w);
        assert(after[i] == continued(before[xy.0], s.candidates[xy.1]));
        assert(after[i].0 == before[xy.0].0 + s.candidates[xy.1].surface);
    }
}

/// Every spelling of the pieces before is continued: by each of the first three words
/// for the new piece, or by its kana where it has none.
pub proof fn law_spellings_are_continued(segs: Seq<SegmentView>, s: SegmentView, x: int, y: int)
    requires
        0 <= x < spellings_of(segs).len(),
    ensures
        ({
            let before = spellings_of(segs)[x];
            let after = spellings_of(segs.push(s));
            &&& s.candidates.len() == 0 ==> has_place(after, (before.0 + s.reading, before.1))
            &&& 0 <= y < s.candidates.len() && y < 3 ==> has_place(
                after,
                (
                    before.0 + s.candidates[y].surface,
                    if before.1 <= s.candidates[y].frequency {
                        before.1
                    } else {
                        s.candidates[y].frequency
                    },
                ),
            )
        }),
        spellings_of(Seq::<SegmentView>::empty()) == seq![(Seq::<char>::empty(), u32::MAX)],
{
    let before = spellings_of(segs);
    let words = merge::first(s.candidates, 3);
    let all = with_piece(before, s);
    assert(segs.push(s).drop_last() =~= segs);
    lemma_best_spellings(all);
    if s.candidates.len() == 0 {
        assert(all[x] == (before[x].0 + s.reading, before[x].1));
    } else if 0 <= y < s.candidates.len() && y < 3 {
        lemma_continued_holds(before, words, x, y);
        assert(words[y] == s.candidates[y]);
        let word = continued(before[x], words[y]);
        let w = choose|w: int| 0 <= w < all.len() && all[w] == word;
        assert(all[w] == word);
    }
}

/// The candidates for a reading that stays in one unit are the dictionary's words for
/// it, where it has any; else the spellings of the pieces into which it falls.
pub proof fn law_unit_has_its_words(d: Seq<EntryView>, logs: NanoTable, reading: Seq<char>, i: int)
    requires
        d.len() <= usize::MAX,
    ensures
        ({
            let found = unit_candidates(d, logs, reading);
            let pieces = segmentation(d, logs, segmenter::no_bonus(), reading);
            let spellings = spellings_of(pieces);
            &&& 0 <= i < d.len() && d[i].reading == reading ==> found.contains(d[i])
            &&& (exists|j: int| 0 <= j < d.len() && (#[trigger] d[j]).reading == reading)
                ==> found == dictionary::lookup_of(d, reading)
            &&& (forall|j: int| 0 <= j < d.len() ==> (#[trigger] d[j]).reading != reading) ==> {
                &&& pieces.len() < 2 ==> found.len() == 0
                &&& pieces.len() >= 2 ==> found.len() == spellings.len()
                &&& 0 <= i < found.len() ==> found[i].reading == reading && found[i].surface
                    == spellings[i].0 && found[i].frequency == spellings[i].1
            }
        }),
{
    let own = dictionary::lookup_of(d, reading);
    dictionary::law_lookup_by_frequency(d, reading);
    dictionary::law_lookup_finds_entries(d, reading);
    if exists|j: int| 0 <= j < d.len() && (#[trigger] d[j]).reading == reading {
        let j = choose|j: int| 0 <= j < d.len() && (#[trigger] d[j]).reading == reading;
        assert(own.contains(d[j]));
    }
}

} // verus!
