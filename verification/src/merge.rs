//! Joining and splitting neighbouring words into the units a writer expects.
//!
//! The word splitter works on single words. Affixes, particles, auxiliaries
//! and conjunctions are joined here to the word they belong to, and a few
//! two-character words that hide a particle are taken apart.
use vstd::prelude::*;

use crate::dictionary;
use crate::dictionary::Dictionary;
use crate::entry;
use crate::entry::{copied_entries, DictionaryEntry, EntryView, Segment, SegmentView};
use crate::pos::PartOfSpeech;
use crate::rank;
use crate::rank::order_desc;
use crate::segmenter;
use crate::segmenter::best_frequency;
use crate::text::{chars_of, joined, text_between, text_of_char};

verus! {

/// A content word with at least this frequency keeps its segment whole.
pub const CONTENT_RUNNER_UP_MIN: u32 = 4500;

/// A suffix with at least this frequency is a suffix in earnest.
pub const SUFFIX_MERGE_THRESHOLD: u32 = 1500;

/// A prefix with at least this frequency is a prefix in earnest.
pub const PREFIX_MERGE_THRESHOLD: u32 = 3500;

/// A particle with at least this frequency can head a segment.
pub const HEAD_PARTICLE_MIN: u32 = 7000;

/// What follows a heading particle must be a content word of this frequency.
pub const TAIL_CONTENT_MIN: u32 = 2000;

/// A particle has to reach this frequency to outweigh a suffix.
pub const DOMINANT_PARTICLE_MIN: u32 = 6000;

/// How many candidates of an open word class take part in a combination.
pub const ROLE_CANDIDATES: usize = 5;

/// How many candidates of each half are tried in another split of a compound.
pub const PROBE_CANDIDATES: usize = 4;

/// Two nouns form a compound only where the right one has this frequency.
pub const NOUN_PAIR_MIN: u32 = 5000;

/// A prefix of one character has to reach this frequency.
pub const SHORT_PREFIX_MIN: u32 = 3000;

/// How many candidates a joined segment keeps.
pub const MERGED_CANDIDATES: usize = 30;

/// Rank of a part of speech among entries of equal frequency: content words
/// come before function words, and these before affixes.
pub open spec fn tie_rank(p: PartOfSpeech) -> int {
    match p {
        PartOfSpeech::Noun | PartOfSpeech::Verb | PartOfSpeech::Adjective => 3,
        PartOfSpeech::Adverb | PartOfSpeech::Interjection => 2,
        PartOfSpeech::Particle | PartOfSpeech::Auxiliary | PartOfSpeech::Conjunction => 1,
        PartOfSpeech::Prefix | PartOfSpeech::Suffix | PartOfSpeech::Other => 0,
    }
}

/// Is `a` at least as strong as `b`?
pub open spec fn at_least_as_strong(a: EntryView, b: EntryView) -> bool {
    a.frequency > b.frequency || (a.frequency == b.frequency && tie_rank(a.pos) >= tie_rank(b.pos))
}

/// The strongest entry; the last one among equals.
pub open spec fn dominant_entry(entries: Seq<EntryView>) -> Option<EntryView>
    decreases entries.len(),
{
    if entries.len() == 0 {
        None
    } else {
        match dominant_entry(entries.drop_last()) {
            None => Some(entries.last()),
            Some(b) => if at_least_as_strong(entries.last(), b) {
                Some(entries.last())
            } else {
                Some(b)
            },
        }
    }
}

/// The part of speech of the strongest entry.
pub open spec fn dominant_pos_of(entries: Seq<EntryView>) -> Option<PartOfSpeech> {
    match dominant_entry(entries) {
        None => None,
        Some(e) => Some(e.pos),
    }
}

/// Is there an entry with this part of speech and at least this frequency?
pub open spec fn has_kind(entries: Seq<EntryView>, p: PartOfSpeech, min: u32) -> bool {
    exists|i: int|
        0 <= i < entries.len() && (#[trigger] entries[i]).pos == p && entries[i].frequency >= min
}

/// Nouns, verbs and adjectives carry content.
pub open spec fn is_content(p: PartOfSpeech) -> bool {
    p == PartOfSpeech::Noun || p == PartOfSpeech::Verb || p == PartOfSpeech::Adjective
}

/// Is there a content word with at least this frequency?
pub open spec fn has_content(entries: Seq<EntryView>, min: u32) -> bool {
    exists|i: int|
        0 <= i < entries.len() && is_content((#[trigger] entries[i]).pos) && entries[i].frequency
            >= min
}

/// Does the reading fall into a strong particle of one character and a content
/// word?
pub open spec fn particle_head(d: Seq<EntryView>, reading: Seq<char>) -> bool {
    &&& reading.len() >= 2
    &&& has_kind(
        dictionary::lookup_of(d, reading.take(1)),
        PartOfSpeech::Particle,
        HEAD_PARTICLE_MIN,
    )
    &&& has_content(dictionary::lookup_of(d, reading.skip(1)), TAIL_CONTENT_MIN)
}

/// Is the segment taken apart into a particle and the word behind it?
pub open spec fn hides_particle(d: Seq<EntryView>, seg: SegmentView) -> bool {
    &&& seg.reading.len() == 2
    &&& dominant_pos_of(seg.candidates) == Some(PartOfSpeech::Suffix)
    &&& !has_content(seg.candidates, CONTENT_RUNNER_UP_MIN)
    &&& particle_head(d, seg.reading)
}

/// The segment, taken apart where it hides a particle.
pub open spec fn split_head(d: Seq<EntryView>, seg: SegmentView) -> Seq<SegmentView> {
    if hides_particle(d, seg) {
        seq![
            SegmentView {
                reading: seg.reading.take(1),
                start: seg.start,
                len: 1,
                candidates: dictionary::lookup_of(d, seg.reading.take(1)),
            },
            SegmentView {
                reading: seg.reading.skip(1),
                start: seg.start + 1,
                len: 1,
                candidates: dictionary::lookup_of(d, seg.reading.skip(1)),
            },
        ]
    } else {
        seq![seg]
    }
}

/// The segments, each taken apart where it hides a particle.
pub open spec fn split_heads(d: Seq<EntryView>, segs: Seq<SegmentView>) -> Seq<SegmentView>
    decreases segs.len(),
{
    if segs.len() == 0 {
        Seq::empty()
    } else {
        split_heads(d, segs.drop_last()) + split_head(d, segs.last())
    }
}

/// Is the strongest particle of the segment far stronger than its strongest
/// suffix?
pub open spec fn particle_outweighs_suffix(entries: Seq<EntryView>) -> bool {
    let particle = segmenter::top_frequency(entries, PartOfSpeech::Particle);
    let suffix = segmenter::top_frequency(entries, PartOfSpeech::Suffix);
    particle >= DOMINANT_PARTICLE_MIN && suffix > 0 && particle >= 3 * suffix
}

/// The part of speech as which a segment joins the word on its left.
pub open spec fn right_role(
    d: Seq<EntryView>,
    seg: SegmentView,
    left: Option<PartOfSpeech>,
    left_len: int,
) -> Option<PartOfSpeech> {
    let own = dominant_pos_of(seg.candidates);
    let headed = left_len < 3 && particle_head(d, seg.reading);
    if left != Some(PartOfSpeech::Noun) && left != Some(PartOfSpeech::Prefix) {
        own
    } else {
        match own {
            Some(PartOfSpeech::Suffix) => if headed {
                Some(PartOfSpeech::Noun)
            } else {
                own
            },
            Some(PartOfSpeech::Particle) | Some(PartOfSpeech::Noun) => if has_kind(
                seg.candidates,
                PartOfSpeech::Suffix,
                SUFFIX_MERGE_THRESHOLD,
            ) && !headed && !particle_outweighs_suffix(seg.candidates) {
                Some(PartOfSpeech::Suffix)
            } else {
                own
            },
            _ => own,
        }
    }
}

/// The part of speech as which a segment joins the word on its right.
pub open spec fn left_role(seg: SegmentView, right: Option<PartOfSpeech>) -> Option<PartOfSpeech> {
    let own = dominant_pos_of(seg.candidates);
    if own == Some(PartOfSpeech::Noun) && (right == Some(PartOfSpeech::Noun) || right == Some(
        PartOfSpeech::Suffix,
    )) && has_kind(seg.candidates, PartOfSpeech::Prefix, PREFIX_MERGE_THRESHOLD) {
        Some(PartOfSpeech::Prefix)
    } else {
        own
    }
}

/// How two neighbours are joined.
#[derive(Clone, Copy, Debug, PartialEq, Eq, Structural)]
pub struct Union {
    /// Part of speech of the result.
    pub pos: PartOfSpeech,
    /// Part of speech asked of the left candidates.
    pub left: Option<PartOfSpeech>,
    /// Part of speech asked of the right candidates.
    pub right: Option<PartOfSpeech>,
    /// Whether a dictionary word with the joined reading is used as it is.
    pub from_dictionary: bool,
}

/// How a word of kind `cur` and one of kind `nxt` are joined, if they are.
pub open spec fn union_of(cur: Option<PartOfSpeech>, nxt: Option<PartOfSpeech>) -> Option<Union> {
    match (cur, nxt) {
        (Some(PartOfSpeech::Noun), Some(PartOfSpeech::Particle)) => Some(
            Union {
                pos: PartOfSpeech::Particle,
                left: None,
                right: Some(PartOfSpeech::Particle),
                from_dictionary: false,
            },
        ),
        (Some(PartOfSpeech::Verb), Some(PartOfSpeech::Auxiliary)) => Some(
            Union {
                pos: PartOfSpeech::Auxiliary,
                left: None,
                right: Some(PartOfSpeech::Auxiliary),
                from_dictionary: true,
            },
        ),
        (Some(PartOfSpeech::Noun), Some(PartOfSpeech::Conjunction)) => Some(
            Union {
                pos: PartOfSpeech::Conjunction,
                left: None,
                right: Some(PartOfSpeech::Conjunction),
                from_dictionary: true,
            },
        ),
        (Some(PartOfSpeech::Noun), Some(PartOfSpeech::Suffix)) => Some(
            Union {
                pos: PartOfSpeech::Noun,
                left: Some(PartOfSpeech::Noun),
                right: Some(PartOfSpeech::Suffix),
                from_dictionary: true,
            },
        ),
        (Some(PartOfSpeech::Prefix), Some(PartOfSpeech::Noun)) => Some(
            Union {
                pos: PartOfSpeech::Noun,
                left: Some(PartOfSpeech::Prefix),
                right: Some(PartOfSpeech::Noun),
                from_dictionary: true,
            },
        ),
        (Some(PartOfSpeech::Prefix), Some(PartOfSpeech::Suffix)) => Some(
            Union {
                pos: PartOfSpeech::Noun,
                left: Some(PartOfSpeech::Prefix),
                right: Some(PartOfSpeech::Suffix),
                from_dictionary: true,
            },
        ),
        _ => None,
    }
}

/// The first `n` elements, or all of them.
pub open spec fn first<T>(s: Seq<T>, n: int) -> Seq<T> {
    if s.len() <= n {
        s
    } else {
        s.take(n)
    }
}

/// Tells the entries with part of speech `p`.
pub open spec fn of_kind(p: PartOfSpeech) -> spec_fn(EntryView) -> bool {
    |e: EntryView| e.pos == p
}

/// How many candidates with part of speech `p` take part in a combination: the
/// leading one of a closed class, the first five of an open one.
pub open spec fn role_cap(p: PartOfSpeech) -> int {
    if p == PartOfSpeech::Particle || p == PartOfSpeech::Auxiliary || p
        == PartOfSpeech::Conjunction {
        1
    } else {
        5
    }
}

/// The candidates that take part in a combination.
pub open spec fn role_candidates(entries: Seq<EntryView>, role: Option<PartOfSpeech>) -> Seq<
    EntryView,
> {
    match role {
        Some(p) => {
            let fitting = first(entries.filter(of_kind(p)), role_cap(p));
            if fitting.len() > 0 {
                fitting
            } else {
                first(entries, 5)
            }
        },
        None => first(entries, 5),
    }
}

/// The word made of `l` and `r`; it is as frequent as the rarer of the two.
pub open spec fn compound(
    reading: Seq<char>,
    l: EntryView,
    r: EntryView,
    p: PartOfSpeech,
) -> EntryView {
    EntryView {
        reading,
        surface: l.surface + r.surface,
        pos: p,
        frequency: if l.frequency <= r.frequency {
            l.frequency
        } else {
            r.frequency
        },
    }
}

/// `l` combined with each of `rs`.
pub open spec fn compounds_with(
    reading: Seq<char>,
    l: EntryView,
    rs: Seq<EntryView>,
    p: PartOfSpeech,
) -> Seq<EntryView> {
    rs.map_values(|r: EntryView| compound(reading, l, r, p))
}

/// Each of `ls` combined with each of `rs`.
pub open spec fn compounds(
    reading: Seq<char>,
    ls: Seq<EntryView>,
    rs: Seq<EntryView>,
    p: PartOfSpeech,
) -> Seq<EntryView>
    decreases ls.len(),
{
    if ls.len() == 0 {
        Seq::empty()
    } else {
        compounds(reading, ls.drop_last(), rs, p) + compounds_with(reading, ls.last(), rs, p)
    }
}

/// May `l` and `r` be the halves of a compound whose left half has `left_len`
/// and whose right half has `right_len` characters?
pub open spec fn pairs_up(l: EntryView, r: EntryView, left_len: int, right_len: int) -> bool {
    &&& l.pos == PartOfSpeech::Noun || l.pos == PartOfSpeech::Prefix
    &&& r.pos == PartOfSpeech::Noun || r.pos == PartOfSpeech::Suffix
    &&& l.pos == PartOfSpeech::Noun && r.pos == PartOfSpeech::Noun ==> right_len >= 2
        && r.frequency >= NOUN_PAIR_MIN
    &&& l.pos == PartOfSpeech::Prefix && left_len < 2 ==> l.frequency >= SHORT_PREFIX_MIN
}

/// Tells the words that `l` may be combined with.
pub open spec fn partner_of(l: EntryView, left_len: int, right_len: int) -> spec_fn(
    EntryView,
) -> bool {
    |r: EntryView| pairs_up(l, r, left_len, right_len)
}

/// The compounds of the halves `ls` and `rs` that may be paired.
pub open spec fn paired(
    reading: Seq<char>,
    ls: Seq<EntryView>,
    rs: Seq<EntryView>,
    left_len: int,
) -> Seq<EntryView>
    decreases ls.len(),
{
    if ls.len() == 0 {
        Seq::empty()
    } else {
        let l = ls.last();
        paired(reading, ls.drop_last(), rs, left_len) + compounds_with(
            reading,
            l,
            rs.filter(partner_of(l, left_len, reading.len() - left_len)),
            PartOfSpeech::Noun,
        )
    }
}

/// The compounds that arise when the reading is cut after `k` characters.
pub open spec fn probe_at(d: Seq<EntryView>, reading: Seq<char>, k: int) -> Seq<EntryView> {
    paired(
        reading,
        first(dictionary::lookup_of(d, reading.take(k)), 4),
        first(dictionary::lookup_of(d, reading.skip(k)), 4),
        k,
    )
}

/// The compounds of all cuts before position `k`.
pub open spec fn probes_before(d: Seq<EntryView>, reading: Seq<char>, k: int) -> Seq<EntryView>
    decreases k,
{
    if k <= 1 {
        Seq::empty()
    } else {
        probes_before(d, reading, k - 1) + probe_at(d, reading, k - 1)
    }
}

/// The compounds of two words that have this reading. Readings of two
/// characters can only be cut one way and give none.
pub open spec fn two_piece_words(d: Seq<EntryView>, reading: Seq<char>) -> Seq<EntryView> {
    if reading.len() < 3 {
        Seq::empty()
    } else {
        probes_before(d, reading, reading.len() as int)
    }
}

/// The entries by descending frequency, ties in order.
pub open spec fn by_frequency(entries: Seq<EntryView>) -> Seq<EntryView> {
    rank::taken(
        entries,
        rank::ranking(entries.map_values(|e: EntryView| e.frequency as int)),
    )
}

/// Is there an entry with this surface?
pub open spec fn has_surface(entries: Seq<EntryView>, surface: Seq<char>) -> bool {
    exists|i: int| 0 <= i < entries.len() && (#[trigger] entries[i]).surface == surface
}

/// The first entry of every surface.
pub open spec fn first_surfaces(entries: Seq<EntryView>) -> Seq<EntryView>
    decreases entries.len(),
{
    if entries.len() == 0 {
        Seq::empty()
    } else {
        let before = first_surfaces(entries.drop_last());
        if has_surface(before, entries.last().surface) {
            before
        } else {
            before.push(entries.last())
        }
    }
}

/// The candidates of two joined segments: the dictionary's own words for the
/// joined reading where they count, else the combinations, best first, every
/// surface once.
pub open spec fn union_candidates(
    d: Seq<EntryView>,
    a: SegmentView,
    b: SegmentView,
    u: Union,
) -> Seq<EntryView> {
    let reading = a.reading + b.reading;
    let own = dictionary::lookup_of(d, reading);
    if u.from_dictionary && own.len() > 0 {
        own
    } else {
        first(
            first_surfaces(
                by_frequency(
                    compounds(
                        reading,
                        role_candidates(a.candidates, u.left),
                        role_candidates(b.candidates, u.right),
                        u.pos,
                    ) + two_piece_words(d, reading),
                ),
            ),
            30,
        )
    }
}

/// The two segments joined, if they belong together.
pub open spec fn joined_pair(d: Seq<EntryView>, a: SegmentView, b: SegmentView) -> Option<
    SegmentView,
> {
    let nxt = right_role(d, b, dominant_pos_of(a.candidates), a.reading.len() as int);
    let cur = left_role(a, nxt);
    match union_of(cur, nxt) {
        None => None,
        Some(u) => Some(
            SegmentView {
                reading: a.reading + b.reading,
                start: a.start,
                len: a.len + b.len,
                candidates: union_candidates(d, a, b, u),
            },
        ),
    }
}

/// The segments with neighbours joined, from position `i` on. A joined segment
/// is tried again with its next neighbour.
pub open spec fn joined_from(d: Seq<EntryView>, segs: Seq<SegmentView>, i: int) -> Seq<SegmentView>
    decreases segs.len() - i,
{
    if i < 0 || i + 1 >= segs.len() {
        segs
    } else {
        match joined_pair(d, segs[i], segs[i + 1]) {
            None => joined_from(d, segs, i + 1),
            Some(m) => joined_from(d, segs.remove(i + 1).update(i, m), i),
        }
    }
}

/// Rank of a part of speech among entries of equal frequency.
pub fn pos_tiebreaker(p: PartOfSpeech) -> (r: u8)
    ensures
        r == tie_rank(p),
{
    match p {
        PartOfSpeech::Noun | PartOfSpeech::Verb | PartOfSpeech::Adjective => 3,
        PartOfSpeech::Adverb | PartOfSpeech::Interjection => 2,
        PartOfSpeech::Particle | PartOfSpeech::Auxiliary | PartOfSpeech::Conjunction => 1,
        PartOfSpeech::Prefix | PartOfSpeech::Suffix | PartOfSpeech::Other => 0,
    }
}

/// The part of speech of the strongest candidate of a segment.
pub fn dominant_pos(entries: &Vec<DictionaryEntry>) -> (p: Option<PartOfSpeech>)
    ensures
        p == dominant_pos_of(entry::entry_views(entries@)),
{
    let ghost all = entry::entry_views(entries@);
    if entries.len() == 0 {
        return None;
    }
    let mut best: usize = 0;
    let mut i: usize = 1;
    proof {
        reveal_with_fuel(dominant_entry, 2);
        assert(all.take(1).drop_last() =~= Seq::empty());
        assert(all.take(1).last() == all[0]);
    }
    while i < entries.len()
        invariant
            1 <= i <= entries@.len(),
            best < i,
            all == entry::entry_views(entries@),
            dominant_entry(all.take(i as int)) == Some(all[best as int]),
        decreases entries@.len() - i,
    {
        proof {
            assert(all.take(i + 1).drop_last() =~= all.take(i as int));
            assert(all.take(i + 1).last() == all[i as int]);
            assert(all[i as int] == entries@[i as int]@);
            assert(all[best as int] == entries@[best as int]@);
        }
        let f: u32 = entries[i].frequency;
        let g: u32 = entries[best].frequency;
        if f > g || (f == g && pos_tiebreaker(entries[i].pos) >= pos_tiebreaker(
            entries[best].pos,
        )) {
            best = i;
        }
        i = i + 1;
    }
    assert(all.take(i as int) =~= all);
    assert(all[best as int] == entries@[best as int]@);
    Some(entries[best].pos)
}

/// Is there an entry with this part of speech and at least this frequency?
fn any_of_kind(entries: &Vec<DictionaryEntry>, p: PartOfSpeech, min: u32) -> (found: bool)
    ensures
        found == has_kind(entry::entry_views(entries@), p, min),
{
    let ghost all = entry::entry_views(entries@);
    let mut i: usize = 0;
    while i < entries.len()
        invariant
            i <= entries@.len(),
            all == entry::entry_views(entries@),
            forall|k: int|
                0 <= k < i ==> !((#[trigger] all[k]).pos == p && all[k].frequency >= min),
        decreases entries@.len() - i,
    {
        assert(all[i as int] == entries@[i as int]@);
        if entries[i].pos == p && entries[i].frequency >= min {
            return true;
        }
        i = i + 1;
    }
    false
}

/// Is there a content word with at least this frequency?
fn any_content(entries: &Vec<DictionaryEntry>, min: u32) -> (found: bool)
    ensures
        found == has_content(entry::entry_views(entries@), min),
{
    let ghost all = entry::entry_views(entries@);
    let mut i: usize = 0;
    while i < entries.len()
        invariant
            i <= entries@.len(),
            all == entry::entry_views(entries@),
            forall|k: int|
                0 <= k < i ==> !(is_content((#[trigger] all[k]).pos) && all[k].frequency >= min),
        decreases entries@.len() - i,
    {
        assert(all[i as int] == entries@[i as int]@);
        let p: PartOfSpeech = entries[i].pos;
        if (p == PartOfSpeech::Noun || p == PartOfSpeech::Verb || p == PartOfSpeech::Adjective)
            && entries[i].frequency >= min {
            return true;
        }
        i = i + 1;
    }
    false
}

/// Is the strongest particle of the segment far stronger than its strongest
/// suffix?
pub fn particle_dominates_suffix(entries: &Vec<DictionaryEntry>) -> (yes: bool)
    ensures
        yes == particle_outweighs_suffix(entry::entry_views(entries@)),
{
    let particle: u32 = best_frequency(entries, PartOfSpeech::Particle);
    let suffix: u32 = best_frequency(entries, PartOfSpeech::Suffix);
    particle >= DOMINANT_PARTICLE_MIN && suffix > 0 && (particle as u64) >= (suffix as u64) * 3
}

/// The first `n` of the entries, or all of them, copied.
fn first_entries(entries: &Vec<DictionaryEntry>, n: usize) -> (out: Vec<DictionaryEntry>)
    ensures
        entry::entry_views(out@) == first(entry::entry_views(entries@), n as int),
{
    let ghost all = entry::entry_views(entries@);
    let mut out: Vec<DictionaryEntry> = Vec::new();
    let mut i: usize = 0;
    while i < entries.len() && i < n
        invariant
            i <= entries@.len(),
            i <= n,
            out@ == entries@.take(i as int),
        decreases entries@.len() - i,
    {
        out.push(entries[i].clone());
        i = i + 1;
        assert(out@ =~= entries@.take(i as int));
    }
    assert(entry::entry_views(out@) =~= first(all, n as int));
    out
}

/// The candidates that take part in a combination.
pub fn take_top(entries: &Vec<DictionaryEntry>, role: Option<PartOfSpeech>) -> (out: Vec<
    DictionaryEntry,
>)
    ensures
        entry::entry_views(out@) == role_candidates(entry::entry_views(entries@), role),
{
    let ghost all = entry::entry_views(entries@);
    match role {
        Some(p) => {
            let cap: usize = match p {
                PartOfSpeech::Particle | PartOfSpeech::Auxiliary | PartOfSpeech::Conjunction => 1,
                _ => ROLE_CANDIDATES,
            };
            let mut fitting: Vec<DictionaryEntry> = Vec::new();
            let mut i: usize = 0;
            assert(all.take(0).filter(of_kind(p)) =~= Seq::empty());
            assert(entry::entry_views(fitting@) =~= Seq::empty());
            while i < entries.len()
                invariant
                    i <= entries@.len(),
                    all == entry::entry_views(entries@),
                    entry::entry_views(fitting@) == all.take(i as int).filter(of_kind(p)),
                decreases entries@.len() - i,
            {
                let ghost before = fitting@;
                proof {
                    assert(all[i as int] == entries@[i as int]@);
                    assert(all.take(i + 1) =~= all.take(i as int).push(all[i as int]));
                    all.take(i as int).lemma_filter_push(all[i as int], of_kind(p));
                }
                if entries[i].pos == p {
                    fitting.push(entries[i].clone());
                    assert(entry::entry_views(fitting@) =~= entry::entry_views(before).push(
                        all[i as int],
                    ));
                }
                i = i + 1;
            }
            assert(all.take(i as int) =~= all);
            let kept: Vec<DictionaryEntry> = first_entries(&fitting, cap);
            assert(entry::entry_views(kept@).len() == kept@.len());
            if kept.len() > 0 {
                return kept;
            }
        },
        None => {},
    }
    first_entries(entries, ROLE_CANDIDATES)
}

/// The word made of `l` and `r`.
fn make_compound(reading: &str, l: &DictionaryEntry, r: &DictionaryEntry, p: PartOfSpeech) -> (e:
    DictionaryEntry)
    ensures
        e@ == compound(reading@, l@, r@, p),
{
    DictionaryEntry {
        reading: reading.to_owned(),
        surface: joined(l.surface.as_str(), r.surface.as_str()),
        pos: p,
        frequency: if l.frequency <= r.frequency {
            l.frequency
        } else {
            r.frequency
        },
    }
}

/// Each of `ls` combined with each of `rs`.
fn make_compounds(
    reading: &str,
    ls: &Vec<DictionaryEntry>,
    rs: &Vec<DictionaryEntry>,
    p: PartOfSpeech,
) -> (out: Vec<DictionaryEntry>)
    ensures
        entry::entry_views(out@) == compounds(
            reading@,
            entry::entry_views(ls@),
            entry::entry_views(rs@),
            p,
        ),
{
    let ghost lv = entry::entry_views(ls@);
    let ghost rv = entry::entry_views(rs@);
    let mut out: Vec<DictionaryEntry> = Vec::new();
    let mut i: usize = 0;
    assert(entry::entry_views(out@) =~= Seq::empty());
    while i < ls.len()
        invariant
            i <= ls@.len(),
            lv == entry::entry_views(ls@),
            rv == entry::entry_views(rs@),
            entry::entry_views(out@) == compounds(reading@, lv.take(i as int), rv, p),
        decreases ls@.len() - i,
    {
        let ghost done = entry::entry_views(out@);
        let ghost row = compounds_with(reading@, lv[i as int], rv, p);
        let mut j: usize = 0;
        assert(done + row.take(0) =~= done);
        while j < rs.len()
            invariant
                i < ls@.len(),
                j <= rs@.len(),
                lv == entry::entry_views(ls@),
                rv == entry::entry_views(rs@),
                row == compounds_with(reading@, lv[i as int], rv, p),
                entry::entry_views(out@) == done + row.take(j as int),
            decreases rs@.len() - j,
        {
            let ghost before = out@;
            let e: DictionaryEntry = make_compound(reading, &ls[i], &rs[j], p);
            proof {
                assert(lv[i as int] == ls@[i as int]@);
                assert(rv[j as int] == rs@[j as int]@);
                assert(e@ == row[j as int]);
            }
            out.push(e);
            j = j + 1;
            assert(entry::entry_views(out@) =~= entry::entry_views(before).push(row[j - 1]));
            assert(entry::entry_views(out@) =~= done + row.take(j as int));
        }
        proof {
            assert(row.take(j as int) =~= row);
            assert(lv.take(i + 1).drop_last() =~= lv.take(i as int));
            assert(lv.take(i + 1).last() == lv[i as int]);
        }
        i = i + 1;
    }
    assert(lv.take(i as int) =~= lv);
    out
}

/// May `l` and `r` be the halves of a compound?
fn may_pair(l: &DictionaryEntry, r: &DictionaryEntry, left_len: usize, right_len: usize) -> (yes:
    bool)
    ensures
        yes == pairs_up(l@, r@, left_len as int, right_len as int),
{
    if !(l.pos == PartOfSpeech::Noun || l.pos == PartOfSpeech::Prefix) {
        return false;
    }
    if !(r.pos == PartOfSpeech::Noun || r.pos == PartOfSpeech::Suffix) {
        return false;
    }
    if l.pos == PartOfSpeech::Noun && r.pos == PartOfSpeech::Noun && (right_len < 2 || r.frequency
        < NOUN_PAIR_MIN) {
        return false;
    }
    if l.pos == PartOfSpeech::Prefix && left_len < 2 && l.frequency < SHORT_PREFIX_MIN {
        return false;
    }
    true
}

/// Adds the compounds of the halves `ls` and `rs` that may be paired.
fn push_paired(
    out: &mut Vec<DictionaryEntry>,
    reading: &str,
    ls: &Vec<DictionaryEntry>,
    rs: &Vec<DictionaryEntry>,
    left_len: usize,
    right_len: usize,
)
    requires
        left_len + right_len == reading@.len(),
    ensures
        entry::entry_views(final(out)@) == entry::entry_views(old(out)@) + paired(
            reading@,
            entry::entry_views(ls@),
            entry::entry_views(rs@),
            left_len as int,
        ),
{
    let ghost start = entry::entry_views(out@);
    let ghost lv = entry::entry_views(ls@);
    let ghost rv = entry::entry_views(rs@);
    let ghost ll = left_len as int;
    let mut i: usize = 0;
    assert(start + paired(reading@, lv.take(0), rv, ll) =~= start);
    while i < ls.len()
        invariant
            i <= ls@.len(),
            lv == entry::entry_views(ls@),
            rv == entry::entry_views(rs@),
            ll == left_len,
            left_len + right_len == reading@.len(),
            entry::entry_views(out@) == start + paired(reading@, lv.take(i as int), rv, ll),
        decreases ls@.len() - i,
    {
        let ghost done = entry::entry_views(out@);
        let ghost l = lv[i as int];
        let ghost pred = partner_of(l, ll, reading@.len() - ll);
        let mut j: usize = 0;
        proof {
            assert(rv.take(0).filter(pred) =~= Seq::empty());
            assert(done + compounds_with(
                reading@,
                l,
                rv.take(0).filter(pred),
                PartOfSpeech::Noun,
            ) =~= done);
        }
        while j < rs.len()
            invariant
                i < ls@.len(),
                j <= rs@.len(),
                lv == entry::entry_views(ls@),
                rv == entry::entry_views(rs@),
                l == lv[i as int],
                ll == left_len,
                left_len + right_len == reading@.len(),
                pred == partner_of(l, ll, reading@.len() - ll),
                entry::entry_views(out@) == done + compounds_with(
                    reading@,
                    l,
                    rv.take(j as int).filter(pred),
                    PartOfSpeech::Noun,
                ),
            decreases rs@.len() - j,
        {
            let ghost before = out@;
            let ghost r = rv[j as int];
            let ghost kept = rv.take(j as int).filter(pred);
            proof {
                assert(l == ls@[i as int]@);
                assert(r == rs@[j as int]@);
                assert(rv.take(j + 1) =~= rv.take(j as int).push(r));
                rv.take(j as int).lemma_filter_push(r, pred);
            }
            if may_pair(&ls[i], &rs[j], left_len, right_len) {
                let e: DictionaryEntry = make_compound(reading, &ls[i], &rs[j], PartOfSpeech::Noun);
                out.push(e);
                proof {
                    let c = compound(reading@, l, r, PartOfSpeech::Noun);
                    assert(entry::entry_views(out@) =~= entry::entry_views(before).push(c));
                    assert(compounds_with(reading@, l, kept.push(r), PartOfSpeech::Noun)
                        =~= compounds_with(reading@, l, kept, PartOfSpeech::Noun).push(c));
                    assert(entry::entry_views(out@) =~= done + compounds_with(
                        reading@,
                        l,
                        kept.push(r),
                        PartOfSpeech::Noun,
                    ));
                }
            }
            j = j + 1;
        }
        proof {
            assert(rv.take(j as int) =~= rv);
            assert(lv.take(i + 1).drop_last() =~= lv.take(i as int));
            assert(lv.take(i + 1).last() == l);
            assert(entry::entry_views(out@) =~= start + paired(reading@, lv.take(i + 1), rv, ll));
        }
        i = i + 1;
    }
    assert(lv.take(i as int) =~= lv);
}

/// The entries by descending frequency, ties in order.
fn sorted_by_frequency(entries: &Vec<DictionaryEntry>) -> (out: Vec<DictionaryEntry>)
    ensures
        entry::entry_views(out@) == by_frequency(entry::entry_views(entries@)),
{
    let ghost all = entry::entry_views(entries@);
    let ghost want = all.map_values(|e: EntryView| e.frequency as int);
    let mut keys: Vec<i128> = Vec::new();
    let mut i: usize = 0;
    while i < entries.len()
        invariant
            i <= entries@.len(),
            keys@.len() == i,
            forall|j: int| 0 <= j < i ==> (#[trigger] keys@[j]) == entries@[j].frequency,
        decreases entries@.len() - i,
    {
        keys.push(entries[i].frequency as i128);
        i = i + 1;
    }
    assert(keys@.map_values(|k: i128| k as int) =~= want);
    let order: Vec<usize> = order_desc(&keys);
    let ghost ints = order@.map_values(|k: usize| k as int);
    let mut out: Vec<DictionaryEntry> = Vec::new();
    let mut j: usize = 0;
    while j < order.len()
        invariant
            j <= order@.len(),
            order@.len() == entries@.len(),
            out@.len() == j,
            forall|m: int| 0 <= m < order@.len() ==> (#[trigger] order@[m]) < entries@.len(),
            forall|m: int| 0 <= m < j ==> (#[trigger] out@[m]) == entries@[order@[m] as int],
        decreases order@.len() - j,
    {
        out.push(entries[order[j]].clone());
        j = j + 1;
    }
    proof {
        let sorted = by_frequency(all);
        assert forall|m: int| 0 <= m < out@.len() implies entry::entry_views(out@)[m]
            == sorted[m] by {
            assert(ints[m] == rank::ranking(want)[m]);
            assert(ints[m] == order@[m] as int);
        }
        assert(entry::entry_views(out@) =~= sorted);
    }
    out
}

/// The first entry of every surface, at most `limit` of them.
fn distinct_surfaces(entries: &Vec<DictionaryEntry>, limit: usize) -> (out: Vec<DictionaryEntry>)
    ensures
        entry::entry_views(out@) == first(
            first_surfaces(entry::entry_views(entries@)),
            limit as int,
        ),
{
    let ghost all = entry::entry_views(entries@);
    let mut kept: Vec<DictionaryEntry> = Vec::new();
    let mut i: usize = 0;
    assert(entry::entry_views(kept@) =~= first_surfaces(all.take(0)));
    while i < entries.len()
        invariant
            i <= entries@.len(),
            all == entry::entry_views(entries@),
            entry::entry_views(kept@) == first_surfaces(all.take(i as int)),
        decreases entries@.len() - i,
    {
        let ghost kv = entry::entry_views(kept@);
        let mut seen: bool = false;
        let mut j: usize = 0;
        while j < kept.len() && !seen
            invariant
                i < entries@.len(),
                j <= kept@.len(),
                kv == entry::entry_views(kept@),
                all == entry::entry_views(entries@),
                seen ==> has_surface(kv, all[i as int].surface),
                !seen ==> forall|k: int|
                    0 <= k < j ==> (#[trigger] kv[k]).surface != all[i as int].surface,
            decreases kept@.len() - j,
        {
            assert(kv[j as int] == kept@[j as int]@);
            assert(all[i as int] == entries@[i as int]@);
            if kept[j].surface == entries[i].surface {
                assert(kv[j as int].surface == all[i as int].surface);
                seen = true;
            }
            j = j + 1;
        }
        proof {
            assert(all.take(i + 1).drop_last() =~= all.take(i as int));
            assert(all.take(i + 1).last() == all[i as int]);
            assert(all[i as int] == entries@[i as int]@);
        }
        if !seen {
            let ghost before = kept@;
            kept.push(entries[i].clone());
            assert(entry::entry_views(kept@) =~= entry::entry_views(before).push(all[i as int]));
        }
        i = i + 1;
    }
    assert(all.take(i as int) =~= all);
    first_entries(&kept, limit)
}

/// How a word of kind `cur` and one of kind `nxt` are joined, if they are.
pub fn union_for(cur: Option<PartOfSpeech>, nxt: Option<PartOfSpeech>) -> (u: Option<Union>)
    ensures
        u == union_of(cur, nxt),
{
    match (cur, nxt) {
        (Some(PartOfSpeech::Noun), Some(PartOfSpeech::Particle)) => Some(
            Union {
                pos: PartOfSpeech::Particle,
                left: None,
                right: Some(PartOfSpeech::Particle),
                from_dictionary: false,
            },
        ),
        (Some(PartOfSpeech::Verb), Some(PartOfSpeech::Auxiliary)) => Some(
            Union {
                pos: PartOfSpeech::Auxiliary,
                left: None,
                right: Some(PartOfSpeech::Auxiliary),
                from_dictionary: true,
            },
        ),
        (Some(PartOfSpeech::Noun), Some(PartOfSpeech::Conjunction)) => Some(
            Union {
                pos: PartOfSpeech::Conjunction,
                left: None,
                right: Some(PartOfSpeech::Conjunction),
                from_dictionary: true,
            },
        ),
        (Some(PartOfSpeech::Noun), Some(PartOfSpeech::Suffix)) => Some(
            Union {
                pos: PartOfSpeech::Noun,
                left: Some(PartOfSpeech::Noun),
                right: Some(PartOfSpeech::Suffix),
                from_dictionary: true,
            },
        ),
        (Some(PartOfSpeech::Prefix), Some(PartOfSpeech::Noun)) => Some(
            Union {
                pos: PartOfSpeech::Noun,
                left: Some(PartOfSpeech::Prefix),
                right: Some(PartOfSpeech::Noun),
                from_dictionary: true,
            },
        ),
        (Some(PartOfSpeech::Prefix), Some(PartOfSpeech::Suffix)) => Some(
            Union {
                pos: PartOfSpeech::Noun,
                left: Some(PartOfSpeech::Prefix),
                right: Some(PartOfSpeech::Suffix),
                from_dictionary: true,
            },
        ),
        _ => None,
    }
}

/// The part of speech as which a segment joins the word on its right.
pub fn effective_left_merge_pos(seg: &Segment, right: Option<PartOfSpeech>) -> (p: Option<
    PartOfSpeech,
>)
    ensures
        p == left_role(seg@, right),
{
    let own: Option<PartOfSpeech> = dominant_pos(&seg.candidates);
    let is_noun: bool = match own {
        Some(PartOfSpeech::Noun) => true,
        _ => false,
    };
    let fits: bool = match right {
        Some(PartOfSpeech::Noun) | Some(PartOfSpeech::Suffix) => true,
        _ => false,
    };
    if is_noun && fits && any_of_kind(
        &seg.candidates,
        PartOfSpeech::Prefix,
        PREFIX_MERGE_THRESHOLD,
    ) {
        Some(PartOfSpeech::Prefix)
    } else {
        own
    }
}

/// Two neighbours have no more characters than all the segments.
proof fn lemma_pair_len(segs: Seq<SegmentView>, i: int)
    requires
        0 <= i,
        i + 1 < segs.len(),
        forall|k: int| 0 <= k < segs.len() ==> (#[trigger] segs[k]).len >= 0,
    ensures
        segs[i].len + segs[i + 1].len <= entry::total_len(segs),
{
    let pair = seq![segs[i], segs[i + 1]];
    let front = segs.take(i);
    let back = segs.skip(i + 2);
    assert(segs =~= front + pair + back);
    entry::lemma_total_len_add(front + pair, back);
    entry::lemma_total_len_add(front, pair);
    entry::lemma_total_len_counts(front);
    entry::lemma_total_len_counts(back);
    assert(pair.drop_last() =~= seq![segs[i]]);
    assert(seq![segs[i]].drop_last() =~= Seq::<SegmentView>::empty());
    reveal_with_fuel(entry::total_len, 3);
}

/// Joining two neighbours keeps the number of characters.
proof fn lemma_joined_len(segs: Seq<SegmentView>, i: int, whole: SegmentView)
    requires
        0 <= i,
        i + 1 < segs.len(),
        whole.len == segs[i].len + segs[i + 1].len,
    ensures
        entry::total_len(segs.remove(i + 1).update(i, whole)) == entry::total_len(segs),
{
    let pair = seq![segs[i], segs[i + 1]];
    let one = seq![whole];
    let front = segs.take(i);
    let back = segs.skip(i + 2);
    assert(segs =~= front + pair + back);
    assert(segs.remove(i + 1).update(i, whole) =~= front + one + back);
    entry::lemma_total_len_add(front + pair, back);
    entry::lemma_total_len_add(front, pair);
    entry::lemma_total_len_add(front + one, back);
    entry::lemma_total_len_add(front, one);
    assert(pair.drop_last() =~= seq![segs[i]]);
    assert(seq![segs[i]].drop_last() =~= Seq::<SegmentView>::empty());
    assert(one.drop_last() =~= Seq::<SegmentView>::empty());
    reveal_with_fuel(entry::total_len, 3);
}

impl Dictionary {
    /// Does the reading fall into a strong particle of one character and a
    /// content word?
    pub fn right_reading_looks_like_particle_head(&self, reading: &str) -> (yes: bool)
        requires
            self.wf(),
        ensures
            yes == particle_head(self@, reading@),
    {
        let chars: Vec<char> = chars_of(reading);
        if chars.len() < 2 {
            return false;
        }
        let head: String = text_between(chars.as_slice(), 0, 1);
        assert(head@ =~= reading@.take(1));
        let heads: Vec<DictionaryEntry> = self.lookup_copies(head.as_str());
        if !any_of_kind(&heads, PartOfSpeech::Particle, HEAD_PARTICLE_MIN) {
            return false;
        }
        let tail: String = text_between(chars.as_slice(), 1, chars.len());
        assert(tail@ =~= reading@.skip(1));
        let tails: Vec<DictionaryEntry> = self.lookup_copies(tail.as_str());
        any_content(&tails, TAIL_CONTENT_MIN)
    }

    /// Takes apart the segments that hide a particle in front of a word.
    pub fn split_particle_head_segments(&self, segs: Vec<Segment>) -> (out: Vec<Segment>)
        requires
            self.wf(),
            forall|i: int|
                0 <= i < segs@.len() ==> (#[trigger] segs@[i]).start + segs@[i].reading@.len()
                    <= usize::MAX,
        ensures
            entry::segment_views(out@) == split_heads(self@, entry::segment_views(segs@)),
    {
        let ghost all = entry::segment_views(segs@);
        let mut out: Vec<Segment> = Vec::new();
        let mut i: usize = 0;
        assert(entry::segment_views(out@) =~= split_heads(self@, all.take(0)));
        while i < segs.len()
            invariant
                i <= segs@.len(),
                self.wf(),
                all == entry::segment_views(segs@),
                forall|k: int|
                    0 <= k < segs@.len() ==> (#[trigger] segs@[k]).start + segs@[k].reading@.len()
                        <= usize::MAX,
                entry::segment_views(out@) == split_heads(self@, all.take(i as int)),
            decreases segs@.len() - i,
        {
            let ghost before = out@;
            let ghost sv = all[i as int];
            proof {
                assert(sv == segs@[i as int]@);
                assert(all.take(i + 1).drop_last() =~= all.take(i as int));
                assert(all.take(i + 1).last() == sv);
            }
            let seg: &Segment = &segs[i];
            let chars: Vec<char> = chars_of(seg.reading.as_str());
            let suffixed: bool = match dominant_pos(&seg.candidates) {
                Some(PartOfSpeech::Suffix) => true,
                _ => false,
            };
            if chars.len() == 2 && suffixed && !any_content(
                &seg.candidates,
                CONTENT_RUNNER_UP_MIN,
            ) && self.right_reading_looks_like_particle_head(seg.reading.as_str()) {
                let head: String = text_of_char(chars[0]);
                let tail: String = text_of_char(chars[1]);
                proof {
                    assert(head@ =~= sv.reading.take(1));
                    assert(tail@ =~= sv.reading.skip(1));
                }
                let head_cands: Vec<DictionaryEntry> = self.lookup_copies(head.as_str());
                let tail_cands: Vec<DictionaryEntry> = self.lookup_copies(tail.as_str());
                let first_part: Segment = Segment {
                    reading: head,
                    start: seg.start,
                    len: 1,
                    candidates: head_cands,
                };
                let second_part: Segment = Segment {
                    reading: tail,
                    start: seg.start + 1,
                    len: 1,
                    candidates: tail_cands,
                };
                let ghost fv = first_part@;
                let ghost gv = second_part@;
                out.push(first_part);
                out.push(second_part);
                proof {
                    assert(hides_particle(self@, sv));
                    assert(split_head(self@, sv) =~= seq![fv, gv]);
                    assert(entry::segment_views(out@) =~= entry::segment_views(before) + seq![
                        fv,
                        gv,
                    ]);
                }
            } else {
                let copy: Segment = seg.clone();
                out.push(copy);
                proof {
                    assert(!hides_particle(self@, sv));
                    assert(split_head(self@, sv) =~= seq![sv]);
                    assert(entry::segment_views(out@) =~= entry::segment_views(before) + seq![sv]);
                }
            }
            i = i + 1;
        }
        assert(all.take(i as int) =~= all);
        out
    }

    /// The part of speech as which a segment joins the word on its left.
    pub fn effective_right_merge_pos(
        &self,
        seg: &Segment,
        left: Option<PartOfSpeech>,
        left_len: usize,
    ) -> (p: Option<PartOfSpeech>)
        requires
            self.wf(),
        ensures
            p == right_role(self@, seg@, left, left_len as int),
    {
        let own: Option<PartOfSpeech> = dominant_pos(&seg.candidates);
        match left {
            Some(PartOfSpeech::Noun) | Some(PartOfSpeech::Prefix) => {},
            _ => {
                return own;
            },
        }
        match own {
            Some(PartOfSpeech::Suffix) => {
                if left_len < 3 && self.right_reading_looks_like_particle_head(seg.reading.as_str()) {
                    Some(PartOfSpeech::Noun)
                } else {
                    own
                }
            },
            Some(PartOfSpeech::Particle) | Some(PartOfSpeech::Noun) => {
                if !any_of_kind(&seg.candidates, PartOfSpeech::Suffix, SUFFIX_MERGE_THRESHOLD) {
                    return own;
                }
                if left_len < 3 && self.right_reading_looks_like_particle_head(seg.reading.as_str()) {
                    return own;
                }
                if particle_dominates_suffix(&seg.candidates) {
                    return own;
                }
                Some(PartOfSpeech::Suffix)
            },
            _ => own,
        }
    }

    /// The compounds of two words that have this reading.
    pub fn probe_2piece_alternatives(&self, reading: &str) -> (out: Vec<DictionaryEntry>)
        requires
            self.wf(),
        ensures
            entry::entry_views(out@) == two_piece_words(self@, reading@),
    {
        let chars: Vec<char> = chars_of(reading);
        let mut out: Vec<DictionaryEntry> = Vec::new();
        if chars.len() < 3 {
            assert(entry::entry_views(out@) =~= two_piece_words(self@, reading@));
            return out;
        }
        let n: usize = chars.len();
        let mut cut: usize = 1;
        assert(entry::entry_views(out@) =~= probes_before(self@, reading@, 1));
        while cut < n
            invariant
                1 <= cut <= n,
                n == chars@.len(),
                chars@ == reading@,
                self.wf(),
                entry::entry_views(out@) == probes_before(self@, reading@, cut as int),
            decreases n - cut,
        {
            let left: String = text_between(chars.as_slice(), 0, cut);
            let right: String = text_between(chars.as_slice(), cut, n);
            proof {
                assert(left@ =~= reading@.take(cut as int));
                assert(right@ =~= reading@.skip(cut as int));
            }
            let all_left: Vec<DictionaryEntry> = self.lookup_copies(left.as_str());
            let all_right: Vec<DictionaryEntry> = self.lookup_copies(right.as_str());
            let ls: Vec<DictionaryEntry> = first_entries(&all_left, PROBE_CANDIDATES);
            let rs: Vec<DictionaryEntry> = first_entries(&all_right, PROBE_CANDIDATES);
            push_paired(&mut out, reading, &ls, &rs, cut, n - cut);
            cut = cut + 1;
        }
        out
    }

    /// The candidates of two joined segments.
    fn merged_candidates(&self, reading: &str, left: &Segment, right: &Segment, u: Union) -> (out:
        Vec<DictionaryEntry>)
        requires
            self.wf(),
            reading@ == left@.reading + right@.reading,
        ensures
            entry::entry_views(out@) == union_candidates(self@, left@, right@, u),
    {
        if u.from_dictionary {
            let own: Vec<DictionaryEntry> = self.lookup_copies(reading);
            assert(entry::entry_views(own@).len() == own@.len());
            if own.len() > 0 {
                return own;
            }
        }
        let ls: Vec<DictionaryEntry> = take_top(&left.candidates, u.left);
        let rs: Vec<DictionaryEntry> = take_top(&right.candidates, u.right);
        let mut all: Vec<DictionaryEntry> = make_compounds(reading, &ls, &rs, u.pos);
        let mut more: Vec<DictionaryEntry> = self.probe_2piece_alternatives(reading);
        let ghost a = entry::entry_views(all@);
        let ghost b = entry::entry_views(more@);
        all.append(&mut more);
        assert(entry::entry_views(all@) =~= a + b);
        let sorted: Vec<DictionaryEntry> = sorted_by_frequency(&all);
        distinct_surfaces(&sorted, MERGED_CANDIDATES)
    }

    /// Joins neighbouring segments that belong together.
    pub fn merge_affix_compounds(&self, segs: Vec<Segment>) -> (out: Vec<Segment>)
        requires
            self.wf(),
            entry::total_len(entry::segment_views(segs@)) <= usize::MAX,
        ensures
            entry::segment_views(out@) == joined_from(self@, entry::segment_views(segs@), 0),
    {
        let ghost want = joined_from(self@, entry::segment_views(segs@), 0);
        let mut segs: Vec<Segment> = segs;
        let mut i: usize = 0;
        while i < segs.len() && segs.len() - i > 1
            invariant
                i <= segs@.len(),
                self.wf(),
                joined_from(self@, entry::segment_views(segs@), i as int) == want,
                entry::total_len(entry::segment_views(segs@)) <= usize::MAX,
            decreases segs@.len() - i,
        {
            let ghost before = segs@;
            let ghost views = entry::segment_views(before);
            let ghost a = views[i as int];
            let ghost b = views[i + 1];
            proof {
                assert(a == before[i as int]@);
                assert(b == before[i + 1]@);
            }
            let raw: Option<PartOfSpeech> = dominant_pos(&segs[i].candidates);
            let left_len: usize = segs[i].reading.as_str().unicode_len();
            let nxt: Option<PartOfSpeech> = self.effective_right_merge_pos(
                &segs[i + 1],
                raw,
                left_len,
            );
            let cur: Option<PartOfSpeech> = effective_left_merge_pos(&segs[i], nxt);
            match union_for(cur, nxt) {
                None => {
                    i = i + 1;
                },
                Some(u) => {
                    let reading: String = joined(
                        segs[i].reading.as_str(),
                        segs[i + 1].reading.as_str(),
                    );
                    let candidates: Vec<DictionaryEntry> = self.merged_candidates(
                        reading.as_str(),
                        &segs[i],
                        &segs[i + 1],
                        u,
                    );
                    let start: usize = segs[i].start;
                    proof {
                        assert forall|k: int| 0 <= k < views.len() implies (
                        #[trigger] views[k]).len >= 0 by {
                            assert(views[k] == before[k]@);
                        }
                        lemma_pair_len(views, i as int);
                    }
                    let len: usize = segs[i].len + segs[i + 1].len;
                    let whole: Segment = Segment { reading, start, len, candidates };
                    let ghost wv = whole@;
                    let _ = segs.remove(i + 1);
                    segs.set(i, whole);
                    proof {
                        assert(joined_pair(self@, a, b) == Some(wv));
                        assert(entry::segment_views(segs@) =~= views.remove(i + 1).update(
                            i as int,
                            wv,
                        ));
                        lemma_joined_len(views, i as int, wv);
                    }
                },
            }
        }
        segs
    }
}

/// Combined with a particle, a word always takes the leading particle: words
/// that only sound like it are left out.
pub proof fn law_particle_is_the_leading_one(
    reading: Seq<char>,
    ls: Seq<EntryView>,
    entries: Seq<EntryView>,
    i: int,
)
    requires
        entries.filter(of_kind(PartOfSpeech::Particle)).len() > 0,
        0 <= i < compounds(
            reading,
            ls,
            role_candidates(entries, Some(PartOfSpeech::Particle)),
            PartOfSpeech::Particle,
        ).len(),
    ensures
        ({
            let word = compounds(
                reading,
                ls,
                role_candidates(entries, Some(PartOfSpeech::Particle)),
                PartOfSpeech::Particle,
            )[i];
            let particle = entries.filter(of_kind(PartOfSpeech::Particle))[0];
            exists|l: EntryView|
                #[trigger] ls.contains(l) && word.surface == l.surface + particle.surface
        }),
    decreases ls.len(),
{
    let rs = role_candidates(entries, Some(PartOfSpeech::Particle));
    let fitting = entries.filter(of_kind(PartOfSpeech::Particle));
    assert(rs =~= seq![fitting[0]]);
    if ls.len() > 0 {
        let rest = ls.drop_last();
        let before = compounds(reading, rest, rs, PartOfSpeech::Particle);
        if i < before.len() {
            law_particle_is_the_leading_one(reading, rest, entries, i);
            let l = choose|l: EntryView| #[trigger]
                rest.contains(l) && before[i].surface == l.surface + fitting[0].surface;
            let w = choose|w: int| 0 <= w < rest.len() && rest[w] == l;
            assert(ls[w] == l);
            assert(ls.contains(l));
        } else {
            assert(ls.contains(ls[ls.len() - 1]));
        }
    }
}

/// Does a word of kind `p` win over one of kind `q` that is equally frequent?
/// Nouns, verbs and adjectives win over all others, adverbs and interjections over
/// what is left, and particles, auxiliaries and conjunctions over affixes.
pub open spec fn outranks(p: PartOfSpeech, q: PartOfSpeech) -> bool {
    let content = |w: PartOfSpeech|
        w is Noun || w is Verb || w is Adjective;
    let adverbial = |w: PartOfSpeech| w is Adverb || w is Interjection;
    let function = |w: PartOfSpeech|
        w is Particle || w is Auxiliary || w is Conjunction;
    let affix = |w: PartOfSpeech| w is Prefix || w is Suffix || w is Other;
    ||| content(p) && !content(q)
    ||| adverbial(p) && (function(q) || affix(q))
    ||| function(p) && affix(q)
}

/// The most frequent candidate decides what kind of word a segment is. Among
/// equally frequent ones the kind decides, and then the later one.
pub proof fn law_strongest_word_decides(entries: Seq<EntryView>, i: int)
    requires
        0 <= i < entries.len(),
        forall|j: int|
            0 <= j < entries.len() && j != i ==> (#[trigger] entries[j]).frequency
                < entries[i].frequency || (entries[j].frequency == entries[i].frequency && (
            outranks(entries[i].pos, entries[j].pos) || (j < i && !outranks(
                entries[j].pos,
                entries[i].pos,
            )))),
    ensures
        dominant_pos_of(entries) == Some(entries[i].pos),
{
    lemma_strongest(entries, i, entries.len() as int);
    assert(entries.take(entries.len() as int) =~= entries);
}

proof fn lemma_strongest(entries: Seq<EntryView>, i: int, n: int)
    requires
        0 <= i < entries.len(),
        0 <= n <= entries.len(),
        forall|j: int|
            0 <= j < entries.len() && j != i ==> (#[trigger] entries[j]).frequency
                < entries[i].frequency || (entries[j].frequency == entries[i].frequency && (
            outranks(entries[i].pos, entries[j].pos) || (j < i && !outranks(
                entries[j].pos,
                entries[i].pos,
            )))),
    ensures
        (dominant_entry(entries.take(n)) is None) == (n == 0),
        i < n ==> dominant_entry(entries.take(n)) == Some(entries[i]),
        0 < n <= i ==> exists|j: int|
            0 <= j < n && dominant_entry(entries.take(n)) == Some(#[trigger] entries[j]),
    decreases n,
{
    if n > 0 {
        lemma_strongest(entries, i, n - 1);
        let part = entries.take(n);
        assert(part.drop_last() =~= entries.take(n - 1));
        assert(part.last() == entries[n - 1]);
        if 0 < n - 1 <= i {
            let j = choose|j: int|
                0 <= j < n - 1 && dominant_entry(entries.take(n - 1)) == Some(
                    #[trigger] entries[j],
                );
            assert(dominant_entry(part) == Some(entries[n - 1]) || dominant_entry(part) == Some(
                entries[j],
            ));
        }
    }
}

/// A reading falls into a particle and a word behind it where the dictionary has
/// its first character as a particle of frequency 7000 or more and the rest as a
/// noun, verb or adjective of frequency 2000 or more.
pub proof fn law_particle_head(d: Seq<EntryView>, reading: Seq<char>)
    requires
        d.len() <= usize::MAX,
    ensures
        particle_head(d, reading) ==> reading.len() >= 2,
        reading.len() >= 2 && (exists|x: int, y: int|
            0 <= x < d.len() && 0 <= y < d.len() && (#[trigger] d[x]).reading == reading.take(1)
                && d[x].pos is Particle && d[x].frequency >= 7000 && (#[trigger] d[y]).reading
                == reading.skip(1) && (d[y].pos is Noun || d[y].pos is Verb
                || d[y].pos is Adjective) && d[y].frequency >= 2000) ==> particle_head(d, reading),
        (forall|x: int|
            0 <= x < d.len() && (#[trigger] d[x]).reading == reading.take(1) ==> !(
            d[x].pos is Particle) || d[x].frequency < 7000) ==> !particle_head(d, reading),
        (forall|y: int|
            0 <= y < d.len() && (#[trigger] d[y]).reading == reading.skip(1) ==> !(d[y].pos is Noun
                || d[y].pos is Verb || d[y].pos is Adjective) || d[y].frequency < 2000)
            ==> !particle_head(d, reading),
{
    let heads = dictionary::lookup_of(d, reading.take(1));
    let tails = dictionary::lookup_of(d, reading.skip(1));
    dictionary::law_lookup_by_frequency(d, reading.take(1));
    dictionary::law_lookup_by_frequency(d, reading.skip(1));
    dictionary::law_lookup_finds_entries(d, reading.take(1));
    dictionary::law_lookup_finds_entries(d, reading.skip(1));
    if reading.len() >= 2 && exists|x: int, y: int|
        0 <= x < d.len() && 0 <= y < d.len() && (#[trigger] d[x]).reading == reading.take(1)
            && d[x].pos is Particle && d[x].frequency >= 7000 && (#[trigger] d[y]).reading
            == reading.skip(1) && (d[y].pos is Noun || d[y].pos is Verb || d[y].pos is Adjective)
            && d[y].frequency >= 2000 {
        let (x, y) = choose|x: int, y: int|
            0 <= x < d.len() && 0 <= y < d.len() && (#[trigger] d[x]).reading == reading.take(1)
                && d[x].pos is Particle && d[x].frequency >= 7000 && (#[trigger] d[y]).reading
                == reading.skip(1) && (d[y].pos is Noun || d[y].pos is Verb
                || d[y].pos is Adjective) && d[y].frequency >= 2000;
        assert(heads.contains(d[x]));
        assert(tails.contains(d[y]));
    }
}

/// Is the entry at `i` one of the first `n` entries of kind `p`?
pub open spec fn among_first(entries: Seq<EntryView>, i: int, p: PartOfSpeech, n: int) -> bool {
    &&& 0 <= i < entries.len()
    &&& entries[i].pos == p
    &&& entries.take(i).filter(of_kind(p)).len() < n
}

/// Is a word with this surface among the candidates, unless thirty others that are
/// no rarer take all the places?
pub open spec fn offered(candidates: Seq<EntryView>, surface: Seq<char>, frequency: u32) -> bool {
    ||| exists|i: int| 0 <= i < candidates.len() && (#[trigger] candidates[i]).surface == surface
    ||| candidates.len() == 30 && forall|i: int|
        0 <= i < candidates.len() ==> (#[trigger] candidates[i]).frequency >= frequency
}

proof fn lemma_filter_at(s: Seq<EntryView>, pred: spec_fn(EntryView) -> bool, i: int)
    requires
        0 <= i < s.len(),
        pred(s[i]),
    ensures
        s.take(i).filter(pred).len() < s.filter(pred).len(),
        s.filter(pred)[s.take(i).filter(pred).len() as int] == s[i],
    decreases s.len(),
{
    reveal(Seq::filter);
    let rest = s.drop_last();
    if i < s.len() - 1 {
        lemma_filter_at(rest, pred, i);
        assert(rest.take(i) =~= s.take(i));
    } else {
        assert(s.take(i) =~= rest);
    }
}

proof fn lemma_filter_from(s: Seq<EntryView>, pred: spec_fn(EntryView) -> bool, q: int) -> (i: int)
    requires
        0 <= q < s.filter(pred).len(),
    ensures
        0 <= i < s.len(),
        pred(s[i]),
        s.filter(pred)[q] == s[i],
        s.take(i).filter(pred).len() == q,
    decreases s.len(),
{
    reveal(Seq::filter);
    let rest = s.drop_last();
    if q < rest.filter(pred).len() {
        let i = lemma_filter_from(rest, pred, q);
        assert(rest.take(i) =~= s.take(i));
        i
    } else {
        assert(s.take(s.len() - 1) =~= rest);
        s.len() - 1
    }
}

proof fn lemma_takes_part(entries: Seq<EntryView>, p: PartOfSpeech, i: int)
    requires
        among_first(entries, i, p, role_cap(p)),
    ensures
        role_candidates(entries, Some(p)).contains(entries[i]),
{
    lemma_filter_at(entries, of_kind(p), i);
    let q = entries.take(i).filter(of_kind(p)).len() as int;
    let fitting = first(entries.filter(of_kind(p)), role_cap(p));
    assert(fitting[q] == entries[i]);
}

proof fn lemma_took_part(entries: Seq<EntryView>, p: PartOfSpeech, q: int, k: int) -> (i: int)
    requires
        0 <= k < entries.len(),
        entries[k].pos == p,
        0 <= q < role_candidates(entries, Some(p)).len(),
    ensures
        among_first(entries, i, p, role_cap(p)),
        role_candidates(entries, Some(p))[q] == entries[i],
{
    lemma_filter_at(entries, of_kind(p), k);
    lemma_filter_from(entries, of_kind(p), q)
}

proof fn lemma_compounds_hold(
    reading: Seq<char>,
    ls: Seq<EntryView>,
    rs: Seq<EntryView>,
    p: PartOfSpeech,
    x: int,
    y: int,
)
    requires
        0 <= x < ls.len(),
        0 <= y < rs.len(),
    ensures
        compounds(reading, ls, rs, p).contains(compound(reading, ls[x], rs[y], p)),
    decreases ls.len(),
{
    let before = compounds(reading, ls.drop_last(), rs, p);
    let new = compounds_with(reading, ls.last(), rs, p);
    let word = compound(reading, ls[x], rs[y], p);
    if x < ls.len() - 1 {
        lemma_compounds_hold(reading, ls.drop_last(), rs, p, x, y);
        let w = choose|w: int| 0 <= w < before.len() && before[w] == word;
        assert((before + new)[w] == word);
    } else {
        assert(new[y] == word);
        assert((before + new)[before.len() + y] == word);
    }
}

proof fn lemma_compounds_from(
    reading: Seq<char>,
    ls: Seq<EntryView>,
    rs: Seq<EntryView>,
    p: PartOfSpeech,
    i: int,
) -> (xy: (int, int))
    requires
        0 <= i < compounds(reading, ls, rs, p).len(),
    ensures
        0 <= xy.0 < ls.len(),
        0 <= xy.1 < rs.len(),
        compounds(reading, ls, rs, p)[i] == compound(reading, ls[xy.0], rs[xy.1], p),
    decreases ls.len(),
{
    let before = compounds(reading, ls.drop_last(), rs, p);
    if i < before.len() {
        lemma_compounds_from(reading, ls.drop_last(), rs, p, i)
    } else {
        (ls.len() - 1, i - before.len())
    }
}

proof fn lemma_by_frequency(list: Seq<EntryView>)
    ensures
        by_frequency(list).len() == list.len(),
        forall|e: EntryView| #[trigger] by_frequency(list).contains(e) <==> list.contains(e),
        forall|i: int, j: int|
            0 <= i < j < list.len() ==> (#[trigger] by_frequency(list)[i]).frequency >= (
            #[trigger] by_frequency(list)[j]).frequency,
{
    let keys = list.map_values(|e: EntryView| e.frequency as int);
    let order = rank::ranking(keys);
    let out = by_frequency(list);
    rank::lemma_ranking(keys);
    assert forall|e: EntryView| #[trigger] out.contains(e) <==> list.contains(e) by {
        if out.contains(e) {
            let q = choose|q: int| 0 <= q < out.len() && out[q] == e;
            assert(list[order[q]] == e);
        }
        if list.contains(e) {
            let y = choose|y: int| 0 <= y < list.len() && list[y] == e;
            assert(order.contains(y));
            let q = choose|q: int| 0 <= q < order.len() && order[q] == y;
            assert(out[q] == e);
        }
    }
    assert forall|i: int, j: int| 0 <= i < j < list.len() implies (#[trigger] out[i]).frequency >= (
    #[trigger] out[j]).frequency by {
        assert(rank::ranks_before(keys, order[i], order[j]));
    }
}

spec fn stands_for(list: Seq<EntryView>, surface: Seq<char>, frequency: u32) -> bool {
    exists|i: int|
        0 <= i < list.len() && (#[trigger] list[i]).surface == surface && list[i].frequency
            >= frequency
}

#[verifier::spinoff_prover]
#[verifier::rlimit(40)]
proof fn lemma_first_surfaces(list: Seq<EntryView>)
    requires
        forall|i: int, j: int|
            0 <= i < j < list.len() ==> (#[trigger] list[i]).frequency >= (
            #[trigger] list[j]).frequency,
    ensures
        first_surfaces(list).len() <= list.len(),
        forall|i: int|
            0 <= i < first_surfaces(list).len() ==> list.contains(
                #[trigger] first_surfaces(list)[i],
            ),
        forall|i: int, j: int|
            0 <= i < j < first_surfaces(list).len() ==> (#[trigger] first_surfaces(
                list,
            )[i]).frequency >= (#[trigger] first_surfaces(list)[j]).frequency,
        forall|i: int, j: int|
            0 <= i < j < first_surfaces(list).len() ==> (#[trigger] first_surfaces(
                list,
            )[i]).surface != (#[trigger] first_surfaces(list)[j]).surface,
        forall|x: int|
            0 <= x < list.len() ==> stands_for(
                first_surfaces(list),
                (#[trigger] list[x]).surface,
                list[x].frequency,
            ),
    decreases list.len(),
{
    if list.len() > 0 {
        let rest = list.drop_last();
        let last = list.last();
        let before = first_surfaces(rest);
        let out = first_surfaces(list);
        assert forall|i: int, j: int| 0 <= i < j < rest.len() implies (
        #[trigger] rest[i]).frequency >= (#[trigger] rest[j]).frequency by {
            assert(rest[i] == list[i] && rest[j] == list[j]);
        }
        lemma_first_surfaces(rest);
        assert forall|i: int| 0 <= i < out.len() implies list.contains(#[trigger] out[i]) by {
            if i < before.len() {
                assert(out[i] == before[i]);
                let w = choose|w: int| 0 <= w < rest.len() && rest[w] == before[i];
                assert(list[w] == out[i]);
            } else {
                assert(list[list.len() - 1] == out[i]);
            }
        }
        assert forall|i: int| 0 <= i < before.len() implies (
        #[trigger] before[i]).frequency >= last.frequency by {
            let w = choose|w: int| 0 <= w < rest.len() && rest[w] == before[i];
            assert(list[w].frequency >= list[list.len() - 1].frequency);
        }
        assert forall|i: int, j: int| 0 <= i < j < out.len() implies (
        #[trigger] out[i]).frequency >= (#[trigger] out[j]).frequency && out[i].surface
            != out[j].surface by {
            assert(out[i] == before[i]);
            if j < before.len() {
                assert(out[j] == before[j]);
            }
        }
        assert forall|x: int| 0 <= x < list.len() implies stands_for(
            out,
            (#[trigger] list[x]).surface,
            list[x].frequency,
        ) by {
            if x < rest.len() {
                assert(rest[x] == list[x]);
                assert(stands_for(before, rest[x].surface, rest[x].frequency));
                let i = choose|i: int|
                    0 <= i < before.len() && (#[trigger] before[i]).surface == rest[x].surface
                        && before[i].frequency >= rest[x].frequency;
                assert(out[i] == before[i]);
            } else if has_surface(before, last.surface) {
                let i = choose|i: int|
                    0 <= i < before.len() && (#[trigger] before[i]).surface == last.surface;
                assert(out[i] == before[i]);
            } else {
                assert(out[before.len() as int] == last);
            }
        }
    }
}

#[verifier::spinoff_prover]
#[verifier::rlimit(40)]
proof fn lemma_best_of(list: Seq<EntryView>)
    ensures
        ({
            let out = first(first_surfaces(by_frequency(list)), 30);
            &&& out.len() <= 30
            &&& forall|i: int| 0 <= i < out.len() ==> list.contains(#[trigger] out[i])
            &&& forall|i: int, j: int|
                0 <= i < j < out.len() ==> (#[trigger] out[i]).frequency >= (
                #[trigger] out[j]).frequency && out[i].surface != out[j].surface
            &&& forall|x: int|
                0 <= x < list.len() ==> offered(
                    out,
                    (#[trigger] list[x]).surface,
                    list[x].frequency,
                )
        }),
{
    let sorted = by_frequency(list);
    let all = first_surfaces(sorted);
    let out = first(all, 30);
    lemma_by_frequency(list);
    lemma_first_surfaces(sorted);
    assert forall|i: int| 0 <= i < out.len() implies list.contains(#[trigger] out[i]) by {
        assert(out[i] == all[i]);
        assert(sorted.contains(all[i]));
    }
    assert forall|i: int, j: int| 0 <= i < j < out.len() implies (#[trigger] out[i]).frequency >= (
    #[trigger] out[j]).frequency && out[i].surface != out[j].surface by {
        assert(out[i] == all[i] && out[j] == all[j]);
    }
    assert forall|x: int| 0 <= x < list.len() implies offered(
        out,
        (#[trigger] list[x]).surface,
        list[x].frequency,
    ) by {
        assert(sorted.contains(list[x]));
        let w = choose|w: int| 0 <= w < sorted.len() && sorted[w] == list[x];
        assert(stands_for(all, sorted[w].surface, sorted[w].frequency));
        let i = choose|i: int|
            0 <= i < all.len() && (#[trigger] all[i]).surface == sorted[w].surface
                && all[i].frequency >= sorted[w].frequency;
        if i < out.len() {
            assert(out[i] == all[i]);
        } else {
            assert forall|q: int| 0 <= q < out.len() implies (#[trigger] out[q]).frequency
                >= list[x].frequency by {
                assert(out[q] == all[q]);
                assert(all[q].frequency >= all[i].frequency);
            }
        }
    }
}

/// May a compound be made of `l`, which has `left_len` characters, and `r`, which
/// has `right_len`?
pub open spec fn makes_compound(
    l: EntryView,
    r: EntryView,
    left_len: int,
    right_len: int,
) -> bool {
    ||| l.pos is Noun && r.pos is Suffix
    ||| l.pos is Noun && r.pos is Noun && right_len >= 2 && r.frequency >= 5000
    ||| l.pos is Prefix && (r.pos is Noun || r.pos is Suffix) && (left_len >= 2 || l.frequency
        >= 3000)
}

proof fn lemma_paired_holds(
    reading: Seq<char>,
    ls: Seq<EntryView>,
    rs: Seq<EntryView>,
    k: int,
    x: int,
    y: int,
)
    requires
        0 <= x < ls.len(),
        0 <= y < rs.len(),
        pairs_up(ls[x], rs[y], k, reading.len() - k),
    ensures
        paired(reading, ls, rs, k).contains(compound(reading, ls[x], rs[y], PartOfSpeech::Noun)),
    decreases ls.len(),
{
    let l = ls.last();
    let before = paired(reading, ls.drop_last(), rs, k);
    let pred = partner_of(l, k, reading.len() - k);
    let new = compounds_with(reading, l, rs.filter(pred), PartOfSpeech::Noun);
    let word = compound(reading, ls[x], rs[y], PartOfSpeech::Noun);
    if x < ls.len() - 1 {
        lemma_paired_holds(reading, ls.drop_last(), rs, k, x, y);
        let w = choose|w: int| 0 <= w < before.len() && before[w] == word;
        assert((before + new)[w] == word);
    } else {
        lemma_filter_at(rs, pred, y);
        let q = rs.take(y).filter(pred).len() as int;
        assert(new[q] == word);
        assert((before + new)[before.len() + q] == word);
    }
}

proof fn lemma_paired_from(
    reading: Seq<char>,
    ls: Seq<EntryView>,
    rs: Seq<EntryView>,
    k: int,
    i: int,
) -> (xy: (int, int))
    requires
        0 <= i < paired(reading, ls, rs, k).len(),
    ensures
        0 <= xy.0 < ls.len(),
        0 <= xy.1 < rs.len(),
        pairs_up(ls[xy.0], rs[xy.1], k, reading.len() - k),
        paired(reading, ls, rs, k)[i] == compound(
            reading,
            ls[xy.0],
            rs[xy.1],
            PartOfSpeech::Noun,
        ),
    decreases ls.len(),
{
    let l = ls.last();
    let before = paired(reading, ls.drop_last(), rs, k);
    let pred = partner_of(l, k, reading.len() - k);
    if i < before.len() {
        lemma_paired_from(reading, ls.drop_last(), rs, k, i)
    } else {
        let y = lemma_filter_from(rs, pred, i - before.len());
        (ls.len() - 1, y)
    }
}

proof fn lemma_probes_hold(d: Seq<EntryView>, reading: Seq<char>, n: int, k: int, e: EntryView)
    requires
        1 <= k < n,
        probe_at(d, reading, k).contains(e),
    ensures
        probes_before(d, reading, n).contains(e),
    decreases n,
{
    let before = probes_before(d, reading, n - 1);
    let new = probe_at(d, reading, n - 1);
    if k < n - 1 {
        lemma_probes_hold(d, reading, n - 1, k, e);
        let w = choose|w: int| 0 <= w < before.len() && before[w] == e;
        assert((before + new)[w] == e);
    } else {
        let w = choose|w: int| 0 <= w < new.len() && new[w] == e;
        assert((before + new)[before.len() + w] == e);
    }
}

/// Is `e` the compound that arises when the reading is cut after `k` characters,
/// from one of the first four words for each half?
pub open spec fn cut_compound(d: Seq<EntryView>, reading: Seq<char>, e: EntryView, k: int) -> bool {
    let ls = dictionary::lookup_of(d, reading.take(k));
    let rs = dictionary::lookup_of(d, reading.skip(k));
    exists|x: int, y: int|
        0 <= x < ls.len() && x < 4 && 0 <= y < rs.len() && y < 4 && makes_compound(
            #[trigger] ls[x],
            #[trigger] rs[y],
            k,
            reading.len() - k,
        ) && e.surface == ls[x].surface + rs[y].surface && e.frequency == (if ls[x].frequency
            <= rs[y].frequency {
            ls[x].frequency
        } else {
            rs[y].frequency
        }) && e.pos is Noun
}

proof fn lemma_probes_from(d: Seq<EntryView>, reading: Seq<char>, n: int, i: int) -> (k: int)
    requires
        0 <= i < probes_before(d, reading, n).len(),
    ensures
        1 <= k < n,
        probes_before(d, reading, n)[i].reading == reading,
        cut_compound(d, reading, probes_before(d, reading, n)[i], k),
    decreases n,
{
    let before = probes_before(d, reading, n - 1);
    if i < before.len() {
        lemma_probes_from(d, reading, n - 1, i)
    } else {
        let k = n - 1;
        let ls = first(dictionary::lookup_of(d, reading.take(k)), 4);
        let rs = first(dictionary::lookup_of(d, reading.skip(k)), 4);
        let xy = lemma_paired_from(reading, ls, rs, k, i - before.len());
        assert(ls[xy.0] == dictionary::lookup_of(d, reading.take(k))[xy.0]);
        assert(rs[xy.1] == dictionary::lookup_of(d, reading.skip(k))[xy.1]);
        k
    }
}

/// Do the segments `a` and `b`, alone, become one?
pub open spec fn becomes_one(d: Seq<EntryView>, a: SegmentView, b: SegmentView) -> bool {
    let out = joined_from(d, seq![a, b], 0);
    &&& out.len() == 1
    &&& out[0].reading == a.reading + b.reading
    &&& out[0].start == a.start
    &&& out[0].len == a.len + b.len
}

proof fn lemma_pair_alone(d: Seq<EntryView>, a: SegmentView, b: SegmentView)
    ensures
        joined_pair(d, a, b) is None ==> joined_from(d, seq![a, b], 0) == seq![a, b],
        joined_pair(d, a, b) is Some ==> joined_from(d, seq![a, b], 0) == seq![
            joined_pair(d, a, b)->0,
        ],
{
    reveal_with_fuel(joined_from, 2);
    let segs = seq![a, b];
    if joined_pair(d, a, b) is Some {
        assert(segs.remove(1).update(0, joined_pair(d, a, b)->0) =~= seq![
            joined_pair(d, a, b)->0,
        ]);
    }
}

proof fn lemma_pair_offers(d: Seq<EntryView>, a: SegmentView, b: SegmentView, i: int, j: int)
    requires
        0 <= i < a.candidates.len(),
        0 <= j < b.candidates.len(),
        ({
            let nxt = right_role(d, b, dominant_pos_of(a.candidates), a.reading.len() as int);
            let u = union_of(left_role(a, nxt), nxt);
            &&& u is Some
            &&& role_candidates(a.candidates, u->0.left).contains(a.candidates[i])
            &&& role_candidates(b.candidates, u->0.right).contains(b.candidates[j])
        }),
    ensures
        becomes_one(d, a, b),
        ({
            let nxt = right_role(d, b, dominant_pos_of(a.candidates), a.reading.len() as int);
            let u = union_of(left_role(a, nxt), nxt)->0;
            let own = dictionary::lookup_of(d, a.reading + b.reading);
            let found = joined_from(d, seq![a, b], 0)[0].candidates;
            &&& u.from_dictionary && own.len() > 0 ==> found == own
            &&& !u.from_dictionary || own.len() == 0 ==> offered(
                found,
                a.candidates[i].surface + b.candidates[j].surface,
                if a.candidates[i].frequency <= b.candidates[j].frequency {
                    a.candidates[i].frequency
                } else {
                    b.candidates[j].frequency
                },
            )
        }),
{
    let nxt = right_role(d, b, dominant_pos_of(a.candidates), a.reading.len() as int);
    let u = union_of(left_role(a, nxt), nxt)->0;
    let reading = a.reading + b.reading;
    let ls = role_candidates(a.candidates, u.left);
    let rs = role_candidates(b.candidates, u.right);
    let words = compounds(reading, ls, rs, u.pos);
    let list = words + two_piece_words(d, reading);
    lemma_pair_alone(d, a, b);
    lemma_best_of(list);
    let x = choose|x: int| 0 <= x < ls.len() && ls[x] == a.candidates[i];
    let y = choose|y: int| 0 <= y < rs.len() && rs[y] == b.candidates[j];
    lemma_compounds_hold(reading, ls, rs, u.pos, x, y);
    let word = compound(reading, ls[x], rs[y], u.pos);
    let w = choose|w: int| 0 <= w < words.len() && words[w] == word;
    assert(list[w] == word);
}

/// Is there a prefix of frequency 3500 or more among the candidates?
pub open spec fn prefix_in_earnest(entries: Seq<EntryView>) -> bool {
    exists|q: int|
        0 <= q < entries.len() && (#[trigger] entries[q]).pos is Prefix && entries[q].frequency
            >= 3500
}

/// Is there a suffix of frequency 1500 or more among the candidates?
pub open spec fn suffix_in_earnest(entries: Seq<EntryView>) -> bool {
    exists|q: int|
        0 <= q < entries.len() && (#[trigger] entries[q]).pos is Suffix && entries[q].frequency
            >= 1500
}

proof fn lemma_top_frequency(entries: Seq<EntryView>, p: PartOfSpeech)
    ensures
        segmenter::top_frequency(entries, p) >= 0,
        forall|q: int|
            0 <= q < entries.len() && (#[trigger] entries[q]).pos == p ==> entries[q].frequency
                <= segmenter::top_frequency(entries, p),
        segmenter::top_frequency(entries, p) > 0 ==> exists|q: int|
            0 <= q < entries.len() && (#[trigger] entries[q]).pos == p && entries[q].frequency
                == segmenter::top_frequency(entries, p),
    decreases entries.len(),
{
    if entries.len() > 0 {
        let rest = entries.drop_last();
        lemma_top_frequency(rest, p);
        assert forall|q: int| 0 <= q < entries.len() && (#[trigger] entries[q]).pos == p implies
            entries[q].frequency <= segmenter::top_frequency(entries, p) by {
            if q < rest.len() {
                assert(rest[q] == entries[q]);
            }
        }
        if segmenter::top_frequency(entries, p) > 0 {
            if entries.last().pos == p && entries.last().frequency > segmenter::top_frequency(
                rest,
                p,
            ) {
                assert(entries[entries.len() - 1] == entries.last());
            } else {
                let q = choose|q: int|
                    0 <= q < rest.len() && (#[trigger] rest[q]).pos == p && rest[q].frequency
                        == segmenter::top_frequency(rest, p);
                assert(entries[q] == rest[q]);
            }
        }
    }
}

/// Does the segment join a noun as a suffix? Its strongest candidate is one, or it
/// has one of frequency 1500 or more that no particle of frequency 6000 or more
/// exceeds three times over; `q` is where that suffix stands.
pub open spec fn serves_as_suffix(entries: Seq<EntryView>, q: int) -> bool {
    ||| dominant_pos_of(entries) == Some(PartOfSpeech::Suffix)
    ||| (dominant_pos_of(entries) == Some(PartOfSpeech::Particle) || dominant_pos_of(entries)
        == Some(PartOfSpeech::Noun)) && 0 <= q < entries.len() && entries[q].pos is Suffix
        && entries[q].frequency >= 1500 && forall|p: int|
        0 <= p < entries.len() && (#[trigger] entries[p]).pos is Particle ==> entries[p].frequency
            < 6000 || entries[p].frequency < 3 * entries[q].frequency
}

proof fn lemma_serves_as_suffix(
    d: Seq<EntryView>,
    b: SegmentView,
    q: int,
    left: Option<PartOfSpeech>,
    left_len: int,
)
    requires
        left == Some(PartOfSpeech::Noun) || left == Some(PartOfSpeech::Prefix),
        serves_as_suffix(b.candidates, q),
        left_len >= 3 || !particle_head(d, b.reading),
    ensures
        right_role(d, b, left, left_len) == Some(PartOfSpeech::Suffix),
{
    lemma_top_frequency(b.candidates, PartOfSpeech::Particle);
    lemma_top_frequency(b.candidates, PartOfSpeech::Suffix);
    if dominant_pos_of(b.candidates) != Some(PartOfSpeech::Suffix) {
        assert(has_kind(b.candidates, PartOfSpeech::Suffix, SUFFIX_MERGE_THRESHOLD)) by {
            assert(b.candidates[q].pos == PartOfSpeech::Suffix);
        }
    }
}

/// A verb and an auxiliary behind it become one. Where the dictionary has words for
/// the joined reading they are its candidates, else each of the first five words for
/// the verb is offered with the leading auxiliary.
pub proof fn law_verb_takes_auxiliary(d: Seq<EntryView>, a: SegmentView, b: SegmentView, i: int, j: int)
    requires
        dominant_pos_of(a.candidates) == Some(PartOfSpeech::Verb),
        dominant_pos_of(b.candidates) == Some(PartOfSpeech::Auxiliary),
        0 <= i < a.candidates.len(),
        i < 5,
        among_first(b.candidates, j, PartOfSpeech::Auxiliary, 1),
    ensures
        becomes_one(d, a, b),
        ({
            let own = dictionary::lookup_of(d, a.reading + b.reading);
            let found = joined_from(d, seq![a, b], 0)[0].candidates;
            &&& own.len() > 0 ==> found == own
            &&& own.len() == 0 ==> offered(
                found,
                a.candidates[i].surface + b.candidates[j].surface,
                if a.candidates[i].frequency <= b.candidates[j].frequency {
                    a.candidates[i].frequency
                } else {
                    b.candidates[j].frequency
                },
            )
        }),
{
    assert(first(a.candidates, 5)[i] == a.candidates[i]);
    lemma_takes_part(b.candidates, PartOfSpeech::Auxiliary, j);
    lemma_pair_offers(d, a, b, i, j);
}

/// A noun and a conjunction behind it become one, in the same way.
pub proof fn law_noun_takes_conjunction(d: Seq<EntryView>, a: SegmentView, b: SegmentView, i: int, j: int)
    requires
        dominant_pos_of(a.candidates) == Some(PartOfSpeech::Noun),
        dominant_pos_of(b.candidates) == Some(PartOfSpeech::Conjunction),
        0 <= i < a.candidates.len(),
        i < 5,
        among_first(b.candidates, j, PartOfSpeech::Conjunction, 1),
    ensures
        becomes_one(d, a, b),
        ({
            let own = dictionary::lookup_of(d, a.reading + b.reading);
            let found = joined_from(d, seq![a, b], 0)[0].candidates;
            &&& own.len() > 0 ==> found == own
            &&& own.len() == 0 ==> offered(
                found,
                a.candidates[i].surface + b.candidates[j].surface,
                if a.candidates[i].frequency <= b.candidates[j].frequency {
                    a.candidates[i].frequency
                } else {
                    b.candidates[j].frequency
                },
            )
        }),
{
    assert(first(a.candidates, 5)[i] == a.candidates[i]);
    lemma_takes_part(b.candidates, PartOfSpeech::Conjunction, j);
    lemma_pair_offers(d, a, b, i, j);
}

/// A noun and a particle behind it become one: each of the first five words for the
/// noun is offered with the leading particle, whatever the dictionary has for the
/// joined reading. A suffix of the same sound does not count where it is rare, where a
/// strong particle exceeds it three times over, or where the noun is short and the
/// reading falls into a particle and a word.
pub proof fn law_noun_takes_particle(d: Seq<EntryView>, a: SegmentView, b: SegmentView, i: int, j: int, q: int)
    requires
        dominant_pos_of(a.candidates) == Some(PartOfSpeech::Noun),
        dominant_pos_of(b.candidates) == Some(PartOfSpeech::Particle),
        0 <= i < a.candidates.len(),
        i < 5,
        among_first(b.candidates, j, PartOfSpeech::Particle, 1),
        !suffix_in_earnest(b.candidates) || (a.reading.len() < 3 && particle_head(d, b.reading)) || (0
            <= q < b.candidates.len() && b.candidates[q].pos is Particle
            && b.candidates[q].frequency >= 6000 && forall|s: int|
            0 <= s < b.candidates.len() && (#[trigger] b.candidates[s]).pos is Suffix ==> 3
                * b.candidates[s].frequency <= b.candidates[q].frequency),
    ensures
        becomes_one(d, a, b),
        ({
            let own = dictionary::lookup_of(d, a.reading + b.reading);
            let found = joined_from(d, seq![a, b], 0)[0].candidates;
            offered(
                found,
                a.candidates[i].surface + b.candidates[j].surface,
                if a.candidates[i].frequency <= b.candidates[j].frequency {
                    a.candidates[i].frequency
                } else {
                    b.candidates[j].frequency
                },
            )
        }),
{
    lemma_top_frequency(b.candidates, PartOfSpeech::Particle);
    lemma_top_frequency(b.candidates, PartOfSpeech::Suffix);
    assert(first(a.candidates, 5)[i] == a.candidates[i]);
    lemma_takes_part(b.candidates, PartOfSpeech::Particle, j);
    lemma_pair_offers(d, a, b, i, j);
}

/// A noun that is no prefix in earnest and a suffix behind it become one: each of the
/// first five nouns is offered with each of the first five suffixes, unless the
/// dictionary has words for the joined reading.
pub proof fn law_noun_takes_suffix(d: Seq<EntryView>, a: SegmentView, b: SegmentView, i: int, j: int, q: int)
    requires
        dominant_pos_of(a.candidates) == Some(PartOfSpeech::Noun),
        !prefix_in_earnest(a.candidates),
        serves_as_suffix(b.candidates, q),
        a.reading.len() >= 3 || !particle_head(d, b.reading),
        among_first(a.candidates, i, PartOfSpeech::Noun, 5),
        among_first(b.candidates, j, PartOfSpeech::Suffix, 5),
    ensures
        becomes_one(d, a, b),
        ({
            let own = dictionary::lookup_of(d, a.reading + b.reading);
            let found = joined_from(d, seq![a, b], 0)[0].candidates;
            &&& own.len() > 0 ==> found == own
            &&& own.len() == 0 ==> offered(
                found,
                a.candidates[i].surface + b.candidates[j].surface,
                if a.candidates[i].frequency <= b.candidates[j].frequency {
                    a.candidates[i].frequency
                } else {
                    b.candidates[j].frequency
                },
            )
        }),
{
    lemma_serves_as_suffix(d, b, q, Some(PartOfSpeech::Noun), a.reading.len() as int);
    lemma_takes_part(a.candidates, PartOfSpeech::Noun, i);
    lemma_takes_part(b.candidates, PartOfSpeech::Suffix, j);
    lemma_pair_offers(d, a, b, i, j);
}

/// A prefix, or a noun that is a prefix in earnest, and a noun behind it that is no
/// suffix in earnest become one: each of the first five prefixes is offered with each
/// of the first five nouns, unless the dictionary has words for the joined reading.
pub proof fn law_prefix_takes_noun(d: Seq<EntryView>, a: SegmentView, b: SegmentView, i: int, j: int)
    requires
        dominant_pos_of(a.candidates) == Some(PartOfSpeech::Prefix) || (dominant_pos_of(a.candidates)
            == Some(PartOfSpeech::Noun) && prefix_in_earnest(a.candidates)),
        dominant_pos_of(b.candidates) == Some(PartOfSpeech::Noun),
        !suffix_in_earnest(b.candidates),
        among_first(a.candidates, i, PartOfSpeech::Prefix, 5),
        among_first(b.candidates, j, PartOfSpeech::Noun, 5),
    ensures
        becomes_one(d, a, b),
        ({
            let own = dictionary::lookup_of(d, a.reading + b.reading);
            let found = joined_from(d, seq![a, b], 0)[0].candidates;
            &&& own.len() > 0 ==> found == own
            &&& own.len() == 0 ==> offered(
                found,
                a.candidates[i].surface + b.candidates[j].surface,
                if a.candidates[i].frequency <= b.candidates[j].frequency {
                    a.candidates[i].frequency
                } else {
                    b.candidates[j].frequency
                },
            )
        }),
{
    lemma_takes_part(a.candidates, PartOfSpeech::Prefix, i);
    lemma_takes_part(b.candidates, PartOfSpeech::Noun, j);
    lemma_pair_offers(d, a, b, i, j);
}

/// A prefix, or a noun that is a prefix in earnest, and a suffix behind it become one,
/// in the same way.
pub proof fn law_prefix_takes_suffix(d: Seq<EntryView>, a: SegmentView, b: SegmentView, i: int, j: int, q: int)
    requires
        dominant_pos_of(a.candidates) == Some(PartOfSpeech::Prefix) || (dominant_pos_of(a.candidates)
            == Some(PartOfSpeech::Noun) && prefix_in_earnest(a.candidates)),
        serves_as_suffix(b.candidates, q),
        a.reading.len() >= 3 || !particle_head(d, b.reading),
        among_first(a.candidates, i, PartOfSpeech::Prefix, 5),
        among_first(b.candidates, j, PartOfSpeech::Suffix, 5),
    ensures
        becomes_one(d, a, b),
        ({
            let own = dictionary::lookup_of(d, a.reading + b.reading);
            let found = joined_from(d, seq![a, b], 0)[0].candidates;
            &&& own.len() > 0 ==> found == own
            &&& own.len() == 0 ==> offered(
                found,
                a.candidates[i].surface + b.candidates[j].surface,
                if a.candidates[i].frequency <= b.candidates[j].frequency {
                    a.candidates[i].frequency
                } else {
                    b.candidates[j].frequency
                },
            )
        }),
{
    lemma_serves_as_suffix(
        d,
        b,
        q,
        dominant_pos_of(a.candidates),
        a.reading.len() as int,
    );
    lemma_takes_part(a.candidates, PartOfSpeech::Prefix, i);
    lemma_takes_part(b.candidates, PartOfSpeech::Suffix, j);
    lemma_pair_offers(d, a, b, i, j);
}

/// Words that do not belong together stay as they are: what is no noun, verb or
/// prefix takes nothing; a verb takes an auxiliary only; a noun or prefix takes no
/// verb, adjective, adverb, interjection, prefix, auxiliary or unknown; nouns stay
/// apart unless the first is a prefix or the second a suffix in earnest, and so do a
/// short noun and a suffix that falls into a particle and a word.
pub proof fn law_words_stay_apart(d: Seq<EntryView>, a: SegmentView, b: SegmentView)
    requires
        ({
            let p = dominant_pos_of(a.candidates);
            let q = dominant_pos_of(b.candidates);
            ||| p is None || q is None
            ||| p->0 is Adjective || p->0 is Adverb || p->0 is Interjection || p->0 is Particle
                || p->0 is Auxiliary || p->0 is Conjunction || p->0 is Suffix || p->0 is Other
            ||| p->0 is Verb && !(q->0 is Auxiliary)
            ||| !(p->0 is Verb) && (q->0 is Verb || q->0 is Adjective || q->0 is Adverb
                || q->0 is Interjection || q->0 is Prefix || q->0 is Auxiliary || q->0 is Other)
            ||| p->0 is Noun && q->0 is Noun && !prefix_in_earnest(a.candidates)
                && !suffix_in_earnest(b.candidates)
            ||| p->0 is Noun && q->0 is Suffix && !prefix_in_earnest(a.candidates)
                && a.reading.len() < 3 && particle_head(d, b.reading)
            ||| p->0 is Prefix && q->0 is Conjunction
            ||| p->0 is Prefix && q->0 is Particle && !suffix_in_earnest(b.candidates)
        }),
    ensures
        joined_from(d, seq![a, b], 0) == seq![a, b],
{
    lemma_pair_alone(d, a, b);
}

/// What two joined segments offer is ordered by frequency, at most thirty words,
/// none twice, all for the joined reading. Each is made of a word for the first and
/// one for the second segment, or of two dictionary words for the parts of another
/// cut, and is as frequent as the rarer of the two.
pub proof fn law_joined_words_are_compounds(
    d: Seq<EntryView>,
    a: SegmentView,
    b: SegmentView,
    i: int,
    j: int,
)
    requires
        joined_from(d, seq![a, b], 0).len() == 1,
        dictionary::lookup_of(d, a.reading + b.reading).len() == 0,
        0 <= i < joined_from(d, seq![a, b], 0)[0].candidates.len(),
    ensures
        ({
            let found = joined_from(d, seq![a, b], 0)[0].candidates;
            let reading = a.reading + b.reading;
            let e = found[i];
            &&& found.len() <= 30
            &&& i < j < found.len() ==> e.frequency >= found[j].frequency && e.surface
                != found[j].surface
            &&& e.reading == reading
            &&& (exists|x: int, y: int|
                0 <= x < a.candidates.len() && 0 <= y < b.candidates.len() && e.surface == (
                #[trigger] a.candidates[x]).surface + (#[trigger] b.candidates[y]).surface
                    && e.frequency == (if a.candidates[x].frequency <= b.candidates[y].frequency {
                    a.candidates[x].frequency
                } else {
                    b.candidates[y].frequency
                })) || (reading.len() >= 3 && exists|k: int|
                1 <= k < reading.len() && #[trigger] cut_compound(d, reading, e, k))
        }),
{
    let nxt = right_role(d, b, dominant_pos_of(a.candidates), a.reading.len() as int);
    let reading = a.reading + b.reading;
    lemma_pair_alone(d, a, b);
    let u = union_of(left_role(a, nxt), nxt)->0;
    let ls = role_candidates(a.candidates, u.left);
    let rs = role_candidates(b.candidates, u.right);
    let words = compounds(reading, ls, rs, u.pos);
    let list = words + two_piece_words(d, reading);
    lemma_best_of(list);
    let found = joined_from(d, seq![a, b], 0)[0].candidates;
    let e = found[i];
    assert(list.contains(e));
    let w = choose|w: int| 0 <= w < list.len() && list[w] == e;
    if w < words.len() {
        let xy = lemma_compounds_from(reading, ls, rs, u.pos, w);
        let x = lemma_role_from(a.candidates, u.left, xy.0);
        let y = lemma_role_from(b.candidates, u.right, xy.1);
        assert(e.surface == a.candidates[x].surface + b.candidates[y].surface);
    } else {
        let k = lemma_probes_from(d, reading, reading.len() as int, w - words.len());
        assert(cut_compound(d, reading, e, k));
    }
}

proof fn lemma_role_from(entries: Seq<EntryView>, role: Option<PartOfSpeech>, q: int) -> (i: int)
    requires
        0 <= q < role_candidates(entries, role).len(),
    ensures
        0 <= i < entries.len(),
        role_candidates(entries, role)[q] == entries[i],
        role is None ==> i < 5,
{
    match role {
        Some(p) => {
            let fitting = first(entries.filter(of_kind(p)), role_cap(p));
            if fitting.len() > 0 {
                lemma_filter_from(entries, of_kind(p), q)
            } else {
                q
            }
        },
        None => q,
    }
}

/// Joined with a particle, an auxiliary or a conjunction, a word takes the leading
/// one only, and only its first five spellings take part.
pub proof fn law_leading_function_word_is_taken(
    d: Seq<EntryView>,
    a: SegmentView,
    b: SegmentView,
    p: PartOfSpeech,
    i: int,
)
    requires
        p is Particle || p is Auxiliary || p is Conjunction,
        joined_from(d, seq![a, b], 0).len() == 1,
        p is Particle || dictionary::lookup_of(d, a.reading + b.reading).len() == 0,
        dominant_pos_of(a.candidates) == Some(
            if p is Auxiliary {
                PartOfSpeech::Verb
            } else {
                PartOfSpeech::Noun
            },
        ),
        dominant_pos_of(b.candidates) == Some(p),
        !suffix_in_earnest(b.candidates),
        0 <= i < joined_from(d, seq![a, b], 0)[0].candidates.len(),
        joined_from(d, seq![a, b], 0)[0].candidates[i].pos == p,
    ensures
        exists|x: int, y: int|
            0 <= x < a.candidates.len() && x < 5 && among_first(b.candidates, y, p, 1)
                && joined_from(d, seq![a, b], 0)[0].candidates[i].surface == (
            #[trigger] a.candidates[x]).surface + (#[trigger] b.candidates[y]).surface,
{
    let nxt = right_role(d, b, dominant_pos_of(a.candidates), a.reading.len() as int);
    let reading = a.reading + b.reading;
    lemma_pair_alone(d, a, b);
    let u = union_of(left_role(a, nxt), nxt)->0;
    let ls = role_candidates(a.candidates, u.left);
    let rs = role_candidates(b.candidates, u.right);
    let words = compounds(reading, ls, rs, u.pos);
    let list = words + two_piece_words(d, reading);
    lemma_best_of(list);
    let e = joined_from(d, seq![a, b], 0)[0].candidates[i];
    assert(list.contains(e));
    let w = choose|w: int| 0 <= w < list.len() && list[w] == e;
    if w < words.len() {
        let xy = lemma_compounds_from(reading, ls, rs, u.pos, w);
        let x = lemma_role_from(a.candidates, u.left, xy.0);
        let k = lemma_dominant_from(b.candidates);
        let y = lemma_took_part(b.candidates, p, xy.1, k);
        assert(e.surface == a.candidates[x].surface + b.candidates[y].surface);
    } else {
        let k = lemma_probes_from(d, reading, reading.len() as int, w - words.len());
        assert(cut_compound(d, reading, e, k));
    }
}

proof fn lemma_dominant_from(entries: Seq<EntryView>) -> (i: int)
    requires
        entries.len() > 0,
    ensures
        0 <= i < entries.len(),
        dominant_entry(entries) == Some(entries[i]),
    decreases entries.len(),
{
    let rest = entries.drop_last();
    if rest.len() == 0 || dominant_entry(entries) == Some(entries.last()) {
        assert(rest.len() == 0 ==> dominant_entry(rest) is None);
        entries.len() - 1
    } else {
        lemma_dominant_from(rest)
    }
}

/// A noun and a suffix with a joined reading of two characters offer compounds of
/// the first five nouns with the first five suffixes, and nothing else.
pub proof fn law_first_five_take_part(
    d: Seq<EntryView>,
    a: SegmentView,
    b: SegmentView,
    q: int,
    i: int,
)
    requires
        a.reading.len() + b.reading.len() < 3,
        dictionary::lookup_of(d, a.reading + b.reading).len() == 0,
        dominant_pos_of(a.candidates) == Some(PartOfSpeech::Noun),
        !prefix_in_earnest(a.candidates),
        serves_as_suffix(b.candidates, q),
        !particle_head(d, b.reading),
        0 <= i < joined_from(d, seq![a, b], 0)[0].candidates.len(),
    ensures
        joined_from(d, seq![a, b], 0).len() == 1,
        exists|x: int, y: int|
            among_first(a.candidates, x, PartOfSpeech::Noun, 5) && among_first(
                b.candidates,
                y,
                PartOfSpeech::Suffix,
                5,
            ) && joined_from(d, seq![a, b], 0)[0].candidates[i].surface == (
            #[trigger] a.candidates[x]).surface + (#[trigger] b.candidates[y]).surface,
{
    let reading = a.reading + b.reading;
    lemma_serves_as_suffix(d, b, q, Some(PartOfSpeech::Noun), a.reading.len() as int);
    lemma_pair_alone(d, a, b);
    let noun = PartOfSpeech::Noun;
    let suffix = PartOfSpeech::Suffix;
    let ls = role_candidates(a.candidates, Some(noun));
    let rs = role_candidates(b.candidates, Some(suffix));
    let words = compounds(reading, ls, rs, noun);
    let list = words + two_piece_words(d, reading);
    lemma_best_of(list);
    let e = joined_from(d, seq![a, b], 0)[0].candidates[i];
    assert(list.contains(e));
    let w = choose|w: int| 0 <= w < list.len() && list[w] == e;
    let xy = lemma_compounds_from(reading, ls, rs, noun, w);
    let k = lemma_dominant_from(a.candidates);
    let x = lemma_took_part(a.candidates, noun, xy.0, k);
    let m = if dominant_pos_of(b.candidates) == Some(suffix) {
        lemma_dominant_from(b.candidates)
    } else {
        q
    };
    let y = lemma_took_part(b.candidates, suffix, xy.1, m);
    assert(e.surface == a.candidates[x].surface + b.candidates[y].surface);
}

/// Where two segments are joined and the dictionary has no word for the joined
/// reading of three or more characters, the compounds of its other cuts are offered
/// too: of the first four words for each part, where the two go together.
pub proof fn law_other_cuts_are_offered(
    d: Seq<EntryView>,
    a: SegmentView,
    b: SegmentView,
    k: int,
    x: int,
    y: int,
)
    requires
        joined_from(d, seq![a, b], 0).len() == 1,
        dictionary::lookup_of(d, a.reading + b.reading).len() == 0,
        a.reading.len() + b.reading.len() >= 3,
        1 <= k < a.reading.len() + b.reading.len(),
        ({
            let reading = a.reading + b.reading;
            let ls = dictionary::lookup_of(d, reading.take(k));
            let rs = dictionary::lookup_of(d, reading.skip(k));
            &&& 0 <= x < ls.len() && x < 4
            &&& 0 <= y < rs.len() && y < 4
            &&& makes_compound(ls[x], rs[y], k, reading.len() - k)
        }),
    ensures
        ({
            let reading = a.reading + b.reading;
            let l = dictionary::lookup_of(d, reading.take(k))[x];
            let r = dictionary::lookup_of(d, reading.skip(k))[y];
            offered(
                joined_from(d, seq![a, b], 0)[0].candidates,
                l.surface + r.surface,
                if l.frequency <= r.frequency {
                    l.frequency
                } else {
                    r.frequency
                },
            )
        }),
{
    let nxt = right_role(d, b, dominant_pos_of(a.candidates), a.reading.len() as int);
    let reading = a.reading + b.reading;
    lemma_pair_alone(d, a, b);
    let u = union_of(left_role(a, nxt), nxt)->0;
    let words = compounds(
        reading,
        role_candidates(a.candidates, u.left),
        role_candidates(b.candidates, u.right),
        u.pos,
    );
    let list = words + two_piece_words(d, reading);
    lemma_best_of(list);
    let ls = first(dictionary::lookup_of(d, reading.take(k)), 4);
    let rs = first(dictionary::lookup_of(d, reading.skip(k)), 4);
    assert(ls[x] == dictionary::lookup_of(d, reading.take(k))[x]);
    assert(rs[y] == dictionary::lookup_of(d, reading.skip(k))[y]);
    lemma_paired_holds(reading, ls, rs, k, x, y);
    let word = compound(reading, ls[x], rs[y], PartOfSpeech::Noun);
    lemma_probes_hold(d, reading, reading.len() as int, k, word);
    let two = two_piece_words(d, reading);
    let w = choose|w: int| 0 <= w < two.len() && two[w] == word;
    assert(list[words.len() + w] == word);
}

/// A segment of two characters that is a suffix, has no noun, verb or adjective of
/// frequency 4500 or more and falls into a particle and a word is taken apart;
/// every other segment stays whole.
pub proof fn law_hidden_particle_comes_out(d: Seq<EntryView>, segs: Seq<SegmentView>, s: SegmentView)
    ensures
        ({
            let before = split_heads(d, segs);
            let after = split_heads(d, segs.push(s));
            let n = before.len() as int;
            let hides = s.reading.len() == 2 && dominant_pos_of(s.candidates) == Some(
                PartOfSpeech::Suffix,
            ) && particle_head(d, s.reading) && forall|i: int|
                0 <= i < s.candidates.len() ==> (#[trigger] s.candidates[i]).frequency < 4500 || !(
                s.candidates[i].pos is Noun || s.candidates[i].pos is Verb
                    || s.candidates[i].pos is Adjective);
            &&& !hides ==> after == before.push(s)
            &&& hides ==> {
                &&& after.len() == n + 2
                &&& before.is_prefix_of(after)
                &&& after[n].reading == seq![s.reading[0]]
                &&& after[n].start == s.start
                &&& after[n].len == 1
                &&& after[n].candidates == dictionary::lookup_of(
                    d,
                    seq![s.reading[0]],
                )
                &&& after[n + 1].reading == seq![s.reading[1]]
                &&& after[n + 1].start == s.start + 1
                &&& after[n + 1].len == 1
                &&& after[n + 1].candidates == dictionary::lookup_of(
                    d,
                    seq![s.reading[1]],
                )
            }
        }),
{
    let before = split_heads(d, segs);
    assert(segs.push(s).drop_last() =~= segs);
    assert(segs.push(s).last() == s);
    let one = split_head(d, s);
    if hides_particle(d, s) {
        assert(s.reading.take(1) =~= seq![s.reading[0]]);
        assert(s.reading.skip(1) =~= seq![s.reading[1]]);
    } else {
        assert(before + one =~= before.push(s));
    }
}

proof fn lemma_joined_behind(d: Seq<EntryView>, a: SegmentView, segs: Seq<SegmentView>, i: int)
    requires
        0 <= i,
    ensures
        joined_from(d, seq![a] + segs, i + 1) == seq![a] + joined_from(d, segs, i),
    decreases segs.len() - i,
{
    let all = seq![a] + segs;
    if i + 1 < segs.len() {
        assert(all[i + 1] == segs[i] && all[i + 2] == segs[i + 1]);
        match joined_pair(d, segs[i], segs[i + 1]) {
            None => {
                lemma_joined_behind(d, a, segs, i + 1);
            },
            Some(m) => {
                let next = segs.remove(i + 1).update(i, m);
                assert(all.remove(i + 2).update(i + 1, m) =~= seq![a] + next);
                lemma_joined_behind(d, a, next, i);
            },
        }
    }
}

/// Words are joined from the left. Where the first two become one, that one is tried
/// with what follows; where they stay apart, the first is done and the second is tried.
pub proof fn law_words_are_joined_from_the_left(
    d: Seq<EntryView>,
    a: SegmentView,
    b: SegmentView,
    rest: Seq<SegmentView>,
)
    ensures
        ({
            let pair = joined_from(d, seq![a, b], 0);
            &&& pair.len() == 1 ==> joined_from(d, seq![a, b] + rest, 0) == joined_from(
                d,
                pair + rest,
                0,
            )
            &&& pair.len() != 1 ==> joined_from(d, seq![a, b] + rest, 0) == seq![a] + joined_from(
                d,
                seq![b] + rest,
                0,
            )
        }),
        joined_from(d, seq![a], 0) == seq![a],
        joined_from(d, Seq::<SegmentView>::empty(), 0) == Seq::<SegmentView>::empty(),
{
    let all = seq![a, b] + rest;
    lemma_pair_alone(d, a, b);
    assert(all[0] == a && all[1] == b);
    match joined_pair(d, a, b) {
        None => {
            assert(all =~= seq![a] + (seq![b] + rest));
            lemma_joined_behind(d, a, seq![b] + rest, 0);
        },
        Some(m) => {
            assert(all.remove(1).update(0, m) =~= seq![m] + rest);
        },
    }
}

} // verus!
