//! What was learned from the user: how often a surface was chosen for a
//! reading, and which segmentations were made by hand.
//!
//! Selections and segmentations are also kept in a persistent store. The store
//! is written first; memory follows only when the store succeeded, so that the
//! two never disagree for longer than one call.
use vstd::prelude::*;

use crate::dictionary::StoreFailed;
use crate::entry;
use crate::entry::{DictionaryEntry, EntryView};
use crate::nano;
use crate::nano::{NanoTable, ONE};
use crate::segmenter::SegmentBoost;
use crate::textmap::TextMap;

verus! {

/// How much a fully learned word weighs against the cost of a segment.
pub const BOOST_SCALE: i64 = 10;

/// The key under which a selection is counted.
pub open spec fn score_key(reading: Seq<char>, surface: Seq<char>) -> Seq<char> {
    reading.push('|') + surface
}

/// The key under which a selection is counted.
pub fn key(reading: &str, surface: &str) -> (out: String)
    ensures
        out@ == score_key(reading@, surface@),
{
    let mut out: String = reading.to_owned();
    out.push('|');
    out.append(surface);
    out
}

/// The counts without those of the given pairs.
pub open spec fn without_pairs(m: Map<Seq<char>, u32>, pairs: Seq<(String, String)>) -> Map<
    Seq<char>,
    u32,
>
    decreases pairs.len(),
{
    if pairs.len() == 0 {
        m
    } else {
        without_pairs(m, pairs.drop_last()).remove(
            score_key(pairs.last().0@, pairs.last().1@),
        )
    }
}

/// The layouts without those of the given readings.
pub open spec fn without_keys(m: Map<Seq<char>, Vec<usize>>, keys: Seq<String>) -> Map<
    Seq<char>,
    Vec<usize>,
>
    decreases keys.len(),
{
    if keys.len() == 0 {
        m
    } else {
        without_keys(m, keys.drop_last()).remove(keys.last()@)
    }
}

/// One selection more; the count stops at its largest value.
pub open spec fn counted(m: Map<Seq<char>, u32>, k: Seq<char>) -> Map<Seq<char>, u32> {
    m.insert(
        k,
        if !m.contains_key(k) {
            1
        } else if m[k] == u32::MAX {
            u32::MAX
        } else {
            (m[k] + 1) as u32
        },
    )
}

/// The score of a selection that was counted under `k`.
pub open spec fn score_in(m: Map<Seq<char>, u32>, table: NanoTable, k: Seq<char>) -> int {
    if !m.contains_key(k) {
        0
    } else if table.at(m[k] as int) < ONE {
        table.at(m[k] as int)
    } else {
        ONE as int
    }
}

/// The highest score among the entries of a reading.
pub open spec fn best_score(
    m: Map<Seq<char>, u32>,
    table: NanoTable,
    reading: Seq<char>,
    entries: Seq<EntryView>,
) -> int
    decreases entries.len(),
{
    if entries.len() == 0 {
        0
    } else {
        let rest = best_score(m, table, reading, entries.drop_last());
        let s = score_in(m, table, score_key(reading, entries.last().surface));
        if s > rest {
            s
        } else {
            rest
        }
    }
}

/// What was learned from the user.
pub struct UserScorer {
    selections: TextMap<u32>,
    segmentations: TextMap<Vec<usize>>,
    table: NanoTable,
}

impl UserScorer {
    /// How often each selection was made.
    pub closed spec fn counts(self) -> Map<Seq<char>, u32> {
        self.selections@
    }

    /// The segmentation learned for each reading, as boundaries: the starts of
    /// all segments but the first.
    pub closed spec fn layouts(self) -> Map<Seq<char>, Vec<usize>> {
        self.segmentations@
    }

    /// The score for every number of selections.
    pub closed spec fn score_table(self) -> NanoTable {
        self.table
    }

    /// Structural well-formedness.
    pub closed spec fn wf(self) -> bool {
        self.selections.wf() && self.segmentations.wf() && self.table.wf()
    }

    /// The score of a pair of reading and surface.
    pub open spec fn score_of(self, reading: Seq<char>, surface: Seq<char>) -> int {
        score_in(self.counts(), self.score_table(), score_key(reading, surface))
    }

    /// A scorer that has learned nothing. `table` gives the score for every
    /// number of selections.
    pub fn new(table: NanoTable) -> (scorer: UserScorer)
        requires
            table.wf(),
        ensures
            scorer.wf(),
            scorer.counts() == Map::<Seq<char>, u32>::empty(),
            scorer.layouts() == Map::<Seq<char>, Vec<usize>>::empty(),
            scorer.score_table() == table,
    {
        UserScorer { selections: TextMap::new(), segmentations: TextMap::new(), table }
    }

    /// Takes over a stored count.
    pub fn load_score(&mut self, reading: &str, surface: &str, count: u32)
        requires
            old(self).wf(),
        ensures
            final(self).wf(),
            final(self).counts() == old(self).counts().insert(
                score_key(reading@, surface@),
                count,
            ),
            final(self).layouts() == old(self).layouts(),
            final(self).score_table() == old(self).score_table(),
    {
        let k: String = key(reading, surface);
        self.selections.insert(k.as_str(), count);
    }

    /// Takes over a stored segmentation.
    pub fn load_segmentation(&mut self, kana: &str, boundaries: Vec<usize>)
        requires
            old(self).wf(),
        ensures
            final(self).wf(),
            final(self).counts() == old(self).counts(),
            final(self).layouts() == old(self).layouts().insert(kana@, boundaries),
            final(self).score_table() == old(self).score_table(),
    {
        self.segmentations.insert(kana, boundaries);
    }

    /// Counts a selection. `stored` is what the store answered: the pairs it
    /// gave up to make room, none where no store is attached, or that it
    /// failed, in which case nothing is counted.
    pub fn record(
        &mut self,
        reading: &str,
        surface: &str,
        stored: Result<&Vec<(String, String)>, StoreFailed>,
    ) -> (done: Result<(), StoreFailed>)
        requires
            old(self).wf(),
        ensures
            final(self).wf(),
            done is Err <==> stored is Err,
            final(self).layouts() == old(self).layouts(),
            final(self).score_table() == old(self).score_table(),
            final(self).counts() == (match stored {
                Ok(evicted) => without_pairs(
                    counted(old(self).counts(), score_key(reading@, surface@)),
                    evicted@,
                ),
                Err(_) => old(self).counts(),
            }),
    {
        let evicted: &Vec<(String, String)> = match stored {
            Ok(v) => v,
            Err(e) => {
                return Err(e);
            },
        };
        let k: String = key(reading, surface);
        let next: u32 = match self.selections.get(k.as_str()) {
            Some(c) => if *c == u32::MAX {
                u32::MAX
            } else {
                *c + 1
            },
            None => 1,
        };
        self.selections.insert(k.as_str(), next);
        let ghost m = self.selections@;
        let ghost layouts = self.segmentations;
        let ghost table = self.table;
        let mut i: usize = 0;
        assert(evicted@.take(0) =~= Seq::empty());
        while i < evicted.len()
            invariant
                i <= evicted@.len(),
                self.wf(),
                self.segmentations == layouts,
                self.table == table,
                self.selections@ == without_pairs(m, evicted@.take(i as int)),
            decreases evicted@.len() - i,
        {
            let gone: String = key(evicted[i].0.as_str(), evicted[i].1.as_str());
            let _ = self.selections.remove(gone.as_str());
            proof {
                assert(evicted@.take(i + 1).drop_last() =~= evicted@.take(i as int));
                assert(evicted@.take(i + 1).last() == evicted@[i as int]);
            }
            i = i + 1;
        }
        assert(evicted@.take(i as int) =~= evicted@);
        Ok(())
    }

    /// Forgets everything. `stored` is what the store answered: how many rows
    /// it deleted, or that it failed, in which case nothing is forgotten.
    pub fn clear_scores(&mut self, stored: Result<usize, StoreFailed>) -> (done: Result<
        usize,
        StoreFailed,
    >)
        requires
            old(self).wf(),
        ensures
            final(self).wf(),
            done == stored,
            final(self).score_table() == old(self).score_table(),
            stored is Err ==> final(self).counts() == old(self).counts() && final(self).layouts()
                == old(self).layouts(),
            stored is Ok ==> final(self).counts() == Map::<Seq<char>, u32>::empty()
                && final(self).layouts() == Map::<Seq<char>, Vec<usize>>::empty(),
    {
        if stored.is_ok() {
            self.selections.clear();
            self.segmentations.clear();
        }
        stored
    }

    /// Learns a segmentation. `stored` is what the store answered: the readings
    /// it gave up to make room, or that it failed, in which case nothing is
    /// learned.
    pub fn record_segmentation(
        &mut self,
        kana: &str,
        boundaries: Vec<usize>,
        stored: Result<&Vec<String>, StoreFailed>,
    ) -> (done: Result<(), StoreFailed>)
        requires
            old(self).wf(),
        ensures
            final(self).wf(),
            done is Err <==> stored is Err,
            final(self).counts() == old(self).counts(),
            final(self).score_table() == old(self).score_table(),
            final(self).layouts() == (match stored {
                Ok(evicted) => without_keys(
                    old(self).layouts().insert(kana@, boundaries),
                    evicted@,
                ),
                Err(_) => old(self).layouts(),
            }),
    {
        let evicted: &Vec<String> = match stored {
            Ok(v) => v,
            Err(e) => {
                return Err(e);
            },
        };
        self.segmentations.insert(kana, boundaries);
        let ghost m = self.segmentations@;
        let ghost counts = self.selections;
        let ghost table = self.table;
        let mut i: usize = 0;
        assert(evicted@.take(0) =~= Seq::empty());
        while i < evicted.len()
            invariant
                i <= evicted@.len(),
                self.wf(),
                self.selections == counts,
                self.table == table,
                self.segmentations@ == without_keys(m, evicted@.take(i as int)),
            decreases evicted@.len() - i,
        {
            let _ = self.segmentations.remove(evicted[i].as_str());
            proof {
                assert(evicted@.take(i + 1).drop_last() =~= evicted@.take(i as int));
                assert(evicted@.take(i + 1).last() == evicted@[i as int]);
            }
            i = i + 1;
        }
        assert(evicted@.take(i as int) =~= evicted@);
        Ok(())
    }

    /// The segmentation learned for exactly this reading.
    pub fn lookup_segmentation(&self, kana: &str) -> (found: Option<&[usize]>)
        requires
            self.wf(),
        ensures
            match found {
                Some(b) => self.layouts().contains_key(kana@) && self.layouts()[kana@]@ == b@,
                None => !self.layouts().contains_key(kana@),
            },
    {
        match self.segmentations.get(kana) {
            Some(v) => Some(v.as_slice()),
            None => None,
        }
    }

    /// Forgets the segmentation of a reading. Tells whether there was one; the
    /// store has to be told only then.
    pub fn forget_segmentation(&mut self, kana: &str) -> (found: bool)
        requires
            old(self).wf(),
        ensures
            final(self).wf(),
            found == old(self).layouts().contains_key(kana@),
            final(self).counts() == old(self).counts(),
            final(self).score_table() == old(self).score_table(),
            final(self).layouts() == old(self).layouts().remove(kana@),
    {
        self.segmentations.remove(kana)
    }

    /// The score of a pair of reading and surface, in billionths: nothing for
    /// a pair that was never selected, at most one.
    pub fn score(&self, reading: &str, surface: &str) -> (nano: i64)
        requires
            self.wf(),
        ensures
            nano == self.score_of(reading@, surface@),
            0 <= nano <= ONE,
    {
        let k: String = key(reading, surface);
        match self.selections.get(k.as_str()) {
            Some(c) => {
                let s: i64 = self.table.value(*c);
                if s < ONE {
                    s
                } else {
                    ONE
                }
            },
            None => 0,
        }
    }
}

impl SegmentBoost for UserScorer {
    open spec fn ready(&self) -> bool {
        self.wf()
    }

    /// The bonus for a word is ten times the best score of its entries. Words
    /// of one character get none: they are learned so often that they would
    /// break everything apart.
    open spec fn boost_of(&self, reading: Seq<char>, entries: Seq<EntryView>) -> int {
        if reading.len() <= 1 {
            0
        } else {
            best_score(self.counts(), self.score_table(), reading, entries) * BOOST_SCALE
        }
    }

    fn boost(&self, reading: &str, entries: &Vec<DictionaryEntry>) -> (nano: i64) {
        if reading.unicode_len() <= 1 {
            return 0;
        }
        let ghost all = entry::entry_views(entries@);
        let mut best: i64 = 0;
        let mut i: usize = 0;
        assert(all.take(0) =~= Seq::empty());
        while i < entries.len()
            invariant
                i <= entries@.len(),
                self.wf(),
                all == entry::entry_views(entries@),
                0 <= best <= ONE,
                best == best_score(
                    self.counts(),
                    self.score_table(),
                    reading@,
                    all.take(i as int),
                ),
            decreases entries@.len() - i,
        {
            let s: i64 = self.score(reading, entries[i].surface.as_str());
            proof {
                assert(all.take(i + 1).drop_last() =~= all.take(i as int));
                assert(all.take(i + 1).last() == entries@[i as int]@);
            }
            if s > best {
                best = s;
            }
            i = i + 1;
        }
        assert(all.take(i as int) =~= all);
        best * BOOST_SCALE
    }
}

/// A pair that the store gave up is forgotten: its score is nothing.
pub proof fn law_evicted_pair_is_forgotten(
    m: Map<Seq<char>, u32>,
    evicted: Seq<(String, String)>,
    i: int,
    table: NanoTable,
)
    requires
        0 <= i < evicted.len(),
    ensures
        score_in(
            without_pairs(m, evicted),
            table,
            score_key(evicted[i].0@, evicted[i].1@),
        ) == 0,
{
    if i < evicted.len() - 1 {
        lemma_stays_gone(m, evicted.drop_last(), i);
    }
}

proof fn lemma_stays_gone(m: Map<Seq<char>, u32>, evicted: Seq<(String, String)>, i: int)
    requires
        0 <= i < evicted.len(),
    ensures
        !without_pairs(m, evicted).contains_key(score_key(evicted[i].0@, evicted[i].1@)),
    decreases evicted.len(),
{
    if i < evicted.len() - 1 {
        lemma_stays_gone(m, evicted.drop_last(), i);
    }
}

/// One selection more never lowers a score, where the table does not fall.
pub proof fn law_learning_never_lowers(m: Map<Seq<char>, u32>, table: NanoTable, k: Seq<char>)
    requires
        table.wf(),
        forall|a: int, b: int| 0 <= a <= b ==> #[trigger] table.at(a) <= #[trigger] table.at(b),
    ensures
        score_in(counted(m, k), table, k) >= score_in(m, table, k),
{
    nano::lemma_value_within(table@, 1);
}

/// Counting a selection counts it once, up to the largest count, and touches no
/// other.
pub proof fn law_selection_is_counted(m: Map<Seq<char>, u32>, k: Seq<char>, other: Seq<char>)
    ensures
        counted(m, k).contains_key(k),
        !m.contains_key(k) ==> counted(m, k)[k] == 1,
        m.contains_key(k) && m[k] < u32::MAX ==> counted(m, k)[k] == m[k] + 1,
        m.contains_key(k) && m[k] == u32::MAX ==> counted(m, k)[k] == m[k],
        other != k ==> (counted(m, k).contains_key(other) <==> m.contains_key(other)),
        other != k && m.contains_key(other) ==> counted(m, k)[other] == m[other],
{
}

/// Of the counts only those go that the store gave up; the others stay as they
/// are.
pub proof fn law_only_evicted_pairs_go(
    m: Map<Seq<char>, u32>,
    evicted: Seq<(String, String)>,
    k: Seq<char>,
)
    ensures
        without_pairs(m, evicted).contains_key(k) ==> m.contains_key(k) && without_pairs(
            m,
            evicted,
        )[k] == m[k],
        m.contains_key(k) && (forall|i: int|
            0 <= i < evicted.len() ==> (#[trigger] evicted[i]).0@ + seq!['|'] + evicted[i].1@ != k)
            ==> without_pairs(m, evicted).contains_key(k),
        (forall|i: int|
            0 <= i < evicted.len() ==> score_key((#[trigger] evicted[i]).0@, evicted[i].1@) != k)
            ==> (without_pairs(m, evicted).contains_key(k) <==> m.contains_key(k)),
    decreases evicted.len(),
{
    if evicted.len() > 0 {
        let rest = evicted.drop_last();
        let last = evicted[evicted.len() - 1];
        law_only_evicted_pairs_go(m, rest, k);
        assert(score_key(last.0@, last.1@) =~= last.0@ + seq!['|'] + last.1@);
        if forall|i: int|
            0 <= i < evicted.len() ==> (#[trigger] evicted[i]).0@ + seq!['|'] + evicted[i].1@ != k {
            assert(forall|i: int|
                0 <= i < rest.len() ==> (#[trigger] rest[i]).0@ + seq!['|'] + rest[i].1@ != k) by {
                assert forall|i: int| 0 <= i < rest.len() implies (#[trigger] rest[i]).0@ + seq![
                    '|',
                ] + rest[i].1@ != k by {
                    assert(rest[i] == evicted[i]);
                }
            }
            assert(last == evicted.last());
        }
        if forall|i: int|
            0 <= i < evicted.len() ==> score_key((#[trigger] evicted[i]).0@, evicted[i].1@) != k {
            assert forall|i: int| 0 <= i < rest.len() implies score_key(
                (#[trigger] rest[i]).0@,
                rest[i].1@,
            ) != k by {
                assert(rest[i] == evicted[i]);
            }
        }
    }
}

/// A pair that was never chosen scores nothing, one that was chosen scores what
/// the table gives for the number of times, and nothing scores above one.
pub proof fn law_score_follows_the_count(
    m: Map<Seq<char>, u32>,
    table: NanoTable,
    reading: Seq<char>,
    surface: Seq<char>,
)
    ensures
        ({
            let k = reading + seq!['|'] + surface;
            let s = score_in(m, table, score_key(reading, surface));
            &&& !m.contains_key(k) ==> s == 0
            &&& m.contains_key(k) && table.at(m[k] as int) <= 1_000_000_000 ==> s == table.at(
                m[k] as int,
            )
            &&& s <= 1_000_000_000
        }),
{
    assert(score_key(reading, surface) =~= reading + seq!['|'] + surface);
}

/// The bonus for a word of two or more characters is ten times the best score that any
/// of its entries has; a word of one character gets none.
pub proof fn law_bonus_is_tenfold(
    scorer: UserScorer,
    reading: Seq<char>,
    entries: Seq<EntryView>,
    i: int,
)
    ensures
        reading.len() <= 1 ==> scorer.boost_of(reading, entries) == 0,
        reading.len() >= 2 && 0 <= i < entries.len() && (forall|j: int|
            0 <= j < entries.len() ==> scorer.score_of(reading, (#[trigger] entries[j]).surface)
                <= scorer.score_of(reading, entries[i].surface)) && scorer.score_of(
            reading,
            entries[i].surface,
        ) >= 0 ==> scorer.boost_of(reading, entries) == 10 * scorer.score_of(
            reading,
            entries[i].surface,
        ),
        reading.len() >= 2 && entries.len() == 0 ==> scorer.boost_of(reading, entries) == 0,
{
    lemma_best_score(scorer.counts(), scorer.score_table(), reading, entries);
}

proof fn lemma_best_score(
    m: Map<Seq<char>, u32>,
    table: NanoTable,
    reading: Seq<char>,
    entries: Seq<EntryView>,
)
    ensures
        best_score(m, table, reading, entries) >= 0,
        forall|j: int|
            0 <= j < entries.len() ==> score_in(
                m,
                table,
                score_key(reading, (#[trigger] entries[j]).surface),
            ) <= best_score(m, table, reading, entries),
        best_score(m, table, reading, entries) == 0 || exists|j: int|
            0 <= j < entries.len() && score_in(
                m,
                table,
                score_key(reading, (#[trigger] entries[j]).surface),
            ) == best_score(m, table, reading, entries),
    decreases entries.len(),
{
    if entries.len() > 0 {
        let rest = entries.drop_last();
        lemma_best_score(m, table, reading, rest);
        let best = best_score(m, table, reading, entries);
        assert forall|j: int| 0 <= j < entries.len() implies score_in(
            m,
            table,
            score_key(reading, (#[trigger] entries[j]).surface),
        ) <= best by {
            if j < rest.len() {
                assert(rest[j] == entries[j]);
            }
        }
        if best != 0 {
            if best == best_score(m, table, reading, rest) {
                let j = choose|j: int|
                    0 <= j < rest.len() && score_in(
                        m,
                        table,
                        score_key(reading, (#[trigger] rest[j]).surface),
                    ) == best;
                assert(entries[j] == rest[j]);
            } else {
                assert(entries[entries.len() - 1] == entries.last());
            }
        }
    }
}

/// Forgetting divisions takes away those of the kana given and no others.
pub proof fn law_only_forgotten_divisions_go(
    m: Map<Seq<char>, Vec<usize>>,
    keys: Seq<String>,
    k: Seq<char>,
)
    ensures
        without_keys(m, keys).contains_key(k) <==> m.contains_key(k) && forall|i: int|
            0 <= i < keys.len() ==> (#[trigger] keys[i])@ != k,
        without_keys(m, keys).contains_key(k) ==> without_keys(m, keys)[k] == m[k],
    decreases keys.len(),
{
    if keys.len() > 0 {
        let rest = keys.drop_last();
        law_only_forgotten_divisions_go(m, rest, k);
        assert(keys[keys.len() - 1] == keys.last());
        assert(forall|i: int| 0 <= i < rest.len() ==> (#[trigger] rest[i]) == keys[i]);
        if forall|i: int| 0 <= i < rest.len() ==> (#[trigger] rest[i])@ != k {
            if keys.last()@ != k {
                assert forall|i: int| 0 <= i < keys.len() implies (#[trigger] keys[i])@ != k by {
                    if i < rest.len() {
                        assert(rest[i]@ != k);
                    }
                }
            }
        }
    }
}

} // verus!
