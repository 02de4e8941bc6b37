//! Dictionary entries and segments of a reading.
use vstd::prelude::*;

use crate::pos::PartOfSpeech;

verus! {

/// A word of the dictionary.
#[derive(Debug)]
pub struct DictionaryEntry {
    /// Reading in hiragana.
    pub reading: String,
    /// Surface form, as it is written.
    pub surface: String,
    /// Part of speech.
    pub pos: PartOfSpeech,
    /// Frequency score; higher is more common.
    pub frequency: u32,
}

/// The contents of a dictionary entry.
#[verifier::ext_equal]
pub struct EntryView {
    pub reading: Seq<char>,
    pub surface: Seq<char>,
    pub pos: PartOfSpeech,
    pub frequency: u32,
}

impl View for DictionaryEntry {
    type V = EntryView;

    open spec fn view(&self) -> EntryView {
        EntryView {
            reading: self.reading@,
            surface: self.surface@,
            pos: self.pos,
            frequency: self.frequency,
        }
    }
}

impl Clone for DictionaryEntry {
    fn clone(&self) -> (copy: Self)
        ensures
            copy == *self,
    {
        DictionaryEntry {
            reading: self.reading.clone(),
            surface: self.surface.clone(),
            pos: self.pos,
            frequency: self.frequency,
        }
    }
}

/// The contents of a list of entries.
pub open spec fn entry_views(entries: Seq<DictionaryEntry>) -> Seq<EntryView> {
    entries.map_values(|e: DictionaryEntry| e@)
}

/// A stretch of the reading together with the words it can stand for.
#[derive(Debug)]
pub struct Segment {
    /// The stretch of the reading.
    pub reading: String,
    /// Where it starts, in characters.
    pub start: usize,
    /// Its length in characters.
    pub len: usize,
    /// The words with this reading.
    pub candidates: Vec<DictionaryEntry>,
}

/// The contents of a segment.
#[verifier::ext_equal]
pub struct SegmentView {
    pub reading: Seq<char>,
    pub start: int,
    pub len: int,
    pub candidates: Seq<EntryView>,
}

impl View for Segment {
    type V = SegmentView;

    open spec fn view(&self) -> SegmentView {
        SegmentView {
            reading: self.reading@,
            start: self.start as int,
            len: self.len as int,
            candidates: entry_views(self.candidates@),
        }
    }
}

/// The contents of a list of segments.
pub open spec fn segment_views(segments: Seq<Segment>) -> Seq<SegmentView> {
    segments.map_values(|s: Segment| s@)
}

/// Copies of `entries`, in order.
pub fn copied_entries(entries: &Vec<DictionaryEntry>) -> (out: Vec<DictionaryEntry>)
    ensures
        out@ == entries@,
{
    let mut out: Vec<DictionaryEntry> = Vec::new();
    let mut i: usize = 0;
    while i < entries.len()
        invariant
            i <= entries@.len(),
            out@ == entries@.take(i as int),
        decreases entries@.len() - i,
    {
        out.push(entries[i].clone());
        i = i + 1;
        assert(out@ =~= entries@.take(i as int));
    }
    assert(entries@.take(i as int) =~= entries@);
    out
}

impl Clone for Segment {
    fn clone(&self) -> (copy: Self)
        ensures
            copy@ == self@,
    {
        Segment {
            reading: self.reading.clone(),
            start: self.start,
            len: self.len,
            candidates: copied_entries(&self.candidates),
        }
    }
}

/// The readings of the segments, one after the other.
pub open spec fn joined_readings(segs: Seq<SegmentView>) -> Seq<char>
    decreases segs.len(),
{
    if segs.len() == 0 {
        Seq::empty()
    } else {
        joined_readings(segs.drop_last()) + segs.last().reading
    }
}

/// The number of characters of the segments.
pub open spec fn total_len(segs: Seq<SegmentView>) -> int
    decreases segs.len(),
{
    if segs.len() == 0 {
        0
    } else {
        total_len(segs.drop_last()) + segs.last().len
    }
}

/// The segments cover `input`, which starts at position `base`, without gap or
/// overlap: none is empty, each holds its part of the input, and each starts
/// where the one before it ended.
pub open spec fn tiles(segs: Seq<SegmentView>, input: Seq<char>, base: int) -> bool {
    &&& forall|k: int|
        0 <= k < segs.len() ==> {
            &&& (#[trigger] segs[k]).len >= 1
            &&& base <= segs[k].start
            &&& segs[k].start + segs[k].len <= base + input.len()
            &&& segs[k].reading == input.subrange(
                segs[k].start - base,
                segs[k].start - base + segs[k].len,
            )
        }
    &&& forall|k: int, m: int|
        0 <= k < segs.len() && m == k + 1 && m < segs.len() ==> (#[trigger] segs[m]).start == (
        #[trigger] segs[k]).start + segs[k].len
    &&& segs.len() == 0 ==> input.len() == 0
    &&& segs.len() > 0 ==> {
        &&& segs[0].start == base
        &&& segs.last().start + segs.last().len == base + input.len()
    }
}

/// Segments that cover an input spell it out: their readings put together are
/// the input.
pub proof fn law_tiles_spell_input(segs: Seq<SegmentView>, input: Seq<char>, base: int)
    requires
        tiles(segs, input, base),
    ensures
        joined_readings(segs) == input,
    decreases segs.len(),
{
    if segs.len() == 0 {
        assert(joined_readings(segs) =~= input);
    } else {
        let last = segs[segs.len() - 1];
        let cut = last.start - base;
        let rest = segs.drop_last();
        let front = input.take(cut);
        assert(tiles(rest, front, base)) by {
            assert forall|k: int| 0 <= k < rest.len() implies {
                &&& (#[trigger] rest[k]).len >= 1
                &&& base <= rest[k].start
                &&& rest[k].start + rest[k].len <= base + front.len()
                &&& rest[k].reading == front.subrange(
                    rest[k].start - base,
                    rest[k].start - base + rest[k].len,
                )
            } by {
                assert(rest[k] == segs[k]);
                lemma_before(segs, input, base, k, segs.len() - 1);
                assert(rest[k].reading =~= front.subrange(
                    rest[k].start - base,
                    rest[k].start - base + rest[k].len,
                ));
            }
            assert forall|k: int, m: int|
                0 <= k < rest.len() && m == k + 1 && m < rest.len() implies (
            #[trigger] rest[m]).start == (#[trigger] rest[k]).start + rest[k].len by {
                assert(rest[k] == segs[k] && rest[m] == segs[m]);
            }
            if rest.len() > 0 {
                assert(rest[0] == segs[0]);
                assert(rest.last() == segs[segs.len() - 2]);
            }
        }
        law_tiles_spell_input(rest, front, base);
        assert(front + last.reading =~= input);
    }
}

/// An earlier segment ends before a later one starts.
pub proof fn lemma_before(segs: Seq<SegmentView>, input: Seq<char>, base: int, k: int, m: int)
    requires
        tiles(segs, input, base),
        0 <= k < m < segs.len(),
    ensures
        segs[k].start + segs[k].len <= segs[m].start,
    decreases m - k,
{
    if k + 1 == m {
    } else {
        lemma_before(segs, input, base, k + 1, m);
        assert(segs[k + 1].start == segs[k].start + segs[k].len);
    }
}

/// Segments that cover two neighbouring inputs cover both together.
pub proof fn lemma_tiles_add(
    a: Seq<SegmentView>,
    x: Seq<char>,
    b: Seq<SegmentView>,
    y: Seq<char>,
    base: int,
)
    requires
        tiles(a, x, base),
        tiles(b, y, base + x.len()),
    ensures
        tiles(a + b, x + y, base),
{
    let all = a + b;
    let input = x + y;
    let n = a.len() as int;
    assert forall|k: int| 0 <= k < all.len() implies {
        &&& (#[trigger] all[k]).len >= 1
        &&& base <= all[k].start
        &&& all[k].start + all[k].len <= base + input.len()
        &&& all[k].reading == input.subrange(all[k].start - base, all[k].start - base + all[k].len)
    } by {
        if k < n {
            assert(all[k] == a[k]);
            assert(input.subrange(a[k].start - base, a[k].start - base + a[k].len)
                =~= x.subrange(a[k].start - base, a[k].start - base + a[k].len));
        } else {
            let s = b[k - n];
            assert(all[k] == s);
            let off = base + x.len();
            assert(input.subrange(s.start - base, s.start - base + s.len) =~= y.subrange(
                s.start - off,
                s.start - off + s.len,
            ));
        }
    }
    assert forall|k: int, m: int| 0 <= k < all.len() && m == k + 1 && m < all.len() implies (
    #[trigger] all[m]).start == (#[trigger] all[k]).start + all[k].len by {
        if m < n {
            assert(all[k] == a[k] && all[m] == a[m]);
        } else if k >= n {
            assert(all[k] == b[k - n] && all[m] == b[m - n]);
        } else {
            assert(all[k] == a.last());
            assert(all[m] == b[0]);
        }
    }
    if all.len() > 0 {
        if a.len() > 0 {
            assert(all[0] == a[0]);
        } else {
            assert(all[0] == b[0]);
        }
        if b.len() > 0 {
            assert(all.last() == b.last());
        } else {
            assert(all.last() == a.last());
        }
    }
}

/// Where segment `k` starts, counted from the start of the input; the end of
/// the input for the number past the last segment.
pub open spec fn cut_at(segs: Seq<SegmentView>, input: Seq<char>, base: int, k: int) -> int {
    if k < segs.len() {
        segs[k].start - base
    } else {
        input.len() as int
    }
}

/// Segments that cover an input can be cut between any two of them.
pub proof fn lemma_tiles_cut(segs: Seq<SegmentView>, input: Seq<char>, base: int, k: int)
    requires
        tiles(segs, input, base),
        0 <= k <= segs.len(),
    ensures
        0 <= cut_at(segs, input, base, k) <= input.len(),
        tiles(segs.take(k), input.take(cut_at(segs, input, base, k)), base),
        tiles(
            segs.skip(k),
            input.skip(cut_at(segs, input, base, k)),
            base + cut_at(segs, input, base, k),
        ),
{
    let c = cut_at(segs, input, base, k);
    let a = segs.take(k);
    let b = segs.skip(k);
    let x = input.take(c);
    let y = input.skip(c);
    assert forall|i: int| 0 <= i < a.len() implies {
        &&& (#[trigger] a[i]).len >= 1
        &&& base <= a[i].start
        &&& a[i].start + a[i].len <= base + x.len()
        &&& a[i].reading == x.subrange(a[i].start - base, a[i].start - base + a[i].len)
    } by {
        assert(a[i] == segs[i]);
        if k < segs.len() {
            lemma_before(segs, input, base, i, k);
        }
        assert(a[i].reading =~= x.subrange(a[i].start - base, a[i].start - base + a[i].len));
    }
    assert forall|i: int, m: int| 0 <= i < a.len() && m == i + 1 && m < a.len() implies (
    #[trigger] a[m]).start == (#[trigger] a[i]).start + a[i].len by {
        assert(a[i] == segs[i] && a[m] == segs[m]);
    }
    if a.len() > 0 {
        assert(a[0] == segs[0]);
        assert(a.last() == segs[k - 1]);
        if k < segs.len() {
            assert(segs[k].start == segs[k - 1].start + segs[k - 1].len);
        } else {
            assert(segs.last() == segs[k - 1]);
        }
    } else if segs.len() > 0 {
        assert(segs[0].start == base);
    }
    assert forall|i: int| 0 <= i < b.len() implies {
        &&& (#[trigger] b[i]).len >= 1
        &&& base + c <= b[i].start
        &&& b[i].start + b[i].len <= base + c + y.len()
        &&& b[i].reading == y.subrange(b[i].start - (base + c), b[i].start - (base + c) + b[i].len)
    } by {
        assert(b[i] == segs[i + k]);
        if i > 0 {
            lemma_before(segs, input, base, k, i + k);
        }
        assert(b[i].reading =~= y.subrange(
            b[i].start - (base + c),
            b[i].start - (base + c) + b[i].len,
        ));
    }
    assert forall|i: int, m: int| 0 <= i < b.len() && m == i + 1 && m < b.len() implies (
    #[trigger] b[m]).start == (#[trigger] b[i]).start + b[i].len by {
        assert(b[i] == segs[i + k] && b[m] == segs[m + k]);
    }
    if b.len() > 0 {
        assert(b[0] == segs[k]);
        assert(b.last() == segs.last());
    }
}

/// Segments put one after the other have as many characters as both together.
pub proof fn lemma_total_len_add(a: Seq<SegmentView>, b: Seq<SegmentView>)
    ensures
        total_len(a + b) == total_len(a) + total_len(b),
    decreases b.len(),
{
    if b.len() == 0 {
        assert(a + b =~= a);
    } else {
        lemma_total_len_add(a, b.drop_last());
        assert((a + b).drop_last() =~= a + b.drop_last());
    }
}

/// The number of characters is not negative.
pub proof fn lemma_total_len_counts(segs: Seq<SegmentView>)
    requires
        forall|k: int| 0 <= k < segs.len() ==> (#[trigger] segs[k]).len >= 0,
    ensures
        total_len(segs) >= 0,
    decreases segs.len(),
{
    if segs.len() > 0 {
        lemma_total_len_counts(segs.drop_last());
        assert(segs[segs.len() - 1].len >= 0);
    }
}

/// Segments that cover an input have as many characters as it.
pub proof fn lemma_tiles_len(segs: Seq<SegmentView>, input: Seq<char>, base: int)
    requires
        tiles(segs, input, base),
    ensures
        total_len(segs) == input.len(),
    decreases segs.len(),
{
    if segs.len() > 0 {
        let n = segs.len() - 1;
        lemma_tiles_cut(segs, input, base, n);
        assert(segs.take(n) =~= segs.drop_last());
        lemma_tiles_len(segs.drop_last(), input.take(cut_at(segs, input, base, n)), base);
    }
}

} // verus!
