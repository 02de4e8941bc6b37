//! The dictionary: entries, found by reading through a trie.
//!
//! The first part of the entry list is built in, the rest was added by the
//! user. Lookups answer by descending frequency; entries of equal frequency
//! come in the order in which they were added.
use vstd::prelude::*;

use crate::entry;
use crate::entry::{DictionaryEntry, EntryView};
use crate::nano::NanoTable;
use crate::rank;
use crate::text::same_text;
use crate::trie;
use crate::trie::Trie;

verus! {

/// Positions of the entries with reading `key`, in the order of the list.
pub open spec fn indices_of(entries: Seq<EntryView>, key: Seq<char>) -> Seq<usize>
    decreases entries.len(),
{
    if entries.len() == 0 {
        Seq::empty()
    } else {
        let rest = indices_of(entries.drop_last(), key);
        if entries.last().reading == key {
            rest.push((entries.len() - 1) as usize)
        } else {
            rest
        }
    }
}

/// The frequencies of the entries.
pub open spec fn frequencies(entries: Seq<EntryView>) -> Seq<u32> {
    entries.map_values(|e: EntryView| e.frequency)
}

/// Positions of the entries with reading `key`, by descending frequency.
pub open spec fn lookup_indices(entries: Seq<EntryView>, key: Seq<char>) -> Seq<usize> {
    trie::by_frequency(indices_of(entries, key), frequencies(entries))
}

/// The entries at the given positions.
pub open spec fn entries_at(entries: Seq<EntryView>, list: Seq<usize>) -> Seq<EntryView> {
    list.map_values(|i: usize| entries[i as int])
}

/// The entries with reading `key`, by descending frequency.
pub open spec fn lookup_of(entries: Seq<EntryView>, key: Seq<char>) -> Seq<EntryView> {
    entries_at(entries, lookup_indices(entries, key))
}

/// `x` put into a list ordered by descending frequency, behind every index
/// whose frequency is at least as high.
spec fn insert_index(list: Seq<usize>, freqs: Seq<u32>, x: usize) -> Seq<usize>
    decreases list.len(),
{
    if list.len() == 0 {
        seq![x]
    } else if freqs[list.last() as int] >= freqs[x as int] {
        list.push(x)
    } else {
        insert_index(list.drop_last(), freqs, x).push(list.last())
    }
}

proof fn lemma_ranked_prefix(a: Seq<int>, b: Seq<int>, n: int)
    requires
        0 <= n <= a.len(),
        n <= b.len(),
        forall|i: int| 0 <= i < n ==> a[i] == b[i],
    ensures
        rank::ranked(a, n) == rank::ranked(b, n),
    decreases n,
{
    if n > 0 {
        lemma_ranked_prefix(a, b, n - 1);
        rank::lemma_ranked(a, n - 1);
        lemma_insert_same(rank::ranked(a, n - 1), a, b, n - 1);
    }
}

proof fn lemma_insert_same(order: Seq<int>, a: Seq<int>, b: Seq<int>, x: int)
    requires
        0 <= x < a.len(),
        x < b.len(),
        a[x] == b[x],
        forall|i: int| 0 <= i < order.len() ==> 0 <= #[trigger] order[i] < x,
        forall|i: int| 0 <= i < x ==> a[i] == b[i],
    ensures
        rank::insert_ranked(order, a, x) == rank::insert_ranked(order, b, x),
    decreases order.len(),
{
    if order.len() > 0 {
        assert(0 <= order[order.len() - 1] < x);
        lemma_insert_same(order.drop_last(), a, b, x);
    }
}

proof fn lemma_taken_insert(order: Seq<int>, list: Seq<usize>, freqs: Seq<u32>, x: usize)
    requires
        forall|i: int| 0 <= i < order.len() ==> 0 <= #[trigger] order[i] < list.len(),
    ensures
        rank::taken(
            list.push(x),
            rank::insert_ranked(order, trie::posting_keys(list.push(x), freqs), list.len() as int),
        ) == insert_index(rank::taken(list, order), freqs, x),
    decreases order.len(),
{
    let keys = trie::posting_keys(list.push(x), freqs);
    let n = list.len() as int;
    let out = rank::insert_ranked(order, keys, n);
    let old_taken = rank::taken(list, order);
    if order.len() == 0 {
        assert(rank::taken(list.push(x), out) =~= insert_index(old_taken, freqs, x));
    } else {
        let last = order[order.len() - 1];
        assert(0 <= last < list.len());
        assert(old_taken.last() == list[last]);
        assert(keys[last] == freqs[list[last] as int] as int);
        assert(keys[n] == freqs[x as int] as int);
        if keys[last] >= keys[n] {
            assert(out =~= order.push(n));
            assert(rank::taken(list.push(x), out) =~= old_taken.push(x));
        } else {
            lemma_taken_insert(order.drop_last(), list, freqs, x);
            assert(old_taken.drop_last() =~= rank::taken(list, order.drop_last()));
            assert(rank::taken(list.push(x), out) =~= rank::taken(
                list.push(x),
                rank::insert_ranked(order.drop_last(), keys, n),
            ).push(list[last]));
        }
    }
}

/// Sorting a list with one index more is inserting that index.
proof fn lemma_sort_push(list: Seq<usize>, freqs: Seq<u32>, x: usize)
    ensures
        trie::by_frequency(list.push(x), freqs) == insert_index(
            trie::by_frequency(list, freqs),
            freqs,
            x,
        ),
{
    let keys = trie::posting_keys(list, freqs);
    let longer = trie::posting_keys(list.push(x), freqs);
    let n = list.len() as int;
    assert forall|i: int| 0 <= i < n implies keys[i] == longer[i] by {}
    lemma_ranked_prefix(keys, longer, n);
    rank::lemma_ranking(keys);
    lemma_taken_insert(rank::ranking(keys), list, freqs, x);
}

spec fn descending(list: Seq<usize>, freqs: Seq<u32>) -> bool {
    forall|i: int, j: int|
        0 <= i < j < list.len() ==> freqs[#[trigger] list[i] as int] >= freqs[#[trigger] list[j] as int]
}

proof fn lemma_sorted_is_descending(list: Seq<usize>, freqs: Seq<u32>)
    ensures
        descending(trie::by_frequency(list, freqs), freqs),
        trie::by_frequency(list, freqs).len() == list.len(),
        forall|i: int|
            0 <= i < list.len() ==> list.contains(#[trigger] trie::by_frequency(list, freqs)[i]),
{
    let keys = trie::posting_keys(list, freqs);
    let order = rank::ranking(keys);
    rank::lemma_ranking(keys);
    let out = trie::by_frequency(list, freqs);
    assert forall|i: int, j: int| 0 <= i < j < out.len() implies freqs[#[trigger] out[i] as int]
        >= freqs[#[trigger] out[j] as int] by {
        assert(rank::ranks_before(keys, order[i], order[j]));
    }
    assert forall|i: int| 0 <= i < list.len() implies list.contains(#[trigger] out[i]) by {
        assert(out[i] == list[order[i]]);
    }
}

/// A list that is ordered already stays as it is.
proof fn lemma_sort_sorted(list: Seq<usize>, freqs: Seq<u32>)
    requires
        descending(list, freqs),
    ensures
        trie::by_frequency(list, freqs) == list,
    decreases list.len(),
{
    if list.len() == 0 {
        assert(trie::by_frequency(list, freqs) =~= list);
    } else {
        let rest = list.drop_last();
        assert(descending(rest, freqs)) by {
            assert forall|i: int, j: int| 0 <= i < j < rest.len() implies freqs[#[trigger] rest[i] as int]
                >= freqs[#[trigger] rest[j] as int] by {
                assert(rest[i] == list[i] && rest[j] == list[j]);
            }
        }
        lemma_sort_sorted(rest, freqs);
        lemma_sort_push(rest, freqs, list.last());
        assert(rest.push(list.last()) =~= list);
        if rest.len() > 0 {
            assert(freqs[list[rest.len() - 1] as int] >= freqs[list[list.len() - 1] as int]);
        }
        assert(insert_index(rest, freqs, list.last()) =~= list);
    }
}

/// Sorting does not look past the frequencies it needs.
proof fn lemma_sort_same_freqs(list: Seq<usize>, a: Seq<u32>, b: Seq<u32>)
    requires
        forall|i: int| 0 <= i < list.len() ==> a[#[trigger] list[i] as int] == b[list[i] as int],
    ensures
        trie::by_frequency(list, a) == trie::by_frequency(list, b),
{
    assert(trie::posting_keys(list, a) =~= trie::posting_keys(list, b));
}

pub proof fn lemma_indices_of(entries: Seq<EntryView>, key: Seq<char>)
    ensures
        forall|i: int|
            0 <= i < indices_of(entries, key).len() ==> {
                &&& (#[trigger] indices_of(entries, key)[i]) < entries.len()
                &&& entries.len() <= usize::MAX ==> entries[indices_of(entries, key)[i] as int].reading
                    == key
            },
        indices_of(entries, key).len() <= entries.len(),
        entries.len() <= usize::MAX ==> forall|j: int|
            0 <= j < entries.len() && (#[trigger] entries[j]).reading == key ==> indices_of(
                entries,
                key,
            ).contains(j as usize),
    decreases entries.len(),
{
    if entries.len() > 0 {
        let rest = entries.drop_last();
        lemma_indices_of(rest, key);
        let out = indices_of(entries, key);
        let shorter = indices_of(rest, key);
        assert forall|i: int| 0 <= i < out.len() implies {
            &&& (#[trigger] out[i]) < entries.len()
            &&& entries.len() <= usize::MAX ==> entries[out[i] as int].reading == key
        } by {
            if i < shorter.len() {
                assert(out[i] == shorter[i]);
                assert(shorter[i] < rest.len());
                assert(rest[shorter[i] as int] == entries[shorter[i] as int]);
            }
        }
        if entries.len() <= usize::MAX {
            assert forall|j: int|
                0 <= j < entries.len() && (#[trigger] entries[j]).reading == key implies out.contains(
                j as usize,
            ) by {
                if j < rest.len() {
                    assert(rest[j].reading == key);
                    assert(shorter.contains(j as usize));
                    let w = choose|w: int| 0 <= w < shorter.len() && shorter[w] == j as usize;
                    assert(out[w] == j as usize);
                } else {
                    assert(out[out.len() - 1] == j as usize);
                }
            }
        }
    }
}

/// A lookup answers with the entries that have the reading, all of them, from
/// the highest frequency down; among equal frequencies the earlier entry is
/// first.
pub proof fn law_lookup_by_frequency(entries: Seq<EntryView>, key: Seq<char>)
    requires
        entries.len() <= usize::MAX,
    ensures
        forall|i: int|
            0 <= i < lookup_of(entries, key).len() ==> (#[trigger] lookup_of(entries, key)[i]).reading
                == key,
        forall|i: int, j: int|
            0 <= i < j < lookup_of(entries, key).len() ==> (#[trigger] lookup_of(
                entries,
                key,
            )[i]).frequency >= (#[trigger] lookup_of(entries, key)[j]).frequency,
        forall|j: int|
            0 <= j < entries.len() && (#[trigger] entries[j]).reading == key ==> lookup_of(
                entries,
                key,
            ).contains(entries[j]),
{
    let list = indices_of(entries, key);
    let freqs = frequencies(entries);
    let found = lookup_indices(entries, key);
    let keys = trie::posting_keys(list, freqs);
    let order = rank::ranking(keys);
    lemma_indices_of(entries, key);
    lemma_sorted_is_descending(list, freqs);
    rank::lemma_ranking(keys);
    let out = lookup_of(entries, key);
    assert forall|i: int| 0 <= i < out.len() implies (#[trigger] out[i]).reading == key by {
        assert(list.contains(found[i]));
        let w = choose|w: int| 0 <= w < list.len() && list[w] == found[i];
        assert(entries[list[w] as int].reading == key);
    }
    assert forall|i: int, j: int| 0 <= i < j < out.len() implies (#[trigger] out[i]).frequency >= (
    #[trigger] out[j]).frequency by {
        assert(list.contains(found[i]) && list.contains(found[j]));
        let v = choose|w: int| 0 <= w < list.len() && list[w] == found[i];
        let w = choose|w: int| 0 <= w < list.len() && list[w] == found[j];
        assert(list[v] < entries.len() && list[w] < entries.len());
        assert(freqs[found[i] as int] >= freqs[found[j] as int]);
    }
    assert forall|j: int|
        0 <= j < entries.len() && (#[trigger] entries[j]).reading == key implies out.contains(
        entries[j],
    ) by {
        assert(list.contains(j as usize));
        let w = choose|w: int| 0 <= w < list.len() && list[w] == j as usize;
        assert(order.contains(w));
        let k = choose|k: int| 0 <= k < order.len() && order[k] == w;
        assert(found[k] == list[w]);
        assert(out[k] == entries[j]);
    }
}

/// A lookup answers with entries of the dictionary only, and with none where no
/// entry has the reading.
pub proof fn law_lookup_finds_entries(entries: Seq<EntryView>, key: Seq<char>)
    requires
        entries.len() <= usize::MAX,
    ensures
        forall|i: int|
            0 <= i < lookup_of(entries, key).len() ==> entries.contains(
                #[trigger] lookup_of(entries, key)[i],
            ),
        (forall|j: int| 0 <= j < entries.len() ==> (#[trigger] entries[j]).reading != key)
            ==> lookup_of(entries, key).len() == 0,
{
    let list = indices_of(entries, key);
    let freqs = frequencies(entries);
    let found = lookup_indices(entries, key);
    let keys = trie::posting_keys(list, freqs);
    lemma_indices_of(entries, key);
    lemma_sorted_is_descending(list, freqs);
    rank::lemma_ranking(keys);
    let out = lookup_of(entries, key);
    assert forall|i: int| 0 <= i < out.len() implies entries.contains(#[trigger] out[i]) by {
        assert(list.contains(found[i]));
        let w = choose|w: int| 0 <= w < list.len() && list[w] == found[i];
        assert(entries[list[w] as int].reading == key);
        assert(out[i] == entries[found[i] as int]);
    }
    if out.len() > 0 {
        law_lookup_by_frequency(entries, key);
        assert(entries.contains(out[0]) && out[0].reading == key);
    }
}

/// How an entry at the end changes what a lookup finds.
proof fn lemma_lookup_push(entries: Seq<EntryView>, e: EntryView, key: Seq<char>)
    requires
        entries.len() < usize::MAX,
    ensures
        indices_of(entries.push(e), key) == (if e.reading == key {
            indices_of(entries, key).push(entries.len() as usize)
        } else {
            indices_of(entries, key)
        }),
        lookup_indices(entries.push(e), key) == (if e.reading == key {
            trie::by_frequency(
                lookup_indices(entries, key).push(entries.len() as usize),
                frequencies(entries.push(e)),
            )
        } else {
            lookup_indices(entries, key)
        }),
        e.reading == key ==> lookup_indices(entries.push(e), key) == insert_index(
            lookup_indices(entries, key),
            frequencies(entries.push(e)),
            entries.len() as usize,
        ),
{
    let more = entries.push(e);
    assert(more.drop_last() =~= entries);
    let list = indices_of(entries, key);
    let fa = frequencies(entries);
    let fb = frequencies(more);
    lemma_indices_of(entries, key);
    assert forall|i: int| 0 <= i < list.len() implies fa[#[trigger] list[i] as int] == fb[list[i] as int] by {
        assert(list[i] < entries.len());
    }
    lemma_sort_same_freqs(list, fa, fb);
    if e.reading == key {
        let n = entries.len() as usize;
        let sorted = trie::by_frequency(list, fb);
        lemma_sort_push(list, fb, n);
        lemma_sorted_is_descending(list, fb);
        lemma_sort_sorted(sorted, fb);
        lemma_sort_push(sorted, fb, n);
    }
}

proof fn lemma_insert_then_remove(list: Seq<usize>, freqs: Seq<u32>, x: usize)
    requires
        !list.contains(x),
    ensures
        trie::without_index(insert_index(list, freqs, x), x) == list,
    decreases list.len(),
{
    let pred = trie::other_than(x);
    if list.len() == 0 {
        let one = seq![x];
        assert(one =~= Seq::<usize>::empty().push(x));
        Seq::<usize>::empty().lemma_filter_push(x, pred);
        assert(trie::without_index(one, x) =~= list);
    } else if freqs[list.last() as int] >= freqs[x as int] {
        list.lemma_filter_push(x, pred);
        lemma_keeps_all(list, x);
    } else {
        let rest = list.drop_last();
        assert(!rest.contains(x)) by {
            if rest.contains(x) {
                let w = choose|w: int| 0 <= w < rest.len() && rest[w] == x;
                assert(list[w] == x);
            }
        }
        lemma_insert_then_remove(rest, freqs, x);
        let inner = insert_index(rest, freqs, x);
        inner.lemma_filter_push(list.last(), pred);
        assert(list.last() != x) by {
            assert(list[list.len() - 1] == list.last());
        }
        assert(rest.push(list.last()) =~= list);
    }
}

proof fn lemma_keeps_all(list: Seq<usize>, x: usize)
    requires
        !list.contains(x),
    ensures
        trie::without_index(list, x) == list,
    decreases list.len(),
{
    let pred = trie::other_than(x);
    if list.len() == 0 {
        assert(trie::without_index(list, x) =~= list);
    } else {
        let rest = list.drop_last();
        assert(!rest.contains(x)) by {
            if rest.contains(x) {
                let w = choose|w: int| 0 <= w < rest.len() && rest[w] == x;
                assert(list[w] == x);
            }
        }
        lemma_keeps_all(rest, x);
        rest.lemma_filter_push(list.last(), pred);
        assert(rest.push(list.last()) =~= list);
        assert(list[list.len() - 1] != x);
    }
}

/// The dictionary.
pub struct Dictionary {
    entries: Vec<DictionaryEntry>,
    /// The frequency of each entry.
    freqs: Vec<u32>,
    trie: Trie,
    /// Position of the first entry added by the user.
    user_start: usize,
    /// Whether the posting lists are in order of frequency. While words are
    /// loaded in bulk they are not, and are put in order once at the end.
    sorted: bool,
    /// Natural logarithms of frequencies.
    logs: NanoTable,
}

impl View for Dictionary {
    type V = Seq<EntryView>;

    /// All entries, in the order in which they were added.
    closed spec fn view(&self) -> Seq<EntryView> {
        entry::entry_views(self.entries@)
    }
}

impl Dictionary {
    /// How many of the entries are built in.
    pub closed spec fn builtin_count(self) -> int {
        self.user_start as int
    }

    /// The table of natural logarithms.
    pub closed spec fn log_table(self) -> NanoTable {
        self.logs
    }

    closed spec fn consistent(self) -> bool {
        &&& self.trie.wf()
        &&& self.logs.wf()
        &&& self.freqs@ == frequencies(self@)
        &&& self.user_start <= self.entries@.len()
        &&& self.entries@.len() <= usize::MAX
        &&& forall|key: Seq<char>| #[trigger]
            self.trie.postings(key) == (if self.sorted {
                lookup_indices(self@, key)
            } else {
                indices_of(self@, key)
            })
    }

    /// The index agrees with the entries, in order of frequency.
    pub closed spec fn wf(self) -> bool {
        self.consistent() && self.sorted
    }

    /// What every usable dictionary satisfies.
    pub proof fn lemma_wf(self)
        requires
            self.wf(),
        ensures
            0 <= self.builtin_count() <= self@.len() <= usize::MAX,
            self.log_table().wf(),
    {
    }

    proof fn lemma_postings_in_range(self, key: Seq<char>)
        requires
            self.consistent(),
        ensures
            forall|i: int|
                0 <= i < self.trie.postings(key).len() ==> (#[trigger] self.trie.postings(key)[i])
                    < self.entries@.len(),
    {
        lemma_indices_of(self@, key);
        let list = indices_of(self@, key);
        lemma_sorted_is_descending(list, self.freqs@);
        assert forall|i: int| 0 <= i < self.trie.postings(key).len() implies (
        #[trigger] self.trie.postings(key)[i]) < self.entries@.len() by {
            let p = self.trie.postings(key);
            if self.sorted {
                assert(list.contains(p[i]));
                let w = choose|w: int| 0 <= w < list.len() && list[w] == p[i];
                assert(list[w] < self@.len());
            } else {
                assert(list[i] < self@.len());
            }
        }
    }

    /// A dictionary without entries that is about to be filled in bulk.
    fn unsorted(logs: NanoTable) -> (dict: Dictionary)
        requires
            logs.wf(),
        ensures
            dict.consistent(),
            !dict.sorted,
            dict@ == Seq::<EntryView>::empty(),
            dict.log_table() == logs,
            dict.user_start == 0,
    {
        let dict = Dictionary {
            entries: Vec::new(),
            freqs: Vec::new(),
            trie: Trie::new(),
            user_start: 0,
            sorted: false,
            logs,
        };
        assert(dict@ =~= Seq::<EntryView>::empty());
        assert(dict.freqs@ =~= frequencies(dict@));
        dict
    }

    /// A dictionary whose built-in part is `list`, with nothing added by the
    /// user.
    pub fn with_builtin(list: &Vec<DictionaryEntry>, logs: NanoTable) -> (dict: Dictionary)
        requires
            logs.wf(),
        ensures
            dict.wf(),
            dict@ == entry::entry_views(list@),
            dict.builtin_count() == dict@.len(),
            dict.log_table() == logs,
    {
        let mut dict = Dictionary::unsorted(logs);
        let ghost all = entry::entry_views(list@);
        let mut i: usize = 0;
        assert(all.take(0) =~= Seq::empty());
        while i < list.len()
            invariant
                i <= list@.len(),
                all == entry::entry_views(list@),
                dict.consistent(),
                !dict.sorted,
                dict@ == all.take(i as int),
                dict.log_table() == logs,
            decreases list@.len() - i,
        {
            dict.append(list[i].clone());
            i = i + 1;
            assert(dict@ =~= all.take(i as int));
        }
        assert(all.take(i as int) =~= all);
        dict.user_start = dict.entries.len();
        assert(dict@.len() == dict.entries@.len());
        dict.finalize_sort();
        dict
    }

    /// Puts every posting list in order of frequency.
    fn finalize_sort(&mut self)
        requires
            old(self).consistent(),
            !old(self).sorted,
        ensures
            final(self).wf(),
            final(self)@ == old(self)@,
            final(self).log_table() == old(self).log_table(),
            final(self).user_start == old(self).user_start,
    {
        let ghost before = *self;
        proof {
            assert forall|key: Seq<char>, i: int|
                0 <= i < self.trie.postings(key).len() implies #[trigger] self.trie.postings(
                key,
            )[i] < self.freqs@.len() by {
                self.lemma_postings_in_range(key);
            }
        }
        self.trie.sort_by_freq(&self.freqs);
        self.sorted = true;
        proof {
            assert forall|key: Seq<char>| #[trigger] self.trie.postings(key) == lookup_indices(
                self@,
                key,
            ) by {
                assert(before.trie.postings(key) == indices_of(before@, key));
            }
        }
    }

    /// Adds an entry at the end of the list.
    pub fn add_entry(&mut self, entry: DictionaryEntry)
        requires
            old(self).wf(),
        ensures
            final(self).wf(),
            final(self)@ == old(self)@.push(entry@),
            final(self).builtin_count() == old(self).builtin_count(),
            final(self).log_table() == old(self).log_table(),
    {
        self.append(entry);
    }

    fn append(&mut self, entry: DictionaryEntry)
        requires
            old(self).consistent(),
        ensures
            final(self).consistent(),
            final(self).sorted == old(self).sorted,
            final(self)@ == old(self)@.push(entry@),
            final(self).user_start == old(self).user_start,
            final(self).log_table() == old(self).log_table(),
    {
        let ghost before = *self;
        let ghost ev = entry@;
        let idx: usize = self.entries.len();
        let reading: String = entry.reading.clone();
        self.freqs.push(entry.frequency);
        self.entries.push(entry);
        let count: usize = self.entries.len();
        assert(before@.len() < count);
        self.trie.insert(reading.as_str(), idx);
        proof {
            assert(self@ =~= before@.push(ev));
            assert(self.freqs@ =~= frequencies(self@));
            before.lemma_postings_in_range(ev.reading);
            assert(!before.trie.postings(ev.reading).contains(idx));
            assert forall|key: Seq<char>| true implies {
                &&& indices_of(self@, key) == (if ev.reading == key {
                    indices_of(before@, key).push(idx)
                } else {
                    indices_of(before@, key)
                })
            } by {
                lemma_lookup_push(before@, ev, key);
            }
        }
        if self.sorted {
            proof {
                let p = self.trie.postings(ev.reading);
                assert(p == before.trie.postings(ev.reading).push(idx));
                assert forall|i: int| 0 <= i < p.len() implies (#[trigger] p[i])
                    < self.freqs@.len() by {
                    if i < p.len() - 1 {
                        assert(p[i] == before.trie.postings(ev.reading)[i]);
                    }
                }
            }
            self.trie.resort_node(reading.as_str(), &self.freqs);
            proof {
                assert forall|key: Seq<char>| #[trigger] self.trie.postings(key)
                    == lookup_indices(self@, key) by {
                    lemma_lookup_push(before@, ev, key);
                    assert(before.trie.postings(key) == lookup_indices(before@, key));
                }
            }
        } else {
            proof {
                assert forall|key: Seq<char>| #[trigger] self.trie.postings(key) == indices_of(
                    self@,
                    key,
                ) by {
                    assert(before.trie.postings(key) == indices_of(before@, key));
                }
            }
        }
    }

    /// The entries with exactly this reading, by descending frequency.
    pub fn lookup(&self, reading: &str) -> (found: Vec<&DictionaryEntry>)
        requires
            self.wf(),
        ensures
            found@.map_values(|e: &DictionaryEntry| e@) == lookup_of(self@, reading@),
    {
        let list: &[usize] = self.trie.exact_lookup(reading);
        proof {
            self.lemma_postings_in_range(reading@);
        }
        let found = self.resolve(list);
        assert(found@.map_values(|e: &DictionaryEntry| e@) =~= lookup_of(self@, reading@));
        found
    }

    fn resolve(&self, list: &[usize]) -> (found: Vec<&DictionaryEntry>)
        requires
            forall|i: int| 0 <= i < list@.len() ==> (#[trigger] list@[i]) < self.entries@.len(),
        ensures
            found@.map_values(|e: &DictionaryEntry| e@) == entries_at(self@, list@),
            found@.len() == list@.len(),
    {
        let mut found: Vec<&DictionaryEntry> = Vec::new();
        let mut i: usize = 0;
        while i < list.len()
            invariant
                i <= list@.len(),
                found@.len() == i,
                forall|j: int| 0 <= j < list@.len() ==> (#[trigger] list@[j]) < self.entries@.len(),
                forall|j: int|
                    0 <= j < i ==> (#[trigger] found@[j])@ == self@[list@[j] as int],
            decreases list@.len() - i,
        {
            found.push(&self.entries[list[i]]);
            i = i + 1;
        }
        assert(found@.map_values(|e: &DictionaryEntry| e@) =~= entries_at(self@, list@));
        found
    }

    /// Copies of the entries with exactly this reading, by descending
    /// frequency.
    pub fn lookup_copies(&self, reading: &str) -> (found: Vec<DictionaryEntry>)
        requires
            self.wf(),
        ensures
            entry::entry_views(found@) == lookup_of(self@, reading@),
    {
        let refs = self.lookup(reading);
        let ghost want = lookup_of(self@, reading@);
        let mut found: Vec<DictionaryEntry> = Vec::new();
        let mut i: usize = 0;
        while i < refs.len()
            invariant
                i <= refs@.len(),
                found@.len() == i,
                refs@.map_values(|e: &DictionaryEntry| e@) == want,
                forall|j: int| 0 <= j < i ==> (#[trigger] found@[j])@ == want[j],
            decreases refs@.len() - i,
        {
            assert(refs@.map_values(|e: &DictionaryEntry| e@)[i as int] == refs@[i as int]@);
            found.push(refs[i].clone());
            i = i + 1;
        }
        assert(entry::entry_views(found@) =~= want);
        found
    }

    /// Is there an entry with this reading and this surface?
    pub fn has_entry(&self, reading: &str, surface: &str) -> (found: bool)
        requires
            self.wf(),
        ensures
            found == exists|i: int|
                0 <= i < self@.len() && (#[trigger] self@[i]).reading == reading@
                    && self@[i].surface == surface@,
    {
        let refs = self.lookup(reading);
        let ghost want = lookup_of(self@, reading@);
        let target: String = surface.to_owned();
        proof {
            law_lookup_by_frequency(self@, reading@);
        }
        let mut i: usize = 0;
        while i < refs.len()
            invariant
                self.wf(),
                i <= refs@.len(),
                target@ == surface@,
                want == lookup_of(self@, reading@),
                refs@.map_values(|e: &DictionaryEntry| e@) == want,
                forall|j: int| 0 <= j < i ==> (#[trigger] want[j]).surface != surface@,
            decreases refs@.len() - i,
        {
            assert(refs@.map_values(|e: &DictionaryEntry| e@)[i as int] == refs@[i as int]@);
            if refs[i].surface == target {
                proof {
                    self.lemma_wf();
                    law_lookup_by_frequency(self@, reading@);
                    lemma_indices_of(self@, reading@);
                    let list = lookup_indices(self@, reading@);
                    lemma_sorted_is_descending(indices_of(self@, reading@), frequencies(self@));
                    let all = indices_of(self@, reading@);
                    assert(all.contains(list[i as int]));
                    let w = choose|w: int| 0 <= w < all.len() && all[w] == list[i as int];
                    assert(all[w] < self@.len());
                    assert(want[i as int] == self@[list[i as int] as int]);
                    assert(want[i as int].reading == reading@);
                    assert(self@[list[i as int] as int].surface == surface@);
                }
                return true;
            }
            i = i + 1;
        }
        proof {
            assert forall|k: int|
                0 <= k < self@.len() && (#[trigger] self@[k]).reading == reading@ implies self@[k].surface
                != surface@ by {
                assert(want.contains(self@[k]));
                let w = choose|w: int| 0 <= w < want.len() && want[w] == self@[k];
                assert(want[w].surface != surface@);
            }
        }
        false
    }

    /// The table of natural logarithms.
    pub fn logs(&self) -> (logs: &NanoTable)
        requires
            self.wf(),
        ensures
            *logs == self.log_table(),
            logs.wf(),
    {
        &self.logs
    }

    /// The number of entries.
    pub fn len(&self) -> (n: usize)
        requires
            self.wf(),
        ensures
            n == self@.len(),
    {
        assert(self@.len() == self.entries@.len());
        self.entries.len()
    }
}

/// Does the list hold an entry with this reading and this surface?
pub open spec fn has_pair(entries: Seq<EntryView>, reading: Seq<char>, surface: Seq<char>) -> bool {
    exists|i: int|
        0 <= i < entries.len() && (#[trigger] entries[i]).reading == reading
            && entries[i].surface == surface
}

/// The entries of `incoming` that bring a new pair of reading and surface,
/// judged one after the other against `known` and what came before.
pub open spec fn fresh_entries(known: Seq<EntryView>, incoming: Seq<EntryView>) -> Seq<EntryView>
    decreases incoming.len(),
{
    if incoming.len() == 0 {
        Seq::empty()
    } else {
        let before = fresh_entries(known, incoming.drop_last());
        let e = incoming.last();
        if has_pair(known + before, e.reading, e.surface) {
            before
        } else {
            before.push(e)
        }
    }
}

/// Tells the entries that differ from the given pair.
pub open spec fn other_pair(reading: Seq<char>, surface: Seq<char>) -> spec_fn(EntryView) -> bool {
    |e: EntryView| !(e.reading == reading && e.surface == surface)
}

/// The first entry with the given pair.
pub open spec fn first_pair(
    entries: Seq<EntryView>,
    reading: Seq<char>,
    surface: Seq<char>,
) -> Option<EntryView>
    decreases entries.len(),
{
    if entries.len() == 0 {
        None
    } else {
        match first_pair(entries.drop_last(), reading, surface) {
            Some(e) => Some(e),
            None => if entries.last().reading == reading && entries.last().surface == surface {
                Some(entries.last())
            } else {
                None
            },
        }
    }
}

/// The prefixes of `input` with up to `n` characters that are readings, from
/// the shortest, each with its length and its entries.
pub open spec fn prefix_words(
    entries: Seq<EntryView>,
    input: Seq<char>,
    n: int,
) -> Seq<(int, Seq<EntryView>)>
    decreases n,
{
    if n <= 0 {
        Seq::empty()
    } else {
        let words = lookup_of(entries, input.take(n));
        let shorter = prefix_words(entries, input, n - 1);
        if words.len() > 0 {
            shorter.push((n, words))
        } else {
            shorter
        }
    }
}

/// The contents of a list of prefix words.
pub open spec fn words_view(words: Seq<(usize, Vec<DictionaryEntry>)>) -> Seq<
    (int, Seq<EntryView>),
> {
    words.map_values(
        |h: (usize, Vec<DictionaryEntry>)| (h.0 as int, entry::entry_views(h.1@)),
    )
}

/// Prefix words are listed by increasing length, and a length that is not
/// listed has no word.
pub proof fn lemma_prefix_words_listed(entries: Seq<EntryView>, input: Seq<char>, n: int)
    requires
        0 <= n <= input.len(),
    ensures
        forall|k: int|
            0 <= k < prefix_words(entries, input, n).len() ==> {
                let word = #[trigger] prefix_words(entries, input, n)[k];
                &&& 1 <= word.0 <= n
                &&& word.1 == lookup_of(entries, input.take(word.0))
                &&& word.1.len() > 0
            },
        forall|k: int, m: int|
            0 <= k < m < prefix_words(entries, input, n).len() ==> (#[trigger] prefix_words(
                entries,
                input,
                n,
            )[k]).0 < (#[trigger] prefix_words(entries, input, n)[m]).0,
        forall|l: int|
            1 <= l <= n && lookup_of(entries, #[trigger] input.take(l)).len() > 0 ==> exists|k: int|
                0 <= k < prefix_words(entries, input, n).len() && (#[trigger] prefix_words(
                    entries,
                    input,
                    n,
                )[k]).0 == l,
    decreases n,
{
    if n > 0 {
        lemma_prefix_words_listed(entries, input, n - 1);
        let shorter = prefix_words(entries, input, n - 1);
        let all = prefix_words(entries, input, n);
        assert forall|k: int, m: int| 0 <= k < m < all.len() implies (#[trigger] all[k]).0 < (
        #[trigger] all[m]).0 by {
            assert(all[k] == shorter[k]);
            if m < shorter.len() {
                assert(all[m] == shorter[m]);
            }
        }
        assert forall|k: int| 0 <= k < all.len() implies {
            let word = #[trigger] all[k];
            &&& 1 <= word.0 <= n
            &&& word.1 == lookup_of(entries, input.take(word.0))
            &&& word.1.len() > 0
        } by {
            if k < shorter.len() {
                assert(all[k] == shorter[k]);
            }
        }
        assert forall|l: int|
            1 <= l <= n && lookup_of(entries, #[trigger] input.take(l)).len() > 0 implies exists|
            k: int,
        |
            0 <= k < all.len() && (#[trigger] all[k]).0 == l by {
            if l < n {
                let k = choose|k: int| 0 <= k < shorter.len() && (#[trigger] shorter[k]).0 == l;
                assert(all[k] == shorter[k]);
            } else {
                assert(all[all.len() - 1].0 == l);
            }
        }
    }
}

/// The entries of the readings made of `prefix` and each of `rests`, in order.
pub open spec fn words_under(
    entries: Seq<EntryView>,
    prefix: Seq<char>,
    rests: Seq<Seq<char>>,
) -> Seq<EntryView>
    decreases rests.len(),
{
    if rests.len() == 0 {
        Seq::empty()
    } else {
        words_under(entries, prefix, rests.drop_last()) + lookup_of(entries, prefix + rests.last())
    }
}

/// What the persistent store said to a row operation.
#[derive(Clone, Copy, Debug, PartialEq, Eq, Structural)]
pub enum StoreReply {
    /// No store is attached.
    Detached,
    /// The store carried the operation out.
    Done,
    /// The store could not carry the operation out.
    Failed,
}

/// The store refused; nothing was changed in memory.
#[derive(Clone, Copy, Debug, PartialEq, Eq, Structural)]
pub struct StoreFailed;

impl Dictionary {
    /// The entries added by the user.
    pub open spec fn user_part(self) -> Seq<EntryView> {
        self@.skip(self.builtin_count())
    }

    /// The entries added by the user.
    pub fn user_entries(&self) -> (user: &[DictionaryEntry])
        requires
            self.wf(),
        ensures
            entry::entry_views(user@) == self.user_part(),
    {
        let user = vstd::slice::slice_subrange(
            self.entries.as_slice(),
            self.user_start,
            self.entries.len(),
        );
        assert(entry::entry_views(user@) =~= self.user_part());
        user
    }

    /// Takes the last entry away.
    fn pop_entry(&mut self)
        requires
            old(self).wf(),
            old(self).builtin_count() < old(self)@.len(),
        ensures
            final(self).wf(),
            final(self)@ == old(self)@.drop_last(),
            final(self).builtin_count() == old(self).builtin_count(),
            final(self).log_table() == old(self).log_table(),
    {
        let ghost before = *self;
        assert(before@.len() == before.entries@.len());
        let popped = self.entries.pop();
        let _ = self.freqs.pop();
        let idx: usize = self.entries.len();
        match popped {
            Some(e) => {
                let ghost ev = e@;
                proof {
                    assert(ev == before@.last());
                    assert(self@ =~= before@.drop_last());
                }
                self.trie.remove(e.reading.as_str(), idx);
                proof {
                    assert(self.freqs@ =~= frequencies(self@));
                    assert(self@.push(ev) =~= before@);
                    assert forall|key: Seq<char>| #[trigger] self.trie.postings(key)
                        == lookup_indices(self@, key) by {
                        lemma_lookup_push(self@, ev, key);
                        assert(before.trie.postings(key) == lookup_indices(before@, key));
                        if key == ev.reading {
                            let list = lookup_indices(self@, key);
                            lemma_indices_of(self@, key);
                            lemma_sorted_is_descending(indices_of(self@, key), frequencies(self@));
                            assert(!list.contains(idx)) by {
                                if list.contains(idx) {
                                    let w = choose|w: int| 0 <= w < list.len() && list[w] == idx;
                                    let all = indices_of(self@, key);
                                    assert(all.contains(list[w]));
                                    let v = choose|v: int| 0 <= v < all.len() && all[v] == list[w];
                                    assert(all[v] < self@.len());
                                }
                            }
                            lemma_insert_then_remove(list, frequencies(before@), idx);
                        }
                    }
                }
            },
            None => {
                assert(false);
            },
        }
    }

    /// Adds the entries one after the other and tells how many there were.
    pub fn add_entries(&mut self, new_entries: Vec<DictionaryEntry>) -> (count: usize)
        requires
            old(self).wf(),
        ensures
            final(self).wf(),
            final(self)@ == old(self)@ + entry::entry_views(new_entries@),
            final(self).builtin_count() == old(self).builtin_count(),
            final(self).log_table() == old(self).log_table(),
            count == new_entries@.len(),
    {
        let ghost before = *self;
        let mut i: usize = 0;
        assert(entry::entry_views(new_entries@.take(0)) =~= Seq::empty());
        while i < new_entries.len()
            invariant
                i <= new_entries@.len(),
                self.wf(),
                self@ == before@ + entry::entry_views(new_entries@.take(i as int)),
                self.builtin_count() == before.builtin_count(),
                self.log_table() == before.log_table(),
            decreases new_entries@.len() - i,
        {
            self.add_entry(new_entries[i].clone());
            i = i + 1;
            assert(self@ =~= before@ + entry::entry_views(new_entries@.take(i as int)));
        }
        assert(new_entries@.take(i as int) =~= new_entries@);
        i
    }

    /// Puts `new_entries` in the place of all entries added by the user.
    pub fn replace_user_entries(&mut self, new_entries: Vec<DictionaryEntry>)
        requires
            old(self).wf(),
        ensures
            final(self).wf(),
            final(self)@ == old(self)@.take(old(self).builtin_count()) + entry::entry_views(
                new_entries@,
            ),
            final(self).builtin_count() == old(self).builtin_count(),
            final(self).log_table() == old(self).log_table(),
    {
        let ghost before = *self;
        assert(before@.take(before@.len() as int) =~= before@);
        while self.entries.len() > self.user_start
            invariant
                self.wf(),
                self.builtin_count() == before.builtin_count(),
                self.log_table() == before.log_table(),
                before.wf(),
                before.builtin_count() <= self@.len() <= before@.len(),
                self@ == before@.take(self@.len() as int),
            decreases self@.len(),
        {
            assert(self@.len() == self.entries@.len());
            let ghost n = self@.len();
            self.pop_entry();
            assert(self@ =~= before@.take(n - 1));
        }
        let _ = self.add_entries(new_entries);
    }

    /// Adds a word of the user, unless the store failed to take it.
    pub fn add_user_entry_and_persist(
        &mut self,
        entry: DictionaryEntry,
        stored: StoreReply,
    ) -> (done: Result<(), StoreFailed>)
        requires
            old(self).wf(),
        ensures
            final(self).wf(),
            done is Err <==> stored is Failed,
            final(self)@ == (if stored is Failed {
                old(self)@
            } else {
                old(self)@.push(entry@)
            }),
            final(self).builtin_count() == old(self).builtin_count(),
            final(self).log_table() == old(self).log_table(),
    {
        if stored == StoreReply::Failed {
            return Err(StoreFailed);
        }
        self.add_entry(entry);
        Ok(())
    }

    /// Did the user add an entry with this reading and surface?
    pub fn has_user_entry(&self, reading: &str, surface: &str) -> (found: bool)
        requires
            self.wf(),
        ensures
            found == has_pair(self.user_part(), reading@, surface@),
    {
        self.find_user_entry(reading, surface).is_some()
    }

    /// The first entry of the user with this reading and surface.
    fn find_user_entry(&self, reading: &str, surface: &str) -> (found: Option<&DictionaryEntry>)
        requires
            self.wf(),
        ensures
            match found {
                Some(e) => first_pair(self.user_part(), reading@, surface@) == Some(e@),
                None => first_pair(self.user_part(), reading@, surface@) is None,
            },
            found is Some <==> has_pair(self.user_part(), reading@, surface@),
    {
        let want_reading: String = reading.to_owned();
        let want_surface: String = surface.to_owned();
        let user = self.user_entries();
        let ghost part = self.user_part();
        let mut i: usize = 0;
        while i < user.len()
            invariant
                i <= user@.len(),
                part == self.user_part(),
                entry::entry_views(user@) == part,
                want_reading@ == reading@,
                want_surface@ == surface@,
                first_pair(part.take(i as int), reading@, surface@) is None,
                forall|j: int|
                    0 <= j < i ==> !((#[trigger] part[j]).reading == reading@ && part[j].surface
                        == surface@),
            decreases user@.len() - i,
        {
            assert(part[i as int] == user@[i as int]@);
            assert(part.take(i + 1).drop_last() =~= part.take(i as int));
            if user[i].reading == want_reading && user[i].surface == want_surface {
                proof {
                    lemma_first_pair_prefix(part, reading@, surface@, i + 1);
                    assert(part[i as int].reading == reading@);
                }
                return Some(&user[i]);
            }
            i = i + 1;
        }
        assert(part.take(i as int) =~= part);
        None
    }

    /// Takes away the entries of the user with this reading and surface,
    /// unless the store failed to. Tells whether there were any; when there
    /// were none the store was not asked and nothing changes.
    pub fn remove_user_entry_and_persist(
        &mut self,
        reading: &str,
        surface: &str,
        stored: StoreReply,
    ) -> (done: Result<bool, StoreFailed>)
        requires
            old(self).wf(),
        ensures
            final(self).wf(),
            final(self).builtin_count() == old(self).builtin_count(),
            final(self).log_table() == old(self).log_table(),
            !has_pair(old(self).user_part(), reading@, surface@) ==> done == Ok::<
                bool,
                StoreFailed,
            >(false) && final(self)@ == old(self)@,
            has_pair(old(self).user_part(), reading@, surface@) && stored is Failed ==> done
                == Err::<bool, StoreFailed>(StoreFailed) && final(self)@ == old(self)@,
            has_pair(old(self).user_part(), reading@, surface@) && !(stored is Failed) ==> done
                == Ok::<bool, StoreFailed>(true) && final(self)@ == old(self)@.take(
                old(self).builtin_count(),
            ) + old(self).user_part().filter(other_pair(reading@, surface@)),
    {
        if !self.has_user_entry(reading, surface) {
            return Ok(false);
        }
        if stored == StoreReply::Failed {
            return Err(StoreFailed);
        }
        let kept: Vec<DictionaryEntry> = self.user_entries_without(reading, surface);
        proof {
            lemma_filter_shrinks(self.user_part(), other_pair(reading@, surface@));
        }
        self.replace_user_entries(kept);
        Ok(true)
    }

    /// Copies of the user's entries other than those with the given pair.
    fn user_entries_without(&self, reading: &str, surface: &str) -> (kept: Vec<DictionaryEntry>)
        requires
            self.wf(),
        ensures
            entry::entry_views(kept@) == self.user_part().filter(other_pair(reading@, surface@)),
    {
        let want_reading: String = reading.to_owned();
        let want_surface: String = surface.to_owned();
        let user = self.user_entries();
        let ghost part = self.user_part();
        let ghost pred = other_pair(reading@, surface@);
        let mut kept: Vec<DictionaryEntry> = Vec::new();
        let mut i: usize = 0;
        assert(entry::entry_views(kept@) =~= part.take(0).filter(pred));
        while i < user.len()
            invariant
                i <= user@.len(),
                entry::entry_views(user@) == part,
                want_reading@ == reading@,
                want_surface@ == surface@,
                pred == other_pair(reading@, surface@),
                entry::entry_views(kept@) == part.take(i as int).filter(pred),
            decreases user@.len() - i,
        {
            let ghost kept_before = kept@;
            proof {
                assert(part[i as int] == user@[i as int]@);
                assert(part.take(i + 1) =~= part.take(i as int).push(part[i as int]));
                part.take(i as int).lemma_filter_push(part[i as int], pred);
            }
            if !(user[i].reading == want_reading && user[i].surface == want_surface) {
                kept.push(user[i].clone());
                assert(entry::entry_views(kept@) =~= entry::entry_views(kept_before).push(
                    part[i as int],
                ));
            }
            i = i + 1;
        }
        assert(part.take(i as int) =~= part);
        kept
    }

    /// The row that takes the place of the user's entry with the old pair: the
    /// new reading and surface with the part of speech and the frequency of
    /// the old entry. `None` when there is no such entry.
    pub fn updated_user_entry(
        &self,
        old_reading: &str,
        old_surface: &str,
        new_reading: &str,
        new_surface: &str,
    ) -> (row: Option<DictionaryEntry>)
        requires
            self.wf(),
        ensures
            match (first_pair(self.user_part(), old_reading@, old_surface@), row) {
                (Some(e), Some(r)) => r@ == (EntryView {
                    reading: new_reading@,
                    surface: new_surface@,
                    pos: e.pos,
                    frequency: e.frequency,
                }),
                (None, None) => true,
                _ => false,
            },
    {
        match self.find_user_entry(old_reading, old_surface) {
            Some(e) => Some(
                DictionaryEntry {
                    reading: new_reading.to_owned(),
                    surface: new_surface.to_owned(),
                    pos: e.pos,
                    frequency: e.frequency,
                },
            ),
            None => None,
        }
    }

    /// Gives the user's entry with the old pair a new reading and surface,
    /// unless the store failed to. The changed entry moves to the end; its
    /// part of speech and frequency stay. Tells whether there was such an
    /// entry; when there was none nothing changes.
    pub fn update_user_entry_and_persist(
        &mut self,
        old_reading: &str,
        old_surface: &str,
        new_reading: &str,
        new_surface: &str,
        stored: StoreReply,
    ) -> (done: Result<bool, StoreFailed>)
        requires
            old(self).wf(),
        ensures
            final(self).wf(),
            final(self).builtin_count() == old(self).builtin_count(),
            final(self).log_table() == old(self).log_table(),
            match first_pair(old(self).user_part(), old_reading@, old_surface@) {
                None => done == Ok::<bool, StoreFailed>(false) && final(self)@ == old(self)@,
                Some(e) => if stored is Failed {
                    done == Err::<bool, StoreFailed>(StoreFailed) && final(self)@ == old(self)@
                } else {
                    done == Ok::<bool, StoreFailed>(true) && final(self)@ == old(self)@.take(
                        old(self).builtin_count(),
                    ) + old(self).user_part().filter(other_pair(old_reading@, old_surface@)).push(
                        EntryView {
                            reading: new_reading@,
                            surface: new_surface@,
                            pos: e.pos,
                            frequency: e.frequency,
                        },
                    )
                },
            },
    {
        let row: DictionaryEntry = match self.updated_user_entry(
            old_reading,
            old_surface,
            new_reading,
            new_surface,
        ) {
            Some(r) => r,
            None => {
                return Ok(false);
            },
        };
        if stored == StoreReply::Failed {
            return Err(StoreFailed);
        }
        let ghost part = self.user_part();
        let mut kept: Vec<DictionaryEntry> = self.user_entries_without(old_reading, old_surface);
        let ghost kept_before = kept@;
        let ghost rv = row@;
        kept.push(row);
        proof {
            assert(entry::entry_views(kept@) =~= entry::entry_views(kept_before).push(rv));
            lemma_first_pair_found(part, old_reading@, old_surface@);
            lemma_filter_drops_one(part, old_reading@, old_surface@);
            assert(entry::entry_views(kept_before).len() == kept_before.len());
            self.lemma_wf();
        }
        self.replace_user_entries(kept);
        Ok(true)
    }

    /// Adds the entries that bring a new pair of reading and surface, at most
    /// `limit` of them, and tells how many were added.
    fn import_up_to(&mut self, incoming: &Vec<DictionaryEntry>, limit: usize) -> (added: usize)
        requires
            old(self).wf(),
        ensures
            final(self).wf(),
            final(self).builtin_count() == old(self).builtin_count(),
            final(self).log_table() == old(self).log_table(),
            ({
                let fresh = fresh_entries(old(self)@, entry::entry_views(incoming@));
                &&& added == (if fresh.len() < limit { fresh.len() as int } else { limit as int })
                &&& final(self)@ == old(self)@ + fresh.take(added as int)
            }),
    {
        let ghost before = *self;
        let ghost all = entry::entry_views(incoming@);
        let mut added: usize = 0;
        let mut i: usize = 0;
        proof {
            assert(fresh_entries(before@, all.take(0)) =~= Seq::empty());
            assert(self@ =~= before@ + Seq::<EntryView>::empty());
        }
        while i < incoming.len() && added < limit
            invariant
                i <= incoming@.len(),
                all == entry::entry_views(incoming@),
                self.wf(),
                self.builtin_count() == before.builtin_count(),
                self.log_table() == before.log_table(),
                added <= i,
                added <= limit,
                added == fresh_entries(before@, all.take(i as int)).len(),
                self@ == before@ + fresh_entries(before@, all.take(i as int)),
            decreases incoming@.len() - i,
        {
            proof {
                assert(all.take(i + 1).drop_last() =~= all.take(i as int));
                assert(all.take(i + 1).last() == incoming@[i as int]@);
            }
            let known: bool = self.has_entry(
                incoming[i].reading.as_str(),
                incoming[i].surface.as_str(),
            );
            if !known {
                self.add_entry(incoming[i].clone());
                added = added + 1;
                proof {
                    assert(self@ =~= before@ + fresh_entries(before@, all.take(i + 1)));
                }
            }
            i = i + 1;
        }
        proof {
            lemma_fresh_prefix(before@, all, i as int);
            if i == incoming@.len() {
                assert(all.take(i as int) =~= all);
            }
            let fresh = fresh_entries(before@, all);
            assert(fresh.take(added as int) =~= fresh_entries(before@, all.take(i as int)));
        }
        added
    }

    /// Adds the entries that bring a new pair of reading and surface and tells
    /// how many these were.
    pub fn import(&mut self, incoming: &Vec<DictionaryEntry>) -> (added: usize)
        requires
            old(self).wf(),
        ensures
            final(self).wf(),
            final(self).builtin_count() == old(self).builtin_count(),
            final(self).log_table() == old(self).log_table(),
            added == fresh_entries(old(self)@, entry::entry_views(incoming@)).len(),
            final(self)@ == old(self)@ + fresh_entries(old(self)@, entry::entry_views(incoming@)),
    {
        let ghost fresh = fresh_entries(self@, entry::entry_views(incoming@));
        proof {
            lemma_fresh_len(self@, entry::entry_views(incoming@));
        }
        let added = self.import_up_to(incoming, incoming.len());
        assert(fresh.take(fresh.len() as int) =~= fresh);
        added
    }

    /// The entries that bring a new pair of reading and surface.
    pub fn new_entries(&self, incoming: &Vec<DictionaryEntry>) -> (fresh: Vec<DictionaryEntry>)
        requires
            self.wf(),
        ensures
            entry::entry_views(fresh@) == fresh_entries(self@, entry::entry_views(incoming@)),
            fresh@.len() <= incoming@.len(),
    {
        let ghost all = entry::entry_views(incoming@);
        let mut fresh: Vec<DictionaryEntry> = Vec::new();
        let mut i: usize = 0;
        assert(entry::entry_views(fresh@) =~= fresh_entries(self@, all.take(0)));
        while i < incoming.len()
            invariant
                i <= incoming@.len(),
                self.wf(),
                all == entry::entry_views(incoming@),
                fresh@.len() <= i,
                entry::entry_views(fresh@) == fresh_entries(self@, all.take(i as int)),
            decreases incoming@.len() - i,
        {
            let ghost before = entry::entry_views(fresh@);
            let ghost e = incoming@[i as int]@;
            proof {
                assert(all.take(i + 1).drop_last() =~= all.take(i as int));
                assert(all.take(i + 1).last() == e);
            }
            let reading: &str = incoming[i].reading.as_str();
            let surface: &str = incoming[i].surface.as_str();
            let known: bool = self.has_entry(reading, surface);
            let repeated: bool = holds_pair(&fresh, reading, surface);
            proof {
                lemma_pair_in_either(self@, before, e.reading, e.surface);
            }
            if !known && !repeated {
                fresh.push(incoming[i].clone());
                assert(entry::entry_views(fresh@) =~= before.push(e));
            }
            i = i + 1;
        }
        assert(all.take(i as int) =~= all);
        fresh
    }

    /// Adds the entries that bring a new pair of reading and surface, each once
    /// the store has taken it. `failed_after` tells after how many of them the
    /// store failed, if it did: those stay, the others are not added.
    pub fn import_and_persist(
        &mut self,
        incoming: &Vec<DictionaryEntry>,
        failed_after: Option<usize>,
    ) -> (done: Result<usize, StoreFailed>)
        requires
            old(self).wf(),
        ensures
            final(self).wf(),
            final(self).builtin_count() == old(self).builtin_count(),
            final(self).log_table() == old(self).log_table(),
            ({
                let fresh = fresh_entries(old(self)@, entry::entry_views(incoming@));
                match failed_after {
                    Some(n) if n < fresh.len() => done == Err::<usize, StoreFailed>(StoreFailed)
                        && final(self)@ == old(self)@ + fresh.take(n as int),
                    _ => (done matches Ok(added) && added == fresh.len()) && final(self)@ == old(
                        self,
                    )@ + fresh,
                }
            }),
    {
        let ghost fresh = fresh_entries(self@, entry::entry_views(incoming@));
        let count: usize = self.new_entries(incoming).len();
        assert(count == fresh.len());
        match failed_after {
            Some(n) => {
                if n < count {
                    self.import_up_to(incoming, n);
                    return Err(StoreFailed);
                }
            },
            None => {},
        }
        Ok(self.import(incoming))
    }

    /// The prefixes of `input` that are readings, from the shortest, each with
    /// its length in characters and its entries.
    pub fn common_prefix_search(&self, input: &str) -> (hits: Vec<(usize, Vec<&DictionaryEntry>)>)
        requires
            self.wf(),
        ensures
            hits@.map_values(
                |h: (usize, Vec<&DictionaryEntry>)|
                    (h.0 as int, h.1@.map_values(|e: &DictionaryEntry| e@)),
            ) == prefix_words(self@, input@, input@.len() as int),
    {
        let raw = self.trie.common_prefix_search(input);
        let ghost want = prefix_words(self@, input@, input@.len() as int);
        let ghost rawv = trie::hits_view(raw@);
        proof {
            self.lemma_prefix_words(input@, input@.len() as int);
        }
        let mut hits: Vec<(usize, Vec<&DictionaryEntry>)> = Vec::new();
        let mut i: usize = 0;
        while i < raw.len()
            invariant
                i <= raw@.len(),
                hits@.len() == i,
                rawv == trie::hits_view(raw@),
                self.resolves(rawv, want),
                forall|j: int|
                    0 <= j < i ==> {
                        &&& (#[trigger] hits@[j]).0 as int == want[j].0
                        &&& hits@[j].1@.map_values(|e: &DictionaryEntry| e@) == want[j].1
                    },
            decreases raw@.len() - i,
        {
            assert(rawv[i as int] == (raw@[i as int].0 as int, raw@[i as int].1@));
            assert(want[i as int].0 == raw@[i as int].0 as int);
            let found = self.resolve(raw[i].1.as_slice());
            hits.push((raw[i].0, found));
            i = i + 1;
        }
        assert(hits@.map_values(
            |h: (usize, Vec<&DictionaryEntry>)|
                (h.0 as int, h.1@.map_values(|e: &DictionaryEntry| e@)),
        ) =~= want);
        hits
    }

    /// The readings that the characters from `from` on start with, from the
    /// shortest, each with its length and copies of its entries.
    pub fn words_from(&self, chars: &Vec<char>, from: usize) -> (words: Vec<
        (usize, Vec<DictionaryEntry>),
    >)
        requires
            self.wf(),
            from <= chars@.len(),
        ensures
            words_view(words@) == prefix_words(
                self@,
                chars@.skip(from as int),
                chars@.len() - from,
            ),
    {
        let raw = self.trie.prefixes_from(chars, from);
        let ghost input = chars@.skip(from as int);
        let ghost want = prefix_words(self@, input, input.len() as int);
        let ghost rawv = trie::hits_view(raw@);
        proof {
            self.lemma_prefix_words(input, input.len() as int);
        }
        let mut words: Vec<(usize, Vec<DictionaryEntry>)> = Vec::new();
        let mut i: usize = 0;
        while i < raw.len()
            invariant
                i <= raw@.len(),
                words@.len() == i,
                rawv == trie::hits_view(raw@),
                self.resolves(rawv, want),
                forall|j: int|
                    0 <= j < i ==> {
                        &&& (#[trigger] words@[j]).0 as int == want[j].0
                        &&& entry::entry_views(words@[j].1@) == want[j].1
                    },
            decreases raw@.len() - i,
        {
            assert(rawv[i as int] == (raw@[i as int].0 as int, raw@[i as int].1@));
            assert(want[i as int].0 == raw@[i as int].0 as int);
            let ghost list = raw@[i as int].1@;
            let mut copies: Vec<DictionaryEntry> = Vec::new();
            let mut k: usize = 0;
            while k < raw[i].1.len()
                invariant
                    i < raw@.len(),
                    list == raw@[i as int].1@,
                    k <= list.len(),
                    copies@.len() == k,
                    forall|m: int| 0 <= m < list.len() ==> (#[trigger] list[m])
                        < self.entries@.len(),
                    forall|m: int|
                        0 <= m < k ==> (#[trigger] copies@[m])@ == self@[list[m] as int],
                decreases list.len() - k,
            {
                copies.push(self.entries[raw[i].1[k]].clone());
                k = k + 1;
            }
            assert(entry::entry_views(copies@) =~= want[i as int].1);
            words.push((raw[i].0, copies));
            i = i + 1;
        }
        assert(words_view(words@) =~= want);
        words
    }

    /// `words` is what the posting lists `hits` stand for.
    spec fn resolves(
        self,
        hits: Seq<(int, Seq<usize>)>,
        words: Seq<(int, Seq<EntryView>)>,
    ) -> bool {
        &&& words.len() == hits.len()
        &&& forall|j: int|
            0 <= j < hits.len() ==> {
                &&& (#[trigger] words[j]) == (hits[j].0, entries_at(self@, hits[j].1))
                &&& forall|k: int|
                    0 <= k < hits[j].1.len() ==> (#[trigger] hits[j].1[k]) < self.entries@.len()
            }
    }

    proof fn lemma_prefix_words(self, input: Seq<char>, n: int)
        requires
            self.wf(),
            0 <= n <= input.len(),
        ensures
            prefix_words(self@, input, n).len() == trie::prefix_hits(self.trie, input, n).len(),
            forall|j: int|
                0 <= j < prefix_words(self@, input, n).len() ==> {
                    let hit = trie::prefix_hits(self.trie, input, n)[j];
                    &&& (#[trigger] prefix_words(self@, input, n)[j]) == (
                        hit.0,
                        entries_at(self@, hit.1),
                    )
                    &&& forall|k: int|
                        0 <= k < hit.1.len() ==> (#[trigger] hit.1[k]) < self.entries@.len()
                },
        decreases n,
    {
        if n > 0 {
            self.lemma_prefix_words(input, n - 1);
            let key = input.take(n);
            self.lemma_postings_in_range(key);
            let list = self.trie.postings(key);
            assert(list == lookup_indices(self@, key));
            assert(lookup_of(self@, key) == entries_at(self@, list));
            assert(lookup_of(self@, key).len() == list.len());
            let words = prefix_words(self@, input, n);
            let hits = trie::prefix_hits(self.trie, input, n);
            assert forall|j: int| 0 <= j < words.len() implies {
                let hit = hits[j];
                &&& (#[trigger] words[j]) == (hit.0, entries_at(self@, hit.1))
                &&& forall|k: int|
                    0 <= k < hit.1.len() ==> (#[trigger] hit.1[k]) < self.entries@.len()
            } by {
                let shorter = prefix_words(self@, input, n - 1);
                if j < shorter.len() {
                    assert(words[j] == shorter[j]);
                    assert(hits[j] == trie::prefix_hits(self.trie, input, n - 1)[j]);
                }
            }
        }
    }

    /// The entries of all readings that start with `prefix`: the readings in
    /// some order, each once, and for each its entries by descending frequency.
    pub fn prefix_lookup(&self, prefix: &str) -> (found: Vec<&DictionaryEntry>)
        requires
            self.wf(),
        ensures
            exists|rests: Seq<Seq<char>>| #[trigger]
                lists_continuations(self@, prefix@, rests) && found@.map_values(
                    |e: &DictionaryEntry| e@,
                ) == words_under(self@, prefix@, rests),
    {
        let list = self.trie.prefix_lookup(prefix);
        let ghost keys = choose|keys: Seq<Seq<char>>|
            self.trie.lists_extensions(prefix@, keys) && list@
                == #[trigger] self.trie.gathered_under(prefix@, keys);
        proof {
            self.lemma_words_under(prefix@, keys);
            assert forall|rest: Seq<char>| #[trigger]
                lookup_of(self@, prefix@ + rest).len() > 0 implies keys.contains(rest) by {
                assert(self.trie.postings(prefix@ + rest) == lookup_indices(
                    self@,
                    prefix@ + rest,
                ));
            }
            assert(lists_continuations(self@, prefix@, keys));
        }
        self.resolve(list.as_slice())
    }

    proof fn lemma_words_under(self, prefix: Seq<char>, keys: Seq<Seq<char>>)
        requires
            self.wf(),
        ensures
            entries_at(self@, self.trie.gathered_under(prefix, keys)) == words_under(
                self@,
                prefix,
                keys,
            ),
            forall|i: int|
                0 <= i < self.trie.gathered_under(prefix, keys).len() ==> (
                #[trigger] self.trie.gathered_under(prefix, keys)[i]) < self.entries@.len(),
        decreases keys.len(),
    {
        let all = self.trie.gathered_under(prefix, keys);
        if keys.len() == 0 {
            assert(entries_at(self@, all) =~= words_under(self@, prefix, keys));
        } else {
            self.lemma_words_under(prefix, keys.drop_last());
            let key = prefix + keys.last();
            self.lemma_postings_in_range(key);
            let a = self.trie.gathered_under(prefix, keys.drop_last());
            let b = self.trie.postings(key);
            assert(b == lookup_indices(self@, key));
            assert(all =~= a + b);
            assert(entries_at(self@, all) =~= entries_at(self@, a) + entries_at(self@, b));
            assert forall|i: int| 0 <= i < all.len() implies (#[trigger] all[i])
                < self.entries@.len() by {
                if i < a.len() {
                    assert(all[i] == a[i]);
                } else {
                    assert(all[i] == b[i - a.len()]);
                }
            }
        }
    }
}

/// `rests` names, none twice, the continuations of `prefix` that make the
/// reading of some entry.
pub open spec fn lists_continuations(
    entries: Seq<EntryView>,
    prefix: Seq<char>,
    rests: Seq<Seq<char>>,
) -> bool {
    &&& rests.no_duplicates()
    &&& forall|rest: Seq<char>| #[trigger]
        lookup_of(entries, prefix + rest).len() > 0 ==> rests.contains(rest)
}

proof fn lemma_first_pair_prefix(
    entries: Seq<EntryView>,
    reading: Seq<char>,
    surface: Seq<char>,
    n: int,
)
    requires
        0 <= n <= entries.len(),
        first_pair(entries.take(n), reading, surface) is Some,
    ensures
        first_pair(entries, reading, surface) == first_pair(entries.take(n), reading, surface),
    decreases entries.len() - n,
{
    if n < entries.len() {
        assert(entries.take(n + 1).drop_last() =~= entries.take(n));
        lemma_first_pair_prefix(entries, reading, surface, n + 1);
    } else {
        assert(entries.take(n) =~= entries);
    }
}

proof fn lemma_first_pair_found(entries: Seq<EntryView>, reading: Seq<char>, surface: Seq<char>)
    requires
        first_pair(entries, reading, surface) is Some,
    ensures
        has_pair(entries, reading, surface),
    decreases entries.len(),
{
    let rest = entries.drop_last();
    if first_pair(rest, reading, surface) is Some {
        lemma_first_pair_found(rest, reading, surface);
        let i = choose|i: int|
            0 <= i < rest.len() && (#[trigger] rest[i]).reading == reading && rest[i].surface
                == surface;
        assert(entries[i] == rest[i]);
    } else {
        assert(entries[entries.len() - 1].reading == reading);
    }
}

proof fn lemma_filter_shrinks(s: Seq<EntryView>, pred: spec_fn(EntryView) -> bool)
    ensures
        s.filter(pred).len() <= s.len(),
{
    s.lemma_filter_len(pred);
}

proof fn lemma_filter_drops_one(s: Seq<EntryView>, reading: Seq<char>, surface: Seq<char>)
    requires
        has_pair(s, reading, surface),
    ensures
        s.filter(other_pair(reading, surface)).len() < s.len(),
    decreases s.len(),
{
    let pred = other_pair(reading, surface);
    let rest = s.drop_last();
    rest.lemma_filter_push(s.last(), pred);
    assert(rest.push(s.last()) =~= s);
    if pred(s.last()) {
        let i = choose|i: int|
            0 <= i < s.len() && (#[trigger] s[i]).reading == reading && s[i].surface == surface;
        assert(i < rest.len());
        assert(rest[i] == s[i]);
        lemma_filter_drops_one(rest, reading, surface);
    } else {
        rest.lemma_filter_len(pred);
    }
}

/// Does the list hold an entry with this reading and this surface?
fn holds_pair(list: &Vec<DictionaryEntry>, reading: &str, surface: &str) -> (found: bool)
    ensures
        found == has_pair(entry::entry_views(list@), reading@, surface@),
{
    let ghost all = entry::entry_views(list@);
    let mut i: usize = 0;
    while i < list.len()
        invariant
            i <= list@.len(),
            all == entry::entry_views(list@),
            forall|k: int|
                0 <= k < i ==> !((#[trigger] all[k]).reading == reading@ && all[k].surface
                    == surface@),
        decreases list@.len() - i,
    {
        assert(all[i as int] == list@[i as int]@);
        if same_text(list[i].reading.as_str(), reading) && same_text(
            list[i].surface.as_str(),
            surface,
        ) {
            return true;
        }
        i = i + 1;
    }
    false
}

proof fn lemma_pair_in_either(
    a: Seq<EntryView>,
    b: Seq<EntryView>,
    reading: Seq<char>,
    surface: Seq<char>,
)
    ensures
        has_pair(a + b, reading, surface) <==> (has_pair(a, reading, surface) || has_pair(
            b,
            reading,
            surface,
        )),
{
    let s = a + b;
    if has_pair(a, reading, surface) {
        let k = choose|k: int|
            0 <= k < a.len() && (#[trigger] a[k]).reading == reading && a[k].surface == surface;
        assert(s[k] == a[k]);
    }
    if has_pair(b, reading, surface) {
        let k = choose|k: int|
            0 <= k < b.len() && (#[trigger] b[k]).reading == reading && b[k].surface == surface;
        assert(s[a.len() + k] == b[k]);
    }
    if has_pair(s, reading, surface) {
        let k = choose|k: int|
            0 <= k < s.len() && (#[trigger] s[k]).reading == reading && s[k].surface == surface;
        if k < a.len() {
            assert(a[k] == s[k]);
        } else {
            assert(b[k - a.len()] == s[k]);
        }
    }
}

proof fn lemma_fresh_len(known: Seq<EntryView>, incoming: Seq<EntryView>)
    ensures
        fresh_entries(known, incoming).len() <= incoming.len(),
    decreases incoming.len(),
{
    if incoming.len() > 0 {
        lemma_fresh_len(known, incoming.drop_last());
    }
}

proof fn lemma_fresh_prefix(known: Seq<EntryView>, incoming: Seq<EntryView>, n: int)
    requires
        0 <= n <= incoming.len(),
    ensures
        fresh_entries(known, incoming.take(n)).len() <= fresh_entries(known, incoming).len(),
        fresh_entries(known, incoming.take(n)) == fresh_entries(known, incoming).take(
            fresh_entries(known, incoming.take(n)).len() as int,
        ),
    decreases incoming.len() - n,
{
    let short = fresh_entries(known, incoming.take(n));
    if n < incoming.len() {
        lemma_fresh_prefix(known, incoming, n + 1);
        assert(incoming.take(n + 1).drop_last() =~= incoming.take(n));
        let mid = fresh_entries(known, incoming.take(n + 1));
        let full = fresh_entries(known, incoming);
        assert(short =~= mid.take(short.len() as int));
        assert(mid.take(short.len() as int) =~= full.take(short.len() as int));
    } else {
        assert(incoming.take(n) =~= incoming);
        assert(short =~= short.take(short.len() as int));
    }
}

/// After an import no pair of reading and surface is missing, and what was
/// there before is still there, in the same order.
pub proof fn law_import_completes(known: Seq<EntryView>, incoming: Seq<EntryView>, i: int)
    requires
        0 <= i < incoming.len(),
    ensures
        has_pair(
            known + fresh_entries(known, incoming),
            incoming[i].reading,
            incoming[i].surface,
        ),
    decreases incoming.len(),
{
    let shorter = incoming.drop_last();
    let before = fresh_entries(known, shorter);
    let after = fresh_entries(known, incoming);
    let all = known + after;
    if i < shorter.len() {
        law_import_completes(known, shorter, i);
        let prev = known + before;
        let k = choose|k: int|
            0 <= k < prev.len() && (#[trigger] prev[k]).reading == incoming[i].reading
                && prev[k].surface == incoming[i].surface;
        assert(all[k] == prev[k]);
    } else if has_pair(known + before, incoming[i].reading, incoming[i].surface) {
    } else {
        assert(all[all.len() - 1] == incoming[i]);
    }
}

/// Entries of one reading come in the order of their frequency, and equally frequent
/// ones in the order in which the dictionary holds them.
pub proof fn law_lookup_order(entries: Seq<EntryView>, key: Seq<char>, x: int, y: int)
    requires
        entries.len() <= usize::MAX,
        0 <= x < entries.len(),
        0 <= y < entries.len(),
        x != y,
        entries[x].reading == key,
        entries[y].reading == key,
        entries[x].frequency > entries[y].frequency || (entries[x].frequency
            == entries[y].frequency && x < y),
    ensures
        exists|p: int, q: int|
            0 <= p < q < lookup_of(entries, key).len() && #[trigger] lookup_of(entries, key)[p]
                == entries[x] && #[trigger] lookup_of(entries, key)[q] == entries[y],
{
    let list = indices_of(entries, key);
    let freqs = frequencies(entries);
    let keys = trie::posting_keys(list, freqs);
    let order = rank::ranking(keys);
    let out = lookup_of(entries, key);
    lemma_indices_of(entries, key);
    rank::lemma_ranking(keys);
    assert(list.contains(x as usize) && list.contains(y as usize));
    let a = choose|w: int| 0 <= w < list.len() && list[w] == x as usize;
    let b = choose|w: int| 0 <= w < list.len() && list[w] == y as usize;
    lemma_indices_rise(entries, key);
    assert(order.contains(a) && order.contains(b));
    let p = choose|k: int| 0 <= k < order.len() && order[k] == a;
    let q = choose|k: int| 0 <= k < order.len() && order[k] == b;
    assert(keys[a] == entries[x].frequency && keys[b] == entries[y].frequency);
    if x < y && b < a {
        assert(list[b] < list[a]);
    }
    if q < p {
        assert(rank::ranks_before(keys, order[q], order[p]));
    }
    assert(out[p] == entries[x] && out[q] == entries[y]);
}

proof fn lemma_indices_rise(entries: Seq<EntryView>, key: Seq<char>)
    requires
        entries.len() <= usize::MAX,
    ensures
        forall|i: int, j: int|
            0 <= i < j < indices_of(entries, key).len() ==> #[trigger] indices_of(entries, key)[i]
                < #[trigger] indices_of(entries, key)[j],
        forall|i: int|
            0 <= i < indices_of(entries, key).len() ==> #[trigger] indices_of(entries, key)[i]
                < entries.len(),
    decreases entries.len(),
{
    if entries.len() > 0 {
        let rest = entries.drop_last();
        lemma_indices_rise(rest, key);
        let before = indices_of(rest, key);
        let out = indices_of(entries, key);
        assert forall|i: int, j: int| 0 <= i < j < out.len() implies #[trigger] out[i]
            < #[trigger] out[j] by {
            assert(out[i] == before[i]);
            if j < before.len() {
                assert(out[j] == before[j]);
            }
        }
        assert forall|i: int| 0 <= i < out.len() implies #[trigger] out[i] < entries.len() by {
            if i < before.len() {
                assert(out[i] == before[i]);
            }
        }
    }
}

/// One more entry adds itself to what a lookup of its reading finds, and changes the
/// number of entries found for no other.
pub proof fn law_lookup_counts_entries(entries: Seq<EntryView>, e: EntryView, key: Seq<char>)
    ensures
        lookup_of(entries.push(e), key).len() == lookup_of(entries, key).len() + (if e.reading
            == key {
            1int
        } else {
            0int
        }),
        lookup_of(Seq::<EntryView>::empty(), key).len() == 0,
{
    assert(entries.push(e).drop_last() =~= entries);
    rank::lemma_ranking(
        trie::posting_keys(indices_of(entries.push(e), key), frequencies(entries.push(e))),
    );
    rank::lemma_ranking(trie::posting_keys(indices_of(entries, key), frequencies(entries)));
    rank::lemma_ranking(
        trie::posting_keys(
            indices_of(Seq::<EntryView>::empty(), key),
            frequencies(Seq::<EntryView>::empty()),
        ),
    );
}

/// An entry is taken in unless one with its reading and surface is known or was taken
/// in before it.
pub proof fn law_known_pairs_are_not_doubled(
    known: Seq<EntryView>,
    incoming: Seq<EntryView>,
    e: EntryView,
)
    ensures
        ({
            let before = fresh_entries(known, incoming);
            let after = fresh_entries(known, incoming.push(e));
            let doubled = (exists|i: int|
                0 <= i < known.len() && (#[trigger] known[i]).reading == e.reading
                    && known[i].surface == e.surface) || (exists|i: int|
                0 <= i < before.len() && (#[trigger] before[i]).reading == e.reading
                    && before[i].surface == e.surface);
            &&& doubled ==> after == before
            &&& !doubled ==> after == before.push(e)
        }),
        fresh_entries(known, Seq::<EntryView>::empty()).len() == 0,
{
    let before = fresh_entries(known, incoming);
    let all = known + before;
    assert(incoming.push(e).drop_last() =~= incoming);
    if has_pair(all, e.reading, e.surface) {
        let i = choose|i: int|
            0 <= i < all.len() && (#[trigger] all[i]).reading == e.reading && all[i].surface
                == e.surface;
        if i < known.len() {
            assert(known[i] == all[i]);
        } else {
            assert(before[i - known.len()] == all[i]);
        }
    }
    if exists|i: int|
        0 <= i < known.len() && (#[trigger] known[i]).reading == e.reading && known[i].surface
            == e.surface {
        let i = choose|i: int|
            0 <= i < known.len() && (#[trigger] known[i]).reading == e.reading && known[i].surface
                == e.surface;
        assert(all[i] == known[i]);
    }
    if exists|i: int|
        0 <= i < before.len() && (#[trigger] before[i]).reading == e.reading && before[i].surface
            == e.surface {
        let i = choose|i: int|
            0 <= i < before.len() && (#[trigger] before[i]).reading == e.reading
                && before[i].surface == e.surface;
        assert(all[known.len() + i] == before[i]);
    }
}

/// The first entry with a reading and surface is the one that counts.
pub proof fn law_first_pair_counts(
    entries: Seq<EntryView>,
    reading: Seq<char>,
    surface: Seq<char>,
    i: int,
)
    requires
        forall|j: int|
            0 <= j < i && j < entries.len() ==> !((#[trigger] entries[j]).reading == reading
                && entries[j].surface == surface),
    ensures
        0 <= i < entries.len() && entries[i].reading == reading && entries[i].surface == surface
            ==> first_pair(entries, reading, surface) == Some(entries[i]),
        i >= entries.len() ==> first_pair(entries, reading, surface) is None,
    decreases entries.len(),
{
    if entries.len() > 0 {
        let rest = entries.drop_last();
        assert forall|j: int| 0 <= j < i && j < rest.len() implies !((#[trigger] rest[j]).reading
            == reading && rest[j].surface == surface) by {
            assert(rest[j] == entries[j]);
        }
        law_first_pair_counts(rest, reading, surface, i);
        if 0 <= i < rest.len() {
            assert(rest[i] == entries[i]);
        }
        if i >= entries.len() {
            assert(entries[entries.len() - 1] == entries.last());
        }
    }
}

/// Taking a word out leaves none with its reading and surface, and all others in their
/// order.
pub proof fn law_removed_pair_is_gone(
    entries: Seq<EntryView>,
    e: EntryView,
    reading: Seq<char>,
    surface: Seq<char>,
)
    ensures
        ({
            let before = entries.filter(other_pair(reading, surface));
            let after = entries.push(e).filter(other_pair(reading, surface));
            &&& e.reading == reading && e.surface == surface ==> after == before
            &&& e.reading != reading || e.surface != surface ==> after == before.push(e)
        }),
        !has_pair(entries.filter(other_pair(reading, surface)), reading, surface),
{
    entries.lemma_filter_push(e, other_pair(reading, surface));
    let left = entries.filter(other_pair(reading, surface));
    if has_pair(left, reading, surface) {
        let i = choose|i: int|
            0 <= i < left.len() && (#[trigger] left[i]).reading == reading && left[i].surface
                == surface;
        entries.lemma_filter_pred(other_pair(reading, surface), i);
    }
}

/// A search for the words at the start of a text finds every length for which there are
/// words, with all of them, the shorter ones first.
pub proof fn law_every_prefix_is_found(
    entries: Seq<EntryView>,
    input: Seq<char>,
    n: int,
    k: int,
)
    requires
        1 <= k <= n,
    ensures
        lookup_of(entries, input.take(k)).len() > 0 ==> prefix_words(entries, input, n).contains(
            (k, lookup_of(entries, input.take(k))),
        ),
        forall|i: int|
            0 <= i < prefix_words(entries, input, n).len() ==> {
                let h = #[trigger] prefix_words(entries, input, n)[i];
                1 <= h.0 <= n && h.1 == lookup_of(entries, input.take(h.0)) && h.1.len() > 0
            },
        forall|i: int, j: int|
            0 <= i < j < prefix_words(entries, input, n).len() ==> (#[trigger] prefix_words(
                entries,
                input,
                n,
            )[i]).0 < (#[trigger] prefix_words(entries, input, n)[j]).0,
    decreases n,
{
    let before = prefix_words(entries, input, n - 1);
    let out = prefix_words(entries, input, n);
    if n > 1 {
        law_every_prefix_is_found(
            entries,
            input,
            n - 1,
            if k < n {
                k
            } else {
                1
            },
        );
    }
    assert forall|i: int| 0 <= i < out.len() implies ({
        let h = #[trigger] out[i];
        1 <= h.0 <= n && h.1 == lookup_of(entries, input.take(h.0)) && h.1.len() > 0
    }) by {
        if i < before.len() {
            assert(out[i] == before[i]);
        }
    }
    assert forall|i: int, j: int| 0 <= i < j < out.len() implies (#[trigger] out[i]).0 < (
    #[trigger] out[j]).0 by {
        assert(out[i] == before[i]);
        if j < before.len() {
            assert(out[j] == before[j]);
        }
    }
    if lookup_of(entries, input.take(k)).len() > 0 {
        let h = (k, lookup_of(entries, input.take(k)));
        if k == n {
            assert(out[before.len() as int] == h);
        } else {
            let w = choose|w: int| 0 <= w < before.len() && before[w] == h;
            assert(out[w] == h);
        }
    }
}

proof fn lemma_under_holds(
    entries: Seq<EntryView>,
    prefix: Seq<char>,
    rests: Seq<Seq<char>>,
    w: int,
    e: EntryView,
)
    requires
        0 <= w < rests.len(),
        lookup_of(entries, prefix + rests[w]).contains(e),
    ensures
        words_under(entries, prefix, rests).contains(e),
    decreases rests.len(),
{
    let before = words_under(entries, prefix, rests.drop_last());
    let new = lookup_of(entries, prefix + rests.last());
    if w < rests.len() - 1 {
        lemma_under_holds(entries, prefix, rests.drop_last(), w, e);
        let k = choose|k: int| 0 <= k < before.len() && before[k] == e;
        assert((before + new)[k] == e);
    } else {
        let k = choose|k: int| 0 <= k < new.len() && new[k] == e;
        assert((before + new)[before.len() + k] == e);
    }
}

/// A search by the beginning of a reading finds every entry whose reading starts so.
pub proof fn law_prefix_lookup_finds_all(
    entries: Seq<EntryView>,
    prefix: Seq<char>,
    rests: Seq<Seq<char>>,
    i: int,
)
    requires
        entries.len() <= usize::MAX,
        lists_continuations(entries, prefix, rests),
        0 <= i < entries.len(),
        prefix.is_prefix_of(entries[i].reading),
    ensures
        words_under(entries, prefix, rests).contains(entries[i]),
{
    let rest = entries[i].reading.skip(prefix.len() as int);
    assert(prefix + rest =~= entries[i].reading);
    law_lookup_by_frequency(entries, prefix + rest);
    assert(lookup_of(entries, prefix + rest).contains(entries[i]));
    assert(lookup_of(entries, prefix + rest).len() > 0);
    assert(rests.contains(rest));
    let w = choose|w: int| 0 <= w < rests.len() && rests[w] == rest;
    lemma_under_holds(entries, prefix, rests, w, entries[i]);
}

/// A search by the beginning of a reading finds no entry whose reading starts otherwise.
pub proof fn law_prefix_lookup_finds_no_other(
    entries: Seq<EntryView>,
    prefix: Seq<char>,
    rests: Seq<Seq<char>>,
    k: int,
)
    requires
        entries.len() <= usize::MAX,
        0 <= k < words_under(entries, prefix, rests).len(),
    ensures
        prefix.is_prefix_of(words_under(entries, prefix, rests)[k].reading),
        entries.contains(words_under(entries, prefix, rests)[k]),
    decreases rests.len(),
{
    let before = words_under(entries, prefix, rests.drop_last());
    if k < before.len() {
        law_prefix_lookup_finds_no_other(entries, prefix, rests.drop_last(), k);
    } else {
        let key = prefix + rests.last();
        law_lookup_by_frequency(entries, key);
        law_lookup_finds_entries(entries, key);
        assert(words_under(entries, prefix, rests)[k] == lookup_of(entries, key)[k
            - before.len()]);
    }
}

/// The user's words are those behind the built-in ones.
pub proof fn law_user_words_stand_behind(d: Dictionary, i: int)
    requires
        0 <= d.builtin_count() <= d@.len(),
    ensures
        d.user_part().len() == d@.len() - d.builtin_count(),
        0 <= i < d.user_part().len() ==> d.user_part()[i] == d@[d.builtin_count() + i],
{
}

} // verus!
