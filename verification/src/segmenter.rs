//! Splitting a reading into words.
//!
//! Every stretch of the reading that is a word in the dictionary is a step of
//! a lattice; a single character may always be taken as an unknown word. The
//! cheapest path through the lattice gives the words.
use vstd::prelude::*;

use crate::dictionary;
use crate::dictionary::Dictionary;
use crate::entry;
use crate::entry::{DictionaryEntry, EntryView, Segment, SegmentView};
use crate::lattice;
use crate::lattice::{shortest_path, Step};
use crate::nano::{NanoTable, ONE};
use crate::pos;
use crate::pos::{PartOfSpeech, POS_COUNT};
use crate::text::{chars_of, text_between};

verus! {

/// Cost of a character that is taken as an unknown word: 20 units.
pub const UNKNOWN_COST: i64 = 20_000_000_000;

/// Largest bonus that learning can give to a word.
pub const BOOST_LIMIT: i64 = 35_184_372_088_832;

/// Bonus for a word, given its reading and its entries.
pub type Bonus = spec_fn(Seq<char>, Seq<EntryView>) -> int;

/// A source of bonuses for words that the user prefers.
pub trait SegmentBoost {
    /// What must hold of the source.
    spec fn ready(&self) -> bool;

    /// The bonus for a word, in billionths.
    spec fn boost_of(&self, reading: Seq<char>, entries: Seq<EntryView>) -> int;

    /// The bonus for a word, in billionths: how much cheaper the word becomes.
    fn boost(&self, reading: &str, entries: &Vec<DictionaryEntry>) -> (nano: i64)
        requires
            self.ready(),
        ensures
            nano == self.boost_of(reading@, entry::entry_views(entries@)),
            0 <= nano <= BOOST_LIMIT,
    ;
}

/// The bonuses of a source as a function.
pub open spec fn bonus_of<B: SegmentBoost>(b: B) -> Bonus {
    |reading: Seq<char>, entries: Seq<EntryView>| b.boost_of(reading, entries)
}

/// No bonus for any word.
pub struct NoBoost;

/// The bonus function that is zero everywhere.
pub open spec fn no_bonus() -> Bonus {
    |reading: Seq<char>, entries: Seq<EntryView>| 0int
}

impl SegmentBoost for NoBoost {
    open spec fn ready(&self) -> bool {
        true
    }

    open spec fn boost_of(&self, reading: Seq<char>, entries: Seq<EntryView>) -> int {
        0
    }

    fn boost(&self, reading: &str, entries: &Vec<DictionaryEntry>) -> (nano: i64) {
        0
    }
}

/// The highest frequency among the entries with part of speech `p`; 0 when
/// there is none.
pub open spec fn top_frequency(entries: Seq<EntryView>, p: PartOfSpeech) -> int
    decreases entries.len(),
{
    if entries.len() == 0 {
        0
    } else {
        let rest = top_frequency(entries.drop_last(), p);
        if entries.last().pos == p && entries.last().frequency > rest {
            entries.last().frequency as int
        } else {
            rest
        }
    }
}

/// Is there a word at position `i` with more than `len` characters?
pub open spec fn longer_word(entries: Seq<EntryView>, input: Seq<char>, i: int, len: int) -> bool {
    exists|l: int|
        len < l <= input.len() - i && #[trigger] dictionary::lookup_of(
            entries,
            input.subrange(i, i + l),
        ).len() > 0
}

/// Cost of a word of `len` characters: longer and more frequent words are
/// cheaper, and each word costs one unit more.
pub open spec fn segment_cost(logs: NanoTable, len: int, frequency: int) -> int {
    ONE - len * logs.at(frequency)
}

/// The bonus for the word from `i` to `j`. A word that a longer one starts with
/// gets none, so that learning never breaks a longer word apart.
pub open spec fn word_bonus(
    entries: Seq<EntryView>,
    bonus: Bonus,
    input: Seq<char>,
    i: int,
    j: int,
) -> int {
    if longer_word(entries, input, i, j - i) {
        0
    } else {
        bonus(input.subrange(i, j), dictionary::lookup_of(entries, input.subrange(i, j)))
    }
}

/// Cost of the dictionary word from `i` to `j` as part of speech `q`.
pub open spec fn word_weight(
    entries: Seq<EntryView>,
    logs: NanoTable,
    bonus: Bonus,
    input: Seq<char>,
    i: int,
    j: int,
    q: PartOfSpeech,
) -> Option<int> {
    let f = top_frequency(dictionary::lookup_of(entries, input.subrange(i, j)), q);
    if !(0 <= i < j <= input.len()) || f == 0 {
        None
    } else {
        Some(segment_cost(logs, j - i, f) - word_bonus(entries, bonus, input, i, j))
    }
}

/// Cost of going from `i` to `j` as part of speech `q`: that of the dictionary
/// word, or of an unknown character where that is cheaper.
pub open spec fn step_weight(
    entries: Seq<EntryView>,
    logs: NanoTable,
    bonus: Bonus,
    input: Seq<char>,
    i: int,
    j: int,
    q: PartOfSpeech,
) -> Option<int> {
    let word = word_weight(entries, logs, bonus, input, i, j, q);
    if 0 <= i < input.len() && j == i + 1 && q == PartOfSpeech::Other {
        match word {
            Some(c) => Some(
                if UNKNOWN_COST < c {
                    UNKNOWN_COST as int
                } else {
                    c
                },
            ),
            None => Some(UNKNOWN_COST as int),
        }
    } else {
        word
    }
}

/// The lattice of words over `input`.
pub open spec fn word_lattice(
    entries: Seq<EntryView>,
    logs: NanoTable,
    bonus: Bonus,
    input: Seq<char>,
) -> lattice::Weights {
    |i: int, j: int, q: PartOfSpeech| step_weight(entries, logs, bonus, input, i, j, q)
}

/// The segment from `b.0` to `b.1`, with the words that have its reading.
pub open spec fn segment_at(
    entries: Seq<EntryView>,
    input: Seq<char>,
    b: (int, int),
) -> SegmentView {
    SegmentView {
        reading: input.subrange(b.0, b.1),
        start: b.0,
        len: b.1 - b.0,
        candidates: dictionary::lookup_of(entries, input.subrange(b.0, b.1)),
    }
}

/// The segments along a path.
pub open spec fn segments_along(
    entries: Seq<EntryView>,
    input: Seq<char>,
    path: Seq<(int, int)>,
) -> Seq<SegmentView> {
    path.map_values(|b: (int, int)| segment_at(entries, input, b))
}

/// The words of `input` along the cheapest path.
pub open spec fn split_words(
    entries: Seq<EntryView>,
    logs: NanoTable,
    bonus: Bonus,
    input: Seq<char>,
) -> Seq<SegmentView> {
    segments_along(
        entries,
        input,
        lattice::best_path(word_lattice(entries, logs, bonus, input), input.len() as int),
    )
}

/// The highest frequency among the entries with part of speech `p`.
pub fn best_frequency(entries: &Vec<DictionaryEntry>, p: PartOfSpeech) -> (top: u32)
    ensures
        top == top_frequency(entry::entry_views(entries@), p),
{
    let ghost all = entry::entry_views(entries@);
    let mut top: u32 = 0;
    let mut i: usize = 0;
    assert(all.take(0) =~= Seq::empty());
    while i < entries.len()
        invariant
            i <= entries@.len(),
            all == entry::entry_views(entries@),
            top == top_frequency(all.take(i as int), p),
        decreases entries@.len() - i,
    {
        assert(all.take(i + 1).drop_last() =~= all.take(i as int));
        assert(all.take(i + 1).last() == entries@[i as int]@);
        if entries[i].pos == p && entries[i].frequency > top {
            top = entries[i].frequency;
        }
        i = i + 1;
    }
    assert(all.take(i as int) =~= all);
    top
}

/// Adds the steps of one word: one for every part of speech it can be.
fn push_word_steps(
    row: &mut Vec<Step>,
    words: &Vec<DictionaryEntry>,
    logs: &NanoTable,
    i: usize,
    len: usize,
    bonus: i64,
    n: usize,
)
    requires
        logs.wf(),
        len >= 1,
        i + len <= n,
        0 <= bonus <= BOOST_LIMIT,
        lattice::steps_fit(old(row)@, i as int, n as int),
        forall|q: PartOfSpeech| (#[trigger] lattice::cheapest(old(row)@, i + len, q)) is None,
    ensures
        lattice::steps_fit(final(row)@, i as int, n as int),
        forall|j: int, q: PartOfSpeech| #[trigger]
            lattice::cheapest(final(row)@, j, q) == (if j == i + len {
                let f = top_frequency(entry::entry_views(words@), q);
                if f == 0 {
                    None
                } else {
                    Some(segment_cost(*logs, len as int, f) - bonus)
                }
            } else {
                lattice::cheapest(old(row)@, j, q)
            }),
{
    let ghost before = row@;
    let ghost target = i + len;
    let mut p: usize = 0;
    while p < POS_COUNT
        invariant
            p <= POS_COUNT,
            logs.wf(),
            len >= 1,
            target == i + len,
            i + len <= n,
            0 <= bonus <= BOOST_LIMIT,
            lattice::steps_fit(row@, i as int, n as int),
            forall|q: PartOfSpeech| (#[trigger] lattice::cheapest(before, target, q)) is None,
            forall|j: int, q: PartOfSpeech| #[trigger]
                lattice::cheapest(row@, j, q) == (if j == target && pos::pos_index(q) < p {
                    let f = top_frequency(entry::entry_views(words@), q);
                    if f == 0 {
                        None
                    } else {
                        Some(segment_cost(*logs, len as int, f) - bonus)
                    }
                } else {
                    lattice::cheapest(before, j, q)
                }),
        decreases POS_COUNT - p,
    {
        let kind: PartOfSpeech = PartOfSpeech::from_idx(p);
        let top: u32 = best_frequency(words, kind);
        let ghost old_row = row@;
        if top > 0 {
            let log: i64 = logs.value(top);
            proof {
                assert(0 <= len * log <= len * 34_359_738_368) by (nonlinear_arith)
                    requires
                        0 <= log <= 34_359_738_368,
                ;
                assert(len * 34_359_738_368 + 35_184_372_088_832 <= len * 1_125_899_906_842_624)
                    by (nonlinear_arith)
                    requires
                        len >= 1,
                ;
                assert(-((target - i) * lattice::STEP_LIMIT) == -(target - i)
                    * lattice::STEP_LIMIT) by (nonlinear_arith);
            }
            let weight: i128 = (ONE as i128) - (len as i128) * (log as i128) - (bonus as i128);
            let step: Step = Step { end: i + len, pos: kind, weight };
            row.push(step);
            proof {
                assert(row@.drop_last() =~= old_row);
                assert(row@.last() == step);
                assert forall|t: int| 0 <= t < row@.len() implies {
                    &&& i < (#[trigger] row@[t]).end <= n
                    &&& -(row@[t].end - i) * lattice::STEP_LIMIT <= row@[t].weight <= (row@[t].end
                        - i) * lattice::STEP_LIMIT
                } by {
                    if t < old_row.len() {
                        assert(row@[t] == old_row[t]);
                    }
                }
            }
        }
        proof {
            assert forall|j: int, q: PartOfSpeech| #[trigger]
                lattice::cheapest(row@, j, q) == (if j == target && pos::pos_index(q) < p + 1 {
                    let f = top_frequency(entry::entry_views(words@), q);
                    if f == 0 {
                        None
                    } else {
                        Some(segment_cost(*logs, len as int, f) - bonus)
                    }
                } else {
                    lattice::cheapest(before, j, q)
                }) by {
                pos::law_index_round_trip(q, p as int);
                assert(lattice::cheapest(old_row, j, q) == (if j == target && pos::pos_index(q)
                    < p {
                    let f = top_frequency(entry::entry_views(words@), q);
                    if f == 0 {
                        None
                    } else {
                        Some(segment_cost(*logs, len as int, f) - bonus)
                    }
                } else {
                    lattice::cheapest(before, j, q)
                }));
                if pos::pos_index(q) == p {
                    assert(q == kind);
                }
            }
        }
        p = p + 1;
    }
}

proof fn lemma_longer_word(entries: Seq<EntryView>, input: Seq<char>, i: int, len: int, longest: int)
    requires
        0 <= i <= input.len(),
        0 <= longest <= input.len() - i,
        longest > 0 ==> dictionary::lookup_of(entries, input.skip(i).take(longest)).len() > 0,
        forall|l: int|
            longest < l <= input.len() - i ==> dictionary::lookup_of(
                entries,
                #[trigger] input.skip(i).take(l),
            ).len() == 0,
        len >= 1,
    ensures
        longer_word(entries, input, i, len) == (len < longest),
{
    if len < longest {
        assert(input.skip(i).take(longest) =~= input.subrange(i, i + longest));
    } else {
        assert forall|l: int| len < l <= input.len() - i implies #[trigger] dictionary::lookup_of(
            entries,
            input.subrange(i, i + l),
        ).len() == 0 by {
            assert(input.skip(i).take(l) =~= input.subrange(i, i + l));
        }
    }
}

/// What the row of position `i` says after the words of up to `done`
/// characters.
spec fn row_state<B: SegmentBoost>(
    row: Seq<Step>,
    dict: Dictionary,
    boost: B,
    input: Seq<char>,
    i: int,
    done: int,
) -> bool {
    forall|j: int, q: PartOfSpeech| #[trigger]
        lattice::cheapest(row, j, q) == (if j <= i + done {
            word_weight(dict@, dict.log_table(), bonus_of(boost), input, i, j, q)
        } else {
            None
        })
}

/// The steps from position `i`.
fn lattice_row<B: SegmentBoost>(
    dict: &Dictionary,
    boost: &B,
    chars: &Vec<char>,
    i: usize,
) -> (row: Vec<Step>)
    requires
        dict.wf(),
        boost.ready(),
        i < chars@.len(),
    ensures
        lattice::steps_fit(row@, i as int, chars@.len() as int),
        forall|j: int, q: PartOfSpeech| #[trigger]
            lattice::cheapest(row@, j, q) == step_weight(
                dict@,
                dict.log_table(),
                bonus_of(*boost),
                chars@,
                i as int,
                j,
                q,
            ),
{
    let n: usize = chars.len();
    let ghost input = chars@;
    let ghost rest = input.skip(i as int);
    let words = dict.words_from(chars, i);
    let ghost listed = dictionary::prefix_words(dict@, rest, rest.len() as int);
    proof {
        dictionary::lemma_prefix_words_listed(dict@, rest, rest.len() as int);
        dict.lemma_wf();
    }
    let longest: usize = if words.len() == 0 {
        0
    } else {
        words[words.len() - 1].0
    };
    proof {
        assert(listed.len() == words@.len());
        if words@.len() > 0 {
            assert(listed[words@.len() - 1].0 == words@[words@.len() - 1].0 as int);
        }
        assert forall|l: int| longest < l <= rest.len() implies dictionary::lookup_of(
            dict@,
            #[trigger] rest.take(l),
        ).len() == 0 by {
            if dictionary::lookup_of(dict@, rest.take(l)).len() > 0 {
                let k = choose|k: int| 0 <= k < listed.len() && (#[trigger] listed[k]).0 == l;
                if k < listed.len() - 1 {
                    assert(listed[k].0 < listed[listed.len() - 1].0);
                }
            }
        }
    }
    let mut row: Vec<Step> = Vec::new();
    let ghost mut done: int = 0;
    let mut k: usize = 0;
    proof {
        assert forall|j: int, q: PartOfSpeech| #[trigger]
            lattice::cheapest(row@, j, q) == (if j <= i + done {
                word_weight(dict@, dict.log_table(), bonus_of(*boost), input, i as int, j, q)
            } else {
                None
            }) by {}
    }
    while k < words.len()
        invariant
            k <= words@.len(),
            dict.wf(),
            dict.log_table().wf(),
            boost.ready(),
            n == chars@.len(),
            i < n,
            input == chars@,
            rest == input.skip(i as int),
            listed == dictionary::prefix_words(dict@, rest, rest.len() as int),
            dictionary::words_view(words@) == listed,
            longest <= rest.len(),
            longest > 0 ==> dictionary::lookup_of(dict@, rest.take(longest as int)).len() > 0,
            forall|l: int|
                longest < l <= rest.len() ==> dictionary::lookup_of(
                    dict@,
                    #[trigger] rest.take(l),
                ).len() == 0,
            done == (if k == 0 {
                0
            } else {
                listed[k - 1].0
            }),
            lattice::steps_fit(row@, i as int, n as int),
            row_state(row@, *dict, *boost, input, i as int, done),
        decreases words@.len() - k,
    {
        let len: usize = words[k].0;
        proof {
            dictionary::lemma_prefix_words_listed(dict@, rest, rest.len() as int);
            assert(listed[k as int] == (
                words@[k as int].0 as int,
                entry::entry_views(words@[k as int].1@),
            ));
            assert(1 <= listed[k as int].0 <= rest.len());
            if k > 0 {
                assert(listed[k - 1].0 < listed[k as int].0);
            }
            assert(rest.take(len as int) =~= input.subrange(i as int, i + len));
            lemma_longer_word(dict@, input, i as int, len as int, longest as int);
            assert forall|q: PartOfSpeech| (#[trigger] lattice::cheapest(row@, i + len, q)) is None by {}
        }
        let bonus: i64 = if len < longest {
            0
        } else {
            let reading: String = text_between(chars.as_slice(), i, i + len);
            boost.boost(reading.as_str(), &words[k].1)
        };
        let ghost old_row = row@;
        push_word_steps(&mut row, &words[k].1, dict.logs(), i, len, bonus, n);
        proof {
            let prev = done;
            done = len as int;
            let bn = bonus_of(*boost);
            assert forall|j: int, q: PartOfSpeech| #[trigger]
                lattice::cheapest(row@, j, q) == (if j <= i + done {
                    word_weight(dict@, dict.log_table(), bn, input, i as int, j, q)
                } else {
                    None
                }) by {
                assert(lattice::cheapest(old_row, j, q) == (if j <= i + prev {
                    word_weight(dict@, dict.log_table(), bn, input, i as int, j, q)
                } else {
                    None
                }));
                if j == i + len {
                    assert(word_bonus(dict@, bn, input, i as int, j) == bonus);
                } else if i + prev < j < i + len {
                    let l = j - i;
                    assert(rest.take(l) =~= input.subrange(i as int, j));
                    if dictionary::lookup_of(dict@, rest.take(l)).len() > 0 {
                        let m = choose|m: int|
                            0 <= m < listed.len() && (#[trigger] listed[m]).0 == l;
                        if m < k {
                            if m < k - 1 {
                                assert(listed[m].0 < listed[k - 1].0);
                            }
                        } else if m > k {
                            assert(listed[k as int].0 < listed[m].0);
                        }
                        assert(false);
                    }
                    assert(dictionary::lookup_of(dict@, input.subrange(i as int, j)).len() == 0);
                    assert(top_frequency(
                        dictionary::lookup_of(dict@, input.subrange(i as int, j)),
                        q,
                    ) == 0);
                }
            }
        }
        k = k + 1;
    }
    let unknown: Step = Step {
        end: i + 1,
        pos: PartOfSpeech::Other,
        weight: UNKNOWN_COST as i128,
    };
    let ghost old_row = row@;
    row.push(unknown);
    proof {
        let bn = bonus_of(*boost);
        assert(row@.drop_last() =~= old_row);
        assert forall|t: int| 0 <= t < row@.len() implies {
            &&& i < (#[trigger] row@[t]).end <= n
            &&& -(row@[t].end - i) * lattice::STEP_LIMIT <= row@[t].weight <= (row@[t].end - i)
                * lattice::STEP_LIMIT
        } by {
            if t < old_row.len() {
                assert(row@[t] == old_row[t]);
            }
        }
        assert forall|j: int, q: PartOfSpeech| #[trigger]
            lattice::cheapest(row@, j, q) == step_weight(
                dict@,
                dict.log_table(),
                bn,
                input,
                i as int,
                j,
                q,
            ) by {
            assert(lattice::cheapest(old_row, j, q) == (if j <= i + done {
                word_weight(dict@, dict.log_table(), bn, input, i as int, j, q)
            } else {
                None
            }));
            if i + done < j <= n {
                let l = j - i;
                assert(rest.take(l) =~= input.subrange(i as int, j));
                if words@.len() > 0 {
                    assert(listed[words@.len() - 1].0 == done);
                    assert(longest == done);
                } else {
                    assert(longest == 0);
                }
                assert(dictionary::lookup_of(dict@, rest.take(l)).len() == 0);
                assert(top_frequency(
                    dictionary::lookup_of(dict@, input.subrange(i as int, j)),
                    q,
                ) == 0);
            }
        }
    }
    row
}

/// The words of the characters `chars` along the cheapest path.
pub fn words_along_cheapest_path<B: SegmentBoost>(
    dict: &Dictionary,
    boost: &B,
    chars: &Vec<char>,
) -> (segs: Vec<Segment>)
    requires
        dict.wf(),
        boost.ready(),
    ensures
        entry::segment_views(segs@) == split_words(
            dict@,
            dict.log_table(),
            bonus_of(*boost),
            chars@,
        ),
{
    let n: usize = chars.len();
    let ghost w = word_lattice(dict@, dict.log_table(), bonus_of(*boost), chars@);
    let mut rows: Vec<Vec<Step>> = Vec::new();
    let mut i: usize = 0;
    while i < n
        invariant
            i <= n,
            n == chars@.len(),
            dict.wf(),
            boost.ready(),
            w == word_lattice(dict@, dict.log_table(), bonus_of(*boost), chars@),
            rows@.len() == i,
            forall|k: int| 0 <= k < i ==> lattice::steps_fit(#[trigger] rows@[k]@, k, n as int),
            forall|k: int, j: int, q: PartOfSpeech|
                0 <= k < i ==> #[trigger] lattice::cheapest(rows@[k]@, j, q) == w(k, j, q),
        decreases n - i,
    {
        let row: Vec<Step> = lattice_row(dict, boost, chars, i);
        let ghost old_rows = rows@;
        rows.push(row);
        proof {
            assert forall|k: int| 0 <= k < i + 1 implies lattice::steps_fit(
                #[trigger] rows@[k]@,
                k,
                n as int,
            ) by {
                if k < i {
                    assert(rows@[k] == old_rows[k]);
                }
            }
            assert forall|k: int, j: int, q: PartOfSpeech| 0 <= k < i + 1 implies
                #[trigger] lattice::cheapest(rows@[k]@, j, q) == w(k, j, q) by {
                if k < i {
                    assert(rows@[k] == old_rows[k]);
                    assert(lattice::cheapest(old_rows[k]@, j, q) == w(k, j, q));
                }
            }
        }
        i = i + 1;
    }
    let path = shortest_path(&rows, Ghost(w));
    let ghost want = lattice::best_path(w, n as int);
    proof {
        lattice::law_path_is_chain(w, n as int);
    }
    let mut segs: Vec<Segment> = Vec::new();
    let mut k: usize = 0;
    while k < path.len()
        invariant
            k <= path@.len(),
            n == chars@.len(),
            dict.wf(),
            path@.map_values(|b: (usize, usize)| (b.0 as int, b.1 as int)) == want,
            forall|m: int| 0 <= m < want.len() ==> 0 <= (#[trigger] want[m]).0 < want[m].1 <= n,
            segs@.len() == k,
            forall|m: int|
                0 <= m < k ==> (#[trigger] segs@[m])@ == segment_at(dict@, chars@, want[m]),
        decreases path@.len() - k,
    {
        assert(want[k as int] == (path@[k as int].0 as int, path@[k as int].1 as int));
        let from: usize = path[k].0;
        let to: usize = path[k].1;
        let reading: String = text_between(chars.as_slice(), from, to);
        let candidates: Vec<DictionaryEntry> = dict.lookup_copies(reading.as_str());
        segs.push(Segment { reading, start: from, len: to - from, candidates });
        k = k + 1;
    }
    assert(entry::segment_views(segs@) =~= segments_along(dict@, chars@, want));
    segs
}

/// Learning never breaks a longer word apart: what is learned of a word counts
/// only where no longer word starts. Bonuses that agree there give the same
/// words.
pub proof fn law_longer_words_are_spared(
    entries: Seq<EntryView>,
    logs: NanoTable,
    a: Bonus,
    b: Bonus,
    input: Seq<char>,
)
    requires
        forall|i: int, j: int|
            0 <= i < j <= input.len() && !(#[trigger] longer_word(entries, input, i, j - i))
                ==> a(
                input.subrange(i, j),
                dictionary::lookup_of(entries, input.subrange(i, j)),
            ) == b(input.subrange(i, j), dictionary::lookup_of(entries, input.subrange(i, j))),
    ensures
        split_words(entries, logs, a, input) == split_words(entries, logs, b, input),
{
    let u = word_lattice(entries, logs, a, input);
    let v = word_lattice(entries, logs, b, input);
    assert forall|i: int, j: int, q: PartOfSpeech| #[trigger] u(i, j, q) == v(i, j, q) by {
        if 0 <= i < j <= input.len() {
            let longer = longer_word(entries, input, i, j - i);
            assert(word_bonus(entries, a, input, i, j) == word_bonus(entries, b, input, i, j));
        }
    }
    assert(u =~= v);
}

proof fn lemma_top_is_highest(entries: Seq<EntryView>, p: PartOfSpeech)
    ensures
        top_frequency(entries, p) >= 0,
        forall|i: int|
            0 <= i < entries.len() && (#[trigger] entries[i]).pos == p ==> entries[i].frequency
                <= top_frequency(entries, p),
        top_frequency(entries, p) > 0 ==> exists|i: int|
            0 <= i < entries.len() && (#[trigger] entries[i]).pos == p && entries[i].frequency
                == top_frequency(entries, p),
    decreases entries.len(),
{
    if entries.len() > 0 {
        let rest = entries.drop_last();
        lemma_top_is_highest(rest, p);
        assert forall|i: int| 0 <= i < entries.len() && (#[trigger] entries[i]).pos == p implies
            entries[i].frequency <= top_frequency(entries, p) by {
            if i < rest.len() {
                assert(rest[i] == entries[i]);
            }
        }
        if top_frequency(entries, p) > 0 {
            if entries.last().pos == p && entries.last().frequency > top_frequency(rest, p) {
                assert(entries[entries.len() - 1] == entries.last());
            } else {
                let i = choose|i: int|
                    0 <= i < rest.len() && (#[trigger] rest[i]).pos == p && rest[i].frequency
                        == top_frequency(rest, p);
                assert(entries[i] == rest[i]);
            }
        }
    }
}

/// What a word costs as some part of speech: a billion, less for each of its characters
/// the logarithm of the highest frequency it has as such a word, less the bonus it gets.
/// There is no bonus where a longer word starts at the same place. A single character
/// of no known kind never costs more than an unknown one.
pub proof fn law_word_costs(
    entries: Seq<EntryView>,
    logs: NanoTable,
    bonus: Bonus,
    input: Seq<char>,
    i: int,
    j: int,
    q: PartOfSpeech,
    k: int,
)
    requires
        0 <= i < j <= input.len(),
        ({
            let found = dictionary::lookup_of(entries, input.subrange(i, j));
            &&& 0 <= k < found.len()
            &&& found[k].pos == q
            &&& found[k].frequency > 0
            &&& forall|m: int|
                0 <= m < found.len() && (#[trigger] found[m]).pos == q ==> found[m].frequency
                    <= found[k].frequency
        }),
    ensures
        ({
            let found = dictionary::lookup_of(entries, input.subrange(i, j));
            let longer = exists|l: int|
                j - i < l <= input.len() - i && #[trigger] dictionary::lookup_of(
                    entries,
                    input.subrange(i, i + l),
                ).len() > 0;
            let plain = 1_000_000_000 - (j - i) * logs.at(found[k].frequency as int);
            let cost = if longer {
                plain
            } else {
                plain - bonus(input.subrange(i, j), found)
            };
            word_lattice(entries, logs, bonus, input)(i, j, q) == Some(
                if j == i + 1 && q is Other && cost > 20_000_000_000 {
                    20_000_000_000
                } else {
                    cost
                },
            )
        }),
{
    let found = dictionary::lookup_of(entries, input.subrange(i, j));
    lemma_top_is_highest(found, q);
    assert(top_frequency(found, q) == found[k].frequency);
}

/// What the dictionary does not have is no word, but any single character can be passed
/// as a word of no known kind, at the cost of an unknown one.
pub proof fn law_unknown_words(
    entries: Seq<EntryView>,
    logs: NanoTable,
    bonus: Bonus,
    input: Seq<char>,
    i: int,
    j: int,
    q: PartOfSpeech,
)
    requires
        0 <= i < j <= input.len(),
        ({
            let found = dictionary::lookup_of(entries, input.subrange(i, j));
            forall|m: int|
                0 <= m < found.len() && (#[trigger] found[m]).pos == q ==> found[m].frequency == 0
        }),
    ensures
        word_lattice(entries, logs, bonus, input)(i, j, q) == (if j == i + 1 && q is Other {
            Some(20_000_000_000int)
        } else {
            None
        }),
{
    lemma_top_is_highest(dictionary::lookup_of(entries, input.subrange(i, j)), q);
}

/// The words of a reading are those along the cheapest path, each with its reading, its
/// place and the dictionary's words for it.
pub proof fn law_words_follow_the_path(
    entries: Seq<EntryView>,
    logs: NanoTable,
    bonus: Bonus,
    input: Seq<char>,
    k: int,
)
    ensures
        ({
            let path = lattice::best_path(
                word_lattice(entries, logs, bonus, input),
                input.len() as int,
            );
            let words = split_words(entries, logs, bonus, input);
            &&& words.len() == path.len()
            &&& 0 <= k < words.len() ==> {
                let reading = input.subrange(path[k].0, path[k].1);
                &&& words[k].reading == reading
                &&& words[k].start == path[k].0
                &&& words[k].len == path[k].1 - path[k].0
                &&& words[k].candidates == dictionary::lookup_of(entries, reading)
            }
        }),
{
}

/// No other way to divide a reading into words is cheaper: of any way over all of it,
/// given by the ends and kinds of its words, the words found, as some kinds, cost as
/// little or less.
pub proof fn law_words_are_cheapest(
    entries: Seq<EntryView>,
    logs: NanoTable,
    bonus: Bonus,
    input: Seq<char>,
    other: Seq<(int, PartOfSpeech)>,
) -> (hops: Seq<(int, PartOfSpeech)>)
    requires
        lattice::way_cost(word_lattice(entries, logs, bonus, input), other) is Some,
        lattice::end_of(other) == input.len(),
    ensures
        ({
            let w = word_lattice(entries, logs, bonus, input);
            let words = split_words(entries, logs, bonus, input);
            &&& hops.len() == words.len()
            &&& forall|k: int|
                0 <= k < hops.len() ==> (#[trigger] hops[k]).0 == words[k].start + words[k].len
            &&& lattice::way_cost(w, hops) is Some
            &&& lattice::way_cost(w, hops)->0 <= lattice::way_cost(w, other)->0
        }),
{
    lattice::law_best_path_is_cheapest(
        word_lattice(entries, logs, bonus, input),
        input.len() as int,
        other,
    )
}

} // verus!
