//! Rules of the persistent store: how rows are written down, which rows make
//! room for others, and how files of older versions are taken over.
use std::collections::BTreeMap;

use vstd::prelude::*;

use crate::entry::DictionaryEntry;
use crate::pos;
use crate::pos::{str_to_pos, PartOfSpeech};
use crate::rank;
use crate::rank::order_desc;
use crate::scan;
use crate::scan::{find, parse_unsigned, push_decimal, split, Separator};
use crate::text::{chars_of, joined, text_between};
use crate::user_scorer;

verus! {

/// How many learned segmentations are kept.
pub const MAX_USER_SEGMENTATIONS: usize = 10_000;

/// How many learned selections are kept.
pub const MAX_USER_SCORES: usize = 50_000;

/// The numbers in decimal, separated by commas.
pub open spec fn encoded(b: Seq<usize>) -> Seq<char>
    decreases b.len(),
{
    if b.len() == 0 {
        Seq::empty()
    } else if b.len() == 1 {
        scan::decimal(b[0] as nat)
    } else {
        encoded(b.drop_last()).push(',') + scan::decimal(b.last() as nat)
    }
}

/// The numbers that the pieces write, if each writes one.
pub open spec fn numbers_of(parts: Seq<Seq<char>>) -> Option<Seq<usize>>
    decreases parts.len(),
{
    if parts.len() == 0 {
        Some(Seq::empty())
    } else {
        match (
            numbers_of(parts.drop_last()),
            scan::unsigned_of(parts.last(), 10, usize::MAX as int),
        ) {
            (Some(b), Some(n)) => Some(b.push(n as usize)),
            _ => None,
        }
    }
}

/// The numbers written in `s`, separated by commas: all of them, or none when
/// one does not parse. The empty text writes the empty list.
pub open spec fn decoded(s: Seq<char>) -> Option<Seq<usize>> {
    if s.len() == 0 {
        Some(Seq::empty())
    } else {
        numbers_of(scan::pieces(s, Separator::Char(',')))
    }
}

/// Writes a list of boundaries down.
pub fn encode_boundaries(boundaries: &[usize]) -> (out: String)
    ensures
        out@ == encoded(boundaries@),
{
    let ghost b = boundaries@;
    let mut out: String = String::new();
    let mut i: usize = 0;
    assert(b.take(0) =~= Seq::empty());
    while i < boundaries.len()
        invariant
            i <= boundaries@.len(),
            b == boundaries@,
            out@ == encoded(b.take(i as int)),
        decreases boundaries@.len() - i,
    {
        let ghost before = out@;
        if i > 0 {
            out.push(',');
        }
        let n: usize = boundaries[i];
        push_decimal(&mut out, n as u64);
        proof {
            let longer = b.take(i + 1);
            assert(longer.drop_last() =~= b.take(i as int));
            assert(longer.last() == n);
            if i == 0 {
                assert(before =~= Seq::empty());
                assert(out@ =~= scan::decimal(longer[0] as nat));
            } else {
                assert(out@ =~= encoded(longer));
            }
        }
        i = i + 1;
    }
    assert(b.take(i as int) =~= b);
    out
}

/// Reads a list of boundaries back, all or nothing.
pub fn decode_boundaries(s: &str) -> (out: Option<Vec<usize>>)
    ensures
        match out {
            Some(v) => decoded(s@) == Some(v@),
            None => decoded(s@) is None,
        },
{
    let mut list: Vec<usize> = Vec::new();
    if s.is_empty() {
        assert(list@ =~= Seq::empty());
        return Some(list);
    }
    let chars: Vec<char> = chars_of(s);
    let parts: Vec<Vec<char>> = split(chars.as_slice(), Separator::Char(','));
    let ghost pv = scan::pieces(s@, Separator::Char(','));
    let mut i: usize = 0;
    assert(list@ =~= Seq::empty());
    assert(pv.take(0) =~= Seq::empty());
    while i < parts.len()
        invariant
            i <= parts@.len(),
            s@.len() > 0,
            pv == scan::pieces(s@, Separator::Char(',')),
            pv == scan::text_views(parts@),
            numbers_of(pv.take(i as int)) == Some(list@),
        decreases parts@.len() - i,
    {
        proof {
            assert(pv[i as int] == parts@[i as int]@);
            assert(pv.take(i + 1).drop_last() =~= pv.take(i as int));
            assert(pv.take(i + 1).last() == pv[i as int]);
        }
        match parse_unsigned(parts[i].as_slice(), 10, usize::MAX as u64) {
            Some(n) => {
                list.push(n as usize);
            },
            None => {
                proof {
                    lemma_numbers_none(pv, i + 1);
                }
                return None;
            },
        }
        i = i + 1;
    }
    assert(pv.take(i as int) =~= pv);
    Some(list)
}

proof fn lemma_numbers_none(parts: Seq<Seq<char>>, n: int)
    requires
        0 <= n <= parts.len(),
        numbers_of(parts.take(n)) is None,
    ensures
        numbers_of(parts) is None,
    decreases parts.len() - n,
{
    if n < parts.len() {
        assert(parts.take(n + 1).drop_last() =~= parts.take(n));
        lemma_numbers_none(parts, n + 1);
    } else {
        assert(parts.take(n) =~= parts);
    }
}

proof fn lemma_pieces_append(s: Seq<char>, t: Seq<char>, sep: Separator)
    requires
        forall|i: int| 0 <= i < t.len() ==> !sep.splits(#[trigger] t[i]),
    ensures
        scan::pieces(s + t, sep) == scan::pieces(s, sep).drop_last().push(
            scan::pieces(s, sep).last() + t,
        ),
    decreases t.len(),
{
    let ps = scan::pieces(s, sep);
    scan::lemma_pieces_len(s, sep);
    if t.len() == 0 {
        assert(s + t =~= s);
        assert(ps.last() + t =~= ps.last());
        assert(ps =~= ps.drop_last().push(ps.last()));
    } else {
        let u = t.drop_last();
        assert forall|i: int| 0 <= i < u.len() implies !sep.splits(#[trigger] u[i]) by {
            assert(u[i] == t[i]);
        }
        lemma_pieces_append(s, u, sep);
        assert((s + t).drop_last() =~= s + u);
        assert((s + t).last() == t[t.len() - 1]);
        let pu = scan::pieces(s + u, sep);
        assert(pu.drop_last() =~= ps.drop_last());
        assert(pu.last() == ps.last() + u);
        assert((ps.last() + u).push(t.last()) =~= ps.last() + t);
    }
}

proof fn lemma_pieces_of_encoded(b: Seq<usize>)
    requires
        b.len() > 0,
    ensures
        encoded(b).len() > 0,
        scan::pieces(encoded(b), Separator::Char(',')) == b.map_values(
            |n: usize| scan::decimal(n as nat),
        ),
    decreases b.len(),
{
    let sep = Separator::Char(',');
    let d = scan::decimal(b.last() as nat);
    let want = b.map_values(|n: usize| scan::decimal(n as nat));
    scan::law_decimal_round_trip(b.last() as nat);
    assert forall|i: int| 0 <= i < d.len() implies !sep.splits(#[trigger] d[i]) by {
        assert('0' <= d[i] <= '9');
    }
    if b.len() == 1 {
        let e = Seq::<char>::empty();
        lemma_pieces_append(e, d, sep);
        assert(e + d =~= d);
        assert(scan::pieces(e, sep).drop_last() =~= Seq::empty());
        assert(e + d =~= d);
        assert(scan::pieces(d, sep) =~= want);
    } else {
        lemma_pieces_of_encoded(b.drop_last());
        let front = encoded(b.drop_last()).push(',');
        assert(front.drop_last() =~= encoded(b.drop_last()));
        lemma_pieces_append(front, d, sep);
        let pf = scan::pieces(front, sep);
        assert(pf =~= scan::pieces(encoded(b.drop_last()), sep).push(Seq::empty()));
        assert(pf.drop_last() =~= scan::pieces(encoded(b.drop_last()), sep));
        assert(pf.last() + d =~= d);
        assert(scan::pieces(encoded(b), sep) =~= want);
    }
}

proof fn lemma_numbers_of_decimals(b: Seq<usize>)
    ensures
        numbers_of(b.map_values(|n: usize| scan::decimal(n as nat))) == Some(b),
    decreases b.len(),
{
    let parts = b.map_values(|n: usize| scan::decimal(n as nat));
    if b.len() == 0 {
        assert(b =~= Seq::empty());
    } else {
        lemma_numbers_of_decimals(b.drop_last());
        assert(parts.drop_last() =~= b.drop_last().map_values(
            |n: usize| scan::decimal(n as nat),
        ));
        let d = scan::decimal(b.last() as nat);
        scan::law_decimal_round_trip(b.last() as nat);
        assert('0' <= d[0] <= '9');
        assert(scan::without_plus(d) == d);
        assert(b.drop_last().push(b.last()) =~= b);
    }
}

/// Boundaries that were written down are read back unchanged.
pub proof fn law_boundaries_round_trip(b: Seq<usize>)
    ensures
        decoded(encoded(b)) == Some(b),
{
    if b.len() == 0 {
        assert(b =~= Seq::empty());
    } else {
        lemma_pieces_of_encoded(b);
        lemma_numbers_of_decimals(b);
    }
}

/// A path with a suffix behind its file name, extension and all.
pub fn append_extension(path: &str, suffix: &str) -> (out: String)
    ensures
        out@ == path@ + suffix@,
{
    joined(path, suffix)
}

/// The key under which a selection was counted, taken apart at the first bar.
pub open spec fn key_parts(key: Seq<char>) -> Option<(Seq<char>, Seq<char>)> {
    let at = scan::index_of(key, '|');
    if at < key.len() {
        Some((key.take(at), key.skip(at + 1)))
    } else {
        None
    }
}

/// Takes the key of a counted selection apart: reading and surface.
pub fn split_score_key(key: &str) -> (parts: Option<(String, String)>)
    ensures
        match parts {
            Some(p) => key_parts(key@) == Some((p.0@, p.1@)),
            None => key_parts(key@) is None,
        },
{
    let chars: Vec<char> = chars_of(key);
    let at: usize = find(chars.as_slice(), '|');
    if at == chars.len() {
        return None;
    }
    let reading: String = text_between(chars.as_slice(), 0, at);
    let surface: String = text_between(chars.as_slice(), at + 1, chars.len());
    proof {
        assert(reading@ =~= key@.take(at as int));
        assert(surface@ =~= key@.skip(at + 1));
    }
    Some((reading, surface))
}

/// What to do with a count found in a leftover file.
#[derive(Clone, Copy, Debug, PartialEq, Eq, Structural)]
pub enum CountMerge {
    /// There is no row yet: insert one.
    Insert,
    /// The row has a smaller count: raise it.
    Raise,
    /// The row already counts as many: leave it.
    Keep,
}

/// What to do with a count of a leftover file beside the stored one. The
/// larger of the two counts survives.
pub fn merge_stale_count(stored: Option<u32>, found: u32) -> (merge: CountMerge)
    ensures
        merge == (match stored {
            None => CountMerge::Insert,
            Some(c) => if c < found {
                CountMerge::Raise
            } else {
                CountMerge::Keep
            },
        }),
{
    match stored {
        None => CountMerge::Insert,
        Some(c) => if c < found {
            CountMerge::Raise
        } else {
            CountMerge::Keep
        },
    }
}

/// What `serde_json::from_str::<BTreeMap<String, u32>>` makes of a text: the keys
/// with their counts in the order of the keys, or nothing where the text is no
/// object of such counts.
pub uninterp spec fn counts_in_json(text: Seq<char>) -> Option<Seq<(Seq<char>, u32)>>;

/// The contents of a list of keys with their counts.
pub open spec fn count_views(counts: Seq<(String, u32)>) -> Seq<(Seq<char>, u32)> {
    counts.map_values(|c: (String, u32)| (c.0@, c.1))
}

/// Reads a JSON object of counts with `serde_json::from_str`. The result is a
/// function of the text alone: the same text gives the same keys and counts, in
/// the order of the keys, or is refused. Which texts are refused is not said
/// here.
#[verifier::external_body]
fn parse_counts(text: &str) -> (found: Option<Vec<(String, u32)>>)
    ensures
        match found {
            Some(f) => counts_in_json(text@) == Some(count_views(f@)),
            None => counts_in_json(text@) is None,
        },
{
    match serde_json::from_str::<BTreeMap<String, u32>>(text) {
        Ok(map) => Some(map.into_iter().collect()),
        Err(_) => None,
    }
}

/// A counted selection.
#[derive(Debug)]
pub struct ScoreRow {
    pub reading: String,
    pub surface: String,
    pub count: u32,
}

/// The contents of a counted selection.
#[verifier::ext_equal]
pub struct ScoreRowView {
    pub reading: Seq<char>,
    pub surface: Seq<char>,
    pub count: u32,
}

impl View for ScoreRow {
    type V = ScoreRowView;

    open spec fn view(&self) -> ScoreRowView {
        ScoreRowView { reading: self.reading@, surface: self.surface@, count: self.count }
    }
}

/// The contents of a list of counted selections.
pub open spec fn score_row_views(rows: Seq<ScoreRow>) -> Seq<ScoreRowView> {
    rows.map_values(|r: ScoreRow| r@)
}

/// The selections that counts under keys stand for, in order; keys without a bar
/// are passed over.
pub open spec fn rows_found(found: Seq<(Seq<char>, u32)>) -> Seq<ScoreRowView>
    decreases found.len(),
{
    if found.len() == 0 {
        Seq::empty()
    } else {
        let before = rows_found(found.drop_last());
        match key_parts(found.last().0) {
            Some(p) => before.push(
                ScoreRowView { reading: p.0, surface: p.1, count: found.last().1 },
            ),
            None => before,
        }
    }
}

/// The selections that counts under keys stand for.
pub fn score_rows(found: &Vec<(String, u32)>) -> (rows: Vec<ScoreRow>)
    ensures
        score_row_views(rows@) == rows_found(count_views(found@)),
{
    let ghost all = count_views(found@);
    let mut rows: Vec<ScoreRow> = Vec::new();
    let mut i: usize = 0;
    assert(score_row_views(rows@) =~= rows_found(all.take(0)));
    while i < found.len()
        invariant
            i <= found@.len(),
            all == count_views(found@),
            score_row_views(rows@) == rows_found(all.take(i as int)),
        decreases found@.len() - i,
    {
        let ghost before = score_row_views(rows@);
        proof {
            assert(all.take(i + 1).drop_last() =~= all.take(i as int));
            assert(all.take(i + 1).last() == (found@[i as int].0@, found@[i as int].1));
        }
        match split_score_key(found[i].0.as_str()) {
            Some((reading, surface)) => {
                let row: ScoreRow = ScoreRow { reading, surface, count: found[i].1 };
                let ghost v = row@;
                rows.push(row);
                assert(score_row_views(rows@) =~= before.push(v));
            },
            None => {},
        }
        i = i + 1;
    }
    assert(all.take(i as int) =~= all);
    rows
}

/// The counted selections in the text of a file of an older version; nothing
/// where the text cannot be read.
pub fn read_score_rows(text: &str) -> (rows: Option<Vec<ScoreRow>>)
    ensures
        match (rows, counts_in_json(text@)) {
            (Some(r), Some(found)) => score_row_views(r@) == rows_found(found),
            (None, None) => true,
            _ => false,
        },
{
    match parse_counts(text) {
        Some(found) => Some(score_rows(&found)),
        None => None,
    }
}

/// How files of an older version are taken over.
#[derive(Clone, Copy, Debug, PartialEq, Eq, Structural)]
pub enum Takeover {
    /// First run: import both files and set the flag.
    Migrate,
    /// The flag is set and there are leftovers: merge them in.
    Recover,
    /// The flag is set and there is nothing to do.
    Nothing,
}

/// How to take files of an older version over, given the migration flag as it
/// is stored and whether the files exist.
pub fn plan_takeover(flag: Option<&str>, dict_exists: bool, scores_exist: bool) -> (plan: Takeover)
    ensures
        ({
            let migrated = flag matches Some(f) && f@ == seq!['1'];
            plan == (if !migrated {
                Takeover::Migrate
            } else if dict_exists || scores_exist {
                Takeover::Recover
            } else {
                Takeover::Nothing
            })
        }),
{
    let migrated: bool = match flag {
        Some(f) => {
            let chars: Vec<char> = chars_of(f);
            let one: bool = chars.len() == 1 && chars[0] == '1';
            proof {
                if one {
                    assert(f@ =~= seq!['1']);
                }
            }
            one
        },
        None => false,
    };
    if !migrated {
        Takeover::Migrate
    } else if dict_exists || scores_exist {
        Takeover::Recover
    } else {
        Takeover::Nothing
    }
}

/// Is a found count written down? On the first run always, later only where it
/// is larger than the stored one.
pub open spec fn is_written(plan: Takeover, stored: Option<u32>, found: u32) -> bool {
    match plan {
        Takeover::Migrate => true,
        Takeover::Recover => stored matches Some(c) ==> c < found,
        Takeover::Nothing => false,
    }
}

/// The positions, among the first `n`, of the counts that are written down.
pub open spec fn written_places(
    plan: Takeover,
    rows: Seq<ScoreRow>,
    stored: Seq<Option<u32>>,
    n: int,
) -> Seq<int>
    decreases n,
{
    if n <= 0 {
        Seq::empty()
    } else {
        let before = written_places(plan, rows, stored, n - 1);
        if is_written(plan, stored[n - 1], rows[n - 1].count) {
            before.push(n - 1)
        } else {
            before
        }
    }
}

/// Which counts to write down, given what is stored for each of them.
pub fn scores_to_write(plan: Takeover, rows: &Vec<ScoreRow>, stored: &Vec<Option<u32>>) -> (places:
    Vec<usize>)
    requires
        rows@.len() == stored@.len(),
    ensures
        places@.map_values(|i: usize| i as int) == written_places(
            plan,
            rows@,
            stored@,
            rows@.len() as int,
        ),
{
    let mut places: Vec<usize> = Vec::new();
    let mut i: usize = 0;
    assert(places@.map_values(|i: usize| i as int) =~= written_places(plan, rows@, stored@, 0));
    while i < rows.len()
        invariant
            i <= rows@.len(),
            rows@.len() == stored@.len(),
            places@.map_values(|i: usize| i as int) == written_places(
                plan,
                rows@,
                stored@,
                i as int,
            ),
        decreases rows@.len() - i,
    {
        let ghost before = places@.map_values(|i: usize| i as int);
        let write: bool = match plan {
            Takeover::Migrate => true,
            Takeover::Recover => merge_stale_count(stored[i], rows[i].count) != CountMerge::Keep,
            Takeover::Nothing => false,
        };
        if write {
            places.push(i);
            assert(places@.map_values(|i: usize| i as int) =~= before.push(i as int));
        }
        i = i + 1;
    }
    places
}

/// The count that is stored in the end.
pub open spec fn count_after(plan: Takeover, stored: Option<u32>, found: u32) -> Option<u32> {
    if is_written(plan, stored, found) {
        Some(found)
    } else {
        stored
    }
}

/// Taking leftovers over never counts a selection twice and never loses one: the
/// larger of both counts is stored in the end.
pub proof fn law_larger_count_survives(stored: Option<u32>, found: u32)
    ensures
        count_after(Takeover::Recover, stored, found) == (match stored {
            Some(c) => if c >= found {
                Some(c)
            } else {
                Some(found)
            },
            None => Some(found),
        }),
        count_after(
            Takeover::Recover,
            count_after(Takeover::Recover, stored, found),
            found,
        ) == count_after(Takeover::Recover, stored, found),
{
}

/// The suffix that a taken over file gets.
pub fn takeover_suffix(plan: Takeover) -> (suffix: &'static str)
    ensures
        suffix@ == (match plan {
            Takeover::Migrate => ".migrated"@,
            Takeover::Recover => ".stale"@,
            Takeover::Nothing => ""@,
        }),
{
    match plan {
        Takeover::Migrate => ".migrated",
        Takeover::Recover => ".stale",
        Takeover::Nothing => "",
    }
}

/// The entry of a stored row. An unknown part of speech reads as `Other`.
pub fn entry_of_row(reading: String, surface: String, pos_name: &str, frequency: u32) -> (e:
    DictionaryEntry)
    ensures
        e@.reading == reading@,
        e@.surface == surface@,
        e@.frequency == frequency,
        forall|p: PartOfSpeech| pos_name@ == #[trigger] pos::pos_name(p) ==> e@.pos == p,
        (forall|p: PartOfSpeech| pos_name@ != #[trigger] pos::pos_name(p)) ==> e@.pos
            == PartOfSpeech::Other,
{
    let found: Option<PartOfSpeech> = str_to_pos(pos_name);
    proof {
        assert forall|p: PartOfSpeech| pos_name@ == #[trigger] pos::pos_name(
            p,
        ) implies found == Some(p) by {
            match found {
                Some(q) => pos::law_names_are_distinct(p, q),
                None => {},
            }
        }
    }
    let p: PartOfSpeech = match found {
        Some(p) => p,
        None => PartOfSpeech::Other,
    };
    DictionaryEntry { reading, surface, pos: p, frequency }
}

/// The counts, negated: a ranking by them lists the lowest count first.
pub open spec fn eviction_keys(counts: Seq<i64>) -> Seq<int> {
    counts.map_values(|c: i64| -(c as int))
}

/// Tells positions other than `kept`.
pub open spec fn other_row(kept: Option<usize>) -> spec_fn(int) -> bool {
    |i: int| kept matches Some(k) ==> i != k
}

/// The rows that may go, lowest count first, among equals the oldest first.
pub open spec fn eviction_order(counts: Seq<i64>, kept: Option<usize>) -> Seq<int> {
    rank::ranking(eviction_keys(counts)).filter(other_row(kept))
}

/// How many rows are over the cap.
pub open spec fn excess(n: int, cap: int) -> int {
    if n <= cap {
        0
    } else {
        n - cap
    }
}

/// The rows that have to go so that `cap` rows are left: as many as are over
/// the cap, in eviction order.
pub open spec fn victims(counts: Seq<i64>, kept: Option<usize>, cap: int) -> Seq<int> {
    let order = eviction_order(counts, kept);
    let n = excess(counts.len() as int, cap);
    if order.len() <= n {
        order
    } else {
        order.take(n)
    }
}

/// The rows that have to go so that `cap` rows are left. `counts` are the
/// counts of the rows from the oldest to the newest, `kept` is a row that must
/// stay.
pub fn enforce_row_cap(counts: &Vec<i64>, kept: Option<usize>, cap: usize) -> (out: Vec<usize>)
    ensures
        out@.map_values(|i: usize| i as int) == victims(counts@, kept, cap as int),
{
    let ghost order_want = eviction_order(counts@, kept);
    let mut out: Vec<usize> = Vec::new();
    assert(out@.map_values(|i: usize| i as int) =~= Seq::<int>::empty());
    if counts.len() <= cap {
        proof {
            assert(order_want.take(0) =~= Seq::empty());
            assert(victims(counts@, kept, cap as int) =~= Seq::empty());
        }
        return out;
    }
    let over: usize = counts.len() - cap;
    let mut keys: Vec<i128> = Vec::new();
    let mut i: usize = 0;
    while i < counts.len()
        invariant
            i <= counts@.len(),
            keys@.len() == i,
            forall|j: int| 0 <= j < i ==> (#[trigger] keys@[j]) == -(counts@[j] as int),
        decreases counts@.len() - i,
    {
        keys.push(-(counts[i] as i128));
        i = i + 1;
    }
    assert(keys@.map_values(|k: i128| k as int) =~= eviction_keys(counts@));
    let order: Vec<usize> = order_desc(&keys);
    let ghost all = rank::ranking(eviction_keys(counts@));
    let ghost pred = other_row(kept);
    let mut k: usize = 0;
    proof {
        assert(all.take(0).filter(pred) =~= Seq::empty());
    }
    while k < order.len() && out.len() < over
        invariant
            k <= order@.len(),
            all == rank::ranking(eviction_keys(counts@)),
            order@.map_values(|i: usize| i as int) == all,
            pred == other_row(kept),
            out@.len() <= over,
            out@.map_values(|i: usize| i as int) == all.take(k as int).filter(pred),
        decreases order@.len() - k,
    {
        let ghost before = out@;
        let row: usize = order[k];
        proof {
            assert(all[k as int] == row as int) by {
                assert(order@.map_values(|i: usize| i as int)[k as int] == row as int);
            }
            assert(all.take(k + 1) =~= all.take(k as int).push(row as int));
            all.take(k as int).lemma_filter_push(row as int, pred);
        }
        let stays: bool = match kept {
            Some(x) => x == row,
            None => false,
        };
        if !stays {
            out.push(row);
            assert(out@.map_values(|i: usize| i as int) =~= before.map_values(
                |i: usize| i as int,
            ).push(row as int));
        }
        k = k + 1;
    }
    proof {
        let ov = out@.map_values(|i: usize| i as int);
        assert(all == order@.map_values(|i: usize| i as int));
        assert(all.take(k as int) + all.skip(k as int) =~= all);
        Seq::filter_distributes_over_add(all.take(k as int), all.skip(k as int), pred);
        assert(order_want =~= ov + all.skip(k as int).filter(pred));
        if k == order@.len() {
            assert(all.skip(k as int) =~= Seq::empty());
            assert(order_want =~= ov);
            if ov.len() > over {
                assert(false);
            }
            assert(victims(counts@, kept, cap as int) =~= ov);
        } else {
            assert(ov.len() == over);
            assert(order_want.take(over as int) =~= ov);
            assert(victims(counts@, kept, cap as int) =~= ov);
        }
    }
    out
}

/// The protected row is never among the victims, every victim is a row, and no
/// row that may go and stays has a lower count than a victim.
pub proof fn law_eviction_is_fair(
    counts: Seq<i64>,
    kept: Option<usize>,
    cap: int,
    i: int,
    r: int,
)
    requires
        0 <= i < victims(counts, kept, cap).len(),
        0 <= r < counts.len(),
        cap >= 0,
    ensures
        0 <= victims(counts, kept, cap)[i] < counts.len(),
        kept matches Some(k) ==> victims(counts, kept, cap)[i] != k,
        other_row(kept)(r) && !victims(counts, kept, cap).contains(r) ==> counts[victims(
            counts,
            kept,
            cap,
        )[i]] <= counts[r],
{
    let keys = eviction_keys(counts);
    let all = rank::ranking(keys);
    let pred = other_row(kept);
    let order = eviction_order(counts, kept);
    let out = victims(counts, kept, cap);
    rank::lemma_ranking(keys);
    let v = out[i];
    assert(v == order[i]);
    all.lemma_filter_pred(pred, i);
    lemma_filter_sub(all, pred);
    let at = choose|at: int| 0 <= at < all.len() && all[at] == order[i];
    assert(order.contains(order[i]));
    assert(all.contains(v));
    if pred(r) && !out.contains(r) {
        assert(all.contains(r));
        let w = choose|w: int| 0 <= w < all.len() && all[w] == r;
        all.lemma_filter_contains(pred, w);
        assert(order.contains(r));
        let m = choose|m: int| 0 <= m < order.len() && order[m] == r;
        if m < out.len() {
            assert(out[m] == r);
        }
        assert(i < m);
        lemma_filter_keeps_order(all, keys, pred);
        assert(rank::ranks_before(keys, order[i], order[m]));
    }
}

proof fn lemma_filter_sub(s: Seq<int>, pred: spec_fn(int) -> bool)
    ensures
        forall|x: int| #[trigger] s.filter(pred).contains(x) ==> s.contains(x),
    decreases s.len(),
{
    let out = s.filter(pred);
    if s.len() > 0 {
        let rest = s.drop_last();
        lemma_filter_sub(rest, pred);
        rest.lemma_filter_push(s.last(), pred);
        assert(rest.push(s.last()) =~= s);
        assert forall|x: int| #[trigger] out.contains(x) implies s.contains(x) by {
            if x == s.last() {
                assert(s[s.len() - 1] == x);
            } else {
                let w = choose|w: int| 0 <= w < out.len() && out[w] == x;
                assert(rest.filter(pred)[w] == x);
                assert(rest.filter(pred).contains(x));
                assert(rest.contains(x));
                let v = choose|v: int| 0 <= v < rest.len() && rest[v] == x;
                assert(s[v] == x);
            }
        }
    } else {
        assert(out =~= Seq::empty());
    }
}

proof fn lemma_filter_keeps_order(order: Seq<int>, keys: Seq<int>, pred: spec_fn(int) -> bool)
    requires
        rank::in_rank_order(order, keys),
    ensures
        rank::in_rank_order(order.filter(pred), keys),
    decreases order.len(),
{
    let out = order.filter(pred);
    if order.len() == 0 {
        assert(out =~= Seq::empty());
    } else {
        let rest = order.drop_last();
        assert(rank::in_rank_order(rest, keys)) by {
            assert forall|i: int, j: int| 0 <= i < j < rest.len() implies rank::ranks_before(
                keys,
                #[trigger] rest[i],
                #[trigger] rest[j],
            ) by {
                assert(rest[i] == order[i] && rest[j] == order[j]);
            }
        }
        lemma_filter_keeps_order(rest, keys, pred);
        lemma_filter_sub(rest, pred);
        rest.lemma_filter_push(order.last(), pred);
        assert(rest.push(order.last()) =~= order);
        let inner = rest.filter(pred);
        assert forall|i: int, j: int| 0 <= i < j < out.len() implies rank::ranks_before(
            keys,
            #[trigger] out[i],
            #[trigger] out[j],
        ) by {
            if j < inner.len() {
                assert(out[i] == inner[i] && out[j] == inner[j]);
            } else {
                assert(out[i] == inner[i]);
                assert(inner.contains(inner[i]));
                assert(rest.contains(inner[i]));
                let w = choose|w: int| 0 <= w < rest.len() && rest[w] == inner[i];
                assert(rank::ranks_before(keys, order[w], order[order.len() - 1]));
            }
        }
    }
}

/// A stored segmentation: the reading and its boundaries as they are written
/// down.
pub struct SegmentationRow {
    pub kana: String,
    pub boundaries: String,
}

/// Tells the rows whose boundaries can be read.
pub open spec fn readable() -> spec_fn(SegmentationRow) -> bool {
    |r: SegmentationRow| decoded(r.boundaries@) is Some
}

/// Tells the rows whose boundaries cannot be read.
pub open spec fn corrupt() -> spec_fn(SegmentationRow) -> bool {
    |r: SegmentationRow| decoded(r.boundaries@) is None
}

/// The reading and the boundaries of a row.
pub open spec fn row_content(r: SegmentationRow) -> (Seq<char>, Seq<usize>) {
    (
        r.kana@,
        match decoded(r.boundaries@) {
            Some(b) => b,
            None => Seq::empty(),
        },
    )
}

/// Sorts stored segmentations into those that can be read, with their
/// boundaries, and the readings of those that cannot and have to be deleted.
pub fn sort_segmentation_rows(rows: &Vec<SegmentationRow>) -> (out: (
    Vec<(String, Vec<usize>)>,
    Vec<String>,
))
    ensures
        out.0@.map_values(|p: (String, Vec<usize>)| (p.0@, p.1@)) == rows@.filter(
            readable(),
        ).map_values(|r: SegmentationRow| row_content(r)),
        out.1@.map_values(|k: String| k@) == rows@.filter(corrupt()).map_values(
            |r: SegmentationRow| r.kana@,
        ),
{
    let mut good: Vec<(String, Vec<usize>)> = Vec::new();
    let mut bad: Vec<String> = Vec::new();
    let mut i: usize = 0;
    proof {
        assert(rows@.take(0).filter(readable()) =~= Seq::empty());
        assert(rows@.take(0).filter(corrupt()) =~= Seq::empty());
        assert(good@.map_values(|p: (String, Vec<usize>)| (p.0@, p.1@)) =~= rows@.take(0).filter(
            readable(),
        ).map_values(|r: SegmentationRow| row_content(r)));
        assert(bad@.map_values(|k: String| k@) =~= rows@.take(0).filter(corrupt()).map_values(
            |r: SegmentationRow| r.kana@,
        ));
    }
    while i < rows.len()
        invariant
            i <= rows@.len(),
            good@.map_values(|p: (String, Vec<usize>)| (p.0@, p.1@)) == rows@.take(
                i as int,
            ).filter(readable()).map_values(|r: SegmentationRow| row_content(r)),
            bad@.map_values(|k: String| k@) == rows@.take(i as int).filter(corrupt()).map_values(
                |r: SegmentationRow| r.kana@,
            ),
        decreases rows@.len() - i,
    {
        let ghost r = rows@[i as int];
        let ghost good_before = good@;
        let ghost bad_before = bad@;
        let ghost fg = rows@.take(i as int).filter(readable());
        let ghost fb = rows@.take(i as int).filter(corrupt());
        proof {
            assert(rows@.take(i + 1) =~= rows@.take(i as int).push(r));
            rows@.take(i as int).lemma_filter_push(r, readable());
            rows@.take(i as int).lemma_filter_push(r, corrupt());
        }
        match decode_boundaries(rows[i].boundaries.as_str()) {
            Some(b) => {
                let pair: (String, Vec<usize>) = (rows[i].kana.clone(), b);
                let ghost pv = (pair.0@, pair.1@);
                good.push(pair);
                proof {
                    assert(pv == row_content(r));
                    assert(good@.map_values(|p: (String, Vec<usize>)| (p.0@, p.1@))
                        =~= good_before.map_values(
                        |p: (String, Vec<usize>)| (p.0@, p.1@),
                    ).push(pv));
                    assert(fg.push(r).map_values(|r: SegmentationRow| row_content(r))
                        =~= fg.map_values(|r: SegmentationRow| row_content(r)).push(
                        row_content(r),
                    ));
                }
            },
            None => {
                let kana: String = rows[i].kana.clone();
                let ghost kv = kana@;
                bad.push(kana);
                proof {
                    assert(bad@.map_values(|k: String| k@) =~= bad_before.map_values(
                        |k: String| k@,
                    ).push(kv));
                    assert(fb.push(r).map_values(|r: SegmentationRow| r.kana@) =~= fb.map_values(
                        |r: SegmentationRow| r.kana@,
                    ).push(r.kana@));
                }
            },
        }
        i = i + 1;
    }
    assert(rows@.take(i as int) =~= rows@);
    (good, bad)
}

/// The key of a counted selection gives back its reading and its surface, as
/// long as the reading holds no bar.
pub proof fn law_score_key_round_trip(reading: Seq<char>, surface: Seq<char>)
    requires
        forall|i: int| 0 <= i < reading.len() ==> #[trigger] reading[i] != '|',
    ensures
        key_parts(user_scorer::score_key(reading, surface)) == Some((reading, surface)),
{
    let key = user_scorer::score_key(reading, surface);
    scan::lemma_index_of(reading, seq!['|'] + surface, '|');
    assert(key =~= reading + (seq!['|'] + surface));
    assert(key.take(reading.len() as int) =~= reading);
    assert(key.skip(reading.len() as int + 1) =~= surface);
}

/// After an eviction the cap is kept: besides a row that must stay, no more rows
/// are left than may be.
pub proof fn law_eviction_keeps_cap(counts: Seq<i64>, kept: Option<usize>, cap: int)
    requires
        cap >= 1,
    ensures
        counts.len() - victims(counts, kept, cap).len() <= cap,
{
    let keys = eviction_keys(counts);
    let all = rank::ranking(keys);
    rank::lemma_ranking(keys);
    lemma_one_spared(all, keys, kept);
}

proof fn lemma_one_spared(order: Seq<int>, keys: Seq<int>, kept: Option<usize>)
    requires
        rank::in_rank_order(order, keys),
    ensures
        order.filter(other_row(kept)).len() >= order.len() - 1,
        !(kept matches Some(k) && order.contains(k as int)) ==> order.filter(
            other_row(kept),
        ).len() == order.len(),
    decreases order.len(),
{
    let pred = other_row(kept);
    if order.len() == 0 {
        assert(order.filter(pred) =~= Seq::empty());
    } else {
        let rest = order.drop_last();
        let last = order.last();
        assert forall|i: int, j: int| 0 <= i < j < rest.len() implies rank::ranks_before(
            keys,
            #[trigger] rest[i],
            #[trigger] rest[j],
        ) by {
            assert(rest[i] == order[i] && rest[j] == order[j]);
        }
        lemma_one_spared(rest, keys, kept);
        rest.lemma_filter_push(last, pred);
        assert(rest.push(last) =~= order);
        assert forall|x: int| #[trigger] rest.contains(x) implies order.contains(x) by {
            let w = choose|w: int| 0 <= w < rest.len() && rest[w] == x;
            assert(order[w] == x);
        }
        if rest.contains(last) {
            let w = choose|w: int| 0 <= w < rest.len() && rest[w] == last;
            assert(rank::ranks_before(keys, order[w], order[order.len() - 1]));
        }
        assert(order.contains(order[order.len() - 1]));
    }
}

/// Boundaries are written as decimal numbers with commas between them.
pub proof fn law_boundaries_are_listed(b: Seq<usize>, n: usize)
    ensures
        encoded(Seq::<usize>::empty()).len() == 0,
        encoded(seq![n]) == scan::decimal(n as nat),
        b.len() > 0 ==> encoded(b.push(n)) == encoded(b) + seq![','] + scan::decimal(n as nat),
{
    assert(b.push(n).drop_last() =~= b);
    if b.len() > 0 {
        assert(encoded(b).push(',') + scan::decimal(n as nat) =~= encoded(b) + seq![',']
            + scan::decimal(n as nat));
    }
}

/// Every count found under a key with a bar becomes a row: what stands before the first
/// bar is the reading, what stands behind it the surface. Other keys are left out.
pub proof fn law_found_counts_become_rows(
    found: Seq<(Seq<char>, u32)>,
    key: Seq<char>,
    count: u32,
    at: int,
)
    ensures
        0 <= at < key.len() && key[at] == '|' && (forall|i: int|
            0 <= i < at ==> #[trigger] key[i] != '|') ==> rows_found(found.push((key, count)))
            == rows_found(found).push(
            ScoreRowView { reading: key.take(at), surface: key.skip(at + 1), count },
        ),
        (forall|i: int| 0 <= i < key.len() ==> #[trigger] key[i] != '|') ==> rows_found(
            found.push((key, count)),
        ) == rows_found(found),
        rows_found(Seq::<(Seq<char>, u32)>::empty()).len() == 0,
{
    assert(found.push((key, count)).drop_last() =~= found);
    scan::law_index_is_the_first(key, '|');
    let first = scan::index_of(key, '|');
    if 0 <= at < key.len() && key[at] == '|' && forall|i: int| 0 <= i < at ==> #[trigger] key[i]
        != '|' {
        if first < at {
            assert(key[first] != '|');
        }
        if at < first {
            assert(key[at] != '|');
        }
    }
    if first < key.len() {
        assert(key[first] == '|');
    }
}

/// On the first run every count found is written down, later only one that is larger
/// than what is stored, or for which nothing is; otherwise none is.
pub proof fn law_which_counts_are_written(
    plan: Takeover,
    rows: Seq<ScoreRow>,
    stored: Seq<Option<u32>>,
    n: int,
    i: int,
)
    requires
        0 <= i < n,
    ensures
        written_places(plan, rows, stored, n).contains(i) <==> (plan == Takeover::Migrate || (plan
            == Takeover::Recover && (stored[i] is None || stored[i]->0 < rows[i].count))),
    decreases n,
{
    let before = written_places(plan, rows, stored, n - 1);
    let out = written_places(plan, rows, stored, n);
    lemma_written_below(plan, rows, stored, n - 1);
    if i < n - 1 {
        law_which_counts_are_written(plan, rows, stored, n - 1, i);
        if before.contains(i) {
            let w = choose|w: int| 0 <= w < before.len() && before[w] == i;
            assert(out[w] == i);
        }
        if out.contains(i) {
            let w = choose|w: int| 0 <= w < out.len() && out[w] == i;
            assert(before[w] == i);
        }
    } else {
        if is_written(plan, stored[n - 1], rows[n - 1].count) {
            assert(out[before.len() as int] == i);
        } else if out.contains(i) {
            let w = choose|w: int| 0 <= w < out.len() && out[w] == i;
            assert(before[w] < n - 1);
        }
    }
}

proof fn lemma_written_below(
    plan: Takeover,
    rows: Seq<ScoreRow>,
    stored: Seq<Option<u32>>,
    n: int,
)
    ensures
        forall|w: int|
            0 <= w < written_places(plan, rows, stored, n).len() ==> 0 <= #[trigger] written_places(
                plan,
                rows,
                stored,
                n,
            )[w] < n,
    decreases n,
{
    if n > 0 {
        lemma_written_below(plan, rows, stored, n - 1);
        let before = written_places(plan, rows, stored, n - 1);
        let out = written_places(plan, rows, stored, n);
        assert forall|w: int| 0 <= w < out.len() implies 0 <= #[trigger] out[w] < n by {
            if w < before.len() {
                assert(out[w] == before[w]);
            }
        }
    }
}

/// No more rows go than exceed the cap.
pub proof fn law_eviction_takes_no_more(counts: Seq<i64>, kept: Option<usize>, cap: int)
    requires
        cap >= 0,
    ensures
        counts.len() <= cap ==> victims(counts, kept, cap).len() == 0,
        counts.len() > cap ==> victims(counts, kept, cap).len() <= counts.len() - cap,
{
}

/// A stored row counts if its boundaries can be read, and then for these.
pub proof fn law_rows_are_read(r: SegmentationRow)
    ensures
        readable()(r) <==> decoded(r.boundaries@) is Some,
        corrupt()(r) <==> decoded(r.boundaries@) is None,
        decoded(r.boundaries@) matches Some(b) ==> row_content(r) == (r.kana@, b),
{
}

} // verus!
