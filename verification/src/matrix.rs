//! Connection costs from the matrix of a morphological dictionary.
//!
//! The dictionary knows over a thousand contexts on either side of a word, each
//! with a description. A description gives a part of speech; the costs of all
//! pairs of contexts are gathered by their parts of speech. Cells whose mean
//! says little are set by hand.
use vstd::prelude::*;

use crate::pos;
use crate::pos::{hand_tuned, PartOfSpeech, POS_COUNT};
use crate::scan;
use crate::scan::{
    copied_between, fields, find, lines, parse_signed, parse_unsigned, push_decimal, split, trim,
    Separator,
};
use crate::text::{chars_of, same_text, text_of};

verus! {

/// What `encoding_rs::EUC_JP.decode` makes of a sequence of bytes: the text, and
/// whether malformed sequences were replaced in it.
pub uninterp spec fn euc_jp_decoded(bytes: Seq<u8>) -> (Seq<char>, bool);

/// `encoding_rs::Encoding::decode` on `EUC_JP`: the text that the bytes hold, and
/// whether there were malformed sequences. Both depend on the bytes alone. The
/// sizes of its buffers, up to six times that of the input, must not exceed what
/// can be allocated.
#[verifier::external_body]
fn decode_euc_jp(bytes: &[u8]) -> (decoded: (String, bool))
    requires
        bytes@.len() <= usize::MAX / 16,
    ensures
        (decoded.0@, decoded.1) == euc_jp_decoded(bytes@),
{
    let (text, _, had_errors) = encoding_rs::EUC_JP.decode(bytes);
    (text.into_owned(), had_errors)
}

/// The text of a file in EUC-JP, and whether it was malformed.
pub fn read_eucjp(bytes: &Vec<u8>) -> (decoded: (String, bool))
    requires
        bytes@.len() <= usize::MAX / 16,
    ensures
        (decoded.0@, decoded.1) == euc_jp_decoded(bytes@),
{
    decode_euc_jp(bytes.as_slice())
}

/// The part of speech for the first two parts of a description.
pub open spec fn mapped_pos(major: Seq<char>, sub: Seq<char>) -> PartOfSpeech {
    if major == "名詞"@ {
        if sub == "接尾"@ {
            PartOfSpeech::Suffix
        } else {
            PartOfSpeech::Noun
        }
    } else if major == "動詞"@ {
        PartOfSpeech::Verb
    } else if major == "形容詞"@ {
        PartOfSpeech::Adjective
    } else if major == "副詞"@ {
        PartOfSpeech::Adverb
    } else if major == "助詞"@ {
        PartOfSpeech::Particle
    } else if major == "助動詞"@ {
        PartOfSpeech::Auxiliary
    } else if major == "接続詞"@ {
        PartOfSpeech::Conjunction
    } else if major == "感動詞"@ {
        PartOfSpeech::Interjection
    } else if major == "接頭詞"@ {
        PartOfSpeech::Prefix
    } else {
        PartOfSpeech::Other
    }
}

/// The part of speech for the first two parts of a description.
pub fn map_pos(major: &str, sub: &str) -> (p: PartOfSpeech)
    ensures
        p == mapped_pos(major@, sub@),
{
    if same_text(major, "名詞") {
        if same_text(sub, "接尾") {
            PartOfSpeech::Suffix
        } else {
            PartOfSpeech::Noun
        }
    } else if same_text(major, "動詞") {
        PartOfSpeech::Verb
    } else if same_text(major, "形容詞") {
        PartOfSpeech::Adjective
    } else if same_text(major, "副詞") {
        PartOfSpeech::Adverb
    } else if same_text(major, "助詞") {
        PartOfSpeech::Particle
    } else if same_text(major, "助動詞") {
        PartOfSpeech::Auxiliary
    } else if same_text(major, "接続詞") {
        PartOfSpeech::Conjunction
    } else if same_text(major, "感動詞") {
        PartOfSpeech::Interjection
    } else if same_text(major, "接頭詞") {
        PartOfSpeech::Prefix
    } else {
        PartOfSpeech::Other
    }
}

/// The largest number of a context.
pub open spec fn id_limit() -> int {
    usize::MAX - 1
}

/// The number of a context and its part of speech, from a line that holds the
/// number, a space and a description in parts.
pub open spec fn context_of(line: Seq<char>) -> Option<(int, PartOfSpeech)> {
    let at = scan::index_of(line, ' ');
    let head = line.take(at);
    let rest = if at < line.len() {
        line.skip(at + 1)
    } else {
        Seq::empty()
    };
    let parts = scan::pieces(rest, Separator::Char(','));
    let sub = if parts.len() > 1 {
        parts[1]
    } else {
        Seq::empty()
    };
    match scan::unsigned_of(head, 10, id_limit()) {
        Some(id) => Some((id, mapped_pos(parts[0], sub))),
        None => None,
    }
}

/// The list with a part of speech at a number; what lies between is `Other`.
pub open spec fn placed(ids: Seq<PartOfSpeech>, id: int, p: PartOfSpeech) -> Seq<PartOfSpeech> {
    Seq::new(
        (if ids.len() <= id {
            id + 1
        } else {
            ids.len() as int
        }) as nat,
        |k: int|
            if k == id {
                p
            } else if k < ids.len() {
                ids[k]
            } else {
                PartOfSpeech::Other
            },
    )
}

/// The parts of speech by number of context. There are none if a line is not
/// blank and has no number.
pub open spec fn contexts_of(all: Seq<Seq<char>>) -> Option<Seq<PartOfSpeech>>
    decreases all.len(),
{
    if all.len() == 0 {
        Some(Seq::empty())
    } else {
        match contexts_of(all.drop_last()) {
            None => None,
            Some(ids) => {
                let line = scan::trimmed(all.last());
                if line.len() == 0 {
                    Some(ids)
                } else {
                    match context_of(line) {
                        Some((id, p)) => Some(placed(ids, id, p)),
                        None => None,
                    }
                }
            },
        }
    }
}

/// The number of a context and its part of speech.
fn parse_context(line: &Vec<char>) -> (context: Option<(usize, PartOfSpeech)>)
    ensures
        match context {
            Some((id, p)) => context_of(line@) == Some((id as int, p)),
            None => context_of(line@) is None,
        },
{
    let at: usize = find(line.as_slice(), ' ');
    let head: Vec<char> = copied_between(line.as_slice(), 0, at);
    assert(head@ =~= line@.take(at as int));
    let rest: Vec<char> = if at < line.len() {
        copied_between(line.as_slice(), at + 1, line.len())
    } else {
        Vec::new()
    };
    proof {
        if at < line@.len() {
            assert(rest@ =~= line@.skip(at + 1));
        } else {
            assert(rest@ =~= Seq::<char>::empty());
        }
        scan::lemma_pieces_len(rest@, Separator::Char(','));
    }
    let parts: Vec<Vec<char>> = split(rest.as_slice(), Separator::Char(','));
    proof {
        let pv = scan::text_views(parts@);
        assert(pv.len() == parts@.len());
        assert(pv[0] == parts@[0]@);
        if parts@.len() > 1 {
            assert(pv[1] == parts@[1]@);
        }
    }
    let major: String = text_of(parts[0].as_slice());
    let sub: String = if parts.len() > 1 {
        text_of(parts[1].as_slice())
    } else {
        String::new()
    };
    assert(parts@.len() <= 1 ==> sub@ =~= Seq::<char>::empty());
    let p: PartOfSpeech = map_pos(major.as_str(), sub.as_str());
    match parse_unsigned(head.as_slice(), 10, (usize::MAX - 1) as u64) {
        Some(id) => Some((id as usize, p)),
        None => None,
    }
}

/// Puts a part of speech at a number.
fn place(ids: &mut Vec<PartOfSpeech>, id: usize, p: PartOfSpeech)
    requires
        id < usize::MAX,
    ensures
        final(ids)@ == placed(old(ids)@, id as int, p),
{
    let ghost before = ids@;
    while ids.len() <= id
        invariant
            id < usize::MAX,
            before.len() <= ids@.len(),
            ids@.len() > before.len() ==> ids@.len() <= id + 1,
            forall|k: int| 0 <= k < before.len() ==> #[trigger] ids@[k] == before[k],
            forall|k: int|
                before.len() <= k < ids@.len() ==> #[trigger] ids@[k] == PartOfSpeech::Other,
        decreases id + 1 - ids@.len(),
    {
        ids.push(PartOfSpeech::Other);
    }
    ids.set(id, p);
    assert(ids@ =~= placed(before, id as int, p));
}

/// The parts of speech by number of context, from the text of a list of
/// contexts. There are none if a line is not blank and has no number.
pub fn parse_id_text(text: &str) -> (ids: Option<Vec<PartOfSpeech>>)
    ensures
        match ids {
            Some(v) => contexts_of(scan::lines_of(text@)) == Some(v@),
            None => contexts_of(scan::lines_of(text@)) is None,
        },
{
    let chars: Vec<char> = chars_of(text);
    let all: Vec<Vec<char>> = lines(chars.as_slice());
    let ghost av = scan::text_views(all@);
    let mut ids: Vec<PartOfSpeech> = Vec::new();
    let mut i: usize = 0;
    assert(contexts_of(av.take(0)) == Some(ids@));
    while i < all.len()
        invariant
            i <= all@.len(),
            av == scan::text_views(all@),
            av == scan::lines_of(text@),
            contexts_of(av.take(i as int)) == Some(ids@),
        decreases all@.len() - i,
    {
        proof {
            assert(av.take(i + 1).drop_last() =~= av.take(i as int));
            assert(av.take(i + 1).last() == all@[i as int]@);
        }
        let line: Vec<char> = trim(all[i].as_slice());
        if line.len() > 0 {
            match parse_context(&line) {
                Some((id, p)) => {
                    place(&mut ids, id, p);
                },
                None => {
                    proof {
                        lemma_contexts_fail(av, i + 1);
                    }
                    return None;
                },
            }
        }
        i = i + 1;
    }
    assert(av.take(i as int) =~= av);
    Some(ids)
}

proof fn lemma_contexts_fail(all: Seq<Seq<char>>, n: int)
    requires
        0 <= n <= all.len(),
        contexts_of(all.take(n)) is None,
    ensures
        contexts_of(all) is None,
    decreases all.len() - n,
{
    if n < all.len() {
        assert(all.take(n + 1).drop_last() =~= all.take(n));
        lemma_contexts_fail(all, n + 1);
    } else {
        assert(all.take(n) =~= all);
    }
}

/// The parts of speech by number of context, from a list of contexts in EUC-JP,
/// and whether the list was malformed.
pub fn parse_id_def(bytes: &Vec<u8>) -> (ids: (Option<Vec<PartOfSpeech>>, bool))
    requires
        bytes@.len() <= usize::MAX / 16,
    ensures
        ids.1 == euc_jp_decoded(bytes@).1,
        match ids.0 {
            Some(v) => contexts_of(scan::lines_of(euc_jp_decoded(bytes@).0)) == Some(v@),
            None => contexts_of(scan::lines_of(euc_jp_decoded(bytes@).0)) is None,
        },
{
    let (text, had_errors) = read_eucjp(bytes);
    (parse_id_text(text.as_str()), had_errors)
}

/// A line of the matrix: the numbers of two contexts and a cost.
pub struct MatrixRow {
    pub left: usize,
    pub right: usize,
    pub cost: i64,
}

/// The row that a line holds: two numbers and a cost, between white space.
pub open spec fn row_of(line: Seq<char>) -> Option<MatrixRow> {
    let f = scan::fields_of(line);
    if f.len() < 3 {
        None
    } else {
        match (
            scan::unsigned_of(f[0], 10, usize::MAX as int),
            scan::unsigned_of(f[1], 10, usize::MAX as int),
            scan::signed_of(f[2]),
        ) {
            (Some(l), Some(r), Some(c)) => Some(
                MatrixRow { left: l as usize, right: r as usize, cost: c as i64 },
            ),
            _ => None,
        }
    }
}

/// The rows that the lines hold; blank lines hold none. There are none at all if
/// a line holds something else.
pub open spec fn rows_of(all: Seq<Seq<char>>) -> Option<Seq<MatrixRow>>
    decreases all.len(),
{
    if all.len() == 0 {
        Some(Seq::empty())
    } else {
        match rows_of(all.drop_last()) {
            None => None,
            Some(rows) => {
                let line = scan::trimmed(all.last());
                if line.len() == 0 {
                    Some(rows)
                } else {
                    match row_of(line) {
                        Some(r) => Some(rows.push(r)),
                        None => None,
                    }
                }
            },
        }
    }
}

/// The lines behind the first one, which holds the size of the matrix.
pub open spec fn body_lines(text: Seq<char>) -> Seq<Seq<char>> {
    let all = scan::lines_of(text);
    if all.len() == 0 {
        all
    } else {
        all.skip(1)
    }
}

/// The part of speech of a context; `Other` for a number that is not listed.
pub open spec fn pos_of_context(ids: Seq<PartOfSpeech>, id: int) -> PartOfSpeech {
    if 0 <= id < ids.len() {
        ids[id]
    } else {
        PartOfSpeech::Other
    }
}

/// Does the row connect these parts of speech?
pub open spec fn connects(
    r: MatrixRow,
    left: Seq<PartOfSpeech>,
    right: Seq<PartOfSpeech>,
    l: PartOfSpeech,
    p: PartOfSpeech,
) -> bool {
    pos_of_context(left, r.left as int) == l && pos_of_context(right, r.right as int) == p
}

/// The sum of the costs that connect two parts of speech.
pub open spec fn cost_sum(
    rows: Seq<MatrixRow>,
    left: Seq<PartOfSpeech>,
    right: Seq<PartOfSpeech>,
    l: PartOfSpeech,
    p: PartOfSpeech,
) -> int
    decreases rows.len(),
{
    if rows.len() == 0 {
        0
    } else {
        cost_sum(rows.drop_last(), left, right, l, p) + (if connects(
            rows.last(),
            left,
            right,
            l,
            p,
        ) {
            rows.last().cost as int
        } else {
            0
        })
    }
}

/// The number of costs that connect two parts of speech.
pub open spec fn cost_count(
    rows: Seq<MatrixRow>,
    left: Seq<PartOfSpeech>,
    right: Seq<PartOfSpeech>,
    l: PartOfSpeech,
    p: PartOfSpeech,
) -> int
    decreases rows.len(),
{
    if rows.len() == 0 {
        0
    } else {
        cost_count(rows.drop_last(), left, right, l, p) + (if connects(
            rows.last(),
            left,
            right,
            l,
            p,
        ) {
            1int
        } else {
            0int
        })
    }
}

/// Sum and number of the costs that connect two parts of speech.
#[derive(Clone, Copy, Debug)]
pub struct MatrixCell {
    pub sum: i128,
    pub count: u64,
}

/// The cell for two parts of speech in a table by rows.
pub open spec fn cell_index(l: PartOfSpeech, p: PartOfSpeech) -> int {
    pos::pos_index(l) * 11 + pos::pos_index(p)
}

/// Does the table hold sum and number for every two parts of speech?
pub open spec fn gathers(
    cells: Seq<MatrixCell>,
    rows: Seq<MatrixRow>,
    left: Seq<PartOfSpeech>,
    right: Seq<PartOfSpeech>,
) -> bool {
    &&& cells.len() == 121
    &&& forall|l: PartOfSpeech, p: PartOfSpeech|
        {
            let c = #[trigger] cells[cell_index(l, p)];
            &&& c.sum == cost_sum(rows, left, right, l, p)
            &&& c.count == cost_count(rows, left, right, l, p)
        }
}

/// The row that a line holds.
fn parse_row(line: &Vec<char>) -> (row: Option<MatrixRow>)
    ensures
        row == row_of(line@),
{
    let f: Vec<Vec<char>> = fields(line.as_slice());
    let ghost fv = scan::text_views(f@);
    assert(fv.len() == f@.len());
    if f.len() < 3 {
        return None;
    }
    assert(fv[0] == f@[0]@ && fv[1] == f@[1]@ && fv[2] == f@[2]@);
    let left: Option<u64> = parse_unsigned(f[0].as_slice(), 10, usize::MAX as u64);
    let right: Option<u64> = parse_unsigned(f[1].as_slice(), 10, usize::MAX as u64);
    let cost: Option<i64> = parse_signed(f[2].as_slice());
    match (left, right, cost) {
        (Some(l), Some(r), Some(c)) => Some(
            MatrixRow { left: l as usize, right: r as usize, cost: c },
        ),
        _ => None,
    }
}

proof fn lemma_rows_fail(all: Seq<Seq<char>>, n: int)
    requires
        0 <= n <= all.len(),
        rows_of(all.take(n)) is None,
    ensures
        rows_of(all) is None,
    decreases all.len() - n,
{
    if n < all.len() {
        assert(all.take(n + 1).drop_last() =~= all.take(n));
        lemma_rows_fail(all, n + 1);
    } else {
        assert(all.take(n) =~= all);
    }
}

/// The rows of a matrix, from its text. There are none if a line behind the
/// first one is not blank and does not hold two numbers and a cost.
pub fn parse_matrix(text: &str) -> (rows: Option<Vec<MatrixRow>>)
    ensures
        match rows {
            Some(v) => rows_of(body_lines(text@)) == Some(v@),
            None => rows_of(body_lines(text@)) is None,
        },
{
    let chars: Vec<char> = chars_of(text);
    let all: Vec<Vec<char>> = lines(chars.as_slice());
    let ghost lv = scan::text_views(all@);
    let ghost av = body_lines(text@);
    assert(lv.len() == all@.len());
    let mut rows: Vec<MatrixRow> = Vec::new();
    if all.len() == 0 {
        assert(rows_of(av) == Some(rows@));
        return Some(rows);
    }
    let mut i: usize = 1;
    assert(rows_of(av.take(0)) == Some(rows@));
    while i < all.len()
        invariant
            1 <= i <= all@.len(),
            lv == scan::text_views(all@),
            lv == scan::lines_of(text@),
            av == lv.skip(1),
            av == body_lines(text@),
            rows_of(av.take(i - 1)) == Some(rows@),
        decreases all@.len() - i,
    {
        proof {
            assert(av.take(i as int).drop_last() =~= av.take(i - 1));
            assert(av.take(i as int).last() == all@[i as int]@);
        }
        let line: Vec<char> = trim(all[i].as_slice());
        if line.len() > 0 {
            match parse_row(&line) {
                Some(r) => {
                    rows.push(r);
                },
                None => {
                    proof {
                        lemma_rows_fail(av, i as int);
                    }
                    return None;
                },
            }
        }
        i = i + 1;
    }
    assert(av.take(i - 1) =~= av);
    Some(rows)
}

/// The part of speech of a context.
fn context_pos(ids: &Vec<PartOfSpeech>, id: usize) -> (p: PartOfSpeech)
    ensures
        p == pos_of_context(ids@, id as int),
{
    if id < ids.len() {
        ids[id]
    } else {
        PartOfSpeech::Other
    }
}

proof fn lemma_cell_index(l: PartOfSpeech, p: PartOfSpeech, m: PartOfSpeech, q: PartOfSpeech)
    ensures
        0 <= cell_index(l, p) < 121,
        cell_index(l, p) == cell_index(m, q) ==> l == m && p == q,
{
    pos::law_index_round_trip(l, 0);
    pos::law_index_round_trip(p, 0);
    pos::law_index_round_trip(m, 0);
    pos::law_index_round_trip(q, 0);
}

proof fn lemma_count_within(
    rows: Seq<MatrixRow>,
    left: Seq<PartOfSpeech>,
    right: Seq<PartOfSpeech>,
    l: PartOfSpeech,
    p: PartOfSpeech,
)
    ensures
        0 <= cost_count(rows, left, right, l, p) <= rows.len(),
        -0x8000_0000_0000_0000 * rows.len() <= cost_sum(rows, left, right, l, p)
            <= 0x8000_0000_0000_0000 * rows.len(),
    decreases rows.len(),
{
    if rows.len() > 0 {
        lemma_count_within(rows.drop_last(), left, right, l, p);
    }
}

/// Gathers the costs by the parts of speech that they connect.
pub fn aggregate(rows: &Vec<MatrixRow>, left: &Vec<PartOfSpeech>, right: &Vec<PartOfSpeech>) -> (cells:
    Vec<MatrixCell>)
    ensures
        gathers(cells@, rows@, left@, right@),
{
    let mut cells: Vec<MatrixCell> = Vec::new();
    let mut k: usize = 0;
    while k < 121
        invariant
            k <= 121,
            cells@.len() == k,
            forall|j: int|
                0 <= j < k ==> (#[trigger] cells@[j]).sum == 0 && cells@[j].count == 0,
        decreases 121 - k,
    {
        cells.push(MatrixCell { sum: 0, count: 0 });
        k = k + 1;
    }
    let mut i: usize = 0;
    proof {
        assert forall|l: PartOfSpeech, p: PartOfSpeech|
            {
                let c = #[trigger] cells@[cell_index(l, p)];
                &&& c.sum == cost_sum(rows@.take(0), left@, right@, l, p)
                &&& c.count == cost_count(rows@.take(0), left@, right@, l, p)
            } by {
            lemma_cell_index(l, p, l, p);
        }
    }
    while i < rows.len()
        invariant
            i <= rows@.len(),
            gathers(cells@, rows@.take(i as int), left@, right@),
        decreases rows@.len() - i,
    {
        let ghost done = rows@.take(i as int);
        let ghost next = rows@.take(i + 1);
        let ghost before = cells@;
        let total: usize = rows.len();
        let l: PartOfSpeech = context_pos(left, rows[i].left);
        let p: PartOfSpeech = context_pos(right, rows[i].right);
        let at: usize = l.idx() * 11 + p.idx();
        proof {
            assert(next.drop_last() =~= done);
            assert(next.last() == rows@[i as int]);
            assert(at == cell_index(l, p));
            lemma_cell_index(l, p, l, p);
            lemma_count_within(done, left@, right@, l, p);
            assert(cells@[cell_index(l, p)].sum == cost_sum(done, left@, right@, l, p));
        }
        let cell: MatrixCell = cells[at];
        cells.set(
            at,
            MatrixCell { sum: cell.sum + (rows[i].cost as i128), count: cell.count + 1 },
        );
        proof {
            assert forall|m: PartOfSpeech, q: PartOfSpeech|
                {
                    let c = #[trigger] cells@[cell_index(m, q)];
                    &&& c.sum == cost_sum(next, left@, right@, m, q)
                    &&& c.count == cost_count(next, left@, right@, m, q)
                } by {
                lemma_cell_index(l, p, m, q);
                let old_cell = before[cell_index(m, q)];
                assert(old_cell.sum == cost_sum(done, left@, right@, m, q));
                assert(old_cell.count == cost_count(done, left@, right@, m, q));
                if cell_index(m, q) != at {
                    assert(!connects(next.last(), left@, right@, m, q));
                    assert(cells@[cell_index(m, q)] == old_cell);
                }
            }
        }
        i = i + 1;
    }
    assert(rows@.take(i as int) =~= rows@);
    cells
}

/// The table with the costs that were set by hand.
pub open spec fn overridden(costs: Seq<i64>) -> Seq<i64> {
    Seq::new(
        121,
        |k: int|
            match pos::override_of(pos::pos_at(k / 11), pos::pos_at(k % 11)) {
                Some(c) => c,
                None => costs[k],
            },
    )
}

/// Puts the costs that were set by hand into the table.
pub fn apply_overrides(costs: &mut Vec<i64>)
    requires
        old(costs)@.len() == 121,
    ensures
        final(costs)@ == overridden(old(costs)@),
{
    let ghost before = costs@;
    let ghost want = overridden(before);
    let mut k: usize = 0;
    while k < 121
        invariant
            k <= 121,
            costs@.len() == 121,
            before.len() == 121,
            want == overridden(before),
            forall|j: int| 0 <= j < k ==> #[trigger] costs@[j] == want[j],
            forall|j: int| k <= j < 121 ==> #[trigger] costs@[j] == before[j],
        decreases 121 - k,
    {
        let l: PartOfSpeech = PartOfSpeech::from_idx(k / 11);
        let p: PartOfSpeech = PartOfSpeech::from_idx(k % 11);
        match hand_tuned(l, p) {
            Some(c) => {
                costs.set(k, c);
            },
            None => {},
        }
        k = k + 1;
    }
    assert(costs@ =~= want);
}

/// The short name of a part of speech.
pub open spec fn short_name(p: PartOfSpeech) -> Seq<char> {
    match p {
        PartOfSpeech::Noun => "N"@,
        PartOfSpeech::Verb => "V"@,
        PartOfSpeech::Adjective => "Adj"@,
        PartOfSpeech::Adverb => "Adv"@,
        PartOfSpeech::Particle => "Part"@,
        PartOfSpeech::Auxiliary => "Aux"@,
        PartOfSpeech::Conjunction => "Conj"@,
        PartOfSpeech::Interjection => "Intj"@,
        PartOfSpeech::Prefix => "Pref"@,
        PartOfSpeech::Suffix => "Suf"@,
        PartOfSpeech::Other => "Other"@,
    }
}

/// The short name of a part of speech.
pub fn short(p: PartOfSpeech) -> (name: &'static str)
    ensures
        name@ == short_name(p),
{
    match p {
        PartOfSpeech::Noun => "N",
        PartOfSpeech::Verb => "V",
        PartOfSpeech::Adjective => "Adj",
        PartOfSpeech::Adverb => "Adv",
        PartOfSpeech::Particle => "Part",
        PartOfSpeech::Auxiliary => "Aux",
        PartOfSpeech::Conjunction => "Conj",
        PartOfSpeech::Interjection => "Intj",
        PartOfSpeech::Prefix => "Pref",
        PartOfSpeech::Suffix => "Suf",
        PartOfSpeech::Other => "Other",
    }
}

/// A number of thousandths with a decimal point and three digits behind it.
pub open spec fn thousandths(n: nat) -> Seq<char> {
    scan::decimal(n / 1000) + "."@ + scan::decimal(n / 100 % 10) + scan::decimal(n / 10 % 10)
        + scan::decimal(n % 10)
}

/// Writes a number of thousandths.
fn push_thousandths(out: &mut String, n: u64)
    ensures
        final(out)@ == old(out)@ + thousandths(n as nat),
{
    let ghost before = out@;
    push_decimal(out, n / 1000);
    out.append(".");
    push_decimal(out, n / 100 % 10);
    push_decimal(out, n / 10 % 10);
    push_decimal(out, n % 10);
    assert(out@ =~= before + thousandths(n as nat));
}

/// The first `n` costs of a row, with commas behind all but the last of the row.
pub open spec fn row_costs(costs: Seq<i64>, i: int, n: int) -> Seq<char>
    decreases n,
{
    if n <= 0 {
        Seq::empty()
    } else {
        row_costs(costs, i, n - 1) + thousandths(costs[i * 11 + n - 1] as nat) + (if n < 11 {
            ", "@
        } else {
            "  "@
        })
    }
}

/// The columns of a row, among the first `n`, that were set by hand.
pub open spec fn tuned_columns(i: int, n: int) -> Seq<char>
    decreases n,
{
    if n <= 0 {
        Seq::empty()
    } else {
        let before = tuned_columns(i, n - 1);
        if pos::override_of(pos::pos_at(i), pos::pos_at(n - 1)) is Some {
            before + (if before.len() > 0 {
                ", "@
            } else {
                Seq::empty()
            }) + short_name(pos::pos_at(n - 1))
        } else {
            before
        }
    }
}

/// A row of the table as a line of source text, with a note on the columns that
/// were set by hand.
pub open spec fn row_text(costs: Seq<i64>, i: int) -> Seq<char> {
    let tuned = tuned_columns(i, 11);
    "    [ "@ + row_costs(costs, i, 11) + "],  // "@ + short_name(pos::pos_at(i)) + " ->"@ + (
    if tuned.len() > 0 {
        "   override: "@ + tuned
    } else {
        Seq::empty()
    }) + "\n"@
}

/// The first `n` rows of the table.
pub open spec fn rows_text(costs: Seq<i64>, n: int) -> Seq<char>
    decreases n,
{
    if n <= 0 {
        Seq::empty()
    } else {
        rows_text(costs, n - 1) + row_text(costs, n - 1)
    }
}

/// Writes a row of the table.
fn push_row(out: &mut String, costs: &Vec<i64>, i: usize)
    requires
        costs@.len() == 121,
        i < 11,
        forall|k: int| 0 <= k < 121 ==> 0 <= #[trigger] costs@[k],
    ensures
        final(out)@ == old(out)@ + row_text(costs@, i as int),
{
    let ghost before = out@;
    out.append("    [ ");
    let ghost open = out@;
    let mut j: usize = 0;
    assert(open + row_costs(costs@, i as int, 0) =~= open);
    while j < 11
        invariant
            j <= 11,
            i < 11,
            costs@.len() == 121,
            forall|k: int| 0 <= k < 121 ==> 0 <= #[trigger] costs@[k],
            out@ == open + row_costs(costs@, i as int, j as int),
        decreases 11 - j,
    {
        push_thousandths(out, costs[i * 11 + j] as u64);
        if j < 10 {
            out.append(", ");
        } else {
            out.append("  ");
        }
        j = j + 1;
        assert(out@ =~= open + row_costs(costs@, i as int, j as int));
    }
    let mut tuned: String = String::new();
    let mut any: bool = false;
    let mut m: usize = 0;
    let left: PartOfSpeech = PartOfSpeech::from_idx(i);
    assert(tuned@ =~= tuned_columns(i as int, 0));
    while m < 11
        invariant
            m <= 11,
            i < 11,
            left == pos::pos_at(i as int),
            tuned@ == tuned_columns(i as int, m as int),
            any == (tuned@.len() > 0),
        decreases 11 - m,
    {
        let p: PartOfSpeech = PartOfSpeech::from_idx(m);
        if hand_tuned(left, p).is_some() {
            if any {
                tuned.append(", ");
            }
            tuned.append(short(p));
            proof {
                lemma_short_name(p);
                assert(tuned@ =~= tuned_columns(i as int, m + 1));
            }
            any = true;
        }
        m = m + 1;
    }
    out.append("],  // ");
    out.append(short(left));
    out.append(" ->");
    if any {
        out.append("   override: ");
        out.append(tuned.as_str());
    }
    out.append("\n");
    assert(out@ =~= before + row_text(costs@, i as int));
}

proof fn lemma_short_name(p: PartOfSpeech)
    ensures
        short_name(p).len() > 0,
{
    reveal_strlit("N");
    reveal_strlit("V");
    reveal_strlit("Adj");
    reveal_strlit("Adv");
    reveal_strlit("Part");
    reveal_strlit("Aux");
    reveal_strlit("Conj");
    reveal_strlit("Intj");
    reveal_strlit("Pref");
    reveal_strlit("Suf");
    reveal_strlit("Other");
}

/// The rows of the table as source text.
pub fn table_text(costs: &Vec<i64>) -> (out: String)
    requires
        costs@.len() == 121,
        forall|k: int| 0 <= k < 121 ==> 0 <= #[trigger] costs@[k],
    ensures
        out@ == rows_text(costs@, 11),
{
    let mut out: String = String::new();
    let mut i: usize = 0;
    assert(out@ =~= rows_text(costs@, 0));
    while i < 11
        invariant
            i <= 11,
            costs@.len() == 121,
            forall|k: int| 0 <= k < 121 ==> 0 <= #[trigger] costs@[k],
            out@ == rows_text(costs@, i as int),
        decreases 11 - i,
    {
        push_row(&mut out, costs, i);
        i = i + 1;
    }
    out
}

/// What the kinds of the dictionary's own system become.
pub proof fn law_kinds_are_mapped(major: Seq<char>, sub: Seq<char>)
    ensures
        major == "名詞"@ ==> mapped_pos(major, sub) == (if sub == "接尾"@ {
            PartOfSpeech::Suffix
        } else {
            PartOfSpeech::Noun
        }),
        major == "動詞"@ ==> mapped_pos(major, sub) is Verb,
        major == "形容詞"@ ==> mapped_pos(major, sub) is Adjective,
        major == "副詞"@ ==> mapped_pos(major, sub) is Adverb,
        major == "助詞"@ ==> mapped_pos(major, sub) is Particle,
        major == "助動詞"@ ==> mapped_pos(major, sub) is Auxiliary,
        major == "接続詞"@ ==> mapped_pos(major, sub) is Conjunction,
        major == "感動詞"@ ==> mapped_pos(major, sub) is Interjection,
        major == "接頭詞"@ ==> mapped_pos(major, sub) is Prefix,
{
    reveal_strlit("名詞");
    reveal_strlit("動詞");
    reveal_strlit("形容詞");
    reveal_strlit("副詞");
    reveal_strlit("助詞");
    reveal_strlit("助動詞");
    reveal_strlit("接続詞");
    reveal_strlit("感動詞");
    reveal_strlit("接頭詞");
    assert("名詞"@[0] == '名' && "動詞"@[0] == '動' && "副詞"@[0] == '副' && "助詞"@[0] == '助');
    assert("形容詞"@[0] == '形' && "助動詞"@[0] == '助' && "接続詞"@[1] == '続' && "感動詞"@[0] == '感'
        && "接頭詞"@[1] == '頭');
    assert("名詞"@.len() == 2 && "動詞"@.len() == 2 && "副詞"@.len() == 2 && "助詞"@.len() == 2);
    assert("形容詞"@.len() == 3 && "助動詞"@.len() == 3 && "接続詞"@.len() == 3 && "感動詞"@.len() == 3
        && "接頭詞"@.len() == 3);
    assert("接続詞"@[0] == '接' && "接頭詞"@[0] == '接');
}

/// A line with a number, a space and kinds separated by commas gives the number its
/// kind; earlier numbers keep theirs, and numbers that were passed over are of no known
/// kind. Empty lines change nothing, and a line without a number spoils all.
pub proof fn law_lines_number_kinds(
    all: Seq<Seq<char>>,
    digits: Seq<char>,
    major: Seq<char>,
    sub: Seq<char>,
    line: Seq<char>,
    k: int,
)
    requires
        contexts_of(all) is Some,
        forall|i: int| 0 <= i < digits.len() ==> #[trigger] digits[i] != ' ',
        forall|i: int| 0 <= i < major.len() ==> #[trigger] major[i] != ',',
        forall|i: int| 0 <= i < sub.len() ==> #[trigger] sub[i] != ',',
        scan::trimmed(line) == digits + seq![' '] + (major + seq![','] + sub),
    ensures
        ({
            let before = contexts_of(all)->0;
            let after = contexts_of(all.push(line));
            &&& scan::unsigned_of(digits, 10, usize::MAX - 1) is None ==> after is None
            &&& scan::unsigned_of(digits, 10, usize::MAX - 1) matches Some(id) ==> {
                &&& after is Some
                &&& after->0.len() == (if before.len() <= id {
                    id + 1
                } else {
                    before.len() as int
                })
                &&& 0 <= k < after->0.len() ==> after->0[k] == (if k == id {
                    mapped_pos(major, sub)
                } else if k < before.len() {
                    before[k]
                } else {
                    PartOfSpeech::Other
                })
            }
        }),
{
    let t = scan::trimmed(line);
    let rest = major + seq![','] + sub;
    assert(all.push(line).drop_last() =~= all);
    scan::law_index_is_the_first(t, ' ');
    let at = scan::index_of(t, ' ');
    assert(t[digits.len() as int] == ' ');
    if at < digits.len() {
        assert(t[at] == digits[at]);
    }
    if at > digits.len() {
        assert(t[digits.len() as int] != ' ');
    }
    assert(t.take(at) =~= digits);
    assert(t.skip(at + 1) =~= rest);
    let sep = Separator::Char(',');
    assert forall|i: int| 0 <= i < major.len() implies !sep.splits(#[trigger] major[i]) by {}
    assert forall|i: int| 0 <= i < sub.len() implies !sep.splits(#[trigger] sub[i]) by {}
    scan::law_separators_part(major, ',', sub, sep);
    scan::law_separators_part(sub, ',', sub, sep);
    assert(scan::pieces(rest, sep) =~= seq![major, sub]);
    if scan::unsigned_of(digits, 10, id_limit()) is Some {
        lemma_id_is_natural(digits);
    }
}

proof fn lemma_id_is_natural(s: Seq<char>)
    ensures
        scan::unsigned_of(s, 10, id_limit()) matches Some(n) ==> n >= 0,
{
    lemma_digits_natural(scan::without_plus(s));
}

proof fn lemma_digits_natural(s: Seq<char>)
    ensures
        scan::number_of(s, 10) matches Some(n) ==> n >= 0,
    decreases s.len(),
{
    if s.len() > 0 {
        lemma_digits_natural(s.drop_last());
    }
}

/// Empty lines are passed over in both files, and a line that cannot be read spoils all.
pub proof fn law_empty_lines_are_passed(all: Seq<Seq<char>>, line: Seq<char>)
    ensures
        scan::trimmed(line).len() == 0 ==> contexts_of(all.push(line)) == contexts_of(all)
            && rows_of(all.push(line)) == rows_of(all),
        contexts_of(all) is None ==> contexts_of(all.push(line)) is None,
        rows_of(all) is None ==> rows_of(all.push(line)) is None,
        contexts_of(Seq::<Seq<char>>::empty()) == Some(Seq::<PartOfSpeech>::empty()),
        rows_of(Seq::<Seq<char>>::empty()) == Some(Seq::<MatrixRow>::empty()),
{
    assert(all.push(line).drop_last() =~= all);
}

/// A line of costs holds the number of the left kind, that of the right kind and the
/// cost.
pub proof fn law_lines_hold_costs(all: Seq<Seq<char>>, line: Seq<char>)
    requires
        rows_of(all) is Some,
        scan::trimmed(line).len() > 0,
    ensures
        ({
            let f = scan::fields_of(scan::trimmed(line));
            let after = rows_of(all.push(line));
            let l = scan::unsigned_of(f[0], 10, usize::MAX as int);
            let r = scan::unsigned_of(f[1], 10, usize::MAX as int);
            let c = scan::signed_of(f[2]);
            &&& f.len() < 3 || l is None || r is None || c is None ==> after is None
            &&& f.len() >= 3 && l is Some && r is Some && c is Some ==> after == Some(
                rows_of(all)->0.push(
                    MatrixRow { left: l->0 as usize, right: r->0 as usize, cost: c->0 as i64 },
                ),
            )
        }),
{
    assert(all.push(line).drop_last() =~= all);
}

/// A row counts for the kinds of its two numbers and for no others; numbers without a
/// kind are of no known one.
pub proof fn law_rows_add_up(
    rows: Seq<MatrixRow>,
    r: MatrixRow,
    left: Seq<PartOfSpeech>,
    right: Seq<PartOfSpeech>,
    l: PartOfSpeech,
    p: PartOfSpeech,
)
    ensures
        ({
            let from = if r.left < left.len() {
                left[r.left as int]
            } else {
                PartOfSpeech::Other
            };
            let to = if r.right < right.len() {
                right[r.right as int]
            } else {
                PartOfSpeech::Other
            };
            let more = rows.push(r);
            &&& from == l && to == p ==> cost_sum(more, left, right, l, p) == cost_sum(
                rows,
                left,
                right,
                l,
                p,
            ) + r.cost && cost_count(more, left, right, l, p) == cost_count(
                rows,
                left,
                right,
                l,
                p,
            ) + 1
            &&& from != l || to != p ==> cost_sum(more, left, right, l, p) == cost_sum(
                rows,
                left,
                right,
                l,
                p,
            ) && cost_count(more, left, right, l, p) == cost_count(rows, left, right, l, p)
        }),
        cost_sum(Seq::<MatrixRow>::empty(), left, right, l, p) == 0,
        cost_count(Seq::<MatrixRow>::empty(), left, right, l, p) == 0,
{
    assert(rows.push(r).drop_last() =~= rows);
}

/// Costs set by hand take the place of the means, and only they.
pub proof fn law_hand_set_costs_win(costs: Seq<i64>, l: PartOfSpeech, p: PartOfSpeech)
    requires
        costs.len() == 121,
    ensures
        overridden(costs).len() == 121,
        pos::override_of(l, p) matches Some(c) ==> overridden(costs)[11 * pos::pos_index(l)
            + pos::pos_index(p)] == c,
        pos::override_of(l, p) is None ==> overridden(costs)[11 * pos::pos_index(l)
            + pos::pos_index(p)] == costs[11 * pos::pos_index(l) + pos::pos_index(p)],
{
    pos::law_index_round_trip(l, 0);
    pos::law_index_round_trip(p, 0);
    let a = pos::pos_index(l);
    let b = pos::pos_index(p);
    let k = 11 * a + b;
    assert(k / 11 == a && k % 11 == b && 0 <= k < 121) by (nonlinear_arith)
        requires
            k == 11 * a + b,
            0 <= a < 11,
            0 <= b < 11,
    ;
}

/// Thousandths are written with a point and three digits behind it.
pub proof fn law_thousandths_are_decimal(n: nat)
    ensures
        thousandths(n) == scan::decimal(n / 1000) + seq!['.'] + seq![
            (48 + n / 100 % 10) as char,
            (48 + n / 10 % 10) as char,
            (48 + n % 10) as char,
        ],
{
    reveal_strlit(".");
    assert(n / 100 % 10 % 10 == n / 100 % 10 && n / 10 % 10 % 10 == n / 10 % 10 && n % 10 % 10 == n
        % 10);
    assert(thousandths(n) =~= scan::decimal(n / 1000) + seq!['.'] + seq![
        (48 + n / 100 % 10) as char,
        (48 + n / 10 % 10) as char,
        (48 + n % 10) as char,
    ]);
}

/// The first line of the file of costs only tells how large it is.
pub proof fn law_first_line_is_left_out(a: Seq<char>, b: Seq<char>)
    requires
        forall|i: int| 0 <= i < a.len() ==> #[trigger] a[i] != '\u{a}',
    ensures
        body_lines(a + seq!['\u{a}'] + b) == scan::lines_of(b),
{
    scan::law_line_feeds_end_lines(a, b);
    let all = scan::lines_of(a + seq!['\u{a}'] + b);
    assert(all.skip(1) =~= scan::lines_of(b));
}

/// The table holds for each two kinds the sum and the number of their costs.
pub proof fn law_cells_hold_sums(
    cells: Seq<MatrixCell>,
    rows: Seq<MatrixRow>,
    left: Seq<PartOfSpeech>,
    right: Seq<PartOfSpeech>,
    l: PartOfSpeech,
    p: PartOfSpeech,
)
    requires
        gathers(cells, rows, left, right),
    ensures
        cells.len() == 121,
        cells[11 * pos::pos_index(l) + pos::pos_index(p)].sum == cost_sum(rows, left, right, l, p),
        cells[11 * pos::pos_index(l) + pos::pos_index(p)].count == cost_count(
            rows,
            left,
            right,
            l,
            p,
        ),
{
    let a = pos::pos_index(l);
    assert(a * 11 == 11 * a) by (nonlinear_arith);
    assert(cells[cell_index(l, p)].sum == cost_sum(rows, left, right, l, p));
}

/// Different kinds have different short names.
pub proof fn law_short_names_differ(p: PartOfSpeech, q: PartOfSpeech)
    ensures
        short_name(p) == short_name(q) ==> p == q,
{
    reveal_strlit("N");
    reveal_strlit("V");
    reveal_strlit("Adj");
    reveal_strlit("Adv");
    reveal_strlit("Part");
    reveal_strlit("Aux");
    reveal_strlit("Conj");
    reveal_strlit("Intj");
    reveal_strlit("Pref");
    reveal_strlit("Suf");
    reveal_strlit("Other");
    assert(short_name(p).len() != short_name(q).len() || short_name(p)[0] != short_name(q)[0] || (
    short_name(p).len() > 1 && (short_name(p)[1] != short_name(q)[1] || short_name(p)[2]
        != short_name(q)[2])) || p == q);
}

} // verus!
