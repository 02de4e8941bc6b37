//! Cheapest path through the lattice of words over a reading.
//!
//! A lattice over `n` positions is a weight function: `w(i, j, q)` is the cost
//! of a word from position `i` to position `j` with part of speech `q`, or
//! `None` where there is no such word. A path pays the weights of its words
//! and, between neighbours, the connection cost of their parts of speech.
use vstd::prelude::*;

use crate::pos;
use crate::pos::{connection_cost, PartOfSpeech, POS_COUNT};

verus! {

/// Cost of a word from one position to another, where there is one.
pub type Weights = spec_fn(int, int, PartOfSpeech) -> Option<int>;

/// Billionths in a thousandth: the scale between connection costs and weights.
pub const CONNECTION_SCALE: i128 = 1_000_000;

/// Bound on the cost of a step, per character that it covers.
pub const STEP_LIMIT: i128 = 1_125_899_906_842_624;

/// The best known way to end at a position with a given part of speech.
#[verifier::ext_equal]
pub struct Arrival {
    /// Cost of the way.
    pub cost: int,
    /// Where its last word starts.
    pub from: int,
    /// Part of speech of the word before that.
    pub prev: PartOfSpeech,
}

/// Cost of going on with `q` at position `i` after a word of kind `p`. At the
/// start there is no word before.
pub open spec fn link(i: int, p: PartOfSpeech, q: PartOfSpeech) -> int {
    pos::connection(
        if i == 0 {
            None
        } else {
            Some(p)
        },
        q,
    ) * CONNECTION_SCALE
}

/// The cheaper of two arrivals; the first one when they cost the same.
pub open spec fn cheaper(a: Option<Arrival>, b: Option<Arrival>) -> Option<Arrival> {
    match (a, b) {
        (Some(x), Some(y)) => if y.cost < x.cost {
            b
        } else {
            a
        },
        (None, Some(_)) => b,
        _ => a,
    }
}

/// The cheapest arrival at position `j` with part of speech `q`. Among equally
/// cheap ones the last word starts as early as possible, and then the word
/// before it has the earliest part of speech in table order.
pub open spec fn reach(w: Weights, j: int, q: PartOfSpeech) -> Option<Arrival>
    decreases j, 1int, 0int,
{
    if j <= 0 {
        if j == 0 && q == PartOfSpeech::Other {
            Some(Arrival { cost: 0, from: 0, prev: PartOfSpeech::Other })
        } else {
            None
        }
    } else {
        scan(w, j, q, j * 11)
    }
}

/// The cheapest arrival at `j` with `q` whose last step is among the first `k`
/// (a position and the part of speech in front of it, in order).
pub open spec fn scan(w: Weights, j: int, q: PartOfSpeech, k: int) -> Option<Arrival>
    decreases j, 0int, k,
{
    if k <= 0 || k > j * 11 {
        None
    } else {
        let i = (k - 1) / 11;
        let p = pos::pos_at((k - 1) % 11);
        let before = scan(w, j, q, k - 1);
        match (reach(w, i, p), w(i, j, q)) {
            (Some(a), Some(c)) => cheaper(
                before,
                Some(Arrival { cost: a.cost + link(i, p, q) + c, from: i, prev: p }),
            ),
            _ => before,
        }
    }
}

/// The arrival offered at `j` with `q` by a step from `i` after a word of kind
/// `p`.
pub open spec fn offer(
    w: Weights,
    i: int,
    p: PartOfSpeech,
    j: int,
    q: PartOfSpeech,
) -> Option<Arrival> {
    match (reach(w, i, p), w(i, j, q)) {
        (Some(a), Some(c)) => Some(Arrival { cost: a.cost + link(i, p, q) + c, from: i, prev: p }),
        _ => None,
    }
}

/// The part of speech, among the first `k`, with which position `n` is reached
/// most cheaply; the earliest one among equals.
pub open spec fn best_end(w: Weights, n: int, k: int) -> Option<PartOfSpeech>
    decreases k,
{
    if k <= 0 {
        None
    } else {
        let q = pos::pos_at(k - 1);
        match (best_end(w, n, k - 1), reach(w, n, q)) {
            (Some(b), Some(a)) => match reach(w, n, b) {
                Some(x) => if a.cost < x.cost {
                    Some(q)
                } else {
                    Some(b)
                },
                None => Some(q),
            },
            (None, Some(_)) => Some(q),
            (b, None) => b,
        }
    }
}

/// The words on the cheapest way to `j` with `q`, as pairs of start and end.
pub open spec fn way_to(w: Weights, j: int, q: PartOfSpeech) -> Seq<(int, int)>
    decreases j,
{
    if j <= 0 {
        Seq::empty()
    } else {
        match reach(w, j, q) {
            Some(a) => if 0 <= a.from < j {
                way_to(w, a.from, a.prev).push((a.from, j))
            } else {
                Seq::empty()
            },
            None => way_to(w, j - 1, q).push((j - 1, j)),
        }
    }
}

/// The words on the cheapest path over `n` positions.
pub open spec fn best_path(w: Weights, n: int) -> Seq<(int, int)> {
    match best_end(w, n, 11) {
        Some(q) => way_to(w, n, q),
        None => way_to(w, n, PartOfSpeech::Noun),
    }
}

/// A step of a lattice: where it ends, as what, at which cost.
#[derive(Clone, Copy, Debug)]
pub struct Step {
    pub end: usize,
    pub pos: PartOfSpeech,
    pub weight: i128,
}

/// The smallest weight among the steps to `j` with `q`.
pub open spec fn cheapest(steps: Seq<Step>, j: int, q: PartOfSpeech) -> Option<int>
    decreases steps.len(),
{
    if steps.len() == 0 {
        None
    } else {
        let before = cheapest(steps.drop_last(), j, q);
        let s = steps.last();
        if s.end == j && s.pos == q {
            match before {
                Some(c) => if s.weight < c {
                    Some(s.weight as int)
                } else {
                    before
                },
                None => Some(s.weight as int),
            }
        } else {
            before
        }
    }
}

/// The steps from position `i` lead forward, not past `n`, and cost no more
/// than the limit allows.
pub open spec fn steps_fit(steps: Seq<Step>, i: int, n: int) -> bool {
    forall|t: int|
        0 <= t < steps.len() ==> {
            &&& i < (#[trigger] steps[t]).end <= n
            &&& -(steps[t].end - i) * STEP_LIMIT <= steps[t].weight <= (steps[t].end - i)
                * STEP_LIMIT
        }
}

/// The lists of steps are those of the weight function.
pub open spec fn rows_match(rows: Seq<Vec<Step>>, w: Weights, n: int) -> bool {
    &&& rows.len() == n
    &&& forall|i: int| 0 <= i < n ==> steps_fit(#[trigger] rows[i]@, i, n)
    &&& forall|i: int, j: int, q: PartOfSpeech|
        0 <= i < n ==> #[trigger] cheapest(rows[i]@, j, q) == w(i, j, q)
}

/// An arrival as it is kept while the table is filled.
#[derive(Clone, Copy)]
struct Cell {
    cost: i128,
    from: usize,
    prev: PartOfSpeech,
}

impl Cell {
    spec fn model(self) -> Arrival {
        Arrival { cost: self.cost as int, from: self.from as int, prev: self.prev }
    }
}

spec fn cell_model(c: Option<Cell>) -> Option<Arrival> {
    match c {
        Some(x) => Some(x.model()),
        None => None,
    }
}

/// Cost bound at position `j`.
spec fn cost_bound(j: int) -> int {
    j * (STEP_LIMIT + 8_000_000_000)
}

proof fn lemma_cost_bound_monotone(i: int, j: int)
    requires
        0 <= i <= j,
    ensures
        0 <= cost_bound(i) <= cost_bound(j),
        i < j ==> cost_bound(i) + (j - i) * STEP_LIMIT + 8_000_000_000 <= cost_bound(j),
{
    assert(i * (STEP_LIMIT + 8_000_000_000) <= j * (STEP_LIMIT + 8_000_000_000))
        by (nonlinear_arith)
        requires
            0 <= i <= j,
            STEP_LIMIT > 0,
    ;
    assert(0 <= i * (STEP_LIMIT + 8_000_000_000)) by (nonlinear_arith)
        requires
            0 <= i,
            STEP_LIMIT > 0,
    ;
    if i < j {
        assert(i * (STEP_LIMIT + 8_000_000_000) + (j - i) * STEP_LIMIT + 8_000_000_000 <= j * (
        STEP_LIMIT + 8_000_000_000)) by (nonlinear_arith)
            requires
                0 <= i < j,
                STEP_LIMIT > 0,
        ;
    }
}

spec fn within(c: Option<Arrival>, j: int) -> bool {
    match c {
        Some(a) => -cost_bound(j) <= a.cost <= cost_bound(j),
        None => true,
    }
}

/// The table while the steps from position `i` after a word of kind `p` are
/// worked through, `t` of them done.
spec fn cell_state(w: Weights, steps: Seq<Step>, i: int, p: int, t: int, j: int, q: int) -> Option<
    Arrival,
> {
    let before = scan(w, j, pos::pos_at(q), i * 11 + p);
    match (reach(w, i, pos::pos_at(p)), cheapest(steps.take(t), j, pos::pos_at(q))) {
        (Some(a), Some(c)) => cheaper(
            before,
            Some(
                Arrival {
                    cost: a.cost + link(i, pos::pos_at(p), pos::pos_at(q)) + c,
                    from: i,
                    prev: pos::pos_at(p),
                },
            ),
        ),
        _ => before,
    }
}

proof fn lemma_scan_step(w: Weights, i: int, p: int, j: int, q: PartOfSpeech)
    requires
        0 <= i < j,
        0 <= p < 11,
    ensures
        scan(w, j, q, i * 11 + p + 1) == cheaper(
            scan(w, j, q, i * 11 + p),
            offer(w, i, pos::pos_at(p), j, q),
        ),
{
    let k = i * 11 + p + 1;
    assert((k - 1) / 11 == i && (k - 1) % 11 == p) by (nonlinear_arith)
        requires
            k == i * 11 + p + 1,
            0 <= p < 11,
    ;
    assert(0 < k <= j * 11) by (nonlinear_arith)
        requires
            k == i * 11 + p + 1,
            0 <= p < 11,
            0 <= i < j,
    ;
}

proof fn lemma_cell_step(
    w: Weights,
    steps: Seq<Step>,
    i: int,
    p: int,
    t: int,
    j: int,
    q: int,
    a: Arrival,
)
    requires
        0 <= t < steps.len(),
        0 <= q < 11,
        reach(w, i, pos::pos_at(p)) == Some(a),
    ensures
        cell_state(w, steps, i, p, t + 1, j, q) == (if steps[t].end == j && steps[t].pos
            == pos::pos_at(q) {
            cheaper(
                cell_state(w, steps, i, p, t, j, q),
                Some(
                    Arrival {
                        cost: a.cost + link(i, pos::pos_at(p), pos::pos_at(q)) + steps[t].weight,
                        from: i,
                        prev: pos::pos_at(p),
                    },
                ),
            )
        } else {
            cell_state(w, steps, i, p, t, j, q)
        }),
{
    assert(steps.take(t + 1).drop_last() =~= steps.take(t));
    assert(steps.take(t + 1).last() == steps[t]);
}

/// Table row `j - 1` holds the arrivals at position `j`. Positions up to `i`
/// are finished; of the others, the steps from positions before `i`, and from
/// `i` after the first `p` parts of speech, have been worked in.
spec fn table_at(cells: Seq<Vec<Option<Cell>>>, w: Weights, n: int, i: int, p: int) -> bool {
    &&& cells.len() == n
    &&& forall|j: int| 1 <= j <= n ==> (#[trigger] cells[j - 1])@.len() == 11
    &&& forall|j: int, q: int|
        1 <= j <= n && 0 <= q < 11 ==> {
            let want = if j <= i {
                reach(w, j, pos::pos_at(q))
            } else {
                scan(w, j, pos::pos_at(q), i * 11 + p)
            };
            cell_model(#[trigger] cells[j - 1]@[q]) == want && within(want, j)
        }
}

spec fn table_within(
    cells: Seq<Vec<Option<Cell>>>,
    w: Weights,
    steps: Seq<Step>,
    n: int,
    i: int,
    p: int,
    t: int,
) -> bool {
    &&& cells.len() == n
    &&& forall|j: int| 1 <= j <= n ==> (#[trigger] cells[j - 1])@.len() == 11
    &&& forall|j: int, q: int|
        1 <= j <= n && 0 <= q < 11 ==> {
            let want = if j <= i {
                reach(w, j, pos::pos_at(q))
            } else {
                cell_state(w, steps, i, p, t, j, q)
            };
            cell_model(#[trigger] cells[j - 1]@[q]) == want && within(want, j)
        }
}

/// The arrival at position `i` as kept in the table.
fn arrival(cells: &Vec<Vec<Option<Cell>>>, i: usize, p: usize, Ghost(w): Ghost<Weights>, Ghost(
    at,
): Ghost<(int, int)>) -> (a: Option<Cell>)
    requires
        table_at(cells@, w, cells@.len() as int, at.0, at.1),
        i <= at.0,
        i <= cells@.len(),
        p < 11,
    ensures
        cell_model(a) == reach(w, i as int, pos::pos_at(p as int)),
        within(cell_model(a), i as int),
{
    if i == 0 {
        if p == PartOfSpeech::Other.idx() {
            Some(Cell { cost: 0, from: 0, prev: PartOfSpeech::Other })
        } else {
            None
        }
    } else {
        assert(cells@[i - 1]@.len() == 11);
        assert(cell_model(cells@[i - 1]@[p as int]) == reach(w, i as int, pos::pos_at(p as int)));
        cells[i - 1][p]
    }
}

fn start_table(n: usize, Ghost(w): Ghost<Weights>) -> (cells: Vec<Vec<Option<Cell>>>)
    ensures
        table_at(cells@, w, n as int, 0, 0),
{
    let mut cells: Vec<Vec<Option<Cell>>> = Vec::new();
    let mut made: usize = 0;
    while made < n
        invariant
            made <= n,
            cells@.len() == made,
            forall|j: int| 1 <= j <= made ==> (#[trigger] cells@[j - 1])@.len() == 11,
            forall|j: int, q: int|
                1 <= j <= made && 0 <= q < 11 ==> (#[trigger] cells@[j - 1]@[q]) is None,
        decreases n - made,
    {
        let mut line: Vec<Option<Cell>> = Vec::new();
        let mut q: usize = 0;
        while q < POS_COUNT
            invariant
                q <= POS_COUNT,
                line@.len() == q,
                forall|m: int| 0 <= m < q ==> (#[trigger] line@[m]) is None,
            decreases POS_COUNT - q,
        {
            line.push(None);
            q = q + 1;
        }
        let ghost before = cells@;
        cells.push(line);
        made = made + 1;
        proof {
            assert forall|j: int| 1 <= j <= made implies (#[trigger] cells@[j - 1])@.len() == 11 by {
                if j < made {
                    assert(cells@[j - 1] == before[j - 1]);
                }
            }
            assert forall|j: int, q: int| 1 <= j <= made && 0 <= q < 11 implies (
            #[trigger] cells@[j - 1]@[q]) is None by {
                if j < made {
                    assert(cells@[j - 1] == before[j - 1]);
                    assert(before[j - 1]@[q] is None);
                } else {
                    assert(cells@[j - 1] == line);
                }
            }
        }
    }
    cells
}

proof fn lemma_table_begin(
    cells: Seq<Vec<Option<Cell>>>,
    w: Weights,
    steps: Seq<Step>,
    n: int,
    i: int,
    p: int,
)
    requires
        table_at(cells, w, n, i, p),
    ensures
        table_within(cells, w, steps, n, i, p, 0),
{
    assert(steps.take(0) =~= Seq::empty());
    assert forall|j: int, q: int| 1 <= j <= n && 0 <= q < 11 implies {
        let want = if j <= i {
            reach(w, j, pos::pos_at(q))
        } else {
            cell_state(w, steps, i, p, 0, j, q)
        };
        cell_model(#[trigger] cells[j - 1]@[q]) == want && within(want, j)
    } by {}
}

proof fn lemma_table_skip(cells: Seq<Vec<Option<Cell>>>, w: Weights, n: int, i: int, p: int)
    requires
        table_at(cells, w, n, i, p),
        0 <= i,
        0 <= p < 11,
        reach(w, i, pos::pos_at(p)) is None,
    ensures
        table_at(cells, w, n, i, p + 1),
{
    assert forall|j: int, q: int| 1 <= j <= n && 0 <= q < 11 implies {
        let want = if j <= i {
            reach(w, j, pos::pos_at(q))
        } else {
            scan(w, j, pos::pos_at(q), i * 11 + (p + 1))
        };
        cell_model(#[trigger] cells[j - 1]@[q]) == want && within(want, j)
    } by {
        if j > i {
            lemma_scan_step(w, i, p, j, pos::pos_at(q));
        }
    }
}

proof fn lemma_table_done(
    cells: Seq<Vec<Option<Cell>>>,
    w: Weights,
    steps: Seq<Step>,
    n: int,
    i: int,
    p: int,
)
    requires
        table_within(cells, w, steps, n, i, p, steps.len() as int),
        0 <= i,
        0 <= p < 11,
        forall|j: int, q: PartOfSpeech| #[trigger] cheapest(steps, j, q) == w(i, j, q),
    ensures
        table_at(cells, w, n, i, p + 1),
{
    assert(steps.take(steps.len() as int) =~= steps);
    assert forall|j: int, q: int| 1 <= j <= n && 0 <= q < 11 implies {
        let want = if j <= i {
            reach(w, j, pos::pos_at(q))
        } else {
            scan(w, j, pos::pos_at(q), i * 11 + (p + 1))
        };
        cell_model(#[trigger] cells[j - 1]@[q]) == want && within(want, j)
    } by {
        if j > i {
            lemma_scan_step(w, i, p, j, pos::pos_at(q));
            assert(cheapest(steps, j, pos::pos_at(q)) == w(i, j, pos::pos_at(q)));
        }
    }
}

/// Cost of a way that goes on from `a` by `s`.
fn total_cost(a: Cell, s: Step, i: usize, p: usize) -> (total: i128)
    requires
        i < s.end,
        p < 11,
        -(s.end - i) * STEP_LIMIT <= s.weight <= (s.end - i) * STEP_LIMIT,
        within(Some(a.model()), i as int),
    ensures
        total == a.cost + link(i as int, pos::pos_at(p as int), s.pos) + s.weight,
        -cost_bound(s.end as int) <= total <= cost_bound(s.end as int),
{
    let before: Option<PartOfSpeech> = if i == 0 {
        None
    } else {
        Some(PartOfSpeech::from_idx(p))
    };
    let conn: i64 = connection_cost(before, s.pos);
    proof {
        lemma_cost_bound_monotone(i as int, s.end as int);
        lemma_cost_bound_monotone(s.end as int, 0x1_0000_0000_0000_0000);
        assert(cost_bound(0x1_0000_0000_0000_0000) == 0x1_0000_0000_0000_0000 * (STEP_LIMIT
            + 8_000_000_000));
        assert(0 <= conn * CONNECTION_SCALE <= 8_000_000_000) by (nonlinear_arith)
            requires
                0 <= conn <= 8000,
                CONNECTION_SCALE == 1_000_000,
        ;
        assert(-((s.end - i) * STEP_LIMIT) == -(s.end - i) * STEP_LIMIT) by (nonlinear_arith);
    }
    a.cost + (conn as i128) * CONNECTION_SCALE + s.weight
}

/// Works step `t` from position `i` after a word of kind `p` into the table.
fn relax(
    cells: &mut Vec<Vec<Option<Cell>>>,
    steps: &Vec<Step>,
    t: usize,
    a: Cell,
    i: usize,
    p: usize,
    Ghost(w): Ghost<Weights>,
)
    requires
        t < steps@.len(),
        i < old(cells)@.len(),
        p < 11,
        reach(w, i as int, pos::pos_at(p as int)) == Some(a.model()),
        within(Some(a.model()), i as int),
        steps_fit(steps@, i as int, old(cells)@.len() as int),
        table_within(
            old(cells)@,
            w,
            steps@,
            old(cells)@.len() as int,
            i as int,
            p as int,
            t as int,
        ),
    ensures
        final(cells)@.len() == old(cells)@.len(),
        table_within(
            final(cells)@,
            w,
            steps@,
            old(cells)@.len() as int,
            i as int,
            p as int,
            t + 1,
        ),
{
    let ghost n = cells@.len() as int;
    let ghost old_cells = cells@;
    let s: Step = steps[t];
    let q: usize = s.pos.idx();
    proof {
        assert(i < steps@[t as int].end <= n);
        pos::law_index_round_trip(s.pos, q as int);
        assert(old_cells[s.end - 1]@.len() == 11);
    }
    let total: i128 = total_cost(a, s, i, p);
    let prev: PartOfSpeech = PartOfSpeech::from_idx(p);
    let here: Option<Cell> = cells[s.end - 1][q];
    let take: bool = match here {
        Some(c) => total < c.cost,
        None => true,
    };
    if take {
        let line = &mut cells[s.end - 1];
        line[q] = Some(Cell { cost: total, from: i, prev });
    }
    proof {
        let now = cells@;
        assert forall|j: int| 1 <= j <= n implies (#[trigger] now[j - 1])@.len() == 11 by {
            assert(old_cells[j - 1]@.len() == 11);
        }
        assert forall|j: int, m: int|
            1 <= j <= n && 0 <= m < 11 && !(j == s.end && m == q) implies #[trigger] now[j - 1]@[m]
            == old_cells[j - 1]@[m] by {
            if j != s.end {
                assert(now[j - 1] == old_cells[j - 1]);
            }
        }
        assert forall|j: int, m: int| 1 <= j <= n && 0 <= m < 11 implies {
            let want = if j <= i {
                reach(w, j, pos::pos_at(m))
            } else {
                cell_state(w, steps@, i as int, p as int, t + 1, j, m)
            };
            cell_model(#[trigger] now[j - 1]@[m]) == want && within(want, j)
        } by {
            assert(cell_model(old_cells[j - 1]@[m]) == (if j <= i {
                reach(w, j, pos::pos_at(m))
            } else {
                cell_state(w, steps@, i as int, p as int, t as int, j, m)
            }));
            if j > i {
                pos::law_index_round_trip(s.pos, m);
                lemma_cell_step(w, steps@, i as int, p as int, t as int, j, m, a.model());
            }
        }
    }
}

/// Works the steps from position `i` after a word of kind `p` into the table.
fn work_in(
    cells: &mut Vec<Vec<Option<Cell>>>,
    steps: &Vec<Step>,
    i: usize,
    p: usize,
    Ghost(w): Ghost<Weights>,
)
    requires
        i < old(cells)@.len(),
        p < 11,
        table_at(old(cells)@, w, old(cells)@.len() as int, i as int, p as int),
        steps_fit(steps@, i as int, old(cells)@.len() as int),
        forall|j: int, q: PartOfSpeech| #[trigger] cheapest(steps@, j, q) == w(i as int, j, q),
    ensures
        final(cells)@.len() == old(cells)@.len(),
        table_at(final(cells)@, w, old(cells)@.len() as int, i as int, p + 1),
{
    let ghost n = cells@.len() as int;
    let found: Option<Cell> = arrival(cells, i, p, Ghost(w), Ghost((i as int, p as int)));
    match found {
        Some(a) => {
            let mut t: usize = 0;
            proof {
                lemma_table_begin(cells@, w, steps@, n, i as int, p as int);
            }
            while t < steps.len()
                invariant
                    t <= steps@.len(),
                    n == cells@.len(),
                    i < n,
                    p < 11,
                    reach(w, i as int, pos::pos_at(p as int)) == Some(a.model()),
                    within(Some(a.model()), i as int),
                    steps_fit(steps@, i as int, n),
                    table_within(cells@, w, steps@, n, i as int, p as int, t as int),
                decreases steps@.len() - t,
            {
                relax(cells, steps, t, a, i, p, Ghost(w));
                t = t + 1;
            }
            proof {
                lemma_table_done(cells@, w, steps@, n, i as int, p as int);
            }
        },
        None => {
            proof {
                lemma_table_skip(cells@, w, n, i as int, p as int);
            }
        },
    }
}

proof fn lemma_scan_from(w: Weights, j: int, q: PartOfSpeech, k: int)
    requires
        0 <= k <= j * 11,
    ensures
        scan(w, j, q, k) matches Some(a) ==> {
            &&& 0 <= a.from < j
            &&& Some(a) == offer(w, a.from, a.prev, j, q)
        },
    decreases k,
{
    if k > 0 {
        lemma_scan_from(w, j, q, k - 1);
        let i = (k - 1) / 11;
        assert(0 <= i < j) by (nonlinear_arith)
            requires
                0 < k <= j * 11,
                i == (k - 1) / 11,
        ;
    }
}

/// An arrival past the start comes from an earlier position, by a step of the
/// lattice.
pub proof fn lemma_reach_from(w: Weights, j: int, q: PartOfSpeech)
    requires
        j > 0,
    ensures
        reach(w, j, q) matches Some(a) ==> {
            &&& 0 <= a.from < j
            &&& Some(a) == offer(w, a.from, a.prev, j, q)
        },
{
    lemma_scan_from(w, j, q, j * 11);
}

spec fn pair_view(b: Seq<(usize, usize)>) -> Seq<(int, int)> {
    b.map_values(|b: (usize, usize)| (b.0 as int, b.1 as int))
}

/// Fills the table of arrivals.
fn fill_table(rows: &Vec<Vec<Step>>, Ghost(w): Ghost<Weights>) -> (cells: Vec<Vec<Option<Cell>>>)
    requires
        rows_match(rows@, w, rows@.len() as int),
    ensures
        table_at(cells@, w, rows@.len() as int, rows@.len() as int, 0),
{
    let n: usize = rows.len();
    let mut cells: Vec<Vec<Option<Cell>>> = start_table(n, Ghost(w));
    let mut i: usize = 0;
    while i < n
        invariant
            i <= n,
            n == rows@.len(),
            rows_match(rows@, w, n as int),
            cells@.len() == n,
            table_at(cells@, w, n as int, i as int, 0),
        decreases n - i,
    {
        let mut p: usize = 0;
        while p < POS_COUNT
            invariant
                p <= POS_COUNT,
                i < n,
                n == rows@.len(),
                rows_match(rows@, w, n as int),
                cells@.len() == n,
                table_at(cells@, w, n as int, i as int, p as int),
            decreases POS_COUNT - p,
        {
            assert(steps_fit(rows@[i as int]@, i as int, n as int));
            work_in(&mut cells, &rows[i], i, p, Ghost(w));
            p = p + 1;
        }
        proof {
            assert forall|j: int, q: int| 1 <= j <= n && 0 <= q < 11 implies {
                let want = if j <= i + 1 {
                    reach(w, j, pos::pos_at(q))
                } else {
                    scan(w, j, pos::pos_at(q), (i + 1) * 11 + 0)
                };
                cell_model(#[trigger] cells@[j - 1]@[q]) == want && within(want, j)
            } by {
                assert((i + 1) * 11 == i * 11 + 11);
            }
        }
        i = i + 1;
    }
    cells
}

/// The cheapest path over the lattice given by `rows`, as pairs of start and
/// end.
pub(crate) fn shortest_path(rows: &Vec<Vec<Step>>, Ghost(w): Ghost<Weights>) -> (path: Vec<(usize, usize)>)
    requires
        rows_match(rows@, w, rows@.len() as int),
    ensures
        path@.map_values(|b: (usize, usize)| (b.0 as int, b.1 as int)) == best_path(
            w,
            rows@.len() as int,
        ),
{
    let n: usize = rows.len();
    let cells: Vec<Vec<Option<Cell>>> = fill_table(rows, Ghost(w));
    let mut end: Option<usize> = None;
    let mut least: i128 = 0;
    let mut q: usize = 0;
    while q < POS_COUNT
        invariant
            q <= POS_COUNT,
            n == cells@.len(),
            table_at(cells@, w, n as int, n as int, 0),
            match (end, best_end(w, n as int, q as int)) {
                (Some(e), Some(b)) => {
                    &&& e < 11
                    &&& b == pos::pos_at(e as int)
                    &&& reach(w, n as int, b) matches Some(x) && x.cost == least
                },
                (None, None) => true,
                _ => false,
            },
        decreases POS_COUNT - q,
    {
        match arrival(&cells, n, q, Ghost(w), Ghost((n as int, 0))) {
            Some(c) => {
                let take: bool = match end {
                    Some(_) => c.cost < least,
                    None => true,
                };
                if take {
                    end = Some(q);
                    least = c.cost;
                }
            },
            None => {},
        }
        q = q + 1;
    }
    let mut cur_p: usize = match end {
        Some(e) => e,
        None => 0,
    };
    let ghost whole = best_path(w, n as int);
    let mut back: Vec<(usize, usize)> = Vec::new();
    let mut cur: usize = n;
    proof {
        assert(pair_view(back@).reverse() =~= Seq::empty());
        assert(whole =~= way_to(w, n as int, pos::pos_at(cur_p as int)) + pair_view(
            back@,
        ).reverse());
    }
    while cur > 0
        invariant
            cur <= n,
            cur_p < 11,
            n == cells@.len(),
            table_at(cells@, w, n as int, n as int, 0),
            whole == way_to(w, cur as int, pos::pos_at(cur_p as int)) + pair_view(back@).reverse(),
        decreases cur,
    {
        let ghost back_before = back@;
        let ghost way = way_to(w, cur as int, pos::pos_at(cur_p as int));
        proof {
            lemma_reach_from(w, cur as int, pos::pos_at(cur_p as int));
        }
        match arrival(&cells, cur, cur_p, Ghost(w), Ghost((n as int, 0))) {
            Some(c) => {
                back.push((c.from, cur));
                cur = c.from;
                proof {
                    pos::law_index_round_trip(c.prev, 0);
                }
                cur_p = c.prev.idx();
            },
            None => {
                back.push((cur - 1, cur));
                cur = cur - 1;
            },
        }
        proof {
            let pair = pair_view(back@).last();
            assert(pair_view(back@) =~= pair_view(back_before).push(pair));
            assert(pair_view(back@).reverse() =~= seq![pair] + pair_view(back_before).reverse());
            assert(way =~= way_to(w, cur as int, pos::pos_at(cur_p as int)).push(pair));
        }
    }
    let mut path: Vec<(usize, usize)> = Vec::new();
    let mut left: usize = back.len();
    assert(pair_view(path@) =~= pair_view(back@).reverse().take(0));
    while left > 0
        invariant
            left <= back@.len(),
            pair_view(path@) == pair_view(back@).reverse().take(back@.len() - left),
        decreases left,
    {
        left = left - 1;
        let ghost path_before = path@;
        path.push(back[left]);
        proof {
            let all = pair_view(back@);
            let k = back@.len() - left - 1;
            assert(all.reverse()[k] == all[left as int]);
            assert(pair_view(path@) =~= pair_view(path_before).push(all[left as int]));
            assert(all.reverse().take(k + 1) =~= all.reverse().take(k).push(all.reverse()[k]));
        }
        assert(pair_view(path@) =~= pair_view(back@).reverse().take(back@.len() - left));
    }
    proof {
        assert(pair_view(path@) =~= pair_view(back@).reverse());
        assert(way_to(w, 0, pos::pos_at(cur_p as int)) =~= Seq::empty());
        assert(pair_view(path@) =~= whole);
    }
    path
}

/// A way through the lattice: where each word ends and as what.
pub open spec fn way_cost(w: Weights, hops: Seq<(int, PartOfSpeech)>) -> Option<int>
    decreases hops.len(),
{
    if hops.len() == 0 {
        Some(0)
    } else {
        let rest = hops.drop_last();
        let i = end_of(rest);
        let p = kind_of(rest);
        match (way_cost(w, rest), w(i, hops.last().0, hops.last().1)) {
            (Some(c), Some(x)) => if i < hops.last().0 {
                Some(c + link(i, p, hops.last().1) + x)
            } else {
                None
            },
            _ => None,
        }
    }
}

/// The position that a way leads to.
pub open spec fn end_of(hops: Seq<(int, PartOfSpeech)>) -> int {
    if hops.len() == 0 {
        0
    } else {
        hops.last().0
    }
}

/// The part of speech of the last word of a way.
pub open spec fn kind_of(hops: Seq<(int, PartOfSpeech)>) -> PartOfSpeech {
    if hops.len() == 0 {
        PartOfSpeech::Other
    } else {
        hops.last().1
    }
}

proof fn lemma_scan_least(w: Weights, j: int, q: PartOfSpeech, k: int, i: int, p: int)
    requires
        0 <= i,
        0 <= p < 11,
        i * 11 + p < k <= j * 11,
        offer(w, i, pos::pos_at(p), j, q) is Some,
    ensures
        scan(w, j, q, k) is Some,
        scan(w, j, q, k)->0.cost <= offer(w, i, pos::pos_at(p), j, q)->0.cost,
    decreases k,
{
    let i2 = (k - 1) / 11;
    let p2 = (k - 1) % 11;
    if i * 11 + p == k - 1 {
        assert(i2 == i && p2 == p) by (nonlinear_arith)
            requires
                i * 11 + p == k - 1,
                0 <= p < 11,
                i2 == (k - 1) / 11,
                p2 == (k - 1) % 11,
        ;
    } else {
        lemma_scan_least(w, j, q, k - 1, i, p);
    }
}

/// No way through the lattice to a position, ending as some part of speech, is
/// cheaper than the arrival found for it.
pub proof fn law_arrival_is_cheapest(w: Weights, hops: Seq<(int, PartOfSpeech)>)
    requires
        way_cost(w, hops) is Some,
    ensures
        end_of(hops) >= 0,
        reach(w, end_of(hops), kind_of(hops)) is Some,
        reach(w, end_of(hops), kind_of(hops))->0.cost <= way_cost(w, hops)->0,
    decreases hops.len(),
{
    if hops.len() > 0 {
        let rest = hops.drop_last();
        law_arrival_is_cheapest(w, rest);
        let i = end_of(rest);
        let p = kind_of(rest);
        let j = hops.last().0;
        let q = hops.last().1;
        let pi = pos::pos_index(p);
        pos::law_index_round_trip(p, 0);
        assert(i * 11 + pi < j * 11) by (nonlinear_arith)
            requires
                i < j,
                0 <= pi < 11,
        ;
        lemma_scan_least(w, j, q, j * 11, i, pi);
    }
}

/// An arrival is the cost of an actual way.
pub proof fn law_arrival_is_attained(w: Weights, j: int, q: PartOfSpeech) -> (hops: Seq<
    (int, PartOfSpeech),
>)
    requires
        reach(w, j, q) is Some,
    ensures
        end_of(hops) == j,
        kind_of(hops) == q,
        way_cost(w, hops) == Some(reach(w, j, q)->0.cost),
    decreases j,
{
    if j <= 0 {
        Seq::empty()
    } else {
        let a = reach(w, j, q)->0;
        lemma_reach_from(w, j, q);
        let rest = law_arrival_is_attained(w, a.from, a.prev);
        let hops = rest.push((j, q));
        assert(hops.drop_last() =~= rest);
        hops
    }
}

proof fn lemma_best_end(w: Weights, n: int, k: int)
    requires
        0 <= k <= 11,
    ensures
        match best_end(w, n, k) {
            Some(b) => {
                &&& reach(w, n, b) is Some
                &&& forall|m: int|
                    0 <= m < k && (#[trigger] reach(w, n, pos::pos_at(m))) is Some ==> reach(
                        w,
                        n,
                        b,
                    )->0.cost <= reach(w, n, pos::pos_at(m))->0.cost
            },
            None => forall|m: int|
                0 <= m < k ==> (#[trigger] reach(w, n, pos::pos_at(m))) is None,
        },
    decreases k,
{
    if k > 0 {
        lemma_best_end(w, n, k - 1);
    }
}

/// The chosen path is cheapest: no way over the whole lattice costs less than
/// the arrival at its end.
pub proof fn law_path_is_cheapest(w: Weights, n: int, hops: Seq<(int, PartOfSpeech)>)
    requires
        way_cost(w, hops) is Some,
        end_of(hops) == n,
    ensures
        best_end(w, n, 11) is Some,
        reach(w, n, best_end(w, n, 11)->0) is Some,
        reach(w, n, best_end(w, n, 11)->0)->0.cost <= way_cost(w, hops)->0,
{
    law_arrival_is_cheapest(w, hops);
    lemma_best_end(w, n, 11);
    let q = kind_of(hops);
    pos::law_index_round_trip(q, 0);
    assert(reach(w, n, pos::pos_at(pos::pos_index(q))) is Some);
}

/// The words of a path follow one another from the start to `n` without gap.
pub open spec fn is_chain(path: Seq<(int, int)>, n: int) -> bool {
    &&& forall|k: int|
        0 <= k < path.len() ==> 0 <= (#[trigger] path[k]).0 < path[k].1 <= n
    &&& forall|k: int, m: int|
        0 <= k < path.len() && m == k + 1 && m < path.len() ==> (#[trigger] path[k]).1 == (
        #[trigger] path[m]).0
    &&& path.len() == 0 ==> n == 0
    &&& path.len() > 0 ==> path[0].0 == 0 && path.last().1 == n
}

proof fn lemma_chain_push(path: Seq<(int, int)>, m: int, n: int)
    requires
        is_chain(path, m),
        0 <= m < n,
    ensures
        is_chain(path.push((m, n)), n),
{
    let longer = path.push((m, n));
    assert forall|k: int| 0 <= k < longer.len() implies 0 <= (#[trigger] longer[k]).0 < longer[k].1
        <= n by {
        if k < path.len() {
            assert(longer[k] == path[k]);
        }
    }
    assert forall|k: int, l: int|
        0 <= k < longer.len() && l == k + 1 && l < longer.len() implies (#[trigger] longer[k]).1
        == (#[trigger] longer[l]).0 by {
        assert(longer[k] == path[k]);
        if l < path.len() {
            assert(longer[l] == path[l]);
        } else {
            assert(path.last() == path[k]);
        }
    }
}

proof fn lemma_way_is_chain(w: Weights, j: int, q: PartOfSpeech)
    requires
        j >= 0,
    ensures
        is_chain(way_to(w, j, q), j),
    decreases j,
{
    if j > 0 {
        lemma_reach_from(w, j, q);
        match reach(w, j, q) {
            Some(a) => {
                lemma_way_is_chain(w, a.from, a.prev);
                lemma_chain_push(way_to(w, a.from, a.prev), a.from, j);
            },
            None => {
                lemma_way_is_chain(w, j - 1, q);
                lemma_chain_push(way_to(w, j - 1, q), j - 1, j);
            },
        }
    }
}

/// The best path covers all `n` positions without gap or overlap, whatever the
/// weights.
pub proof fn law_path_is_chain(w: Weights, n: int)
    requires
        n >= 0,
    ensures
        is_chain(best_path(w, n), n),
{
    match best_end(w, n, 11) {
        Some(q) => lemma_way_is_chain(w, n, q),
        None => lemma_way_is_chain(w, n, PartOfSpeech::Noun),
    }
}

/// Putting a word behind another costs a million times what their parts of speech cost;
/// the first word costs nothing.
pub proof fn law_link_cost(i: int, p: PartOfSpeech, q: PartOfSpeech)
    ensures
        link(0, p, q) == 0,
        i != 0 ==> link(i, p, q) == 1_000_000 * pos::connection(Some(p), q),
{
    let c = pos::connection(Some(p), q);
    assert(c * 1_000_000 == 1_000_000 * c) by (nonlinear_arith);
    assert(0 * 1_000_000 == 0);
}

/// What a way costs: each word its own cost and that of the link to the word before.
pub proof fn law_way_cost_adds_up(
    w: Weights,
    hops: Seq<(int, PartOfSpeech)>,
    j: int,
    q: PartOfSpeech,
)
    requires
        way_cost(w, hops) is Some,
        hops.len() > 0 ==> hops.last().0 < j,
        hops.len() == 0 ==> 0 < j,
    ensures
        ({
            let i = if hops.len() > 0 {
                hops.last().0
            } else {
                0
            };
            let p = if hops.len() > 0 {
                hops.last().1
            } else {
                PartOfSpeech::Other
            };
            &&& w(i, j, q) is None ==> way_cost(w, hops.push((j, q))) is None
            &&& w(i, j, q) matches Some(c) ==> way_cost(w, hops.push((j, q))) == Some(
                way_cost(w, hops)->0 + link(i, p, q) + c,
            )
        }),
        way_cost(w, Seq::<(int, PartOfSpeech)>::empty()) == Some(0int),
{
    assert(hops.push((j, q)).drop_last() =~= hops);
}

proof fn lemma_way_attains(w: Weights, j: int, q: PartOfSpeech) -> (hops: Seq<(int, PartOfSpeech)>)
    requires
        reach(w, j, q) is Some,
    ensures
        end_of(hops) == j,
        kind_of(hops) == q,
        way_cost(w, hops) == Some(reach(w, j, q)->0.cost),
        hops.len() == way_to(w, j, q).len(),
        forall|k: int|
            0 <= k < hops.len() ==> (#[trigger] hops[k]).0 == way_to(w, j, q)[k].1,
    decreases j,
{
    if j <= 0 {
        Seq::empty()
    } else {
        let a = reach(w, j, q)->0;
        lemma_reach_from(w, j, q);
        let rest = lemma_way_attains(w, a.from, a.prev);
        let hops = rest.push((j, q));
        assert(hops.drop_last() =~= rest);
        assert(way_to(w, j, q) == way_to(w, a.from, a.prev).push((a.from, j)));
        hops
    }
}

/// The words of the chosen path, each as some part of speech, cost no more than any
/// other way over the whole lattice.
pub proof fn law_best_path_is_cheapest(
    w: Weights,
    n: int,
    other: Seq<(int, PartOfSpeech)>,
) -> (hops: Seq<(int, PartOfSpeech)>)
    requires
        way_cost(w, other) is Some,
        end_of(other) == n,
    ensures
        hops.len() == best_path(w, n).len(),
        forall|k: int| 0 <= k < hops.len() ==> (#[trigger] hops[k]).0 == best_path(w, n)[k].1,
        way_cost(w, hops) is Some,
        way_cost(w, hops)->0 <= way_cost(w, other)->0,
{
    law_path_is_cheapest(w, n, other);
    lemma_way_attains(w, n, best_end(w, n, 11)->0)
}

proof fn lemma_first_offer(w: Weights, j: int, q: PartOfSpeech, k: int, i: int, p: int)
    requires
        0 <= i,
        0 <= p < 11,
        i * 11 + p < k <= j * 11,
        offer(w, i, pos::pos_at(p), j, q) is Some,
        scan(w, j, q, k) is Some,
        offer(w, i, pos::pos_at(p), j, q)->0.cost == scan(w, j, q, k)->0.cost,
    ensures
        scan(w, j, q, k)->0.from <= i,
    decreases k,
{
    let i2 = (k - 1) / 11;
    let p2 = (k - 1) % 11;
    lemma_scan_least(w, j, q, k, i, p);
    if i * 11 + p == k - 1 {
        assert(i2 == i && p2 == p) by (nonlinear_arith)
            requires
                i * 11 + p == k - 1,
                0 <= p < 11,
                i2 == (k - 1) / 11,
                p2 == (k - 1) % 11,
        ;
        lemma_scan_starts(w, j, q, k - 1);
        if scan(w, j, q, k - 1) is Some {
            let f = scan(w, j, q, k - 1)->0.from;
            assert(f <= i) by (nonlinear_arith)
                requires
                    f * 11 <= k - 2,
                    i * 11 + p == k - 1,
                    0 <= p < 11,
            ;
        }
    } else {
        lemma_scan_least(w, j, q, k - 1, i, p);
        lemma_first_offer_step(w, j, q, k);
        lemma_first_offer(w, j, q, k - 1, i, p);
    }
}

proof fn lemma_scan_starts(w: Weights, j: int, q: PartOfSpeech, k: int)
    requires
        k <= j * 11,
    ensures
        scan(w, j, q, k) matches Some(a) ==> 0 <= a.from && a.from * 11 <= k - 1,
    decreases k,
{
    if k > 0 {
        lemma_scan_starts(w, j, q, k - 1);
        let i = (k - 1) / 11;
        assert(i * 11 <= k - 1 && 0 <= i) by (nonlinear_arith)
            requires
                i == (k - 1) / 11,
                k > 0,
        ;
    }
}

proof fn lemma_first_offer_step(w: Weights, j: int, q: PartOfSpeech, k: int)
    requires
        0 < k <= j * 11,
        scan(w, j, q, k - 1) is Some,
        scan(w, j, q, k) is Some,
    ensures
        scan(w, j, q, k)->0.cost <= scan(w, j, q, k - 1)->0.cost,
        scan(w, j, q, k)->0.cost == scan(w, j, q, k - 1)->0.cost ==> scan(w, j, q, k) == scan(
            w,
            j,
            q,
            k - 1,
        ),
{
}

/// Of equally cheap ways the one whose last word starts earliest is taken.
pub proof fn law_longer_last_word_wins_ties(
    w: Weights,
    j: int,
    q: PartOfSpeech,
    i: int,
    p: PartOfSpeech,
)
    requires
        0 <= i < j,
        reach(w, j, q) is Some,
        reach(w, i, p) is Some,
        w(i, j, q) is Some,
        reach(w, i, p)->0.cost + link(i, p, q) + w(i, j, q)->0 == reach(w, j, q)->0.cost,
    ensures
        reach(w, j, q)->0.from <= i,
{
    let pi = pos::pos_index(p);
    pos::law_index_round_trip(p, 0);
    assert(i * 11 + pi < j * 11) by (nonlinear_arith)
        requires
            i < j,
            0 <= pi < 11,
    ;
    lemma_first_offer(w, j, q, j * 11, i, pi);
}

proof fn lemma_first_end(w: Weights, n: int, k: int)
    requires
        0 <= k <= 11,
    ensures
        best_end(w, n, k) matches Some(b) ==> pos::pos_index(b) < k && forall|m: int|
            0 <= m < k && (#[trigger] reach(w, n, pos::pos_at(m))) is Some && reach(
                w,
                n,
                pos::pos_at(m),
            )->0.cost == reach(w, n, b)->0.cost ==> pos::pos_index(b) <= m,
    decreases k,
{
    if k > 0 {
        lemma_first_end(w, n, k - 1);
        lemma_best_end(w, n, k - 1);
        pos::law_index_round_trip(PartOfSpeech::Other, k - 1);
        let q = pos::pos_at(k - 1);
        if best_end(w, n, k) == Some(q) && reach(w, n, q) is Some {
            assert forall|m: int|
                0 <= m < k && (#[trigger] reach(w, n, pos::pos_at(m))) is Some && reach(
                    w,
                    n,
                    pos::pos_at(m),
                )->0.cost == reach(w, n, q)->0.cost implies k - 1 <= m by {
                if m < k - 1 {
                    let b = best_end(w, n, k - 1);
                    assert(b is Some);
                    assert(pos::pos_index(b->0) < k - 1);
                    assert(b->0 != q);
                    assert(reach(w, n, b->0)->0.cost <= reach(w, n, pos::pos_at(m))->0.cost);
                }
            }
        }
    }
}

/// Of equally cheap ends the one whose kind comes first in the table is taken.
pub proof fn law_first_kind_wins_ties(w: Weights, n: int, b: PartOfSpeech, q: PartOfSpeech)
    requires
        best_end(w, n, 11) == Some(b),
        reach(w, n, q) is Some,
        reach(w, n, b) is Some,
        reach(w, n, q)->0.cost == reach(w, n, b)->0.cost,
    ensures
        pos::pos_index(b) <= pos::pos_index(q),
{
    lemma_first_end(w, n, 11);
    pos::law_index_round_trip(q, 0);
    assert(reach(w, n, pos::pos_at(pos::pos_index(q))) is Some);
}

} // verus!
