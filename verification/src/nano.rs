//! Fixed-point numbers in billionths and the tables that supply them.
//!
//! Ranking and segmentation weigh logarithms of frequencies and of selection
//! counts. The logarithms themselves come from outside as a table of rows;
//! everything done with them here is exact integer arithmetic.
use vstd::prelude::*;

verus! {

/// One, in billionths.
pub const ONE: i64 = 1_000_000_000;

/// Largest value a table row can hold: over 34 units, more than the natural
/// logarithm of any `u32`.
pub const TABLE_LIMIT: i64 = 34_359_738_368;

/// A row: the value of the tabulated function at `arg`, in billionths.
#[derive(Clone, Copy, Debug)]
pub struct NanoRow {
    pub arg: u32,
    pub nano: i64,
}

/// A step function from counts to billionths, given by rows with increasing
/// arguments.
pub struct NanoTable {
    rows: Vec<NanoRow>,
}

/// The value of the last row whose argument does not exceed `arg`; 0 in front
/// of the first row.
pub open spec fn step_value(rows: Seq<NanoRow>, arg: int) -> int
    decreases rows.len(),
{
    if rows.len() == 0 {
        0
    } else if rows.last().arg <= arg {
        rows.last().nano as int
    } else {
        step_value(rows.drop_last(), arg)
    }
}

impl View for NanoTable {
    type V = Seq<NanoRow>;

    closed spec fn view(&self) -> Seq<NanoRow> {
        self.rows@
    }
}

impl NanoTable {
    /// Arguments increase from row to row, and every value is within limits.
    pub open spec fn wf(self) -> bool {
        &&& forall|i: int, j: int|
            0 <= i < j < self@.len() ==> (#[trigger] self@[i]).arg < (#[trigger] self@[j]).arg
        &&& forall|i: int|
            0 <= i < self@.len() ==> 0 <= (#[trigger] self@[i]).nano <= TABLE_LIMIT
    }

    /// The tabulated value at `arg`.
    pub open spec fn at(self, arg: int) -> int {
        step_value(self@, arg)
    }

    /// A table without rows: 0 everywhere.
    pub fn new() -> (table: NanoTable)
        ensures
            table.wf(),
            table@ == Seq::<NanoRow>::empty(),
    {
        NanoTable { rows: Vec::new() }
    }

    /// Adds a row behind the others. A row that would break the order of the
    /// arguments or the limits is turned down, and the table stays as it was.
    pub fn push(&mut self, arg: u32, nano: i64) -> (added: bool)
        requires
            old(self).wf(),
        ensures
            final(self).wf(),
            added == (0 <= nano <= TABLE_LIMIT && (old(self)@.len() == 0 || old(self)@.last().arg
                < arg)),
            final(self)@ == (if added {
                old(self)@.push(NanoRow { arg, nano })
            } else {
                old(self)@
            }),
    {
        if nano < 0 || nano > TABLE_LIMIT {
            return false;
        }
        let n: usize = self.rows.len();
        if n > 0 && self.rows[n - 1].arg >= arg {
            return false;
        }
        self.rows.push(NanoRow { arg, nano });
        true
    }

    /// The tabulated value at `arg`: that of the last row whose argument does
    /// not exceed it.
    pub fn value(&self, arg: u32) -> (nano: i64)
        requires
            self.wf(),
        ensures
            nano == self.at(arg as int),
            0 <= nano <= TABLE_LIMIT,
    {
        let mut lo: usize = 0;
        let mut hi: usize = self.rows.len();
        while lo < hi
            invariant
                self.wf(),
                lo <= hi <= self@.len(),
                forall|i: int| 0 <= i < lo ==> (#[trigger] self@[i]).arg <= arg,
                forall|i: int| hi <= i < self@.len() ==> (#[trigger] self@[i]).arg > arg,
            decreases hi - lo,
        {
            let mid: usize = lo + (hi - lo) / 2;
            assert(self@[mid as int] == self.rows@[mid as int]);
            if self.rows[mid].arg <= arg {
                lo = mid + 1;
            } else {
                hi = mid;
            }
        }
        proof {
            lemma_step_value(self@, arg as int, lo as int);
        }
        if lo == 0 {
            0
        } else {
            assert(0 <= self@[lo - 1].nano <= TABLE_LIMIT);
            self.rows[lo - 1].nano
        }
    }
}

proof fn lemma_step_value(rows: Seq<NanoRow>, arg: int, k: int)
    requires
        0 <= k <= rows.len(),
        forall|i: int| 0 <= i < k ==> (#[trigger] rows[i]).arg <= arg,
        forall|i: int| k <= i < rows.len() ==> (#[trigger] rows[i]).arg > arg,
    ensures
        step_value(rows, arg) == (if k == 0 {
            0
        } else {
            rows[k - 1].nano as int
        }),
    decreases rows.len(),
{
    if rows.len() > 0 && k < rows.len() {
        assert(rows.last().arg > arg);
        let rest = rows.drop_last();
        assert forall|i: int| 0 <= i < k implies (#[trigger] rest[i]).arg <= arg by {
            assert(rest[i] == rows[i]);
        }
        assert forall|i: int| k <= i < rest.len() implies (#[trigger] rest[i]).arg > arg by {
            assert(rest[i] == rows[i]);
        }
        lemma_step_value(rest, arg, k);
    }
}

/// Tabulated values are within limits everywhere.
pub proof fn lemma_value_within(rows: Seq<NanoRow>, arg: int)
    requires
        forall|i: int| 0 <= i < rows.len() ==> 0 <= (#[trigger] rows[i]).nano <= TABLE_LIMIT,
    ensures
        0 <= step_value(rows, arg) <= TABLE_LIMIT,
    decreases rows.len(),
{
    if rows.len() > 0 {
        let rest = rows.drop_last();
        assert forall|i: int| 0 <= i < rest.len() implies 0 <= (#[trigger] rest[i]).nano
            <= TABLE_LIMIT by {
            assert(rest[i] == rows[i]);
        }
        assert(0 <= rows[rows.len() - 1].nano <= TABLE_LIMIT);
        lemma_value_within(rest, arg);
    }
}

/// A table answers with the value of its last row whose argument is not above the one
/// asked for, and with 0 before its first row.
pub proof fn law_last_row_counts(t: NanoTable, arg: int, i: int)
    ensures
        0 <= i < t@.len() && t@[i].arg <= arg && (forall|j: int|
            i < j < t@.len() ==> (#[trigger] t@[j]).arg > arg) ==> t.at(arg) == t@[i].nano,
        (forall|j: int| 0 <= j < t@.len() ==> (#[trigger] t@[j]).arg > arg) ==> t.at(arg) == 0,
{
    lemma_last_row(t@, arg, i);
}

proof fn lemma_last_row(rows: Seq<NanoRow>, arg: int, i: int)
    ensures
        0 <= i < rows.len() && rows[i].arg <= arg && (forall|j: int|
            i < j < rows.len() ==> (#[trigger] rows[j]).arg > arg) ==> step_value(rows, arg)
            == rows[i].nano,
        (forall|j: int| 0 <= j < rows.len() ==> (#[trigger] rows[j]).arg > arg) ==> step_value(
            rows,
            arg,
        ) == 0,
    decreases rows.len(),
{
    if rows.len() > 0 {
        let rest = rows.drop_last();
        lemma_last_row(rest, arg, i);
        assert(rows.last() == rows[rows.len() - 1]);
        assert(forall|j: int| 0 <= j < rest.len() ==> (#[trigger] rest[j]) == rows[j]);
    }
}

} // verus!
