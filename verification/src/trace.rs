//! The execution trace: a rectangular table of integers, one row per step.

pub mod fibonacci;

use crate::finite_field::{residue, FiniteField, FiniteFieldElement};
use vstd::prelude::*;

verus! {

/// The recorded steps of a computation, rows indexed by time. All rows have
/// the same number of columns.
#[derive(Debug, Clone)]
pub struct Trace {
    pub trace: Vec<Vec<i128>>,
    pub num_columns: usize,
}

/// One column of a table of rows.
pub open spec fn column_of(rows: Seq<Seq<i128>>, col: int) -> Seq<i128> {
    Seq::new(rows.len(), |r: int| rows[r][col])
}

/// The rows with every entry taken as an element of `field`.
pub open spec fn rows_in_field(rows: Seq<Seq<i128>>, field: FiniteField) -> Seq<
    Seq<FiniteFieldElement>,
> {
    Seq::new(
        rows.len(),
        |r: int| Seq::new(rows[r].len(), |c: int| residue(rows[r][c] as int, field)),
    )
}

/// The rows of a table of vectors.
pub open spec fn rows_of<T>(table: Seq<Vec<T>>) -> Seq<Seq<T>> {
    Seq::new(table.len(), |r: int| table[r]@)
}

/// The step function can give `row` for the step `step` after the row `before`.
pub open spec fn computed_from<F: Fn(usize, &[i128]) -> Vec<i128>>(
    compute: F,
    step: usize,
    before: Seq<i128>,
    row: Vec<i128>,
) -> bool {
    exists|prev: &[i128]| prev@ == before && #[trigger] call_ensures(compute, (step, prev), row)
}

/// A row of `n` zeros.
pub open spec fn zero_row(n: nat) -> Seq<i128> {
    Seq::new(n, |i: int| 0i128)
}

impl Trace {
    /// The rows of the trace.
    pub open spec fn rows(&self) -> Seq<Seq<i128>> {
        rows_of(self.trace@)
    }

    /// There is at least one row, at least one column, and every row has
    /// `num_columns` entries.
    pub open spec fn wf(&self) -> bool {
        &&& self.trace@.len() > 0
        &&& self.num_columns > 0
        &&& forall|r: int| 0 <= r < self.trace@.len() ==> (#[trigger] self.trace@[r])@.len()
            == self.num_columns
    }

    /// A trace from its rows, which must be of one non-zero length.
    pub fn new(trace: Vec<Vec<i128>>) -> (result: Self)
        requires
            trace@.len() > 0,
            trace@[0]@.len() > 0,
            forall|r: int| 0 <= r < trace@.len() ==> (#[trigger] trace@[r])@.len()
                == trace@[0]@.len(),
        ensures
            result.trace == trace,
            result.num_columns == trace@[0]@.len(),
            result.wf(),
    {
        let num_columns: usize = trace[0].len();
        Trace { trace, num_columns }
    }

    /// The number of columns.
    pub fn num_columns(&self) -> (result: usize)
        ensures
            result == self.num_columns,
    {
        self.num_columns
    }

    /// The number of rows.
    pub fn num_rows(&self) -> (result: usize)
        ensures
            result == self.trace@.len(),
    {
        self.trace.len()
    }

    /// The entry at `row` and `col`, if there is one.
    pub fn get(&self, row: usize, col: usize) -> (result: Option<i128>)
        ensures
            result == (if row < self.rows().len() && col < self.rows()[row as int].len() {
                Some(self.rows()[row as int][col as int])
            } else {
                None
            }),
    {
        if row < self.trace.len() && col < self.trace[row].len() {
            Some(self.trace[row][col])
        } else {
            None
        }
    }

    /// The row `row`, if there is one.
    pub fn get_row(&self, row: usize) -> (result: Option<&Vec<i128>>)
        ensures
            row < self.trace@.len() ==> result == Some(&self.trace@[row as int]),
            row >= self.trace@.len() ==> result.is_none(),
    {
        if row < self.trace.len() {
            Some(&self.trace[row])
        } else {
            None
        }
    }

    /// The column `col`.
    pub fn get_column(&self, col: usize) -> (result: Vec<i128>)
        requires
            self.wf(),
            col < self.num_columns,
        ensures
            result@ == column_of(self.rows(), col as int),
    {
        let mut out: Vec<i128> = Vec::new();
        let mut r: usize = 0;
        while r < self.trace.len()
            invariant
                self.wf(),
                col < self.num_columns,
                r <= self.trace@.len(),
                out@.len() == r,
                forall|k: int| 0 <= k < r ==> out@[k] == self.rows()[k][col as int],
            decreases self.trace@.len() - r,
        {
            out.push(self.trace[r][col]);
            r = r + 1;
        }
        assert(out@ =~= column_of(self.rows(), col as int));
        out
    }

    /// The trace with every entry taken as an element of `field`.
    pub fn to_finite_field_elements(&self, field: FiniteField) -> (result: Vec<
        Vec<FiniteFieldElement>,
    >)
        requires
            field.wf(),
        ensures
            rows_of(result@) == rows_in_field(self.rows(), field),
    {
        let mut out: Vec<Vec<FiniteFieldElement>> = Vec::new();
        let mut r: usize = 0;
        while r < self.trace.len()
            invariant
                field.wf(),
                r <= self.trace@.len(),
                out@.len() == r,
                forall|k: int|
                    0 <= k < r ==> (#[trigger] out@[k])@ == rows_in_field(self.rows(), field)[k],
            decreases self.trace@.len() - r,
        {
            let mut row: Vec<FiniteFieldElement> = Vec::new();
            let mut c: usize = 0;
            while c < self.trace[r].len()
                invariant
                    field.wf(),
                    r < self.trace@.len(),
                    c <= self.trace@[r as int]@.len(),
                    row@.len() == c,
                    forall|k: int|
                        0 <= k < c ==> row@[k] == residue(
                            self.trace@[r as int]@[k] as int,
                            field,
                        ),
                decreases self.trace@[r as int]@.len() - c,
            {
                row.push(FiniteFieldElement::new_fielded(self.trace[r][c], field));
                c = c + 1;
            }
            assert(row@ =~= rows_in_field(self.rows(), field)[r as int]);
            out.push(row);
            r = r + 1;
        }
        assert(rows_of(out@) =~= rows_in_field(self.rows(), field));
        out
    }
    /// A trace from a step function: every row is computed from the step
    /// number and the row before it, the first one from a row of zeros.
    pub fn from_computation<F>(num_steps: usize, num_vars: usize, compute: F) -> (result: Self)
        where F: Fn(usize, &[i128]) -> Vec<i128>
        requires
            num_steps > 0,
            num_vars > 0,
            forall|step: usize, prev: &[i128]|
                prev@.len() == num_vars ==> call_requires(compute, (step, prev)),
            forall|step: usize, prev: &[i128], out: Vec<i128>|
                call_ensures(compute, (step, prev), out) ==> out@.len() == num_vars,
        ensures
            result.wf(),
            result.num_columns == num_vars,
            result.trace@.len() == num_steps,
            computed_from(compute, 0, zero_row(num_vars as nat), result.trace@[0]),
            forall|s: int|
                1 <= s < num_steps ==> #[trigger] computed_from(
                    compute,
                    s as usize,
                    result.trace@[s - 1]@,
                    result.trace@[s],
                ),
    {
        let mut table: Vec<Vec<i128>> = Vec::new();
        let mut initial: Vec<i128> = Vec::new();
        while initial.len() < num_vars
            invariant
                initial@.len() <= num_vars,
                forall|i: int| 0 <= i < initial@.len() ==> initial@[i] == 0,
            decreases num_vars - initial@.len(),
        {
            initial.push(0);
        }
        assert(initial@ =~= zero_row(num_vars as nat));
        let first = compute(0, initial.as_slice());
        table.push(first);
        let mut step: usize = 1;
        while step < num_steps
            invariant
                num_vars > 0,
                forall|step: usize, prev: &[i128]|
                    prev@.len() == num_vars ==> call_requires(compute, (step, prev)),
                forall|step: usize, prev: &[i128], out: Vec<i128>|
                    call_ensures(compute, (step, prev), out) ==> out@.len() == num_vars,
                1 <= step <= num_steps,
                table@.len() == step,
                forall|r: int| 0 <= r < step ==> (#[trigger] table@[r])@.len() == num_vars,
                computed_from(compute, 0, zero_row(num_vars as nat), table@[0]),
                forall|s: int|
                    1 <= s < step ==> #[trigger] computed_from(
                        compute,
                        s as usize,
                        table@[s - 1]@,
                        table@[s],
                    ),
            decreases num_steps - step,
        {
            let ghost before = table@;
            let next = compute(step, table[step - 1].as_slice());
            table.push(next);
            proof {
                assert(table@[0] == before[0]);
                assert forall|s: int| 1 <= s < step + 1 implies #[trigger] computed_from(
                    compute,
                    s as usize,
                    table@[s - 1]@,
                    table@[s],
                ) by {
                    if s < step {
                        assert(table@[s] == before[s]);
                        assert(table@[s - 1] == before[s - 1]);
                        assert(computed_from(compute, s as usize, before[s - 1]@, before[s]));
                    }
                }
            }
            step = step + 1;
        }
        Trace::new(table)
    }
}

} // verus!
