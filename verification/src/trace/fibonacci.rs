use crate::trace::Trace;
use vstd::prelude::*;

verus! {

/// The row of step `step` of the Fibonacci trace that starts with `a`: the
/// columns are `F(n-2)`, `F(n-1)` and `F(n)`.
pub open spec fn fibonacci_row(step: nat, a: int) -> (int, int, int)
    decreases step,
{
    if step == 0 {
        (0, a, a)
    } else if step == 1 {
        (a, a, a)
    } else {
        let before = fibonacci_row((step - 1) as nat, a);
        (before.1, before.2, before.1 + before.2)
    }
}

/// The first `n` rows of the Fibonacci trace hold machine integers.
pub open spec fn fibonacci_fits(n: nat, a: int) -> bool {
    forall|s: nat| s < n ==> i128::MIN <= #[trigger] fibonacci_row(s, a).2 <= i128::MAX
}

/// The rows of a table are the first rows of the Fibonacci trace.
pub open spec fn is_fibonacci_table(rows: Seq<Seq<i128>>, a: int) -> bool {
    forall|s: int|
        0 <= s < rows.len() ==> (#[trigger] rows[s]).len() == 3 && rows[s][0] == fibonacci_row(
            s as nat,
            a,
        ).0 && rows[s][1] == fibonacci_row(s as nat, a).1 && rows[s][2] == fibonacci_row(
            s as nat,
            a,
        ).2
}

/// The Fibonacci trace of `num_steps` rows that starts with `a`; every row
/// from the third on holds `F(n-2)`, `F(n-1)` and their sum.
pub fn generate_fibonacci_trace(num_steps: usize, a: i128, _b: i128) -> (result: Trace)
    requires
        num_steps > 0,
        fibonacci_fits(num_steps as nat, a as int),
    ensures
        result.wf(),
        result.num_columns == 3,
        result.trace@.len() == num_steps,
        is_fibonacci_table(result.rows(), a as int),
{
    let mut table: Vec<Vec<i128>> = Vec::new();
    let mut step: usize = 0;
    while step < num_steps
        invariant
            fibonacci_fits(num_steps as nat, a as int),
            step <= num_steps,
            table@.len() == step,
            forall|s: int|
                0 <= s < step ==> (#[trigger] table@[s])@.len() == 3 && table@[s]@[0]
                    == fibonacci_row(s as nat, a as int).0 && table@[s]@[1] == fibonacci_row(
                    s as nat,
                    a as int,
                ).1 && table@[s]@[2] == fibonacci_row(s as nat, a as int).2,
        decreases num_steps - step,
    {
        let mut row: Vec<i128> = Vec::new();
        if step == 0 {
            row.push(0);
            row.push(a);
            row.push(a);
        } else if step == 1 {
            row.push(a);
            row.push(a);
            row.push(a);
        } else {
            let before_last: i128 = table[step - 1][1];
            let last: i128 = table[step - 1][2];
            assert(fibonacci_row(step as nat, a as int).2 == before_last + last);
            row.push(before_last);
            row.push(last);
            row.push(last + before_last);
        }
        table.push(row);
        step = step + 1;
    }
    let result = Trace::new(table);
    assert forall|s: int| 0 <= s < result.rows().len() implies (#[trigger] result.rows()[s]).len()
        == 3 && result.rows()[s][0] == fibonacci_row(s as nat, a as int).0 && result.rows()[s][1]
        == fibonacci_row(s as nat, a as int).1 && result.rows()[s][2] == fibonacci_row(
        s as nat,
        a as int,
    ).2 by {
        assert(result.rows()[s] == result.trace@[s]@);
    }
    result
}

} // verus!
