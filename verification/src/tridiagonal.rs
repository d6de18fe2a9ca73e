//! Tridiagonal linear systems and the Thomas algorithm.

use crate::scalar::{Arithmetic, Scalar};
use vstd::prelude::*;

verus! {

/// One row of a tridiagonal system: the entries left of, on and right of the
/// diagonal, and the right-hand side.
///
/// The first row of a system has no `lower` entry and the last row no `upper`
/// entry.
#[derive(Clone, Copy, Debug)]
pub struct Row<T> {
    pub lower: Option<T>,
    pub main: T,
    pub upper: Option<T>,
    pub rhs: T,
}

/// The rows form a system: `lower` is absent in the first row and nowhere
/// else, `upper` is absent in the last row and nowhere else.
pub open spec fn well_formed<T>(rows: Seq<Row<T>>) -> bool {
    forall|k: int|
        0 <= k < rows.len() ==> {
            &&& ((#[trigger] rows[k]).lower is None <==> k == 0)
            &&& (rows[k].upper is None <==> k == rows.len() - 1)
        }
}

/// Tells whether the rows form a system.
pub fn is_well_formed<T>(rows: &Vec<Row<T>>) -> (b: bool)
    ensures
        b == well_formed(rows@),
{
    let n = rows.len();
    let mut k: usize = 0;
    while k < n
        invariant
            n == rows.len(),
            k <= n,
            forall|j: int|
                0 <= j < k ==> {
                    &&& ((#[trigger] rows@[j]).lower is None <==> j == 0)
                    &&& (rows@[j].upper is None <==> j == n - 1)
                },
        decreases n - k,
    {
        let row = &rows[k];
        if row.lower.is_none() != (k == 0) || row.upper.is_none() != (k == n - 1) {
            assert(row == rows@[k as int]);
            return false;
        }
        k += 1;
    }
    true
}

/// The pivot of row `k`, by which the forward sweep divides: the diagonal
/// entry in the first row, and `main - lower * c'` below it, where `c'` is the
/// modified upper entry of the row above.
pub open spec fn pivot<T: Arithmetic>(rows: Seq<Row<T>>, k: int) -> T
    decreases k, 0int,
{
    if k <= 0 {
        rows[0].main
    } else {
        rows[k].main.minus(rows[k].lower.unwrap().times(swept_upper(rows, k - 1)))
    }
}

/// The modified upper entry `c'` of row `k`: `upper / pivot`.
pub open spec fn swept_upper<T: Arithmetic>(rows: Seq<Row<T>>, k: int) -> T
    decreases k, 1int,
{
    if k <= 0 {
        rows[0].upper.unwrap().over(rows[0].main)
    } else {
        rows[k].upper.unwrap().over(pivot(rows, k))
    }
}

/// The modified right-hand side `d'` of row `k`: `rhs / pivot` in the first
/// row, and `(rhs - lower * d') / pivot` below it, where `d'` is that of the
/// row above.
pub open spec fn swept_rhs<T: Arithmetic>(rows: Seq<Row<T>>, k: int) -> T
    decreases k,
{
    if k <= 0 {
        rows[0].rhs.over(rows[0].main)
    } else {
        rows[k].rhs.minus(rows[k].lower.unwrap().times(swept_rhs(rows, k - 1))).over(
            pivot(rows, k),
        )
    }
}

/// Entry `k` of the solution by back substitution: `d'` in the last row, and
/// `d' - c' * y` above it, where `y` is the entry below.
pub open spec fn solution_at<T: Arithmetic>(rows: Seq<Row<T>>, k: int) -> T
    decreases rows.len() - k,
{
    if k >= rows.len() - 1 {
        swept_rhs(rows, k)
    } else {
        swept_rhs(rows, k).minus(swept_upper(rows, k).times(solution_at(rows, k + 1)))
    }
}

/// What the Thomas algorithm computes for `rows`, entry by entry.
pub open spec fn thomas_solution<T: Arithmetic>(rows: Seq<Row<T>>) -> Seq<T> {
    Seq::new(rows.len(), |k: int| solution_at(rows, k))
}

/// Entry `k` of the product of the matrix of `rows` with the vector `y`:
/// `lower * y[k - 1] + main * y[k] + upper * y[k + 1]`, without the terms of
/// the entries that the row does not have.
pub open spec fn row_product<T: Arithmetic>(rows: Seq<Row<T>>, y: Seq<T>, k: int) -> T {
    let centre = rows[k].main.times(y[k]);
    let left = match rows[k].lower {
        Some(lower) => lower.times(y[k - 1]).plus(centre),
        None => centre,
    };
    match rows[k].upper {
        Some(upper) => left.plus(upper.times(y[k + 1])),
        None => left,
    }
}

/// Solves the tridiagonal system `diag` by the Thomas algorithm: a forward
/// sweep that eliminates the lower diagonal, then a back substitution.
///
/// No pivot is tested against zero. Where one is zero, the quotients are
/// whatever the number type makes of them.
pub fn thomas_algorithm<T: Scalar>(diag: &Vec<Row<T>>) -> (solution: Vec<T>)
    requires
        well_formed(diag@),
    ensures
        solution.len() == diag.len(),
        solution@ == thomas_solution(diag@),
{
    let n = diag.len();
    let mut upper_v: Vec<T> = Vec::new();
    let mut solve_v: Vec<T> = Vec::new();
    let mut index: usize = 0;
    while index < n
        invariant
            n == diag.len(),
            index <= n,
            well_formed(diag@),
            solve_v.len() == index,
            upper_v.len() == (if index == n && n > 0 { index - 1 } else { index as int }),
            forall|j: int| 0 <= j < solve_v.len() ==> solve_v[j] == swept_rhs(diag@, j),
            forall|j: int| 0 <= j < upper_v.len() ==> upper_v[j] == swept_upper(diag@, j),
        decreases n - index,
    {
        let row = &diag[index];
        assert(row == diag@[index as int]);
        match row.lower {
            Some(lower) => {
                let denominator = row.main.sub(lower.mul(upper_v[index - 1]));
                assert(denominator == pivot(diag@, index as int));
                if let Some(upper) = row.upper {
                    upper_v.push(upper.div(denominator));
                }
                solve_v.push(row.rhs.sub(lower.mul(solve_v[index - 1])).div(denominator));
            },
            None => {
                if let Some(upper) = row.upper {
                    upper_v.push(upper.div(row.main));
                }
                solve_v.push(row.rhs.div(row.main));
            },
        }
        index += 1;
    }
    let mut index: usize = upper_v.len();
    while index > 0
        invariant
            n == diag.len(),
            solve_v.len() == n,
            upper_v.len() == (if n > 0 { n - 1 } else { 0 }),
            index <= upper_v.len(),
            forall|j: int| 0 <= j < upper_v.len() ==> upper_v[j] == swept_upper(diag@, j),
            forall|j: int| 0 <= j < index ==> solve_v[j] == swept_rhs(diag@, j),
            forall|j: int| index <= j < n ==> solve_v[j] == solution_at(diag@, j),
        decreases index,
    {
        index -= 1;
        let entry = solve_v[index].sub(upper_v[index].mul(solve_v[index + 1]));
        solve_v.set(index, entry);
    }
    assert(solve_v@ =~= thomas_solution(diag@));
    solve_v
}

} // verus!
