//! What the solver computes when the arithmetic is that of the real numbers.
//!
//! Over the reals every operation is exact, and the expressions that the
//! contracts of this crate name can be reasoned about as numbers.

use crate::algebra::{
    lemma_associates, lemma_commutes, lemma_distributes, lemma_distributes_sum, lemma_negates,
    lemma_product_quotient, lemma_quotient, lemma_swaps, lemma_times_zero,
};
use crate::ode::{
    discretised_solution, lower_coef, system, system_row, upper_coef, Coefficients,
};
use crate::scalar::Arithmetic;
use crate::tridiagonal::{
    pivot, row_product, solution_at, swept_rhs, swept_upper, thomas_solution, well_formed, Row,
};
use vstd::prelude::*;

verus! {

/// The forward sweep never divides by zero.
pub open spec fn no_zero_pivot(rows: Seq<Row<real>>) -> bool {
    forall|k: int| 0 <= k < rows.len() ==> #[trigger] pivot(rows, k) != 0real
}

/// One step of back substitution, scaled by the pivot.
proof fn lemma_scaled_step(p: real, c: real, d: real, y_next: real)
    by (nonlinear_arith)
    ensures
        p * (d - c * y_next) == d * p - (c * p) * y_next,
{
}

/// The entry above eliminates the lower entry and leaves the pivot.
proof fn lemma_eliminated(l: real, m: real, c_prev: real, d_prev: real, y: real)
    by (nonlinear_arith)
    ensures
        l * (d_prev - c_prev * y) + m * y == l * d_prev + (m - l * c_prev) * y,
{
}

proof fn lemma_row_is_solved(rows: Seq<Row<real>>, k: int)
    requires
        well_formed(rows),
        no_zero_pivot(rows),
        0 <= k < rows.len(),
    ensures
        row_product(rows, thomas_solution(rows), k) == rows[k].rhs,
{
    let n = rows.len() as int;
    let y = thomas_solution(rows);
    let row = rows[k];
    let p = pivot(rows, k);
    let d = swept_rhs(rows, k);
    assert(p != 0real);
    assert(y[k] == solution_at(rows, k));
    if k == 0 {
        assert(d * p == row.rhs) by {
            lemma_quotient(row.rhs, p);
        }
        if n == 1 {
            lemma_commutes(d, p);
        } else {
            let u = row.upper.unwrap();
            let c = swept_upper(rows, 0);
            assert(c * p == u) by {
                lemma_quotient(u, p);
            }
            assert(y[1] == solution_at(rows, 1));
            assert(y[0] == d - c * y[1]);
            lemma_scaled_step(p, c, d, y[1]);
        }
    } else {
        assert(rows[k - 1].upper is Some);
        let l = row.lower.unwrap();
        let c_prev = swept_upper(rows, k - 1);
        let d_prev = swept_rhs(rows, k - 1);
        assert(p == row.main - l * c_prev);
        assert(d * p == row.rhs - l * d_prev) by {
            lemma_quotient(row.rhs - l * d_prev, p);
        }
        assert(y[k - 1] == solution_at(rows, k - 1));
        assert(y[k - 1] == d_prev - c_prev * y[k]);
        lemma_eliminated(l, row.main, c_prev, d_prev, y[k]);
        assert(l * y[k - 1] + row.main * y[k] == l * d_prev + p * y[k]);
        if k == n - 1 {
            lemma_commutes(d, p);
        } else {
            let u = row.upper.unwrap();
            let c = swept_upper(rows, k);
            assert(c * p == u) by {
                lemma_quotient(u, p);
            }
            assert(y[k + 1] == solution_at(rows, k + 1));
            assert(y[k] == d - c * y[k + 1]);
            lemma_scaled_step(p, c, d, y[k + 1]);
        }
    }
}

/// The Thomas algorithm solves the system: where no pivot is zero, the
/// product of the matrix with the computed vector is the right-hand side,
/// row by row.
pub proof fn thomas_solves_system(rows: Seq<Row<real>>)
    requires
        well_formed(rows),
        no_zero_pivot(rows),
    ensures
        thomas_solution(rows).len() == rows.len(),
        forall|k: int|
            0 <= k < rows.len() ==> #[trigger] row_product(rows, thomas_solution(rows), k)
                == rows[k].rhs,
{
    assert forall|k: int| 0 <= k < rows.len() implies #[trigger] row_product(
        rows,
        thomas_solution(rows),
        k,
    ) == rows[k].rhs by {
        lemma_row_is_solved(rows, k);
    }
}

/// The two systems have the same matrix.
pub open spec fn same_matrix(rows: Seq<Row<real>>, other: Seq<Row<real>>) -> bool {
    &&& rows.len() == other.len()
    &&& forall|k: int|
        0 <= k < rows.len() ==> {
            &&& (#[trigger] rows[k]).lower == other[k].lower
            &&& rows[k].main == other[k].main
            &&& rows[k].upper == other[k].upper
        }
}

/// The system with the matrix of `rows` whose right-hand side is the product
/// of that matrix with `y`.
pub open spec fn image(rows: Seq<Row<real>>, y: Seq<real>) -> Seq<Row<real>> {
    Seq::new(
        rows.len(),
        |k: int|
            Row {
                lower: rows[k].lower,
                main: rows[k].main,
                upper: rows[k].upper,
                rhs: row_product(rows, y, k),
            },
    )
}

/// What the sweep leaves of a row, scaled by the pivot.
proof fn lemma_scaled_sum(p: real, c: real, y: real, y_next: real)
    by (nonlinear_arith)
    ensures
        (y + c * y_next) * p == p * y + (c * p) * y_next,
{
}

/// Taking the row above out of a product leaves the pivot.
proof fn lemma_reduced(l: real, m: real, c_prev: real, y_prev: real, y: real)
    by (nonlinear_arith)
    ensures
        (l * y_prev + m * y) - l * (y_prev + c_prev * y) == (m - l * c_prev) * y,
{
}

/// The pivots and the modified upper entries depend on the matrix alone.
proof fn lemma_sweep_of_same_matrix(rows: Seq<Row<real>>, other: Seq<Row<real>>, k: int)
    requires
        same_matrix(rows, other),
        0 <= k < rows.len(),
    ensures
        pivot(rows, k) == pivot(other, k),
        swept_upper(rows, k) == swept_upper(other, k),
    decreases k,
{
    assert(rows[k].main == other[k].main);
    assert(rows[0].main == other[0].main);
    if k > 0 {
        lemma_sweep_of_same_matrix(rows, other, k - 1);
    }
}

/// The forward sweep of a product leaves each entry of the vector with the
/// part of the next one that back substitution takes off again.
proof fn lemma_sweep_of_image(rows: Seq<Row<real>>, y: Seq<real>, k: int)
    requires
        well_formed(rows),
        no_zero_pivot(rows),
        y.len() == rows.len(),
        0 <= k < rows.len(),
    ensures
        swept_rhs(image(rows, y), k) == (if k == rows.len() - 1 {
            y[k]
        } else {
            y[k] + swept_upper(rows, k) * y[k + 1]
        }),
    decreases k,
{
    let n = rows.len() as int;
    let img = image(rows, y);
    let row = rows[k];
    let p = pivot(rows, k);
    assert(p != 0real);
    assert(same_matrix(rows, img));
    lemma_sweep_of_same_matrix(rows, img, k);
    assert(img[k].rhs == row_product(rows, y, k));
    assert(img[k].lower == row.lower);
    if k == 0 {
        assert(swept_rhs(img, 0) == img[0].rhs / p);
        if n == 1 {
            lemma_commutes(row.main, y[0]);
            lemma_product_quotient(y[0], p);
        } else {
            let u = row.upper.unwrap();
            let c = swept_upper(rows, 0);
            assert(c * p == u) by {
                lemma_quotient(u, p);
            }
            lemma_scaled_sum(p, c, y[0], y[1]);
            lemma_product_quotient(y[0] + c * y[1], p);
        }
    } else {
        assert(rows[k - 1].upper is Some);
        lemma_sweep_of_image(rows, y, k - 1);
        let l = row.lower.unwrap();
        let c_prev = swept_upper(rows, k - 1);
        let d_prev = swept_rhs(img, k - 1);
        assert(d_prev == y[k - 1] + c_prev * y[k]);
        assert(p == row.main - l * c_prev);
        lemma_reduced(l, row.main, c_prev, y[k - 1], y[k]);
        if k == n - 1 {
            assert(img[k].rhs - l * d_prev == p * y[k]);
            lemma_commutes(p, y[k]);
            lemma_product_quotient(y[k], p);
        } else {
            let u = row.upper.unwrap();
            let c = swept_upper(rows, k);
            assert(c * p == u) by {
                lemma_quotient(u, p);
            }
            assert(img[k].rhs - l * d_prev == p * y[k] + u * y[k + 1]);
            lemma_scaled_sum(p, c, y[k], y[k + 1]);
            lemma_product_quotient(y[k] + c * y[k + 1], p);
        }
    }
}

proof fn lemma_solution_of_image(rows: Seq<Row<real>>, y: Seq<real>, k: int)
    requires
        well_formed(rows),
        no_zero_pivot(rows),
        y.len() == rows.len(),
        0 <= k < rows.len(),
    ensures
        solution_at(image(rows, y), k) == y[k],
    decreases rows.len() - k,
{
    let img = image(rows, y);
    lemma_sweep_of_image(rows, y, k);
    if k < rows.len() - 1 {
        lemma_solution_of_image(rows, y, k + 1);
        assert(same_matrix(rows, img));
        lemma_sweep_of_same_matrix(rows, img, k);
    }
}

/// Round trip: multiply the matrix of a system by any vector, solve for the
/// product, and the vector comes back, provided that no pivot is zero.
pub proof fn thomas_recovers_vector(rows: Seq<Row<real>>, y: Seq<real>)
    requires
        well_formed(rows),
        no_zero_pivot(rows),
        y.len() == rows.len(),
    ensures
        thomas_solution(image(rows, y)) == y,
{
    let found = thomas_solution(image(rows, y));
    assert forall|k: int| 0 <= k < y.len() implies found[k] == y[k] by {
        lemma_solution_of_image(rows, y, k);
    }
    assert(found =~= y);
}

/// The right-hand side of `rows` is `a` times that of `first` plus `b` times
/// that of `second`.
pub open spec fn combined_rhs(
    rows: Seq<Row<real>>,
    first: Seq<Row<real>>,
    second: Seq<Row<real>>,
    a: real,
    b: real,
) -> bool {
    forall|k: int|
        0 <= k < rows.len() ==> (#[trigger] rows[k]).rhs == a * first[k].rhs + b * second[k].rhs
}

proof fn lemma_combined_numerator(
    a: real,
    b: real,
    l: real,
    r1: real,
    r2: real,
    d1: real,
    d2: real,
)
    ensures
        (a * r1 + b * r2) - l * (a * d1 + b * d2) == a * (r1 - l * d1) + b * (r2 - l * d2),
{
    lemma_distributes_sum(l, a * d1, b * d2);
    lemma_swaps(l, a, d1);
    lemma_swaps(l, b, d2);
    lemma_distributes(a, r1, l * d1);
    lemma_distributes(b, r2, l * d2);
}

proof fn lemma_combined_product(a: real, b: real, d1: real, d2: real, p: real)
    ensures
        a * (d1 * p) + b * (d2 * p) == (a * d1 + b * d2) * p,
{
    lemma_associates(a, d1, p);
    lemma_associates(b, d2, p);
    lemma_commutes(a * d1 + b * d2, p);
    lemma_distributes_sum(p, a * d1, b * d2);
    lemma_commutes(p, a * d1);
    lemma_commutes(p, b * d2);
}

proof fn lemma_sweep_is_linear(
    rows: Seq<Row<real>>,
    first: Seq<Row<real>>,
    second: Seq<Row<real>>,
    a: real,
    b: real,
    k: int,
)
    requires
        well_formed(rows),
        no_zero_pivot(rows),
        same_matrix(rows, first),
        same_matrix(rows, second),
        combined_rhs(rows, first, second, a, b),
        0 <= k < rows.len(),
    ensures
        swept_rhs(rows, k) == a * swept_rhs(first, k) + b * swept_rhs(second, k),
    decreases k,
{
    let p = pivot(rows, k);
    let d1 = swept_rhs(first, k);
    let d2 = swept_rhs(second, k);
    assert(p != 0real);
    lemma_sweep_of_same_matrix(rows, first, k);
    lemma_sweep_of_same_matrix(rows, second, k);
    assert(rows[k].rhs == a * first[k].rhs + b * second[k].rhs);
    assert(rows[k].lower == first[k].lower && rows[k].lower == second[k].lower);
    if k == 0 {
        assert(d1 * p == first[0].rhs) by {
            lemma_quotient(first[0].rhs, p);
        }
        assert(d2 * p == second[0].rhs) by {
            lemma_quotient(second[0].rhs, p);
        }
        lemma_combined_product(a, b, d1, d2, p);
        lemma_product_quotient(a * d1 + b * d2, p);
    } else {
        lemma_sweep_is_linear(rows, first, second, a, b, k - 1);
        let l = rows[k].lower.unwrap();
        let e1 = swept_rhs(first, k - 1);
        let e2 = swept_rhs(second, k - 1);
        assert(d1 * p == first[k].rhs - l * e1) by {
            lemma_quotient(first[k].rhs - l * e1, p);
        }
        assert(d2 * p == second[k].rhs - l * e2) by {
            lemma_quotient(second[k].rhs - l * e2, p);
        }
        lemma_combined_numerator(a, b, l, first[k].rhs, second[k].rhs, e1, e2);
        lemma_combined_product(a, b, d1, d2, p);
        assert(rows[k].rhs - l * swept_rhs(rows, k - 1) == (a * d1 + b * d2) * p);
        lemma_product_quotient(a * d1 + b * d2, p);
    }
}

proof fn lemma_solution_is_linear(
    rows: Seq<Row<real>>,
    first: Seq<Row<real>>,
    second: Seq<Row<real>>,
    a: real,
    b: real,
    k: int,
)
    requires
        well_formed(rows),
        no_zero_pivot(rows),
        same_matrix(rows, first),
        same_matrix(rows, second),
        combined_rhs(rows, first, second, a, b),
        0 <= k < rows.len(),
    ensures
        solution_at(rows, k) == a * solution_at(first, k) + b * solution_at(second, k),
    decreases rows.len() - k,
{
    lemma_sweep_is_linear(rows, first, second, a, b, k);
    if k < rows.len() - 1 {
        lemma_solution_is_linear(rows, first, second, a, b, k + 1);
        lemma_sweep_of_same_matrix(rows, first, k);
        lemma_sweep_of_same_matrix(rows, second, k);
        lemma_combined_numerator(
            a,
            b,
            swept_upper(rows, k),
            swept_rhs(first, k),
            swept_rhs(second, k),
            solution_at(first, k + 1),
            solution_at(second, k + 1),
        );
    }
}

/// The solution is linear in the right-hand side: for one matrix without a
/// zero pivot, the solution for `a * d1 + b * d2` is `a` times the solution
/// for `d1` plus `b` times the solution for `d2`.
pub proof fn thomas_is_linear(
    rows: Seq<Row<real>>,
    first: Seq<Row<real>>,
    second: Seq<Row<real>>,
    a: real,
    b: real,
)
    requires
        well_formed(rows),
        no_zero_pivot(rows),
        same_matrix(rows, first),
        same_matrix(rows, second),
        combined_rhs(rows, first, second, a, b),
    ensures
        forall|k: int|
            0 <= k < rows.len() ==> #[trigger] thomas_solution(rows)[k] == a * thomas_solution(
                first,
            )[k] + b * thomas_solution(second)[k],
{
    assert forall|k: int| 0 <= k < rows.len() implies #[trigger] thomas_solution(rows)[k] == a
        * thomas_solution(first)[k] + b * thomas_solution(second)[k] by {
        lemma_solution_is_linear(rows, first, second, a, b, k);
    }
}

/// The right-hand side of each row is linear in the boundary values.
proof fn lemma_boundary_rhs(
    samples: Seq<Coefficients<real>>,
    alpha: real,
    beta: real,
    dx: real,
    n: int,
    k: int,
)
    requires
        0 <= k < n,
    ensures
        system_row(samples, alpha, beta, dx, n, k).rhs == alpha * system_row(
            samples,
            1real,
            0real,
            dx,
            n,
            k,
        ).rhs + beta * system_row(samples, 0real, 1real, dx, n, k).rhs,
{
    let dx_sq = dx.times(dx);
    let dx2 = dx.times(real::of_count(2));
    let left = system_row(samples, 1real, 0real, dx, n, k).rhs;
    let right = system_row(samples, 0real, 1real, dx, n, k).rhs;
    if n == 1 {
        let l0 = lower_coef(samples[0], dx_sq, dx2);
        let u1 = upper_coef(samples[1], dx_sq, dx2);
        assert(left == -l0);
        assert(right == -u1);
        lemma_negates(alpha, l0);
        lemma_negates(beta, u1);
    } else if k == 0 {
        let l0 = lower_coef(samples[0], dx_sq, dx2);
        assert(left == -l0);
        lemma_negates(alpha, l0);
        lemma_times_zero(beta, right);
    } else if k == n - 1 {
        let uk = upper_coef(samples[k], dx_sq, dx2);
        assert(right == -uk);
        lemma_times_zero(alpha, left);
        lemma_negates(beta, uk);
    } else {
        lemma_times_zero(alpha, left);
        lemma_times_zero(beta, right);
    }
}

/// The boundary values enter the solution linearly: the solution for
/// `alpha` and `beta` is `alpha` times the solution for the boundary values
/// 1 and 0 plus `beta` times the solution for 0 and 1, provided that the
/// system has no zero pivot.
pub proof fn solution_is_linear_in_boundary_values(
    samples: Seq<Coefficients<real>>,
    alpha: real,
    beta: real,
    dx: real,
    n: int,
)
    requires
        0 <= n,
        no_zero_pivot(system(samples, alpha, beta, dx, n)),
    ensures
        forall|k: int|
            0 <= k < n ==> #[trigger] discretised_solution(samples, alpha, beta, dx, n)[k] == alpha
                * discretised_solution(samples, 1real, 0real, dx, n)[k] + beta
                * discretised_solution(samples, 0real, 1real, dx, n)[k],
{
    let rows = system(samples, alpha, beta, dx, n);
    let left = system(samples, 1real, 0real, dx, n);
    let right = system(samples, 0real, 1real, dx, n);
    assert(well_formed(rows));
    assert(same_matrix(rows, left));
    assert(same_matrix(rows, right));
    assert forall|k: int| 0 <= k < rows.len() implies (#[trigger] rows[k]).rhs == alpha
        * left[k].rhs + beta * right[k].rhs by {
        lemma_boundary_rhs(samples, alpha, beta, dx, n, k);
    }
    thomas_is_linear(rows, left, right, alpha, beta);
}

} // verus!
