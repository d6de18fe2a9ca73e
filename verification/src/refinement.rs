//! Fractions compute what the reals define: where the solver, run on
//! [`Rational`] numbers, returns fractions only, these are the numbers that
//! the same steps give over the reals. [`solve_exactly`] is the Thomas
//! algorithm with that test made.

use crate::exact::{no_zero_pivot, solution_is_linear_in_boundary_values, thomas_solves_system};
use crate::ode::{
    discretised_solution, lower_coef, main_coef, sample_count, system, system_row, upper_coef,
    Coefficients,
};
use crate::rational::{
    lemma_minus_is_exact, lemma_negated_is_exact, lemma_of_count_is_exact, lemma_over_is_exact,
    lemma_plus_is_exact, lemma_times_is_exact, lemma_zero_and_one, all_defined, are_fractions,
    Rational,
};
use crate::scalar::Arithmetic;
use crate::tridiagonal::{
    is_well_formed, pivot, row_product, solution_at, swept_rhs, swept_upper, thomas_algorithm,
    thomas_solution, well_formed, Row,
};
use vstd::prelude::*;

verus! {

/// The real number of an entry, where the row has it.
pub open spec fn real_entry(entry: Option<Rational>) -> Option<real> {
    match entry {
        Some(q) => Some(q.value()),
        None => None,
    }
}

/// The row with the real number of each entry.
pub open spec fn real_row(row: Row<Rational>) -> Row<real> {
    Row {
        lower: real_entry(row.lower),
        main: row.main.value(),
        upper: real_entry(row.upper),
        rhs: row.rhs.value(),
    }
}

/// The system with the real number of each entry.
pub open spec fn real_rows(rows: Seq<Row<Rational>>) -> Seq<Row<real>> {
    Seq::new(rows.len(), |k: int| real_row(rows[k]))
}

/// The real number of each entry of a vector.
pub open spec fn real_vector(y: Seq<Rational>) -> Seq<real> {
    Seq::new(y.len(), |k: int| y[k].value())
}

/// Where the forward sweep has reached a fraction in row `k`, it was exact up
/// to that row.
proof fn lemma_sweep_refines(rows: Seq<Row<Rational>>, k: int)
    requires
        well_formed(rows),
        0 <= k < rows.len(),
        swept_rhs(rows, k).defined(),
    ensures
        pivot(rows, k).defined(),
        pivot(rows, k).value() == pivot(real_rows(rows), k),
        pivot(real_rows(rows), k) != 0real,
        swept_rhs(rows, k).value() == swept_rhs(real_rows(rows), k),
        k > 0 ==> swept_upper(rows, k - 1).defined() && swept_upper(rows, k - 1).value()
            == swept_upper(real_rows(rows), k - 1),
        rows[k].main.defined(),
        rows[k].rhs.defined(),
        k > 0 ==> rows[k].lower.unwrap().defined() && rows[k - 1].upper.unwrap().defined(),
    decreases k,
{
    let reals = real_rows(rows);
    let row = rows[k];
    assert(reals[k] == real_row(row));
    assert(reals[0] == real_row(rows[0]));
    if k == 0 {
        lemma_over_is_exact(row.rhs, row.main);
    } else {
        let above = rows[k - 1];
        assert(reals[k - 1] == real_row(above));
        assert(row.lower is Some);
        assert(above.upper is Some);
        let l = row.lower.unwrap();
        let c_prev = swept_upper(rows, k - 1);
        let d_prev = swept_rhs(rows, k - 1);
        let numerator = row.rhs.minus(l.times(d_prev));
        let p = pivot(rows, k);
        assert(p == row.main.minus(l.times(c_prev)));
        assert(swept_rhs(rows, k) == numerator.over(p));
        lemma_over_is_exact(numerator, p);
        lemma_minus_is_exact(row.rhs, l.times(d_prev));
        lemma_times_is_exact(l, d_prev);
        lemma_minus_is_exact(row.main, l.times(c_prev));
        lemma_times_is_exact(l, c_prev);
        lemma_sweep_refines(rows, k - 1);
        let p_prev = pivot(rows, k - 1);
        assert(c_prev == above.upper.unwrap().over(p_prev));
        lemma_over_is_exact(above.upper.unwrap(), p_prev);
        assert(c_prev.value() == swept_upper(reals, k - 1));
        assert(p.value() == pivot(reals, k));
    }
}

/// Where back substitution gives fractions from row `k` down, they are the
/// entries of the solution over the reals.
proof fn lemma_solution_refines(rows: Seq<Row<Rational>>, k: int)
    requires
        well_formed(rows),
        0 <= k < rows.len(),
        forall|j: int| k <= j < rows.len() ==> (#[trigger] solution_at(rows, j)).defined(),
    ensures
        swept_rhs(rows, k).defined(),
        solution_at(rows, k).value() == solution_at(real_rows(rows), k),
    decreases rows.len() - k,
{
    let reals = real_rows(rows);
    assert(solution_at(rows, k).defined());
    if k < rows.len() - 1 {
        let c = swept_upper(rows, k);
        let d = swept_rhs(rows, k);
        let below = solution_at(rows, k + 1);
        assert(solution_at(rows, k) == d.minus(c.times(below)));
        lemma_minus_is_exact(d, c.times(below));
        lemma_times_is_exact(c, below);
        lemma_solution_refines(rows, k + 1);
        lemma_sweep_refines(rows, k + 1);
        lemma_sweep_refines(rows, k);
    } else {
        lemma_sweep_refines(rows, k);
    }
}

/// The Thomas algorithm on fractions is exact: where every entry of its
/// result is a fraction, no pivot was zero, each entry is the entry of the
/// solution over the reals, and the product of the matrix with the result is
/// the right-hand side.
pub proof fn fractions_solve_exactly(rows: Seq<Row<Rational>>)
    requires
        well_formed(rows),
        all_defined(thomas_solution(rows)),
    ensures
        no_zero_pivot(real_rows(rows)),
        real_vector(thomas_solution(rows)) == thomas_solution(real_rows(rows)),
        forall|k: int|
            0 <= k < rows.len() ==> #[trigger] row_product(
                real_rows(rows),
                real_vector(thomas_solution(rows)),
                k,
            ) == rows[k].rhs.value(),
{
    let reals = real_rows(rows);
    let y = thomas_solution(rows);
    assert forall|j: int| 0 <= j < rows.len() implies (#[trigger] solution_at(rows, j)).defined() by {
        assert(y[j].defined());
    }
    assert forall|k: int| 0 <= k < reals.len() implies #[trigger] pivot(reals, k) != 0real by {
        lemma_solution_refines(rows, k);
        lemma_sweep_refines(rows, k);
    }
    assert forall|k: int| 0 <= k < rows.len() implies real_vector(y)[k] == thomas_solution(
        reals,
    )[k] by {
        lemma_solution_refines(rows, k);
    }
    assert(real_vector(y) =~= thomas_solution(reals));
    assert(well_formed(reals)) by {
        assert forall|k: int| 0 <= k < reals.len() implies {
            &&& ((#[trigger] reals[k]).lower is None <==> k == 0)
            &&& (reals[k].upper is None <==> k == reals.len() - 1)
        } by {
            assert(reals[k] == real_row(rows[k]));
        }
    }
    thomas_solves_system(reals);
    assert forall|k: int| 0 <= k < rows.len() implies #[trigger] row_product(
        reals,
        real_vector(y),
        k,
    ) == rows[k].rhs.value() by {
        assert(reals[k] == real_row(rows[k]));
    }
}

/// Solves a tridiagonal system of fractions and returns the solution only
/// where it is exact: `None` where the rows do not form a system, where a
/// pivot is zero or where a term of the computation does not fit.
pub fn solve_exactly(diag: &Vec<Row<Rational>>) -> (found: Option<Vec<Rational>>)
    ensures
        found is Some <==> well_formed(diag@) && all_defined(thomas_solution(diag@)),
        found matches Some(y) ==> {
            &&& y@ == thomas_solution(diag@)
            &&& no_zero_pivot(real_rows(diag@))
            &&& forall|k: int|
                0 <= k < diag.len() ==> #[trigger] row_product(
                    real_rows(diag@),
                    real_vector(y@),
                    k,
                ) == diag@[k].rhs.value()
        },
{
    if !is_well_formed(diag) {
        return None;
    }
    let y = thomas_algorithm(diag);
    if are_fractions(&y) {
        proof {
            fractions_solve_exactly(diag@);
        }
        Some(y)
    } else {
        None
    }
}

/// Where every entry of the result is a fraction, so is every entry of the
/// system.
proof fn lemma_entries_are_defined(rows: Seq<Row<Rational>>, k: int)
    requires
        well_formed(rows),
        all_defined(thomas_solution(rows)),
        0 <= k < rows.len(),
    ensures
        rows[k].main.defined(),
        rows[k].rhs.defined(),
        k > 0 ==> rows[k].lower.unwrap().defined(),
        k < rows.len() - 1 ==> rows[k].upper.unwrap().defined(),
{
    let y = thomas_solution(rows);
    assert forall|j: int| 0 <= j < rows.len() implies (#[trigger] solution_at(rows, j)).defined() by {
        assert(y[j].defined());
    }
    lemma_solution_refines(rows, k);
    lemma_sweep_refines(rows, k);
    if k < rows.len() - 1 {
        lemma_solution_refines(rows, k + 1);
        lemma_sweep_refines(rows, k + 1);
    }
}

/// The real numbers of the coefficients at a node.
pub open spec fn real_coefficients(at: Coefficients<Rational>) -> Coefficients<real> {
    Coefficients { second: at.second.value(), first: at.first.value(), zeroth: at.zeroth.value() }
}

/// The real numbers of the coefficients at each node.
pub open spec fn real_samples(samples: Seq<Coefficients<Rational>>) -> Seq<Coefficients<real>> {
    Seq::new(samples.len(), |j: int| real_coefficients(samples[j]))
}

proof fn lemma_lower_coef_refines(at: Coefficients<Rational>, dx: Rational)
    requires
        lower_coef(at, dx.times(dx), dx.times(Rational::of_count(2))).defined(),
    ensures
        lower_coef(at, dx.times(dx), dx.times(Rational::of_count(2))).value() == lower_coef(
            real_coefficients(at),
            dx.value().times(dx.value()),
            dx.value().times(real::of_count(2)),
        ),
{
    let dx_sq = dx.times(dx);
    let dx2 = dx.times(Rational::of_count(2));
    lemma_minus_is_exact(at.second.over(dx_sq), at.first.over(dx2));
    lemma_over_is_exact(at.second, dx_sq);
    lemma_over_is_exact(at.first, dx2);
    lemma_times_is_exact(dx, dx);
    lemma_times_is_exact(dx, Rational::of_count(2));
    lemma_of_count_is_exact(2);
}

proof fn lemma_upper_coef_refines(at: Coefficients<Rational>, dx: Rational)
    requires
        upper_coef(at, dx.times(dx), dx.times(Rational::of_count(2))).defined(),
    ensures
        upper_coef(at, dx.times(dx), dx.times(Rational::of_count(2))).value() == upper_coef(
            real_coefficients(at),
            dx.value().times(dx.value()),
            dx.value().times(real::of_count(2)),
        ),
{
    let dx_sq = dx.times(dx);
    let dx2 = dx.times(Rational::of_count(2));
    lemma_plus_is_exact(at.second.over(dx_sq), at.first.over(dx2));
    lemma_over_is_exact(at.second, dx_sq);
    lemma_over_is_exact(at.first, dx2);
    lemma_times_is_exact(dx, dx);
    lemma_times_is_exact(dx, Rational::of_count(2));
    lemma_of_count_is_exact(2);
}

proof fn lemma_main_coef_refines(at: Coefficients<Rational>, dx: Rational)
    requires
        main_coef(at, dx.times(dx)).defined(),
    ensures
        main_coef(at, dx.times(dx)).value() == main_coef(
            real_coefficients(at),
            dx.value().times(dx.value()),
        ),
{
    let dx_sq = dx.times(dx);
    let doubled = at.second.times(Rational::of_count(2));
    lemma_minus_is_exact(at.zeroth, doubled.over(dx_sq));
    lemma_over_is_exact(doubled, dx_sq);
    lemma_times_is_exact(at.second, Rational::of_count(2));
    lemma_times_is_exact(dx, dx);
    lemma_of_count_is_exact(2);
}

/// A row of the discretised problem whose entries are fractions is the row
/// of the problem over the reals.
proof fn lemma_system_row_refines(
    samples: Seq<Coefficients<Rational>>,
    alpha: Rational,
    beta: Rational,
    dx: Rational,
    n: int,
    k: int,
)
    requires
        0 <= k < n,
        samples.len() == sample_count(n),
        ({
            let row = system_row(samples, alpha, beta, dx, n, k);
            &&& row.main.defined()
            &&& row.rhs.defined()
            &&& k > 0 ==> row.lower.unwrap().defined()
            &&& k < n - 1 ==> row.upper.unwrap().defined()
        }),
    ensures
        real_row(system_row(samples, alpha, beta, dx, n, k)) == system_row(
            real_samples(samples),
            alpha.value(),
            beta.value(),
            dx.value(),
            n,
            k,
        ),
{
    let reals = real_samples(samples);
    let dx_sq = dx.times(dx);
    let dx2 = dx.times(Rational::of_count(2));
    assert(reals[k] == real_coefficients(samples[k]));
    assert(reals[0] == real_coefficients(samples[0]));
    lemma_main_coef_refines(samples[k], dx);
    if n == 1 {
        assert(reals[1] == real_coefficients(samples[1]));
        let from_left = alpha.negated().times(lower_coef(samples[0], dx_sq, dx2));
        let from_right = beta.times(upper_coef(samples[1], dx_sq, dx2));
        lemma_minus_is_exact(from_left, from_right);
        lemma_times_is_exact(alpha.negated(), lower_coef(samples[0], dx_sq, dx2));
        lemma_negated_is_exact(alpha);
        lemma_lower_coef_refines(samples[0], dx);
        lemma_times_is_exact(beta, upper_coef(samples[1], dx_sq, dx2));
        lemma_upper_coef_refines(samples[1], dx);
    } else if k == 0 {
        assert(reals[1] == real_coefficients(samples[1]));
        lemma_times_is_exact(alpha.negated(), lower_coef(samples[0], dx_sq, dx2));
        lemma_negated_is_exact(alpha);
        lemma_lower_coef_refines(samples[0], dx);
        lemma_upper_coef_refines(samples[1], dx);
    } else if k == n - 1 {
        assert(reals[k - 1] == real_coefficients(samples[k - 1]));
        lemma_times_is_exact(beta.negated(), upper_coef(samples[k], dx_sq, dx2));
        lemma_negated_is_exact(beta);
        lemma_upper_coef_refines(samples[k], dx);
        lemma_lower_coef_refines(samples[k - 1], dx);
    } else {
        assert(reals[k - 1] == real_coefficients(samples[k - 1]));
        assert(reals[k + 1] == real_coefficients(samples[k + 1]));
        lemma_of_count_is_exact(0);
        lemma_lower_coef_refines(samples[k - 1], dx);
        lemma_upper_coef_refines(samples[k + 1], dx);
    }
}

/// The discretised problem on fractions is exact: where every entry of its
/// solution is a fraction, the system over the reals has no zero pivot and
/// the entries are those of its solution.
pub proof fn fractions_discretise_exactly(
    samples: Seq<Coefficients<Rational>>,
    alpha: Rational,
    beta: Rational,
    dx: Rational,
    n: int,
)
    requires
        0 <= n,
        samples.len() == sample_count(n),
        all_defined(discretised_solution(samples, alpha, beta, dx, n)),
    ensures
        no_zero_pivot(system(real_samples(samples), alpha.value(), beta.value(), dx.value(), n)),
        real_vector(discretised_solution(samples, alpha, beta, dx, n)) == discretised_solution(
            real_samples(samples),
            alpha.value(),
            beta.value(),
            dx.value(),
            n,
        ),
{
    let rows = system(samples, alpha, beta, dx, n);
    let reals = system(real_samples(samples), alpha.value(), beta.value(), dx.value(), n);
    assert(well_formed(rows));
    fractions_solve_exactly(rows);
    assert forall|k: int| 0 <= k < n implies #[trigger] real_rows(rows)[k] == reals[k] by {
        lemma_entries_are_defined(rows, k);
        lemma_system_row_refines(samples, alpha, beta, dx, n, k);
    }
    assert(real_rows(rows) =~= reals);
}

/// On fractions the boundary values enter the solution linearly, and
/// exactly: where the solutions for `alpha` and `beta`, for 1 and 0 and for
/// 0 and 1 are fractions, the first is `alpha` times the second plus `beta`
/// times the third.
pub proof fn fractions_are_linear_in_boundary_values(
    samples: Seq<Coefficients<Rational>>,
    alpha: Rational,
    beta: Rational,
    dx: Rational,
    n: int,
)
    requires
        0 <= n,
        samples.len() == sample_count(n),
        all_defined(discretised_solution(samples, alpha, beta, dx, n)),
        all_defined(
            discretised_solution(
                samples,
                Rational::of_count(1),
                Rational::of_count(0),
                dx,
                n,
            ),
        ),
        all_defined(
            discretised_solution(
                samples,
                Rational::of_count(0),
                Rational::of_count(1),
                dx,
                n,
            ),
        ),
    ensures
        forall|k: int|
            0 <= k < n ==> (#[trigger] discretised_solution(samples, alpha, beta, dx, n)[k]).value()
                == alpha.value() * discretised_solution(
                samples,
                Rational::of_count(1),
                Rational::of_count(0),
                dx,
                n,
            )[k].value() + beta.value() * discretised_solution(
                samples,
                Rational::of_count(0),
                Rational::of_count(1),
                dx,
                n,
            )[k].value(),
{
    let one = Rational::of_count(1);
    let zero = Rational::of_count(0);
    let reals = real_samples(samples);
    let y = discretised_solution(samples, alpha, beta, dx, n);
    let left = discretised_solution(samples, one, zero, dx, n);
    let right = discretised_solution(samples, zero, one, dx, n);
    fractions_discretise_exactly(samples, alpha, beta, dx, n);
    fractions_discretise_exactly(samples, one, zero, dx, n);
    fractions_discretise_exactly(samples, zero, one, dx, n);
    solution_is_linear_in_boundary_values(reals, alpha.value(), beta.value(), dx.value(), n);
    lemma_zero_and_one();
    assert forall|k: int| 0 <= k < n implies (#[trigger] y[k]).value() == alpha.value()
        * left[k].value() + beta.value() * right[k].value() by {
        assert(real_vector(y)[k] == y[k].value());
        assert(real_vector(left)[k] == left[k].value());
        assert(real_vector(right)[k] == right[k].value());
    }
}

} // verus!
