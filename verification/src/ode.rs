//! The finite-difference discretisation of `a f'' + b f' + c f = 0` and the
//! solver built on it.

use crate::grid::{compute_dx, compute_x, node, step};
use crate::scalar::{Arithmetic, Scalar};
use crate::tridiagonal::{thomas_algorithm, thomas_solution, well_formed, Row};
use vstd::prelude::*;

verus! {

/// The values of the three coefficient functions at one node.
#[derive(Clone, Copy, Debug)]
pub struct Coefficients<T> {
    /// The coefficient of `f''`.
    pub second: T,
    /// The coefficient of `f'`.
    pub first: T,
    /// The coefficient of `f`.
    pub zeroth: T,
}

/// The weight of the left neighbour in the centred stencil:
/// `a / dx^2 - b / (2 dx)`.
pub open spec fn lower_coef<T: Arithmetic>(at: Coefficients<T>, dx_sq: T, dx2: T) -> T {
    at.second.over(dx_sq).minus(at.first.over(dx2))
}

/// The weight of the node itself: `c - 2 a / dx^2`.
pub open spec fn main_coef<T: Arithmetic>(at: Coefficients<T>, dx_sq: T) -> T {
    at.zeroth.minus(at.second.times(T::of_count(2)).over(dx_sq))
}

/// The weight of the right neighbour: `a / dx^2 + b / (2 dx)`.
pub open spec fn upper_coef<T: Arithmetic>(at: Coefficients<T>, dx_sq: T, dx2: T) -> T {
    at.second.over(dx_sq).plus(at.first.over(dx2))
}

/// How many nodes, counted from the first interior node, the system of
/// `num_steps` rows reads coefficients at.
///
/// These are the interior nodes. A single row also folds in the weight of its
/// right neighbour, which is taken at the right boundary node.
pub open spec fn sample_count(num_steps: int) -> int {
    if num_steps == 1 {
        2
    } else {
        num_steps
    }
}

/// Row `r` (counted from 0) of the system of `n` rows. `samples[j]` holds the
/// coefficients at node `j + 1`.
///
/// The diagonal entry is weighted at the row's own node. The entries beside it
/// are weighted at the node of the unknown that they multiply. The boundary
/// values move to the right-hand side: `-alpha * L` in the first row, with `L`
/// at the first interior node, and `-beta * U` in the last row, with `U` at
/// the last interior node. A single row carries both, with `U` at the node to
/// its right.
pub open spec fn system_row<T: Arithmetic>(
    samples: Seq<Coefficients<T>>,
    alpha: T,
    beta: T,
    dx: T,
    n: int,
    r: int,
) -> Row<T> {
    let dx_sq = dx.times(dx);
    let dx2 = dx.times(T::of_count(2));
    let main = main_coef(samples[r], dx_sq);
    if n == 1 {
        Row {
            lower: None,
            main,
            upper: None,
            rhs: alpha.negated().times(lower_coef(samples[0], dx_sq, dx2)).minus(
                beta.times(upper_coef(samples[1], dx_sq, dx2)),
            ),
        }
    } else if r == 0 {
        Row {
            lower: None,
            main,
            upper: Some(upper_coef(samples[1], dx_sq, dx2)),
            rhs: alpha.negated().times(lower_coef(samples[0], dx_sq, dx2)),
        }
    } else if r == n - 1 {
        Row {
            lower: Some(lower_coef(samples[r - 1], dx_sq, dx2)),
            main,
            upper: None,
            rhs: beta.negated().times(upper_coef(samples[r], dx_sq, dx2)),
        }
    } else {
        Row {
            lower: Some(lower_coef(samples[r - 1], dx_sq, dx2)),
            main,
            upper: Some(upper_coef(samples[r + 1], dx_sq, dx2)),
            rhs: T::of_count(0),
        }
    }
}

/// The tridiagonal system of `n` rows that discretises the problem.
pub open spec fn system<T: Arithmetic>(
    samples: Seq<Coefficients<T>>,
    alpha: T,
    beta: T,
    dx: T,
    n: int,
) -> Seq<Row<T>> {
    Seq::new(n as nat, |r: int| system_row(samples, alpha, beta, dx, n, r))
}

/// The values at the interior nodes that the discretised problem yields.
pub open spec fn discretised_solution<T: Arithmetic>(
    samples: Seq<Coefficients<T>>,
    alpha: T,
    beta: T,
    dx: T,
    n: int,
) -> Seq<T> {
    thomas_solution(system(samples, alpha, beta, dx, n))
}

/// The three functions accept the coordinates of nodes `1` to `count`.
pub open spec fn callable_at_nodes<T: Arithmetic, FA: Fn(T) -> T, FB: Fn(T) -> T, FC: Fn(T) -> T>(
    second_deriv_coef: &FA,
    first_deriv_coef: &FB,
    fn_coef: &FC,
    dx: T,
    x_min: T,
    count: int,
) -> bool {
    forall|j: int|
        1 <= j <= count ==> {
            let x = #[trigger] node(j as usize, dx, x_min);
            &&& second_deriv_coef.requires((x,))
            &&& first_deriv_coef.requires((x,))
            &&& fn_coef.requires((x,))
        }
}

/// `samples[j]` holds values that the three functions may return at node
/// `j + 1`.
pub open spec fn sampled_at_nodes<T: Arithmetic, FA: Fn(T) -> T, FB: Fn(T) -> T, FC: Fn(T) -> T>(
    second_deriv_coef: &FA,
    first_deriv_coef: &FB,
    fn_coef: &FC,
    dx: T,
    x_min: T,
    samples: Seq<Coefficients<T>>,
) -> bool {
    forall|j: int|
        0 <= j < samples.len() ==> {
            let x = node((j + 1) as usize, dx, x_min);
            let at = #[trigger] samples[j];
            &&& second_deriv_coef.ensures((x,), at.second)
            &&& first_deriv_coef.ensures((x,), at.first)
            &&& fn_coef.ensures((x,), at.zeroth)
        }
}

/// `solution` is a result of [`solve_ode`] on these arguments: the discretised
/// solution for some values that the coefficient functions return at the nodes.
pub open spec fn solves<T: Arithmetic, FA: Fn(T) -> T, FB: Fn(T) -> T, FC: Fn(T) -> T>(
    second_deriv_coef: &FA,
    first_deriv_coef: &FB,
    fn_coef: &FC,
    initial_condition_lower: T,
    initial_condition_upper: T,
    x_min: T,
    x_max: T,
    num_steps: usize,
    solution: Seq<T>,
) -> bool {
    let dx = step((num_steps + 2) as usize, x_min, x_max);
    exists|samples: Seq<Coefficients<T>>|
        {
            &&& samples.len() == sample_count(num_steps as int)
            &&& sampled_at_nodes(second_deriv_coef, first_deriv_coef, fn_coef, dx, x_min, samples)
            &&& solution == #[trigger] discretised_solution(
                samples,
                initial_condition_lower,
                initial_condition_upper,
                dx,
                num_steps as int,
            )
        }
}

/// Evaluates the three coefficient functions at nodes `1` to `count`, each
/// function once at each node.
pub fn sample_coefficients<T: Scalar, FA: Fn(T) -> T, FB: Fn(T) -> T, FC: Fn(T) -> T>(
    second_deriv_coef: &FA,
    first_deriv_coef: &FB,
    fn_coef: &FC,
    dx: T,
    x_min: T,
    count: usize,
) -> (samples: Vec<Coefficients<T>>)
    requires
        callable_at_nodes(second_deriv_coef, first_deriv_coef, fn_coef, dx, x_min, count as int),
    ensures
        samples.len() == count,
        sampled_at_nodes(second_deriv_coef, first_deriv_coef, fn_coef, dx, x_min, samples@),
{
    let mut samples: Vec<Coefficients<T>> = Vec::new();
    let mut index: usize = 0;
    while index < count
        invariant
            index <= count,
            samples.len() == index,
            callable_at_nodes(second_deriv_coef, first_deriv_coef, fn_coef, dx, x_min, count as int),
            sampled_at_nodes(second_deriv_coef, first_deriv_coef, fn_coef, dx, x_min, samples@),
        decreases count - index,
    {
        index += 1;
        let x = compute_x(index, dx, x_min);
        assert(x == node(index as int as usize, dx, x_min));
        let at = Coefficients {
            second: second_deriv_coef(x),
            first: first_deriv_coef(x),
            zeroth: fn_coef(x),
        };
        samples.push(at);
    }
    samples
}

/// Computes the weight of the left neighbour from the coefficients at a node.
pub fn get_lower_coef<T: Scalar>(at: &Coefficients<T>, dx_sq: T, dx2: T) -> (weight: T)
    ensures
        weight == lower_coef(*at, dx_sq, dx2),
{
    at.second.div(dx_sq).sub(at.first.div(dx2))
}

/// Computes the weight of the node itself from the coefficients at it.
pub fn get_main_coef<T: Scalar>(at: &Coefficients<T>, dx_sq: T) -> (weight: T)
    ensures
        weight == main_coef(*at, dx_sq),
{
    at.zeroth.sub(at.second.mul(T::from_count(2)).div(dx_sq))
}

/// Computes the weight of the right neighbour from the coefficients at a node.
pub fn get_upper_coef<T: Scalar>(at: &Coefficients<T>, dx_sq: T, dx2: T) -> (weight: T)
    ensures
        weight == upper_coef(*at, dx_sq, dx2),
{
    at.second.div(dx_sq).add(at.first.div(dx2))
}

/// Builds the tridiagonal system of `num_steps` rows from the coefficients at
/// the nodes, the boundary values and the step.
pub fn discretise<T: Scalar>(
    samples: &Vec<Coefficients<T>>,
    alpha: T,
    beta: T,
    dx: T,
    num_steps: usize,
) -> (rows: Vec<Row<T>>)
    requires
        samples.len() == sample_count(num_steps as int),
    ensures
        rows.len() == num_steps,
        well_formed(rows@),
        rows@ == system(samples@, alpha, beta, dx, num_steps as int),
{
    let dx_sq = dx.mul(dx);
    let dx2 = dx.mul(T::from_count(2));
    let mut rows: Vec<Row<T>> = Vec::new();
    let mut r: usize = 0;
    while r < num_steps
        invariant
            r <= num_steps,
            rows.len() == r,
            samples.len() == sample_count(num_steps as int),
            dx_sq == dx.times(dx),
            dx2 == dx.times(T::of_count(2)),
            forall|i: int|
                0 <= i < r ==> #[trigger] rows[i] == system_row(
                    samples@,
                    alpha,
                    beta,
                    dx,
                    num_steps as int,
                    i,
                ),
        decreases num_steps - r,
    {
        let main = get_main_coef(&samples[r], dx_sq);
        let row = if num_steps == 1 {
            let from_left = alpha.neg().mul(get_lower_coef(&samples[0], dx_sq, dx2));
            let from_right = beta.mul(get_upper_coef(&samples[1], dx_sq, dx2));
            Row { lower: None, main, upper: None, rhs: from_left.sub(from_right) }
        } else if r == 0 {
            Row {
                lower: None,
                main,
                upper: Some(get_upper_coef(&samples[1], dx_sq, dx2)),
                rhs: alpha.neg().mul(get_lower_coef(&samples[0], dx_sq, dx2)),
            }
        } else if r == num_steps - 1 {
            Row {
                lower: Some(get_lower_coef(&samples[r - 1], dx_sq, dx2)),
                main,
                upper: None,
                rhs: beta.neg().mul(get_upper_coef(&samples[r], dx_sq, dx2)),
            }
        } else {
            Row {
                lower: Some(get_lower_coef(&samples[r - 1], dx_sq, dx2)),
                main,
                upper: Some(get_upper_coef(&samples[r + 1], dx_sq, dx2)),
                rhs: T::from_count(0),
            }
        };
        rows.push(row);
        r += 1;
    }
    assert(rows@ =~= system(samples@, alpha, beta, dx, num_steps as int));
    rows
}

/// Solves the discretised problem for given coefficients at the nodes.
pub fn solve_sampled<T: Scalar>(
    samples: &Vec<Coefficients<T>>,
    alpha: T,
    beta: T,
    dx: T,
    num_steps: usize,
) -> (solution: Vec<T>)
    requires
        samples.len() == sample_count(num_steps as int),
    ensures
        solution.len() == num_steps,
        solution@ == discretised_solution(samples@, alpha, beta, dx, num_steps as int),
{
    let rows = discretise(samples, alpha, beta, dx, num_steps);
    thomas_algorithm(&rows)
}

/// Solves `a(x) f''(x) + b(x) f'(x) + c(x) f(x) = 0` on `[x_min, x_max]`
/// with `f(x_min) = initial_condition_lower` and
/// `f(x_max) = initial_condition_upper`, and returns the approximate values of
/// `f` at the `num_steps` interior nodes of a uniform grid, in ascending
/// order of `x`.
///
/// The coefficient functions are evaluated once at each node that the system
/// reads, in ascending order; the boundary nodes are not among them unless
/// `num_steps` is 1, when the right one is.
pub fn solve_ode<T: Scalar, FA: Fn(T) -> T, FB: Fn(T) -> T, FC: Fn(T) -> T>(
    second_deriv_coef: &FA,
    first_deriv_coef: &FB,
    fn_coef: &FC,
    initial_condition_lower: T,
    initial_condition_upper: T,
    x_min: T,
    x_max: T,
    num_steps: usize,
) -> (solution: Vec<T>)
    requires
        num_steps <= usize::MAX - 2,
        callable_at_nodes(
            second_deriv_coef,
            first_deriv_coef,
            fn_coef,
            step((num_steps + 2) as usize, x_min, x_max),
            x_min,
            sample_count(num_steps as int),
        ),
    ensures
        solution.len() == num_steps,
        solves(
            second_deriv_coef,
            first_deriv_coef,
            fn_coef,
            initial_condition_lower,
            initial_condition_upper,
            x_min,
            x_max,
            num_steps,
            solution@,
        ),
{
    let dx = compute_dx(num_steps + 2, x_min, x_max);
    let count = if num_steps == 1 {
        2
    } else {
        num_steps
    };
    let samples = sample_coefficients(
        second_deriv_coef,
        first_deriv_coef,
        fn_coef,
        dx,
        x_min,
        count,
    );
    solve_sampled(&samples, initial_condition_lower, initial_condition_upper, dx, num_steps)
}

/// The function returns one value for each argument.
pub open spec fn single_valued<T, F: Fn(T) -> T>(f: &F) -> bool {
    forall|x: T, y: T, z: T|
        #![trigger f.ensures((x,), y), f.ensures((x,), z)]
        f.ensures((x,), y) && f.ensures((x,), z) ==> y == z
}

/// Determinism: where each coefficient function returns one value for each
/// argument, [`solve_ode`] has one result for each choice of arguments.
pub proof fn solve_ode_is_deterministic<
    T: Arithmetic,
    FA: Fn(T) -> T,
    FB: Fn(T) -> T,
    FC: Fn(T) -> T,
>(
    second_deriv_coef: &FA,
    first_deriv_coef: &FB,
    fn_coef: &FC,
    initial_condition_lower: T,
    initial_condition_upper: T,
    x_min: T,
    x_max: T,
    num_steps: usize,
    one: Seq<T>,
    other: Seq<T>,
)
    requires
        single_valued(second_deriv_coef),
        single_valued(first_deriv_coef),
        single_valued(fn_coef),
        solves(
            second_deriv_coef,
            first_deriv_coef,
            fn_coef,
            initial_condition_lower,
            initial_condition_upper,
            x_min,
            x_max,
            num_steps,
            one,
        ),
        solves(
            second_deriv_coef,
            first_deriv_coef,
            fn_coef,
            initial_condition_lower,
            initial_condition_upper,
            x_min,
            x_max,
            num_steps,
            other,
        ),
    ensures
        one == other,
{
    let dx = step((num_steps + 2) as usize, x_min, x_max);
    let n = num_steps as int;
    let s1 = choose|samples: Seq<Coefficients<T>>|
        {
            &&& samples.len() == sample_count(num_steps as int)
            &&& sampled_at_nodes(second_deriv_coef, first_deriv_coef, fn_coef, dx, x_min, samples)
            &&& one == #[trigger] discretised_solution(
                samples,
                initial_condition_lower,
                initial_condition_upper,
                dx,
                n,
            )
        };
    let s2 = choose|samples: Seq<Coefficients<T>>|
        {
            &&& samples.len() == sample_count(num_steps as int)
            &&& sampled_at_nodes(second_deriv_coef, first_deriv_coef, fn_coef, dx, x_min, samples)
            &&& other == #[trigger] discretised_solution(
                samples,
                initial_condition_lower,
                initial_condition_upper,
                dx,
                n,
            )
        };
    assert forall|j: int| 0 <= j < s1.len() implies s1[j] == s2[j] by {
        let x = node((j + 1) as usize, dx, x_min);
        assert(second_deriv_coef.ensures((x,), s1[j].second));
        assert(second_deriv_coef.ensures((x,), s2[j].second));
        assert(first_deriv_coef.ensures((x,), s1[j].first));
        assert(first_deriv_coef.ensures((x,), s2[j].first));
        assert(fn_coef.ensures((x,), s1[j].zeroth));
        assert(fn_coef.ensures((x,), s2[j].zeroth));
    }
    assert(s1 =~= s2);
}

} // verus!
