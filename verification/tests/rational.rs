use second_order_ode::ode::{discretise, solve_sampled, Coefficients};
use second_order_ode::rational::{are_fractions, Rational};
use second_order_ode::refinement::solve_exactly;
use second_order_ode::scalar::Scalar;
use second_order_ode::tridiagonal::Row;
use second_order_ode::{compute_dx, compute_x, solve_ode, thomas_algorithm};

fn q(num: i64, den: i64) -> Rational {
    Rational::new(num, den)
}

fn terms(y: &[Rational]) -> Vec<(i64, i64)> {
    y.iter().map(|v| (v.num, v.den)).collect()
}

fn constant(num: i64, den: i64) -> impl Fn(Rational) -> Rational {
    move |_| q(num, den)
}

#[test]
fn fractions_are_kept_in_lowest_terms() {
    assert_eq!(q(6, 4), Rational { num: 3, den: 2 });
    assert_eq!(q(-6, 4), Rational { num: -3, den: 2 });
    assert_eq!(q(6, -4), Rational { num: -3, den: 2 });
    assert_eq!(q(-6, -4), Rational { num: 3, den: 2 });
    assert_eq!(q(0, -7), Rational { num: 0, den: 1 });
    assert_eq!(q(7, 7), Rational { num: 1, den: 1 });
    assert!(q(1, 3).is_defined());
}

#[test]
fn a_zero_denominator_gives_the_mark() {
    assert_eq!(q(5, 0), Rational { num: 0, den: 0 });
    assert!(!q(5, 0).is_defined());
    assert!(!q(0, 0).is_defined());
}

#[test]
fn the_smallest_integer_fits_only_where_it_reduces() {
    assert_eq!(q(i64::MIN, 2), Rational { num: i64::MIN / 2, den: 1 });
    assert!(!q(i64::MIN, 1).is_defined());
    assert!(!q(1, i64::MIN).is_defined());
    assert_eq!(q(i64::MIN, i64::MIN), Rational { num: 1, den: 1 });
    assert_eq!(q(i64::MAX, i64::MAX), Rational { num: 1, den: 1 });
    assert_eq!(q(i64::MAX, -1), Rational { num: -i64::MAX, den: 1 });
}

#[test]
fn fraction_arithmetic_is_exact() {
    assert_eq!(q(1, 2).add(q(1, 3)), q(5, 6));
    assert_eq!(q(1, 2).sub(q(1, 3)), q(1, 6));
    assert_eq!(q(1, 3).sub(q(1, 2)), q(-1, 6));
    assert_eq!(q(2, 3).mul(q(-3, 4)), q(-1, 2));
    assert_eq!(q(2, 3).div(q(-4, 9)), q(-3, 2));
    assert_eq!(q(2, 3).neg(), q(-2, 3));
    assert_eq!(q(0, 1).neg(), q(0, 1));
    assert_eq!(q(1, 6).add(q(1, 3)), Rational { num: 1, den: 2 });
    assert_eq!(Rational::from_count(0), q(0, 1));
    assert_eq!(Rational::from_count(102), q(102, 1));
}

#[test]
fn a_quotient_by_zero_is_the_mark() {
    assert!(!q(1, 2).div(q(0, 1)).is_defined());
    assert!(!q(0, 1).div(q(0, 1)).is_defined());
}

#[test]
fn the_mark_spreads() {
    let mark = q(1, 0);
    assert!(!mark.add(q(1, 2)).is_defined());
    assert!(!q(1, 2).add(mark).is_defined());
    assert!(!mark.sub(q(1, 2)).is_defined());
    assert!(!q(1, 2).mul(mark).is_defined());
    assert!(!q(1, 2).div(mark).is_defined());
    assert!(!mark.div(q(1, 2)).is_defined());
    assert!(!mark.neg().is_defined());
    assert!(!Rational { num: 1, den: -2 }.add(q(1, 2)).is_defined());
}

#[test]
fn terms_that_do_not_fit_give_the_mark() {
    assert!(!q(i64::MAX, 1).add(q(1, 1)).is_defined());
    assert!(!q(i64::MAX, 1).mul(q(2, 1)).is_defined());
    assert!(!q(1, i64::MAX).mul(q(1, 2)).is_defined());
    assert!(!q(1, i64::MAX).add(q(1, i64::MAX - 1)).is_defined());
    assert_eq!(q(i64::MAX, 1).sub(q(1, 1)), q(i64::MAX - 1, 1));
    assert_eq!(q(i64::MAX, 2).mul(q(2, 1)), q(i64::MAX, 1));
    assert_eq!(q(i64::MAX, 1).div(q(i64::MAX, 1)), q(1, 1));
    if usize::MAX as u128 > i64::MAX as u128 {
        assert!(!Rational::from_count(usize::MAX).is_defined());
    }
}

#[test]
fn a_vector_of_fractions_is_told_from_one_with_the_mark() {
    assert!(are_fractions(&vec![]));
    assert!(are_fractions(&vec![q(1, 2), q(-3, 1), q(0, 1)]));
    assert!(!are_fractions(&vec![q(1, 2), q(1, 0), q(0, 1)]));
    assert!(!are_fractions(&vec![q(1, 2), q(3, 1), Rational { num: 1, den: -1 }]));
}

#[test]
fn grid_of_fractions() {
    assert_eq!(compute_dx(102, q(0, 1), q(1, 1)), q(1, 101));
    assert_eq!(compute_dx(5, q(-1, 2), q(3, 2)), q(1, 2));
    assert!(!compute_dx(1, q(0, 1), q(1, 1)).is_defined());
    assert_eq!(compute_x(3, q(1, 4), q(1, 1)), q(7, 4));
    assert_eq!(compute_x(0, q(1, 4), q(1, 1)), q(1, 1));
}

#[test]
fn thomas_on_fractions_is_exact() {
    let diag = vec![
        Row { lower: None, main: q(3, 10), upper: Some(q(9, 10)), rhs: q(3, 10) },
        Row { lower: Some(q(4, 10)), main: q(4, 10), upper: Some(q(2, 10)), rhs: q(-5, 10) },
        Row { lower: Some(q(6, 10)), main: q(2, 10), upper: None, rhs: q(3, 10) },
    ];
    let y = thomas_algorithm(&diag);
    assert!(are_fractions(&y));
    assert_eq!(terms(&y), vec![(-11, 7), (6, 7), (-15, 14)]);

    // The product of the matrix with the result is the right-hand side.
    let first = diag[0].main.mul(y[0]).add(diag[0].upper.unwrap().mul(y[1]));
    let second = diag[1].lower.unwrap().mul(y[0]).add(diag[1].main.mul(y[1])).add(
        diag[1].upper.unwrap().mul(y[2]),
    );
    let third = diag[2].lower.unwrap().mul(y[1]).add(diag[2].main.mul(y[2]));
    assert_eq!((first, second, third), (diag[0].rhs, diag[1].rhs, diag[2].rhs));
}

#[test]
fn thomas_on_fractions_recovers_a_vector() {
    let y = [q(2, 3), q(-5, 1), q(7, 4), q(1, 9)];
    let lower = [None, Some(q(1, 2)), Some(q(-3, 1)), Some(q(2, 5))];
    let main = [q(4, 1), q(-6, 1), q(5, 2), q(9, 1)];
    let upper = [Some(q(1, 1)), Some(q(2, 3)), Some(q(-1, 4)), None];
    let mut rows = Vec::new();
    for k in 0..4 {
        let mut rhs = main[k].mul(y[k]);
        if let Some(l) = lower[k] {
            rhs = rhs.add(l.mul(y[k - 1]));
        }
        if let Some(u) = upper[k] {
            rhs = rhs.add(u.mul(y[k + 1]));
        }
        rows.push(Row { lower: lower[k], main: main[k], upper: upper[k], rhs });
    }
    assert_eq!(thomas_algorithm(&rows), y.to_vec());
}

#[test]
fn thomas_with_a_zero_pivot_gives_the_mark() {
    let diag = vec![
        Row { lower: None, main: q(0, 1), upper: Some(q(1, 1)), rhs: q(1, 1) },
        Row { lower: Some(q(1, 1)), main: q(1, 1), upper: None, rhs: q(1, 1) },
    ];
    let y = thomas_algorithm(&diag);
    assert_eq!(y.len(), 2);
    assert!(y.iter().all(|v| !v.is_defined()));

    // The second pivot is 2 - 4 * (1 / 2).
    let diag = vec![
        Row { lower: None, main: q(2, 1), upper: Some(q(1, 1)), rhs: q(1, 1) },
        Row { lower: Some(q(4, 1)), main: q(2, 1), upper: None, rhs: q(1, 1) },
    ];
    assert!(thomas_algorithm(&diag).iter().all(|v| !v.is_defined()));
}

#[test]
fn exact_solutions_are_returned_and_no_others() {
    let diag = vec![
        Row { lower: None, main: q(3, 10), upper: Some(q(9, 10)), rhs: q(3, 10) },
        Row { lower: Some(q(4, 10)), main: q(4, 10), upper: Some(q(2, 10)), rhs: q(-5, 10) },
        Row { lower: Some(q(6, 10)), main: q(2, 10), upper: None, rhs: q(3, 10) },
    ];
    assert_eq!(solve_exactly(&diag), Some(vec![q(-11, 7), q(6, 7), q(-15, 14)]));
    assert_eq!(solve_exactly(&vec![]), Some(vec![]));

    // A zero pivot.
    let singular = vec![
        Row { lower: None, main: q(2, 1), upper: Some(q(1, 1)), rhs: q(1, 1) },
        Row { lower: Some(q(4, 1)), main: q(2, 1), upper: None, rhs: q(1, 1) },
    ];
    assert_eq!(solve_exactly(&singular), None);

    // Rows that are no system.
    let open_ended = vec![Row { lower: None, main: q(2, 1), upper: Some(q(1, 1)), rhs: q(1, 1) }];
    assert_eq!(solve_exactly(&open_ended), None);

    // A term that does not fit.
    let large = vec![
        Row { lower: None, main: q(1, i64::MAX), upper: Some(q(1, 1)), rhs: q(1, 3) },
        Row { lower: Some(q(1, 1)), main: q(1, 1), upper: None, rhs: q(1, 1) },
    ];
    assert_eq!(solve_exactly(&large), None);
}

#[test]
fn rows_of_a_problem_with_varying_coefficients() {
    // a = 1 + x, b = x, c = -1 on [0, 2] with f(0) = 1, f(2) = 2; dx = 1 / 2.
    let samples: Vec<Coefficients<Rational>> = (1..4)
        .map(|j| Coefficients { second: q(2 + j, 2), first: q(j, 2), zeroth: q(-1, 1) })
        .collect();
    let rows = discretise(&samples, q(1, 1), q(2, 1), q(1, 2), 3);
    assert_eq!(rows.len(), 3);
    assert_eq!(
        (rows[0].lower, rows[0].main, rows[0].upper, rows[0].rhs),
        (None, q(-13, 1), Some(q(9, 1)), q(-11, 2))
    );
    assert_eq!(
        (rows[1].lower, rows[1].main, rows[1].upper, rows[1].rhs),
        (Some(q(11, 2)), q(-17, 1), Some(q(23, 2)), q(0, 1))
    );
    assert_eq!(
        (rows[2].lower, rows[2].main, rows[2].upper, rows[2].rhs),
        (Some(q(7, 1)), q(-21, 1), None, q(-23, 1))
    );
    let y = solve_sampled(&samples, q(1, 1), q(2, 1), q(1, 2), 3);
    assert_eq!(terms(&y), vec![(3121, 2044), (3259, 2044), (475, 292)]);
}

#[test]
fn solve_ode_on_fractions_is_exact() {
    let fn2 = constant(3, 2);
    let fn1 = constant(5, 1);
    let fnc = constant(3, 2);
    let solve = |n: usize| terms(&solve_ode(&fn2, &fn1, &fnc, q(0, 1), q(1, 1), q(0, 1), q(1, 1), n));
    assert_eq!(solve(0), vec![]);
    assert_eq!(solve(1), vec![(22, 21)]);
    assert_eq!(solve(2), vec![(196, 233), (238, 233)]);
    assert_eq!(solve(3), vec![(314432, 450213), (4624, 4841), (458660, 450213)]);
    assert_eq!(
        solve(4),
        vec![
            (100000000, 167813881),
            (147000000, 167813881),
            (166090000, 167813881),
            (170652300, 167813881)
        ]
    );
}

#[test]
fn solve_ode_on_fractions_evaluates_at_the_nodes() {
    let fn2 = |x: Rational| q(1, 1).add(x);
    let fn1 = |x: Rational| x;
    let fnc = |_: Rational| q(-1, 1);
    let y = solve_ode(&fn2, &fn1, &fnc, q(1, 1), q(2, 1), q(0, 1), q(2, 1), 3);
    assert_eq!(terms(&y), vec![(3121, 2044), (3259, 2044), (475, 292)]);
}

#[test]
fn solution_on_fractions_is_exactly_linear_in_the_boundary_values() {
    let fn2 = |x: Rational| q(1, 1).add(x);
    let fn1 = |x: Rational| x;
    let fnc = |_: Rational| q(-1, 1);
    let solve = |alpha: Rational, beta: Rational| {
        solve_ode(&fn2, &fn1, &fnc, alpha, beta, q(0, 1), q(2, 1), 3)
    };
    let left = solve(q(1, 1), q(0, 1));
    let right = solve(q(0, 1), q(1, 1));
    assert_eq!(terms(&left), vec![(869, 1460), (363, 1460), (121, 1460)]);
    assert_eq!(terms(&right), vec![(4761, 10220), (6877, 10220), (1127, 1460)]);
    for (alpha, beta) in [(q(2, 1), q(-3, 1)), (q(1, 3), q(5, 7)), (q(-4, 1), q(0, 1))] {
        let y = solve(alpha, beta);
        for k in 0..3 {
            assert_eq!(y[k], alpha.mul(left[k]).add(beta.mul(right[k])));
        }
    }
    assert_eq!(terms(&solve(q(2, 1), q(-3, 1))), vec![(-29, 140), (-213, 140), (-43, 20)]);
}

#[test]
fn a_long_exact_run_ends_in_the_mark_and_keeps_the_length() {
    let fn2 = constant(3, 2);
    let fn1 = constant(5, 1);
    let fnc = constant(3, 2);
    let y = solve_ode(&fn2, &fn1, &fnc, q(0, 1), q(1, 1), q(0, 1), q(1, 1), 100);
    assert_eq!(y.len(), 100);
    assert!(!are_fractions(&y));
}
