use approx::AbsDiff;
use second_order_ode::scalar::{Arithmetic, Scalar};
use second_order_ode::{is_well_formed, thomas_algorithm};
use second_order_ode::tridiagonal::Row;

/// Double precision as the solver's number type.
#[derive(Clone, Copy, Debug, PartialEq)]
struct Float(f64);

impl Arithmetic for Float {
    fn of_count(n: usize) -> Self {
        Float(n as f64)
    }

    fn plus(self, rhs: Self) -> Self {
        Float(self.0 + rhs.0)
    }

    fn minus(self, rhs: Self) -> Self {
        Float(self.0 - rhs.0)
    }

    fn times(self, rhs: Self) -> Self {
        Float(self.0 * rhs.0)
    }

    fn over(self, rhs: Self) -> Self {
        Float(self.0 / rhs.0)
    }

    fn negated(self) -> Self {
        Float(-self.0)
    }
}

impl Scalar for Float {
    fn from_count(n: usize) -> Self {
        Self::of_count(n)
    }

    fn add(self, rhs: Self) -> Self {
        self.plus(rhs)
    }

    fn sub(self, rhs: Self) -> Self {
        self.minus(rhs)
    }

    fn mul(self, rhs: Self) -> Self {
        self.times(rhs)
    }

    fn div(self, rhs: Self) -> Self {
        self.over(rhs)
    }

    fn neg(self) -> Self {
        self.negated()
    }
}

fn row(lower: Option<f64>, main: f64, upper: Option<f64>, rhs: f64) -> Row<Float> {
    Row { lower: lower.map(Float), main: Float(main), upper: upper.map(Float), rhs: Float(rhs) }
}

fn values(solution: &[Float]) -> Vec<f64> {
    solution.iter().map(|v| v.0).collect()
}

/// The largest entry of `A y - d`, and the largest entry of `d`.
fn residual(rows: &[Row<Float>], y: &[f64]) -> (f64, f64) {
    let mut worst: f64 = 0.0;
    let mut scale: f64 = 0.0;
    for (k, r) in rows.iter().enumerate() {
        let mut sum = r.main.0 * y[k];
        if let Some(l) = r.lower {
            sum += l.0 * y[k - 1];
        }
        if let Some(u) = r.upper {
            sum += u.0 * y[k + 1];
        }
        worst = worst.max((sum - r.rhs.0).abs());
        scale = scale.max(r.rhs.0.abs());
    }
    (worst, scale)
}

/// A diagonally dominant matrix of `n` rows with a zero right-hand side.
fn dominant_matrix(n: usize) -> Vec<Row<Float>> {
    let mut rows = Vec::new();
    for k in 0..n {
        let t = k as f64;
        let lower = if k == 0 { None } else { Some(1.0 + 0.25 * t) };
        let upper = if k + 1 == n { None } else { Some(-2.0 + 0.5 * t) };
        rows.push(row(lower, 7.5 + t, upper, 0.0));
    }
    rows
}

#[test]
fn test_thomas_algorithm() {
    let mut diag: Vec<Row<Float>> = vec![];
    diag.push(row(None, 0.3, Some(0.9), 0.3));
    diag.push(row(Some(0.4), 0.4, Some(0.2), -0.5));
    diag.push(row(Some(0.6), 0.2, None, 0.3));
    let expected: Vec<f64> = vec![-1.5714286, 0.8571429, -1.0714286];
    let result = values(&thomas_algorithm(&diag));
    assert_eq!(result.len(), expected.len());
    for (res, ex) in result.iter().zip(expected.iter()) {
        assert!(AbsDiff::default().epsilon(0.000001).eq(res, ex));
    }
}

#[test]
fn systems_are_told_from_other_rows() {
    assert!(is_well_formed(&Vec::<Row<Float>>::new()));
    assert!(is_well_formed(&vec![row(None, 1.0, None, 1.0)]));
    assert!(is_well_formed(&vec![row(None, 1.0, Some(1.0), 1.0), row(Some(1.0), 1.0, None, 1.0)]));
    assert!(is_well_formed(&dominant_matrix(7)));

    assert!(!is_well_formed(&vec![row(Some(1.0), 1.0, None, 1.0)]));
    assert!(!is_well_formed(&vec![row(None, 1.0, Some(1.0), 1.0)]));
    assert!(!is_well_formed(&vec![row(None, 1.0, None, 1.0), row(Some(1.0), 1.0, None, 1.0)]));
    assert!(!is_well_formed(&vec![row(None, 1.0, Some(1.0), 1.0), row(None, 1.0, None, 1.0)]));
    assert!(!is_well_formed(&vec![
        row(None, 1.0, Some(1.0), 1.0),
        row(Some(1.0), 1.0, None, 1.0),
        row(Some(1.0), 1.0, None, 1.0),
    ]));
}

#[test]
fn thomas_of_no_rows_is_empty() {
    let diag: Vec<Row<Float>> = vec![];
    assert!(thomas_algorithm(&diag).is_empty());
}

#[test]
fn thomas_of_a_single_row_divides_once() {
    let diag = vec![row(None, 4.0, None, 10.0)];
    assert_eq!(values(&thomas_algorithm(&diag)), vec![2.5]);
}

#[test]
fn thomas_of_two_rows_follows_the_sweep() {
    // c'0 = 1 / 2, d'0 = 3 / 2, pivot = 4 - 1 * 1/2, d'1 = (5 - 3/2) / (7/2) = 1,
    // y0 = 3/2 - 1/2 * 1.
    let diag = vec![row(None, 2.0, Some(1.0), 3.0), row(Some(1.0), 4.0, None, 5.0)];
    assert_eq!(values(&thomas_algorithm(&diag)), vec![1.0, 1.0]);
}

#[test]
fn thomas_keeps_the_length() {
    for n in 1..40 {
        let mut rows = dominant_matrix(n);
        for r in rows.iter_mut() {
            r.rhs = Float(1.0);
        }
        assert_eq!(thomas_algorithm(&rows).len(), n);
    }
}

#[test]
fn thomas_leaves_a_small_residual() {
    let mut rows = dominant_matrix(50);
    for (k, r) in rows.iter_mut().enumerate() {
        r.rhs = Float(((k * 37 % 11) as f64) - 5.0);
    }
    let y = values(&thomas_algorithm(&rows));
    let (worst, scale) = residual(&rows, &y);
    assert!(scale > 0.0);
    assert!(worst <= 1e-9 * scale);
}

#[test]
fn thomas_recovers_the_vector_of_a_product() {
    let mut rows = dominant_matrix(30);
    let y: Vec<f64> = (0..30).map(|k| ((k * 7 % 13) as f64) * 0.5 - 3.0).collect();
    for k in 0..30 {
        let mut sum = rows[k].main.0 * y[k];
        if let Some(l) = rows[k].lower {
            sum += l.0 * y[k - 1];
        }
        if let Some(u) = rows[k].upper {
            sum += u.0 * y[k + 1];
        }
        rows[k].rhs = Float(sum);
    }
    let found = values(&thomas_algorithm(&rows));
    assert_eq!(found.len(), y.len());
    for (f, e) in found.iter().zip(y.iter()) {
        assert!(AbsDiff::default().epsilon(1e-9).eq(f, e));
    }
}

#[test]
fn thomas_with_a_zero_pivot_is_not_finite() {
    let diag = vec![row(None, 0.0, Some(1.0), 1.0), row(Some(1.0), 1.0, None, 1.0)];
    let y = values(&thomas_algorithm(&diag));
    assert_eq!(y.len(), 2);
    assert!(y.iter().any(|v| !v.is_finite()));
}

#[test]
fn thomas_gives_the_same_bits_twice() {
    let mut rows = dominant_matrix(25);
    for (k, r) in rows.iter_mut().enumerate() {
        r.rhs = Float(0.1 * (k as f64) - 1.0);
    }
    let one = values(&thomas_algorithm(&rows));
    let other = values(&thomas_algorithm(&rows));
    for (a, b) in one.iter().zip(other.iter()) {
        assert_eq!(a.to_bits(), b.to_bits());
    }
}
