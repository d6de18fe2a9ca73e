//! A solver for linear second-order boundary-value problems
//!
//! ```text
//! a(x) f''(x) + b(x) f'(x) + c(x) f(x) = 0,    f(x_min) = alpha,  f(x_max) = beta
//! ```
//!
//! on a uniform grid. Centred differences turn the problem into a tridiagonal
//! linear system, which the Thomas algorithm solves in one forward sweep and
//! one back substitution.
//!
//! The solver is generic over its number type ([`scalar::Scalar`]). Each
//! function states which arithmetic expression every entry of its result is,
//! operation by operation and in the order in which it is computed:
//!
//! - [`grid`]: the step of the grid and the coordinates of its nodes;
//! - [`tridiagonal`]: rows of a tridiagonal system and the Thomas algorithm;
//! - [`ode`]: the discretisation and [`solve_ode`].
//!
//! What these expressions amount to is proved where the arithmetic is exact:
//!
//! - [`exact`]: over the real numbers the Thomas algorithm solves its system,
//!   recovers a vector from its product with the matrix, and is linear in the
//!   right-hand side, hence the solution in the boundary values;
//! - [`rational`]: fractions of machine integers, a number type whose
//!   operations are exact wherever their result is a fraction;
//! - [`refinement`]: a run of the solver on such fractions that ends in
//!   fractions has computed the solution over the reals;
//! - [`algebra`]: the identities of real arithmetic behind these proofs.

pub mod algebra;
pub mod exact;
pub mod grid;
pub mod ode;
pub mod rational;
pub mod refinement;
pub mod scalar;
pub mod tridiagonal;

pub use crate::grid::{compute_dx, compute_x};
pub use crate::ode::{solve_ode, Coefficients};
pub use crate::rational::Rational;
pub use crate::scalar::{Arithmetic, Scalar};
pub use crate::tridiagonal::{is_well_formed, thomas_algorithm, Row};
