//! Divisors of points on a short Weierstrass curve `y^2 = x^3 + a x + b` over
//! a prime field, as functions `A(x) - y B(x)` kept in evaluation form, with
//! the multiplication, exact division and merge that build a divisor for a set
//! of points from those of its parts.

pub mod field;
pub mod evals;
pub mod divisor;
pub mod poly;
