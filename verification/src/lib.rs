//! Fixed-point decimal arithmetic of static precision `N` (digits after the
//! point), stored as a scaled big integer, together with two iterative
//! solvers that compute `sqrt(2)` and `pi` to that precision.

pub mod num;
pub mod engine;
pub mod decimal;
pub mod solvers;
