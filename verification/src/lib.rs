//! An exact-arithmetic simplex solver for linear programs in standard and
//! slack form, following the classical two-phase dictionary method with
//! Bland's pivoting rule.
//!
//! The fundamental theorem of linear programming: any linear program, given
//! in standard form, either
//! 1. has an optimal solution with a finite objective value,
//! 2. is infeasible, or
//! 3. is unbounded.

pub mod builder;
pub mod frac;
pub mod rat;
pub mod simplex;
pub mod slack;
pub mod standard;
pub mod utils;

pub use builder::StandardFormBuilder;
pub use slack::SlackFormLP;
pub use standard::StandardFormLP;
