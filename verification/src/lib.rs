//! A geometric constraint solver based on intersecting geometry.
//!
//! Solving is done in steps:
//!
//! 1. Create a new [`Figure`] and give it points.
//! 2. Add [constraints][constraints::Constraint] on tuples of points.
//! 3. [Order][order] the figure: find the sequence in which the points can
//!    be placed, each by [operations][constraints::TargetedConstraint] that
//!    [targeting] derives from the constraints and that name only points
//!    placed before.
//! 4. [Solve][solve] the order: search the candidate positions of the
//!    points in that sequence, going back where a point has none.
//!
//! Everything here works on point and constraint ids. The coordinates are
//! computed by the caller, who reports to the search how many candidate
//! positions a step has.
//!
//! The modules [order_laws], [closure] and [solve_laws] state and prove what
//! holds of every order and of every search.

pub mod closure;
pub mod constraints;
pub mod figure;
pub mod order;
pub mod order_laws;
pub mod solve;
pub mod solve_laws;
pub mod targeting;
pub mod util;

pub use figure::{Figure, CID, PID};
