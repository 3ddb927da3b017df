//! A finite-domain constraint solver over bounded integer variables.
//!
//! Variables carry interval domains, constraints prune those domains through
//! bounds-consistent propagators, and a depth-first branch-and-prune search
//! enumerates or optimizes assignments.
use vstd::prelude::*;

pub mod vars;
pub mod views;
pub mod props;
pub mod search;
pub mod model;
pub mod solution;

pub use crate::vars::{Context, Var, VarId, VarIdBinary, Vars};
pub use crate::model::{Model, Strategy};
pub use crate::solution::Solution;
pub use crate::views::{Term, ViewExt};
