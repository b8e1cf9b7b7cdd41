//! What layout and painting are for, in terms of what goes in and what comes
//! out.
//!
//! The laws speak of geometry in steps of a binary grid (see [`crate::grid`]),
//! where sums need no rounding.
pub mod boxes;
pub mod borders;
pub mod moving;
pub mod sizes;
pub mod lines;
pub mod columns;
pub mod painting;
pub mod holding;
pub mod leaves;
pub mod flowing;
pub mod hitting;
pub mod texts;
pub mod cutting;
pub mod blocks;
pub mod stacking;
pub mod seats;
pub mod rules;
pub mod tiles;
