//! A numeric grid whose columns are either measured inputs (a value and its
//! uncertainty) or formulas over the columns to their right, with a
//! deterministic worst-case propagation of the input uncertainties.
//!
//! The number type of the grid is a parameter: the arithmetic on it and the
//! expression evaluator are handed in by the caller, and every operation here
//! is proved against what those callbacks return.

pub mod column;
pub mod odometer;
pub mod sheet;
pub mod evaluate;
pub mod parse;
pub mod propagate;
