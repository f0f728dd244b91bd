//! Calibration equations: a target total and a list of factors, combined
//! left to right with a choice of operator at each step. The first variant
//! allows `+` and `*`; the second also allows gluing the decimal digits of
//! the next factor onto the running total.

pub mod part1;
pub mod part2;
