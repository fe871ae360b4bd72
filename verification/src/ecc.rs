//! Elliptic-curve arithmetic on witnessed coordinates: the group law as
//! field formulas, the rows that each operation witnesses, the polynomial
//! identities that those rows satisfy and what the identities force, and
//! the multiples that the multiplications give where the formulas add as a
//! group's law does.

pub mod add;
pub mod add_complete;
pub mod chip;
pub mod config;
pub mod curve;
pub mod decompose;
pub mod double;
pub mod error;
pub mod fixed_base;
pub mod forced;
pub mod forced_rows;
pub mod gates;
pub mod group_table;
pub mod interpolate;
pub mod layout;
pub mod mul;
pub mod mul_fixed;
pub mod mul_fixed_short;
pub mod multiples;
pub mod poly;
pub mod satisfy;
pub mod satisfy_mul;
pub mod satisfy_rows;
pub mod window_points;
