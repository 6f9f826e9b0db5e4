//! Fixed-point GPS trajectory processing.
//!
//! Raw samples with decimal coordinates become a [`trajectory::Trajectory`]:
//! three parallel sequences of microdegrees and seconds. [`simplify::simplify`]
//! marks the samples that the Douglas-Peucker criterion keeps at a given
//! tolerance, [`filter::filter`] applies such a mask, and [`delta`] turns a
//! sequence into first differences and back.
//!
//! Every executable function carries a contract over a mathematical model of
//! its arguments, and every contract is proved, except those of the few
//! functions that call `rust_decimal` or `chrono`: their doc comments say
//! what is taken on trust.

pub mod decimal;
pub mod delta;
pub mod error;
pub mod filter;
pub mod idempotence;
pub mod point;
pub mod proto;
pub mod simplify;
pub mod trajectory;
pub mod wide;
