//! Search for the smallest starting values whose Collatz chains run longer
//! than a target, on precomputed tables that advance a chain by many steps at
//! once.

pub mod aggregate;
pub mod cache;
pub mod collatz;
pub mod evaluation;
pub mod jump;
pub mod output;
pub mod problem;
pub mod scan;
pub mod search;
