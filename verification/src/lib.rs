//! A verified shopping-list core: exact rational quantities with unit tags,
//! reference resolution across record sets, demand aggregation over a meal
//! plan, shortfall against inventory, and a department-ordered report.

mod gcd;
pub mod catalog;
pub mod demand;
pub mod errors;
pub mod mapping;
pub mod pipeline;
pub mod plan;
pub mod quantity;
pub mod recipe;
pub mod report;
pub mod shortfall;
pub mod token;
