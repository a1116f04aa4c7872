//! What the operations are for: what their results have to satisfy, and how the
//! results of two calls relate.

pub mod driver;
pub mod finding;
pub mod leaf;
pub mod places;
pub mod planning;
pub mod reading;
pub mod roads;
pub mod texts;
pub mod together;
pub mod trouble;
pub mod watching;
