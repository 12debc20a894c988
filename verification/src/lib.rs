//! Wishes (goals with a deadline) and the small tasks that lead to them.
pub mod calc;
pub mod laws;
pub mod models;
