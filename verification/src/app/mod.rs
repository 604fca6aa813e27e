//! Search, ranking and the application's state.

pub mod catalog;
pub mod distance;
pub mod ranking;
pub mod search;
pub mod state;
