//! Fuzzy search and selection state for a market-data terminal client.

pub mod api;
pub mod app;
pub mod events;
pub mod util;
