//! The snapshot's data model and the checks made on a fetched response.

pub mod client;
pub mod models;
