//! Events of the main loop and what each does to the state.

pub mod run;
