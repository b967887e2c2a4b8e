//! Verified core of a Miller-columns file explorer: directory listings, their
//! order, the column and selection state, and the rules behind file
//! operations, launching and git badges.
pub mod fs;
pub mod pathmap;
pub mod state;
pub mod sort;
pub mod text;
pub mod paths;
pub mod git;
pub mod launch;
pub mod ops;
pub mod actions;
pub mod preview;
pub mod scheduler;
pub mod commands;
