//! Profile-based compositor launch configuration.
//!
//! Resolves a named launch profile against a monitor description into a fully
//! merged set of compositor options and environment variables, and derives
//! the argument list and environment listing needed to run it.

pub mod assoc;
pub mod command;
pub mod config;
pub mod numfmt;
pub mod order;
pub mod profile;
