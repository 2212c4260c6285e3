//! Drive a build tool across every relevant combination of a package's
//! optional feature flags.
//!
//! The crate decides which feature combinations to build for a package
//! (the combination engine), resolves the configuration that shapes that
//! decision, scans captured build output for warning and error totals,
//! and turns per-run outcomes into a final report and exit code.
//! Spawning the build tool and all terminal output live outside this
//! crate.

pub mod args;
pub mod config;
pub mod engine;
pub mod features;
pub mod fset;
pub mod laws;
pub mod order;
pub mod runner;
pub mod scan;
pub mod workspace;
