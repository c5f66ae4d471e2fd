//! Finds, ranks and reclaims the disk space that development projects eat.
//!
//! This crate holds every decision of the tool: what a project is, what may be
//! deleted inside it, what getting it back costs, in which order the targets are
//! offered, and how all of that is laid out as text. Nothing here touches the
//! disk, the terminal or another process.
pub mod balance;
pub mod binary64;
pub mod chart;
pub mod cli;
pub mod deals;
pub mod deletion;
pub mod detector;
pub mod discovery;
pub mod figures;
pub mod findings;
pub mod git;
pub mod lengths;
pub mod links;
pub mod markers;
pub mod page;
pub mod palette;
pub mod paths;
pub mod prose;
pub mod ranking;
pub mod rates;
pub mod reclaim;
pub mod report;
pub mod roots;
pub mod scan;
pub mod sizing;
pub mod sorting;
pub mod tally;
pub mod text;
pub mod tui;
pub mod worth;
