//! Verified core of a command-line anime catalogue browser and downloader.

pub mod text;
pub mod scan;
pub mod sources;
pub mod numbers;
pub mod config;
pub mod data;
pub mod anime;
pub mod cli;
