//! The importing side: keeps devices of other machines attached to this one.
pub mod args;
pub mod client;
pub mod config;
pub mod daemon;
pub mod report;
pub mod toml;
pub mod vhci;
