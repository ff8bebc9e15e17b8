//! The exporter: what it offers, whom it lets in, and what it answers.
pub mod args;
pub mod chord;
pub mod config;
pub mod export;
pub mod ledger;
pub mod names;
pub mod prefetch;
pub mod registry;
pub mod session;
pub mod toggle;
