//! USB devices shared between machines over USB/IP.
pub mod attach;
pub mod backend;
pub mod bridge;
pub mod common;
pub mod errno;
pub mod proto;
pub mod server;
pub mod text;
