//! What the exporter and the importing daemon share.
pub mod log;
pub mod mdns;
pub mod netif;
pub mod signal;
