//! Opt-in diagnostics upload service: the rules that decide what is accepted,
//! redacted, stored, listed and handed out.

pub mod api;
pub mod clock;
pub mod config;
pub mod disk;
pub mod order;
pub mod redact;
pub mod report;
pub mod runs;
pub mod store;
pub mod text;
