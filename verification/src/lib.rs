//! Reconciliation of DNS records declared by authoritative backends against
//! managed DNS zones, built around a verified diff engine, a longest-suffix
//! domain router, and a sync orchestrator.

pub mod backends;
pub mod cloudflare;
pub mod comparison;
pub mod config;
pub mod errors;
pub mod net;
pub mod records;
pub mod router;
pub mod service;
pub mod text;
