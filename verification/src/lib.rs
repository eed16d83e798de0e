//! Ingestion and reconstruction engine for multi-channel biosignal telemetry.
//!
//! Raw wire frames are decoded into counter-ordered payloads held by bounded
//! sessions; a deterministic, seeded downsampling mask later selects which
//! sample positions the timestamp and channel-value read paths hand back to
//! the host.

pub mod errors;
pub mod laws;
pub mod measurement;
pub mod payload;
pub mod sampling;
pub mod store;
