//! A simulated address-resolving bridge: a learned cache, frames held while their
//! destination is resolved, an authoritative resolver, a traffic schedule, and the telemetry
//! recorded along the way.

pub mod types;
pub mod holder;
pub mod stat;
pub mod bridge;
pub mod facility;
pub mod schedule;
pub mod text;
pub mod export;
