//! Verified core of a distributed knowledge seeder: text cleaning and
//! chunking, content-hash deduplication, per-source batching state machines,
//! rate limiting and worker decisions.

pub mod domain;
pub mod text;
pub mod chunk;
pub mod digest;
pub mod node;
pub mod pipeline;
pub mod strs;
pub mod html;
pub mod clean;
pub mod sources;
pub mod error;
pub mod topics;
pub mod ratelimit;
pub mod header;
pub mod worker;
pub mod refill;
pub mod placeholder;
pub mod swarm;
