//! A local cache that mirrors notes ("memos") from a remote, cursor-paged
//! list service: a verified in-memory store with idempotent upserts and
//! ordered, searchable reads, the decision logic of an incremental sync,
//! request signing, remote-search filtering and export formats.

pub mod text;
pub mod memo;
pub mod store;
pub mod engine;
pub mod client;
pub mod filter;
pub mod export;
