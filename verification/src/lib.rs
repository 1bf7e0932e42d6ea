//! Verified core of a chat-history scoring pipeline.
//!
//! The library ingests a guild's message history: it paginates each channel's
//! backlog through a cursor-based remote source, deduplicates against stored
//! state, scores every message with an anti-spam rolling window, resolves
//! reply chains (fetching and inserting missing ancestors), and accumulates
//! per-guild, per-channel and per-user score and count deltas that are flushed
//! as upserts at the end of a run.
//!
//! All remote and storage traffic is kept outside the library: callers perform
//! the fetches and persist the rows, while every decision — what to fetch next,
//! what a message scores, which rows to create, what the aggregates become —
//! is made here, under contract.

pub mod cache;
pub mod deltas;
pub mod ingest;
pub mod math;
pub mod msg;
pub mod paginator;
pub mod remote;
pub mod resolver;
pub mod score;
pub mod store;
pub mod table;
pub mod windows;
pub mod words;
