//! Relaying of Telegram posts into Discord webhooks.
pub mod album;
pub mod backfill;
pub mod chunks;
pub mod cli;
pub mod config;
pub mod contracts;
pub mod dedup;
pub mod deliver;
pub mod diagram;
pub mod hash;
pub mod identity;
pub mod json;
pub mod latency;
pub mod live;
pub mod media;
pub mod names;
pub mod ops;
pub mod raw;
pub mod reactions;
pub mod refresh;
pub mod relay;
pub mod render;
pub mod report;
pub mod router;
pub mod scrub;
pub mod sending;
pub mod store;
pub mod telegram;
pub mod text;
