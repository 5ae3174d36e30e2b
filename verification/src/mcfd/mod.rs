//! The `mcfd` host bridge: the request records datapacks write into the
//! Minecraft log, the capability handlers that answer them, and the
//! decisions of the background service.

pub mod snbt;
pub mod config;
pub mod bridge;
pub mod handlers;
