//! The resolution core of a read-only HTTP file server that serves one URL
//! namespace from several directories per URL prefix: configuration checks,
//! path sanitizing, the longest-prefix router, the search strategies over the
//! roots of a location, and the replies.

pub mod config;
pub mod path;
pub mod respond;
pub mod search;
pub mod text;
