//! Verified request handling for a LAN file-sharing server: parsing of URLs,
//! queries and cookies, path resolution that never leaves the shared root,
//! the session gate, routing, the JSON bodies, and the recent-clips ring.

pub mod auth;
pub mod bridge;
pub mod clips;
pub mod json;
pub mod route;
pub mod search;
pub mod server;
pub mod text;
pub mod url;
