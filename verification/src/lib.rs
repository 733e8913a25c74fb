//! Verified core of a GitHub contents MCP server: tree expansion and
//! assembly, content windowing, line-range parsing, and the plain data
//! shapes the tools exchange.

pub mod cli;
pub mod client;
pub mod error;
pub mod models;
pub mod tree;
pub mod window;

pub use models::default_depth;
