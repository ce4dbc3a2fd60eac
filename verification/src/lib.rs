//! Shared origins for live broadcasts.

pub mod announce;
pub mod cache;
pub mod coding;
pub mod dynamic;
pub mod error;
pub mod front;
pub mod handle;
pub mod heap;
pub mod history;
pub mod lifecycle;
pub mod node;
pub mod nodes;
pub mod origin;
pub mod path;
pub mod route;
pub mod serve;
pub mod time;
pub mod tree;
