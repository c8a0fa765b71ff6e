//! The compressed representation: blocks of events, their residuals, and
//! the entropy coder that writes them.

pub mod adu;
pub mod blocks;
pub mod fenwick;
pub mod stream;
