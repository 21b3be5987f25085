//! A persistent address book: records keyed by name, kept in an ordered map
//! that lives in one virtual memory of a stable, page-addressed byte region.

pub mod book;
pub mod codec;
pub mod tree;
