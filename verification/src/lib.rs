//! Bookkeeping for a node that downloads blocks from several peers at once.

pub mod api;
pub mod blocks;
pub mod keys;
pub mod laws;
pub mod lemmas;
pub mod model;
pub mod walk;
