//! Announcing the remote server on the local network and answering searches
//! for it.

pub mod engine;
pub mod listener;
pub mod packet;
pub mod utils;
