//! What a node does with the requests that it gets over TCP.
pub mod handlers;
pub mod tcp;
