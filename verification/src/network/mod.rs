//! Framing on TCP and gossip over UDP.
pub mod tcp;
pub mod udp;
