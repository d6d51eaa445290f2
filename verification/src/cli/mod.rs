//! The command line: its arguments as plain values, and what the client commands do.
pub mod client;
pub mod client_impl;
pub mod start;
