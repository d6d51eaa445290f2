//! A decentralised pizza factory.
//!
//! Nodes announce their capabilities and recipes to each other, take orders and pass them on
//! until every action of the recipe has been executed.
pub mod cli;
pub mod clock;
pub mod ids;
pub mod network;
pub mod node;
pub mod number;
pub mod order;
pub mod protocol;
pub mod recipe;
pub mod server;
pub mod store;
pub mod string_map;
pub mod text;
pub mod text_facts;
pub mod tui;
