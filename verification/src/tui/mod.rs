//! The interactive interface: its state, its commands and what it shows.
pub mod app;
pub mod command;
pub mod ui;
