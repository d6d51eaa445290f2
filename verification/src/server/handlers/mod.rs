//! The requests, one module each.
pub mod deliver;
pub mod listing;
pub mod lookup;
pub mod order;
pub mod process;
pub mod task;
pub use deliver::handle_deliver;
pub use listing::handle_list_recipes;
pub use lookup::handle_get_recipe;
pub use order::handle_order;
pub use process::apply_action;
pub use process::handle_process_payload;
pub use process::KNOWN_ACTIONS;
