//! Arguments of the client.
use vstd::prelude::*;

verus! {

/// Arguments for the external TCP client mode.
#[derive(Debug, PartialEq, Eq)]
pub struct ClientArgs {
    /// Target peer TCP address (`host:port`).
    pub peer: String,
    /// Client subcommand to execute.
    pub command: ClientCommands,
}

/// Supported client operations against a remote node.
#[derive(Debug, PartialEq, Eq)]
pub enum ClientCommands {
    /// Place an order for a recipe on a peer.
    Order { recipe: String },
    /// List available recipes from a peer.
    ListRecipes,
    /// Get a specific recipe from a peer.
    GetRecipe { recipe: String },
}

} // verus!
