//! Arguments of a server node.
use vstd::prelude::*;

verus! {

/// How a node is started.
#[derive(Debug, PartialEq, Eq)]
pub struct StartArgs {
    /// Own address, used for UDP and TCP alike.
    pub host: String,
    /// Capabilities (actions) of the node, each entry one or more separated by commas.
    pub capabilities: Vec<String>,
    /// Bootstrap peers.
    pub peers: Vec<String>,
    /// File to read recipes from.
    pub recipes_file: Option<String>,
}

} // verus!
