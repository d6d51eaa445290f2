//! The messages that nodes and clients exchange.
use crate::ids;
use crate::ids::hyphenate;
use crate::order;
use crate::order::compare;
use crate::order::Rank;
use crate::string_map;
use crate::string_map::copy_text_map;
use crate::string_map::StringMap;
use crate::text;
use crate::text::copy_texts;
use std::collections::HashMap;
use vstd::prelude::*;

verus! {

// ── Tagged values ────────────────────────────────────────────────────────────

/// A value that carries the tag `TAG` on the wire.
#[derive(Debug, PartialEq, Eq)]
pub struct Required<T, const TAG: u64>(pub T);

impl<T: View, const TAG: u64> View for Required<T, TAG> {
    type V = T::V;

    open spec fn view(&self) -> T::V {
        self.0@
    }
}

/// UUID value, tagged 37.
pub type TaggedUuid = Required<String, 37>;

/// Node address, tagged 260.
pub type NodeAddr = Required<String, 260>;

/// Last-seen map, tagged 1001.
pub type TaggedLastSeen = Required<LastSeenMap, 1001>;

impl<const TAG: u64> Clone for Required<String, TAG> {
    fn clone(&self) -> (r: Self)
        ensures
            r@ == self@,
    {
        Required(self.0.clone())
    }
}

impl Clone for TaggedLastSeen {
    fn clone(&self) -> (r: Self)
        ensures
            r@ == self@,
    {
        Required(self.0.clone())
    }
}

/// Creates a tagged UUID value from the 128 bits of a UUID.
pub fn uuid(value: u128) -> (r: TaggedUuid)
    ensures
        r@ == ids::hyphenated(value),
{
    Required(hyphenate(value))
}

/// Creates a tagged node address value.
pub fn addr(value: &str) -> (r: NodeAddr)
    ensures
        r@ == value@,
{
    Required(value.to_string())
}

/// The addresses as tagged values, in the same order.
pub fn addrs(values: &Vec<String>) -> (r: Vec<NodeAddr>)
    ensures
        text::views(r@) == text::views(values@),
{
    let mut out: Vec<NodeAddr> = Vec::new();
    for i in 0..values.len()
        invariant
            out@.len() == i,
            forall|j: int| 0 <= j < i ==> (#[trigger] out@[j])@ == values@[j]@,
    {
        out.push(Required(values[i].clone()));
    }
    assert(text::views(out@) =~= text::views(values@));
    out
}

/// Last-seen timestamps, keyed by address or by number depending on the sender.
#[derive(Debug, PartialEq, Eq)]
pub enum LastSeenMap {
    /// Address to timestamp.
    ByAddress(StringMap<u64>),
    /// Number to timestamp part.
    ByCode(HashMap<i64, u64>),
}

/// What a [`LastSeenMap`] holds.
#[verifier::ext_equal]
pub enum LastSeenView {
    ByAddress(Map<Seq<char>, u64>),
    ByCode(Map<i64, u64>),
}

impl View for LastSeenMap {
    type V = LastSeenView;

    open spec fn view(&self) -> LastSeenView {
        match self {
            LastSeenMap::ByAddress(m) => LastSeenView::ByAddress(m@),
            LastSeenMap::ByCode(m) => LastSeenView::ByCode(m@),
        }
    }
}

impl Clone for LastSeenMap {
    fn clone(&self) -> (r: Self)
        ensures
            r@ == self@,
    {
        match self {
            LastSeenMap::ByAddress(m) => {
                let c = m.clone();
                assert forall|k: Seq<char>| c@.contains_key(k) implies c@[k] == m@[k] by {
                    assert(string_map::cloned_at(*m, c, k));
                }
                assert(c@ =~= m@);
                LastSeenMap::ByAddress(c)
            },
            LastSeenMap::ByCode(m) => LastSeenMap::ByCode(m.clone()),
        }
    }
}

// ── Versions ─────────────────────────────────────────────────────────────────

/// Version of a node's gossip state.
#[derive(Debug, Clone, Copy, PartialEq, Eq, Structural)]
pub struct Version {
    /// Logical counter incremented over time.
    pub counter: u64,
    /// Generation timestamp for version ordering.
    pub generation: u64,
}

// ── Orders ───────────────────────────────────────────────────────────────────

/// One action in a recipe execution sequence.
#[derive(Debug, PartialEq, Eq)]
pub struct ActionDef {
    /// Action name, e.g. `MakeDough`.
    pub name: String,
    /// Named action parameters.
    pub params: StringMap<String>,
}

/// What an [`ActionDef`] holds.
#[verifier::ext_equal]
pub struct ActionView {
    pub name: Seq<char>,
    pub params: Map<Seq<char>, Seq<char>>,
}

impl View for ActionDef {
    type V = ActionView;

    open spec fn view(&self) -> ActionView {
        ActionView { name: self.name@, params: self.params@ }
    }
}

impl Clone for ActionDef {
    fn clone(&self) -> (r: Self)
        ensures
            r@ == self@,
    {
        ActionDef { name: self.name.clone(), params: copy_text_map(&self.params) }
    }
}

/// Execution trace updates attached to payload forwarding.
#[derive(Debug, PartialEq, Eq)]
pub enum Update {
    /// The payload has been forwarded to another node.
    Forward { to: NodeAddr, timestamp: u64 },
    /// An action has been executed.
    Action { action: ActionDef, timestamp: u64 },
    /// Final delivery marker.
    Deliver { timestamp: u64 },
}

/// What an [`Update`] holds.
#[verifier::ext_equal]
pub enum UpdateView {
    Forward { to: Seq<char>, timestamp: u64 },
    Action { action: ActionView, timestamp: u64 },
    Deliver { timestamp: u64 },
}

impl View for Update {
    type V = UpdateView;

    open spec fn view(&self) -> UpdateView {
        match self {
            Update::Forward { to, timestamp } => UpdateView::Forward {
                to: to@,
                timestamp: *timestamp,
            },
            Update::Action { action, timestamp } => UpdateView::Action {
                action: action@,
                timestamp: *timestamp,
            },
            Update::Deliver { timestamp } => UpdateView::Deliver { timestamp: *timestamp },
        }
    }
}

impl Clone for Update {
    fn clone(&self) -> (r: Self)
        ensures
            r@ == self@,
    {
        match self {
            Update::Forward { to, timestamp } => Update::Forward {
                to: to.clone(),
                timestamp: *timestamp,
            },
            Update::Action { action, timestamp } => Update::Action {
                action: action.clone(),
                timestamp: *timestamp,
            },
            Update::Deliver { timestamp } => Update::Deliver { timestamp: *timestamp },
        }
    }
}

/// Payload exchanged between peers while executing a recipe.
#[derive(Debug, PartialEq, Eq)]
pub struct ProcessPayload {
    /// Unique order identifier.
    pub order_id: TaggedUuid,
    /// Creation timestamp of the order.
    pub order_timestamp: u64,
    /// Final delivery destination.
    pub delivery_host: NodeAddr,
    /// Current index in `action_sequence`.
    pub action_index: u64,
    /// Planned action sequence for the order.
    pub action_sequence: Vec<ActionDef>,
    /// Payload content being transformed by actions.
    pub content: String,
    /// Forwarding and execution history.
    pub updates: Vec<Update>,
}

/// What a [`ProcessPayload`] holds.
#[verifier::ext_equal]
pub struct PayloadView {
    pub order_id: Seq<char>,
    pub order_timestamp: u64,
    pub delivery_host: Seq<char>,
    pub action_index: u64,
    pub action_sequence: Seq<ActionView>,
    pub content: Seq<char>,
    pub updates: Seq<UpdateView>,
}

impl View for ProcessPayload {
    type V = PayloadView;

    open spec fn view(&self) -> PayloadView {
        PayloadView {
            order_id: self.order_id@,
            order_timestamp: self.order_timestamp,
            delivery_host: self.delivery_host@,
            action_index: self.action_index,
            action_sequence: text::views(self.action_sequence@),
            content: self.content@,
            updates: text::views(self.updates@),
        }
    }
}

impl Clone for ProcessPayload {
    fn clone(&self) -> (r: Self)
        ensures
            r@ == self@,
    {
        let action_sequence = copy_actions(&self.action_sequence);
        let updates = copy_updates(&self.updates);
        ProcessPayload {
            order_id: self.order_id.clone(),
            order_timestamp: self.order_timestamp,
            delivery_host: self.delivery_host.clone(),
            action_index: self.action_index,
            action_sequence,
            content: self.content.clone(),
            updates,
        }
    }
}

/// A copy of a list of actions.
pub fn copy_actions(actions: &Vec<ActionDef>) -> (r: Vec<ActionDef>)
    ensures
        text::views(r@) == text::views(actions@),
{
    let mut out: Vec<ActionDef> = Vec::new();
    for i in 0..actions.len()
        invariant
            out@.len() == i,
            forall|j: int| 0 <= j < i ==> (#[trigger] out@[j])@ == actions@[j]@,
    {
        out.push(actions[i].clone());
    }
    assert(text::views(out@) =~= text::views(actions@));
    out
}

/// A copy of a list of updates.
pub fn copy_updates(updates: &Vec<Update>) -> (r: Vec<Update>)
    ensures
        text::views(r@) == text::views(updates@),
{
    let mut out: Vec<Update> = Vec::new();
    for i in 0..updates.len()
        invariant
            out@.len() == i,
            forall|j: int| 0 <= j < i ==> (#[trigger] out@[j])@ == updates@[j]@,
    {
        out.push(updates[i].clone());
    }
    assert(text::views(out@) =~= text::views(updates@));
    out
}

/// The part of a payload that is reported to the client.
#[derive(Debug, PartialEq, Eq)]
pub struct OrderResult {
    /// Stable order identifier across all hops.
    pub order_id: TaggedUuid,
    /// Creation time of the order in Unix microseconds.
    pub order_timestamp: u64,
    /// Human-readable pizza description accumulated by actions.
    pub content: String,
    /// Append-only execution trace (Forward / Action / Deliver).
    pub updates: Vec<Update>,
}

/// What an [`OrderResult`] holds.
#[verifier::ext_equal]
pub struct OrderResultView {
    pub order_id: Seq<char>,
    pub order_timestamp: u64,
    pub content: Seq<char>,
    pub updates: Seq<UpdateView>,
}

impl View for OrderResult {
    type V = OrderResultView;

    open spec fn view(&self) -> OrderResultView {
        OrderResultView {
            order_id: self.order_id@,
            order_timestamp: self.order_timestamp,
            content: self.content@,
            updates: text::views(self.updates@),
        }
    }
}

impl Clone for OrderResult {
    fn clone(&self) -> (r: Self)
        ensures
            r@ == self@,
    {
        OrderResult {
            order_id: self.order_id.clone(),
            order_timestamp: self.order_timestamp,
            content: self.content.clone(),
            updates: copy_updates(&self.updates),
        }
    }
}

// ── Gossip ───────────────────────────────────────────────────────────────────

/// Gossip announcement broadcast by a node.
#[derive(Debug, PartialEq, Eq)]
pub struct Announce {
    /// Announcing node address.
    pub node_addr: NodeAddr,
    /// Capabilities advertised by the node.
    pub capabilities: Vec<String>,
    /// Recipe names advertised by the node.
    pub recipes: Vec<String>,
    /// Neighbors known by the announcing node.
    pub peers: Vec<NodeAddr>,
    /// Version associated with this announcement.
    pub version: Version,
}

/// What an [`Announce`] holds.
#[verifier::ext_equal]
pub struct AnnounceView {
    pub node_addr: Seq<char>,
    pub capabilities: Seq<Seq<char>>,
    pub recipes: Seq<Seq<char>>,
    pub peers: Seq<Seq<char>>,
    pub version: Version,
}

impl View for Announce {
    type V = AnnounceView;

    open spec fn view(&self) -> AnnounceView {
        AnnounceView {
            node_addr: self.node_addr@,
            capabilities: text::views(self.capabilities@),
            recipes: text::views(self.recipes@),
            peers: text::views(self.peers@),
            version: self.version,
        }
    }
}

impl Clone for Announce {
    fn clone(&self) -> (r: Self)
        ensures
            r@ == self@,
    {
        let mut peers: Vec<NodeAddr> = Vec::new();
        for i in 0..self.peers.len()
            invariant
                peers@.len() == i,
                forall|j: int| 0 <= j < i ==> (#[trigger] peers@[j])@ == self.peers@[j]@,
        {
            peers.push(self.peers[i].clone());
        }
        assert(text::views(peers@) =~= text::views(self.peers@));
        Announce {
            node_addr: self.node_addr.clone(),
            capabilities: copy_texts(&self.capabilities),
            recipes: copy_texts(&self.recipes),
            peers,
            version: self.version,
        }
    }
}

/// Gossip liveness check payload.
#[derive(Debug, PartialEq, Eq)]
pub struct Check {
    /// Last-seen timestamps.
    pub last_seen: TaggedLastSeen,
    /// Version observed by sender.
    pub version: Version,
}

/// What a [`Check`] holds.
#[verifier::ext_equal]
pub struct CheckView {
    pub last_seen: LastSeenView,
    pub version: Version,
}

impl View for Check {
    type V = CheckView;

    open spec fn view(&self) -> CheckView {
        CheckView { last_seen: self.last_seen@, version: self.version }
    }
}

impl Clone for Check {
    fn clone(&self) -> (r: Self)
        ensures
            r@ == self@,
    {
        Check { last_seen: self.last_seen.clone(), version: self.version }
    }
}

/// UDP gossip message types.
#[derive(Debug, PartialEq, Eq)]
pub enum UdpMessage {
    Announce(Announce),
    Ping(Check),
    Pong(Check),
}

/// What a [`UdpMessage`] holds.
#[verifier::ext_equal]
pub enum UdpView {
    Announce(AnnounceView),
    Ping(CheckView),
    Pong(CheckView),
}

impl View for UdpMessage {
    type V = UdpView;

    open spec fn view(&self) -> UdpView {
        match self {
            UdpMessage::Announce(a) => UdpView::Announce(a@),
            UdpMessage::Ping(c) => UdpView::Ping(c@),
            UdpMessage::Pong(c) => UdpView::Pong(c@),
        }
    }
}

impl Clone for UdpMessage {
    fn clone(&self) -> (r: Self)
        ensures
            r@ == self@,
    {
        match self {
            UdpMessage::Announce(a) => UdpMessage::Announce(a.clone()),
            UdpMessage::Ping(c) => UdpMessage::Ping(c.clone()),
            UdpMessage::Pong(c) => UdpMessage::Pong(c.clone()),
        }
    }
}

// ── Recipe availability ──────────────────────────────────────────────────────

/// Local recipe execution status on the responding node.
#[derive(Debug, PartialEq, Eq)]
pub struct RecipeStatus {
    /// Actions required but not executable locally.
    pub missing_actions: Vec<String>,
}

impl View for RecipeStatus {
    type V = Seq<Seq<char>>;

    open spec fn view(&self) -> Seq<Seq<char>> {
        text::views(self.missing_actions@)
    }
}

impl Clone for RecipeStatus {
    fn clone(&self) -> (r: Self)
        ensures
            r@ == self@,
    {
        RecipeStatus { missing_actions: copy_texts(&self.missing_actions) }
    }
}

/// Remote recipe availability pointing to one host.
#[derive(Debug, PartialEq, Eq)]
pub struct RemoteRecipeStatus {
    pub host: NodeAddr,
}

impl View for RemoteRecipeStatus {
    type V = Seq<char>;

    open spec fn view(&self) -> Seq<char> {
        self.host@
    }
}

impl Clone for RemoteRecipeStatus {
    fn clone(&self) -> (r: Self)
        ensures
            r@ == self@,
    {
        RemoteRecipeStatus { host: self.host.clone() }
    }
}

/// Canonical recipe availability shape: either local or remote.
#[derive(Debug, PartialEq, Eq)]
pub enum RecipeAvailability {
    Local { local: RecipeStatus },
    Remote { remote: RemoteRecipeStatus },
}

/// What a [`RecipeAvailability`] holds: the missing actions, or the host.
#[verifier::ext_equal]
pub enum AvailabilityView {
    Local { missing_actions: Seq<Seq<char>> },
    Remote { host: Seq<char> },
}

impl View for RecipeAvailability {
    type V = AvailabilityView;

    open spec fn view(&self) -> AvailabilityView {
        match self {
            RecipeAvailability::Local { local } => AvailabilityView::Local {
                missing_actions: local@,
            },
            RecipeAvailability::Remote { remote } => AvailabilityView::Remote { host: remote@ },
        }
    }
}

impl Clone for RecipeAvailability {
    fn clone(&self) -> (r: Self)
        ensures
            r@ == self@,
    {
        match self {
            RecipeAvailability::Local { local } => RecipeAvailability::Local {
                local: local.clone(),
            },
            RecipeAvailability::Remote { remote } => RecipeAvailability::Remote {
                remote: remote.clone(),
            },
        }
    }
}

/// The shapes in which peers write a recipe's availability.
#[derive(Debug, PartialEq, Eq)]
pub enum RecipeAvailabilityWire {
    Local { local: RecipeStatus },
    Remote { remote: RemoteRecipeStatus },
    LegacyFull { local: RecipeStatus, remote_peers: Vec<String> },
    LegacyFlat { missing_actions: Vec<String>, remote_peers: Vec<String> },
    LegacyRemoteOnly { remote_peers: Vec<String> },
}

/// `host` is one of `peers` and no other of them comes before it.
pub open spec fn is_least(host: Seq<char>, peers: Seq<Seq<char>>) -> bool {
    &&& peers.contains(host)
    &&& forall|i: int| 0 <= i < peers.len() ==> !order::before(#[trigger] peers[i], host)
}

/// The least of some hosts.
pub fn pick_remote_host(remote_peers: &Vec<String>) -> (r: Option<String>)
    ensures
        match r {
            Some(host) => is_least(host@, text::views(remote_peers@)),
            None => remote_peers@.len() == 0,
        },
{
    if remote_peers.len() == 0 {
        return None;
    }
    let ghost peers = text::views(remote_peers@);
    let mut best: usize = 0;
    proof {
        order::lemma_before_irreflexive(peers[0]);
    }
    for i in 1..remote_peers.len()
        invariant
            peers == text::views(remote_peers@),
            best < peers.len(),
            forall|j: int| 0 <= j < i ==> !order::before(#[trigger] peers[j], peers[best as int]),
    {
        match compare(remote_peers[i].as_str(), remote_peers[best].as_str()) {
            Rank::Before => {
                proof {
                    assert forall|j: int| 0 <= j < i + 1 implies !order::before(
                        #[trigger] peers[j],
                        peers[i as int],
                    ) by {
                        order::lemma_before_irreflexive(peers[i as int]);
                        if order::before(peers[j], peers[i as int]) {
                            order::lemma_before_transitive(
                                peers[j],
                                peers[i as int],
                                peers[best as int],
                            );
                        }
                    }
                }
                best = i;
            },
            Rank::Same => {
                proof {
                    order::lemma_before_irreflexive(peers[i as int]);
                }
            },
            Rank::After => {
                proof {
                    order::lemma_before_total(peers[i as int], peers[best as int]);
                }
            },
        }
    }
    assert(peers.contains(peers[best as int]));
    Some(remote_peers[best].clone())
}

/// The availability that hosts alone stand for: the least host, or a complete local recipe where
/// there is none.
pub open spec fn remote_or_complete(r: AvailabilityView, peers: Seq<Seq<char>>) -> bool {
    if peers.len() == 0 {
        r == (AvailabilityView::Local { missing_actions: seq![] })
    } else {
        r is Remote && is_least(r->host, peers)
    }
}

impl RecipeAvailability {
    /// The canonical shape of what a peer wrote.
    ///
    /// A local status wins over everything else. Without one, missing actions make the recipe
    /// local; with none missing either, the least of the remote hosts is taken.
    pub fn from_wire(wire: RecipeAvailabilityWire) -> (r: Self)
        ensures
            match wire {
                RecipeAvailabilityWire::Local { local } => r@ == (AvailabilityView::Local {
                    missing_actions: local@,
                }),
                RecipeAvailabilityWire::Remote { remote } => r@ == (AvailabilityView::Remote {
                    host: remote@,
                }),
                RecipeAvailabilityWire::LegacyFull { local, remote_peers } => r@ == (
                AvailabilityView::Local { missing_actions: local@ }),
                RecipeAvailabilityWire::LegacyFlat { missing_actions, remote_peers } => {
                    if missing_actions@.len() > 0 {
                        r@ == (AvailabilityView::Local {
                            missing_actions: text::views(missing_actions@),
                        })
                    } else {
                        remote_or_complete(r@, text::views(remote_peers@))
                    }
                },
                RecipeAvailabilityWire::LegacyRemoteOnly { remote_peers } => remote_or_complete(
                    r@,
                    text::views(remote_peers@),
                ),
            },
    {
        match wire {
            RecipeAvailabilityWire::Local { local } => RecipeAvailability::Local { local },
            RecipeAvailabilityWire::Remote { remote } => RecipeAvailability::Remote { remote },
            RecipeAvailabilityWire::LegacyFull { local, remote_peers: _ } => {
                RecipeAvailability::Local { local }
            },
            RecipeAvailabilityWire::LegacyFlat { missing_actions, remote_peers } => {
                if missing_actions.len() == 0 {
                    match pick_remote_host(&remote_peers) {
                        Some(host) => RecipeAvailability::Remote {
                            remote: RemoteRecipeStatus { host: Required(host) },
                        },
                        None => {
                            assert(text::views(missing_actions@) =~= seq![]);
                            RecipeAvailability::Local { local: RecipeStatus { missing_actions } }
                        },
                    }
                } else {
                    RecipeAvailability::Local { local: RecipeStatus { missing_actions } }
                }
            },
            RecipeAvailabilityWire::LegacyRemoteOnly { remote_peers } => {
                match pick_remote_host(&remote_peers) {
                    Some(host) => RecipeAvailability::Remote {
                        remote: RemoteRecipeStatus { host: Required(host) },
                    },
                    None => {
                        let r = RecipeAvailability::Local {
                            local: RecipeStatus { missing_actions: Vec::new() },
                        };
                        assert(r@->missing_actions =~= seq![]);
                        r
                    },
                }
            },
        }
    }
}

// ── TCP messages ─────────────────────────────────────────────────────────────

/// TCP request/response messages exchanged between client and nodes.
#[allow(inconsistent_fields)]
#[derive(Debug, PartialEq, Eq)]
pub enum TcpMessage {
    ListRecipes,
    ListCapabilities,
    CapabilitiesAnswer { capabilities: Vec<String> },
    RecipeListAnswer { recipes: StringMap<RecipeAvailability> },
    Order { recipe_name: String },
    OrderReceipt { order_id: TaggedUuid },
    GetRecipe { recipe_name: String },
    RecipeAnswer { recipe: String },
    ProcessPayload { payload: ProcessPayload },
    CompletedOrder { recipe_name: String, result: String },
    FailedOrder { recipe_name: String, error: String },
    OrderDeclined { message: String },
    Deliver { payload: ProcessPayload, error: Option<String> },
    Error { message: String },
}

/// What a [`TcpMessage`] holds.
#[allow(inconsistent_fields)]
#[verifier::ext_equal]
pub enum TcpView {
    ListRecipes,
    ListCapabilities,
    CapabilitiesAnswer { capabilities: Seq<Seq<char>> },
    RecipeListAnswer { recipes: Map<Seq<char>, AvailabilityView> },
    Order { recipe_name: Seq<char> },
    OrderReceipt { order_id: Seq<char> },
    GetRecipe { recipe_name: Seq<char> },
    RecipeAnswer { recipe: Seq<char> },
    ProcessPayload { payload: PayloadView },
    CompletedOrder { recipe_name: Seq<char>, result: Seq<char> },
    FailedOrder { recipe_name: Seq<char>, error: Seq<char> },
    OrderDeclined { message: Seq<char> },
    Deliver { payload: PayloadView, error: Option<Seq<char>> },
    Error { message: Seq<char> },
}

/// The view of an optional text.
pub open spec fn option_view(o: Option<String>) -> Option<Seq<char>> {
    match o {
        Some(s) => Some(s@),
        None => None,
    }
}

impl View for TcpMessage {
    type V = TcpView;

    open spec fn view(&self) -> TcpView {
        match self {
            TcpMessage::ListRecipes => TcpView::ListRecipes,
            TcpMessage::ListCapabilities => TcpView::ListCapabilities,
            TcpMessage::CapabilitiesAnswer { capabilities } => TcpView::CapabilitiesAnswer {
                capabilities: text::views(capabilities@),
            },
            TcpMessage::RecipeListAnswer { recipes } => TcpView::RecipeListAnswer {
                recipes: recipes@,
            },
            TcpMessage::Order { recipe_name } => TcpView::Order { recipe_name: recipe_name@ },
            TcpMessage::OrderReceipt { order_id } => TcpView::OrderReceipt { order_id: order_id@ },
            TcpMessage::GetRecipe { recipe_name } => TcpView::GetRecipe {
                recipe_name: recipe_name@,
            },
            TcpMessage::RecipeAnswer { recipe } => TcpView::RecipeAnswer { recipe: recipe@ },
            TcpMessage::ProcessPayload { payload } => TcpView::ProcessPayload { payload: payload@ },
            TcpMessage::CompletedOrder { recipe_name, result } => TcpView::CompletedOrder {
                recipe_name: recipe_name@,
                result: result@,
            },
            TcpMessage::FailedOrder { recipe_name, error } => TcpView::FailedOrder {
                recipe_name: recipe_name@,
                error: error@,
            },
            TcpMessage::OrderDeclined { message } => TcpView::OrderDeclined { message: message@ },
            TcpMessage::Deliver { payload, error } => TcpView::Deliver {
                payload: payload@,
                error: option_view(*error),
            },
            TcpMessage::Error { message } => TcpView::Error { message: message@ },
        }
    }
}

impl Clone for TcpMessage {
    fn clone(&self) -> (r: Self)
        ensures
            r@ == self@,
    {
        match self {
            TcpMessage::ListRecipes => TcpMessage::ListRecipes,
            TcpMessage::ListCapabilities => TcpMessage::ListCapabilities,
            TcpMessage::CapabilitiesAnswer { capabilities } => TcpMessage::CapabilitiesAnswer {
                capabilities: copy_texts(capabilities),
            },
            TcpMessage::RecipeListAnswer { recipes } => {
                let c = recipes.clone();
                assert forall|k: Seq<char>| c@.contains_key(k) implies c@[k] == recipes@[k] by {
                    assert(string_map::cloned_at(*recipes, c, k));
                }
                assert(c@ =~= recipes@);
                TcpMessage::RecipeListAnswer { recipes: c }
            },
            TcpMessage::Order { recipe_name } => TcpMessage::Order {
                recipe_name: recipe_name.clone(),
            },
            TcpMessage::OrderReceipt { order_id } => TcpMessage::OrderReceipt {
                order_id: order_id.clone(),
            },
            TcpMessage::GetRecipe { recipe_name } => TcpMessage::GetRecipe {
                recipe_name: recipe_name.clone(),
            },
            TcpMessage::RecipeAnswer { recipe } => TcpMessage::RecipeAnswer {
                recipe: recipe.clone(),
            },
            TcpMessage::ProcessPayload { payload } => TcpMessage::ProcessPayload {
                payload: payload.clone(),
            },
            TcpMessage::CompletedOrder { recipe_name, result } => TcpMessage::CompletedOrder {
                recipe_name: recipe_name.clone(),
                result: result.clone(),
            },
            TcpMessage::FailedOrder { recipe_name, error } => TcpMessage::FailedOrder {
                recipe_name: recipe_name.clone(),
                error: error.clone(),
            },
            TcpMessage::OrderDeclined { message } => TcpMessage::OrderDeclined {
                message: message.clone(),
            },
            TcpMessage::Deliver { payload, error } => TcpMessage::Deliver {
                payload: payload.clone(),
                error: match error {
                    Some(e) => Some(e.clone()),
                    None => None,
                },
            },
            TcpMessage::Error { message } => TcpMessage::Error { message: message.clone() },
        }
    }
}

// ── Laws ─────────────────────────────────────────────────────────────────────

/// `host` is among the hosts, and all others are not smaller.
pub open spec fn is_smallest(host: Seq<char>, hosts: Seq<Seq<char>>) -> bool {
    &&& hosts.contains(host)
    &&& forall|h: Seq<char>| #[trigger]
        hosts.contains(h) ==> h == host || order::before(host, h)
}

/// The least of some hosts is taken, whatever order they come in; of none there is none.
pub proof fn the_smallest_host_is_picked(hosts: &Vec<String>, r: Option<String>)
    requires
        call_ensures(pick_remote_host, (hosts,), r),
    ensures
        r is Some <==> hosts@.len() > 0,
        r matches Some(host) ==> is_smallest(host@, text::views(hosts@)),
{
    let all = text::views(hosts@);
    if let Some(host) = r {
        lemma_smallest(host@, all);
        let i = choose|i: int| 0 <= i < all.len() && all[i] == host@;
        assert(all.len() == hosts@.len());
    }
}

proof fn lemma_smallest(host: Seq<char>, hosts: Seq<Seq<char>>)
    requires
        is_least(host, hosts),
    ensures
        is_smallest(host, hosts),
{
    assert forall|h: Seq<char>| #[trigger] hosts.contains(h) implies h == host || order::before(
        host,
        h,
    ) by {
        let i = choose|i: int| 0 <= i < hosts.len() && hosts[i] == h;
        assert(!order::before(hosts[i], host));
        order::lemma_before_total(h, host);
    }
}

/// However a peer writes the availability of a recipe, the same comes of it: a local status counts
/// before everything else; without one, missing actions make the recipe local; with none missing,
/// the recipe is at the smallest of the remote hosts, and complete where there is none.
pub proof fn availability_does_not_depend_on_the_shape(
    wire: RecipeAvailabilityWire,
    r: RecipeAvailability,
)
    requires
        call_ensures(RecipeAvailability::from_wire, (wire,), r),
    ensures
        ({
            let local = match wire {
                RecipeAvailabilityWire::Local { local } => Some(text::views(local.missing_actions@)),
                RecipeAvailabilityWire::LegacyFull { local, remote_peers } => Some(
                    text::views(local.missing_actions@),
                ),
                RecipeAvailabilityWire::LegacyFlat { missing_actions, remote_peers } => if missing_actions@.len()
                    > 0 {
                    Some(text::views(missing_actions@))
                } else {
                    None
                },
                _ => None,
            };
            let hosts = match wire {
                RecipeAvailabilityWire::Remote { remote } => seq![remote.host@],
                RecipeAvailabilityWire::LegacyFlat { missing_actions, remote_peers } => text::views(
                    remote_peers@,
                ),
                RecipeAvailabilityWire::LegacyRemoteOnly { remote_peers } => text::views(
                    remote_peers@,
                ),
                _ => seq![],
            };
            match (local, r@) {
                (Some(missing), AvailabilityView::Local { missing_actions }) => missing_actions
                    == missing,
                (None, AvailabilityView::Local { missing_actions }) => hosts.len() == 0
                    && missing_actions.len() == 0,
                (None, AvailabilityView::Remote { host }) => is_smallest(host, hosts),
                _ => false,
            }
        }),
{
    match wire {
        RecipeAvailabilityWire::Remote { remote } => {
            assert(seq![remote.host@].contains(remote.host@)) by {
                assert(seq![remote.host@][0] == remote.host@);
            }
        },
        RecipeAvailabilityWire::LegacyFlat { missing_actions, remote_peers } => {
            if missing_actions@.len() == 0 && remote_peers@.len() > 0 {
                assert(text::views(remote_peers@).len() == remote_peers@.len());
                lemma_smallest(r@->host, text::views(remote_peers@));
            }
        },
        RecipeAvailabilityWire::LegacyRemoteOnly { remote_peers } => {
            if remote_peers@.len() > 0 {
                assert(text::views(remote_peers@).len() == remote_peers@.len());
                lemma_smallest(r@->host, text::views(remote_peers@));
            }
        },
        _ => {},
    }
}

/// The text of an identifier has five groups of lower-case hexadecimal digits with hyphens between
/// them, and differs from that of every other identifier.
pub proof fn identifiers_are_written_in_groups(
    value: u128,
    other: u128,
    r: TaggedUuid,
    s: TaggedUuid,
)
    requires
        call_ensures(uuid, (value,), r),
        call_ensures(uuid, (other,), s),
    ensures
        r@.len() == 36,
        forall|i: int|
            0 <= i < 36 ==> if i == 8 || i == 13 || i == 18 || i == 23 {
                #[trigger] r@[i] == '-'
            } else {
                '0' as int <= r@[i] as int <= '9' as int || 'a' as int <= r@[i] as int <= 'f' as int
            },
        r@ == s@ ==> value == other,
{
    ids::lemma_groups(value);
    if r@ == s@ {
        ids::lemma_hyphenated_injective(value, other);
    }
}

/// Addresses are tagged as they are, and none is left out.
pub proof fn addresses_are_tagged_as_they_are(
    value: &str,
    values: &Vec<String>,
    one: NodeAddr,
    all: Vec<NodeAddr>,
)
    requires
        call_ensures(addr, (value,), one),
        call_ensures(addrs, (values,), all),
    ensures
        one@ == value@,
        all@.len() == values@.len(),
        forall|i: int| 0 <= i < values@.len() ==> (#[trigger] all@[i])@ == values@[i]@,
{
    assert(text::views(all@).len() == all@.len());
    assert(text::views(values@).len() == values@.len());
    assert forall|i: int| 0 <= i < values@.len() implies (#[trigger] all@[i])@ == values@[i]@ by {
        assert(text::views(all@)[i] == text::views(values@)[i]);
    }
}

} // verus!
