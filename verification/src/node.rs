//! What a node knows: itself, its peers and the orders that wait for delivery.
use crate::cli::start::StartArgs;
use crate::clock::UnixTime;
use crate::protocol::Version;
use crate::recipe::grammar;
use crate::recipe::parse_recipes;
use crate::recipe::parser;
use crate::recipe::ParseError;
use crate::recipe::Recipe;
use crate::recipe::RecipeView;
use crate::string_map::StringMap;
use crate::text;
use crate::text::copy_texts;
use crate::text::cut_text;
use crate::text::to_chars;
use crate::text::to_text;
use crate::text_facts;
use vstd::prelude::*;

verus! {

/// `std::io::Error`, carried along as it came.
#[verifier::external_type_specification]
#[verifier::external_body]
pub struct ExIoError(std::io::Error);

// ── Errors ───────────────────────────────────────────────────────────────────

/// Why a node cannot start.
#[allow(inconsistent_fields)]
#[derive(Debug)]
pub enum NodeError {
    RecipesFileRead { path: String, cause: std::io::Error },
    RecipesFileParse { path: String, cause: ParseError },
}

impl NodeError {
    /// The message of the error.
    pub fn message(&self) -> (r: String)
        ensures
            r@ == match self {
                NodeError::RecipesFileRead { path, cause } => "Failed to read recipes file: "@
                    + path@,
                NodeError::RecipesFileParse { path, cause } => "Failed to parse recipes file: "@
                    + path@,
            },
    {
        match self {
            NodeError::RecipesFileRead { path, cause: _ } => {
                "Failed to read recipes file: ".to_string().concat(path.as_str())
            },
            NodeError::RecipesFileParse { path, cause: _ } => {
                "Failed to parse recipes file: ".to_string().concat(path.as_str())
            },
        }
    }
}

// ── Identity ─────────────────────────────────────────────────────────────────

/// What a node is, set once at startup.
#[derive(Debug, PartialEq, Eq)]
pub struct Identity {
    /// Own UDP/TCP address, e.g. "127.0.0.1:8000".
    pub addr: String,
    /// Actions this node can execute, e.g. ["MakeDough"].
    pub capabilities: Vec<String>,
    /// Full recipes loaded from the recipes file, or empty if no file was given.
    pub recipes: Vec<Recipe>,
}

/// What an [`Identity`] holds.
#[verifier::ext_equal]
pub struct IdentityView {
    pub addr: Seq<char>,
    pub capabilities: Seq<Seq<char>>,
    pub recipes: Seq<RecipeView>,
}

impl View for Identity {
    type V = IdentityView;

    open spec fn view(&self) -> IdentityView {
        IdentityView {
            addr: self.addr@,
            capabilities: text::views(self.capabilities@),
            recipes: text::views(self.recipes@),
        }
    }
}

// ── Gossip state ─────────────────────────────────────────────────────────────

/// What gossip has told about the network.
#[derive(Debug, PartialEq, Eq)]
pub struct GossipState {
    /// Known peers, keyed by their address.
    pub peers: StringMap<PeerInfo>,
    /// Own version.
    pub version: Version,
}

/// What a [`GossipState`] holds.
#[verifier::ext_equal]
pub struct GossipView {
    pub peers: Map<Seq<char>, PeerView>,
    pub version: Version,
}

impl View for GossipState {
    type V = GossipView;

    open spec fn view(&self) -> GossipView {
        GossipView { peers: self.peers@, version: self.version }
    }
}

/// What is known about a remote peer, updated on each message received from it.
#[derive(Debug, PartialEq, Eq)]
pub struct PeerInfo {
    /// Capabilities advertised by that peer.
    pub capabilities: Vec<String>,
    /// Recipe names known to that peer (names only, not full recipes).
    pub recipes: Vec<String>,
    /// Last version received from that peer.
    pub version: Version,
    /// Unix timestamp in microseconds of the last message received from that peer.
    pub last_seen_us: u64,
    /// Round-trip time of the last ping in microseconds, where it was measured.
    pub rtt_us: Option<u64>,
}

/// What a [`PeerInfo`] holds.
#[verifier::ext_equal]
pub struct PeerView {
    pub capabilities: Seq<Seq<char>>,
    pub recipes: Seq<Seq<char>>,
    pub version: Version,
    pub last_seen_us: u64,
    pub rtt_us: Option<u64>,
}

impl View for PeerInfo {
    type V = PeerView;

    open spec fn view(&self) -> PeerView {
        PeerView {
            capabilities: text::views(self.capabilities@),
            recipes: text::views(self.recipes@),
            version: self.version,
            last_seen_us: self.last_seen_us,
            rtt_us: self.rtt_us,
        }
    }
}

impl Clone for PeerInfo {
    fn clone(&self) -> (r: Self)
        ensures
            r@ == self@,
    {
        PeerInfo {
            capabilities: copy_texts(&self.capabilities),
            recipes: copy_texts(&self.recipes),
            version: self.version,
            last_seen_us: self.last_seen_us,
            rtt_us: self.rtt_us,
        }
    }
}

/// What is known of a peer that has not been heard of yet: nothing.
pub open spec fn unknown_peer() -> PeerView {
    PeerView {
        capabilities: seq![],
        recipes: seq![],
        version: Version { counter: 0, generation: 0 },
        last_seen_us: 0,
        rtt_us: None,
    }
}

impl PeerInfo {
    /// Placeholder for a bootstrap peer whose capabilities are not yet known.
    pub fn unknown() -> (r: Self)
        ensures
            r@ == unknown_peer(),
    {
        let r = PeerInfo {
            capabilities: Vec::new(),
            recipes: Vec::new(),
            version: Version { counter: 0, generation: 0 },
            last_seen_us: 0,
            rtt_us: None,
        };
        assert(r@ =~= unknown_peer());
        r
    }
}

// ── Node state ───────────────────────────────────────────────────────────────

/// All that a node knows.
#[derive(Debug, PartialEq, Eq)]
pub struct NodeState {
    /// What the node is; never changed.
    pub identity: Identity,
    /// What gossip has told; written by the UDP layer, read by TCP.
    pub gossip: GossipState,
    /// The orders that wait for their delivery, by order id, each with the ticket of its waiter.
    pub pending_orders: StringMap<u64>,
}

/// What a [`NodeState`] holds.
#[verifier::ext_equal]
pub struct NodeView {
    pub identity: IdentityView,
    pub gossip: GossipView,
    pub pending_orders: Map<Seq<char>, u64>,
}

impl View for NodeState {
    type V = NodeView;

    open spec fn view(&self) -> NodeView {
        NodeView {
            identity: self.identity@,
            gossip: self.gossip@,
            pending_orders: self.pending_orders@,
        }
    }
}

/// A fresh node: no order waits, and of the bootstrap peers nothing is known but the address.
pub open spec fn fresh_node(
    addr: Seq<char>,
    capabilities: Seq<Seq<char>>,
    recipes: Seq<RecipeView>,
    peers: Seq<Seq<char>>,
    generation: u64,
) -> NodeView {
    NodeView {
        identity: IdentityView { addr, capabilities: all_capabilities(capabilities), recipes },
        gossip: GossipView {
            peers: bootstrap_table(peers),
            version: Version { counter: 0, generation },
        },
        pending_orders: Map::empty(),
    }
}

impl NodeState {
    /// The state of a node at startup.
    ///
    /// `content` is what reading the recipes file gave; it counts only where the arguments name a
    /// file. `started` gives the generation of the node's version. A file that cannot be read or
    /// parsed is reported instead.
    pub fn new(
        args: &StartArgs,
        content: Result<String, std::io::Error>,
        started: UnixTime,
    ) -> (r: Result<Self, NodeError>)
        ensures
            match (load_outcome(args.recipes_file, content), r) {
                (LoadOutcome::Recipes(recipes), Ok(state)) => state@ == fresh_node(
                    args.host@,
                    text::views(args.capabilities@),
                    recipes,
                    text::views(args.peers@),
                    started.secs,
                ),
                (outcome, Err(e)) => is_load_error(outcome, e),
                _ => false,
            },
    {
        let recipes = match load_recipes(&args.recipes_file, content) {
            Ok(recipes) => recipes,
            Err(e) => {
                return Err(e);
            },
        };
        let state = NodeState {
            identity: Identity {
                addr: args.host.clone(),
                capabilities: parse_capabilities(&args.capabilities),
                recipes,
            },
            gossip: GossipState {
                peers: bootstrap_peers(&args.peers),
                version: Version { counter: 0, generation: started.secs },
            },
            pending_orders: StringMap::new(),
        };
        Ok(state)
    }
}

// ── Startup ──────────────────────────────────────────────────────────────────

/// The capabilities that the entries name: cut at commas, trimmed, without empty ones, in order.
pub open spec fn all_capabilities(raw: Seq<Seq<char>>) -> Seq<Seq<char>>
    decreases raw.len(),
{
    if raw.len() == 0 {
        seq![]
    } else {
        all_capabilities(raw.drop_last()) + text::pieces(raw.last(), seq![','])
    }
}

/// Capabilities come as repeated values, as comma-separated values, or both:
///   --capabilities MakeDough
///   --capabilities AddBase,AddCheese,Bake
pub fn parse_capabilities(raw: &Vec<String>) -> (r: Vec<String>)
    ensures
        text::views(r@) == all_capabilities(text::views(raw@)),
{
    let comma: [char; 1] = [','];
    assert(comma@ =~= seq![',']);
    let ghost all = text::views(raw@);
    let mut out: Vec<String> = Vec::new();
    assert(text::views(out@) =~= all_capabilities(all.take(0)));
    for i in 0..raw.len()
        invariant
            comma@ == seq![','],
            all == text::views(raw@),
            text::views(out@) == all_capabilities(all.take(i as int)),
    {
        let chars = to_chars(raw[i].as_str());
        let cuts = cut_text(chars.as_slice(), &comma);
        let ghost start = text::views(out@);
        let ghost more = text::views(cuts@);
        for k in 0..cuts.len()
            invariant
                more == text::views(cuts@),
                text::views(out@) == start + more.take(k as int),
        {
            let ghost was = text::views(out@);
            out.push(to_text(cuts[k]));
            assert(text::views(out@) =~= was.push(cuts@[k as int]@));
            assert(text::views(out@) =~= start + more.take(k + 1));
        }
        assert(more.take(more.len() as int) =~= more);
        assert(all.take(i + 1).drop_last() =~= all.take(i as int));
        assert(all.take(i + 1).last() == chars@);
    }
    assert(all.take(all.len() as int) =~= all);
    out
}

/// What comes of loading recipes.
pub enum LoadOutcome {
    Recipes(Seq<RecipeView>),
    Unreadable(Seq<char>, std::io::Error),
    Unparsable(Seq<char>, parser::ParseErrorView),
}

/// Without a file there are no recipes; with one, it must be readable and parse.
pub open spec fn load_outcome(
    path: Option<String>,
    content: Result<String, std::io::Error>,
) -> LoadOutcome {
    match (path, content) {
        (None, _) => LoadOutcome::Recipes(seq![]),
        (Some(p), Err(cause)) => LoadOutcome::Unreadable(p@, cause),
        (Some(p), Ok(text)) => match parser::spec_recipes(text@) {
            Ok(recipes) => LoadOutcome::Recipes(recipes),
            Err(e) => LoadOutcome::Unparsable(p@, e),
        },
    }
}

/// `e` reports the outcome.
pub open spec fn is_load_error(outcome: LoadOutcome, e: NodeError) -> bool {
    match (outcome, e) {
        (
            LoadOutcome::Unreadable(p, why),
            NodeError::RecipesFileRead { path, cause },
        ) => path@ == p && cause == why,
        (
            LoadOutcome::Unparsable(p, why),
            NodeError::RecipesFileParse { path, cause },
        ) => path@ == p && cause@ == why,
        _ => false,
    }
}

/// The recipes of a recipes file, or none where no file is given.
pub fn load_recipes(path: &Option<String>, content: Result<String, std::io::Error>) -> (r: Result<
    Vec<Recipe>,
    NodeError,
>)
    ensures
        match (load_outcome(*path, content), r) {
            (LoadOutcome::Recipes(recipes), Ok(v)) => text::views(v@) == recipes,
            (outcome, Err(e)) => is_load_error(outcome, e),
            _ => false,
        },
{
    match path {
        None => {
            let none: Vec<Recipe> = Vec::new();
            assert(text::views(none@) =~= seq![]);
            Ok(none)
        },
        Some(p) => match content {
            Err(cause) => Err(NodeError::RecipesFileRead { path: p.clone(), cause }),
            Ok(text) => match parse_recipes(text.as_str()) {
                Ok(recipes) => Ok(recipes),
                Err(cause) => Err(NodeError::RecipesFileParse { path: p.clone(), cause }),
            },
        },
    }
}

/// The peer table of a fresh node.
pub open spec fn bootstrap_table(addrs: Seq<Seq<char>>) -> Map<Seq<char>, PeerView> {
    Map::new(|k: Seq<char>| addrs.contains(k), |k: Seq<char>| unknown_peer())
}

/// Seeds the peer table from bootstrap addresses.
///
/// Capabilities are not yet known; they are filled in when the first announcement of each peer
/// arrives.
pub fn bootstrap_peers(addrs: &Vec<String>) -> (r: StringMap<PeerInfo>)
    ensures
        r@ == bootstrap_table(text::views(addrs@)),
{
    let mut peers: StringMap<PeerInfo> = StringMap::new();
    let ghost all = text::views(addrs@);
    assert(peers@ =~= bootstrap_table(all.take(0)));
    for i in 0..addrs.len()
        invariant
            all == text::views(addrs@),
            peers@ == bootstrap_table(all.take(i as int)),
    {
        peers.insert(addrs[i].clone(), PeerInfo::unknown());
        assert(all.take(i + 1) =~= all.take(i as int).push(all[i as int]));
        assert forall|k: Seq<char>| all.take(i + 1).contains(k) == (all.take(i as int).contains(k)
            || k == all[i as int]) by {
            vstd::seq_lib::lemma_seq_contains_after_push(all.take(i as int), all[i as int], k);
        }
        assert(peers@ =~= bootstrap_table(all.take(i + 1)));
    }
    assert(all.take(all.len() as int) =~= all);
    peers
}

// ── Laws ─────────────────────────────────────────────────────────────────────

/// Capabilities are read entry by entry, and within an entry between commas: all that are not
/// blank, without the white space around them, in the order in which they are given.
pub proof fn capabilities_are_read_in_order(
    a: &Vec<String>,
    b: &Vec<String>,
    both: &Vec<String>,
    parts: Seq<Seq<char>>,
    ra: Vec<String>,
    rb: Vec<String>,
    r: Vec<String>,
)
    requires
        text::views(both@) == text::views(a@) + text::views(b@),
        parts.len() > 0,
        forall|i: int| 0 <= i < parts.len() ==> !(#[trigger] parts[i]).contains(','),
        call_ensures(parse_capabilities, (a,), ra),
        call_ensures(parse_capabilities, (b,), rb),
        call_ensures(parse_capabilities, (both,), r),
    ensures
        text::views(r@) == text::views(ra@) + text::views(rb@),
        a@.len() == 0 ==> ra@.len() == 0,
        a@.len() == 1 && a@[0]@ == text::join(parts, seq![',']) ==> text::views(ra@)
            == grammar::not_blank(parts),
{
    lemma_capabilities_add(text::views(a@), text::views(b@));
    assert(text::views(ra@).len() == ra@.len());
    if a@.len() == 1 && a@[0]@ == text::join(parts, seq![',']) {
        let one = text::views(a@);
        text_facts::lemma_split_commas(parts);
        assert(one.last() == a@[0]@);
        reveal_with_fuel(all_capabilities, 2);
        assert(all_capabilities(one) =~= text::pieces(one.last(), seq![',']));
    }
}

proof fn lemma_capabilities_add(a: Seq<Seq<char>>, b: Seq<Seq<char>>)
    ensures
        all_capabilities(a + b) == all_capabilities(a) + all_capabilities(b),
    decreases b.len(),
{
    if b.len() == 0 {
        assert(a + b =~= a);
        assert(all_capabilities(a) + all_capabilities(b) =~= all_capabilities(a));
    } else {
        assert((a + b).drop_last() =~= a + b.drop_last());
        lemma_capabilities_add(a, b.drop_last());
        assert(all_capabilities(a + b) =~= all_capabilities(a) + all_capabilities(b));
    }
}

/// Names without commas and white space around them are read back as they are, be they given in
/// one entry with commas between them or in an entry each.
pub proof fn capabilities_read_back(
    names: Seq<Seq<char>>,
    joined: &Vec<String>,
    apart: &Vec<String>,
    rj: Vec<String>,
    ra: Vec<String>,
)
    requires
        names.len() > 0,
        forall|i: int|
            0 <= i < names.len() ==> (#[trigger] names[i]).len() > 0 && !names[i].contains(',')
                && text_facts::is_trimmed(names[i]),
        joined@.len() == 1,
        joined@[0]@ == text::join(names, seq![',']),
        text::views(apart@) == names,
        call_ensures(parse_capabilities, (joined,), rj),
        call_ensures(parse_capabilities, (apart,), ra),
    ensures
        text::views(rj@) == names,
        text::views(ra@) == names,
{
    let one = text::views(joined@);
    text_facts::lemma_split_commas(names);
    assert(one.last() == joined@[0]@);
    reveal_with_fuel(all_capabilities, 2);
    assert(all_capabilities(one) =~= text::pieces(one.last(), seq![',']));
    lemma_names_stay(names);
    lemma_names_apart(names);
}

proof fn lemma_names_stay(names: Seq<Seq<char>>)
    requires
        forall|i: int|
            0 <= i < names.len() ==> (#[trigger] names[i]).len() > 0 && text_facts::is_trimmed(
                names[i],
            ),
    ensures
        grammar::not_blank(names) == names,
{
    let trim = |p: Seq<char>| text::trimmed(p);
    let keep = |p: Seq<char>| p.len() > 0;
    assert forall|i: int| 0 <= i < names.len() implies text::trimmed(#[trigger] names[i])
        == names[i] by {
        text_facts::lemma_trimmed_same(names[i]);
    }
    assert(names.map_values(trim) =~= names);
    text_facts::lemma_filter_all(names, keep);
}

proof fn lemma_names_apart(names: Seq<Seq<char>>)
    requires
        forall|i: int|
            0 <= i < names.len() ==> (#[trigger] names[i]).len() > 0 && !names[i].contains(',')
                && text_facts::is_trimmed(names[i]),
    ensures
        all_capabilities(names) == names,
    decreases names.len(),
{
    if names.len() == 0 {
        assert(names =~= seq![]);
    } else {
        let front = names.drop_last();
        assert forall|i: int| 0 <= i < front.len() implies (#[trigger] front[i]).len() > 0
            && !front[i].contains(',') && text_facts::is_trimmed(front[i]) by {
            assert(front[i] == names[i]);
        }
        lemma_names_apart(front);
        let last = names[names.len() - 1];
        let one = seq![last];
        assert(text::join(one, seq![',']) == last);
        text_facts::lemma_split_commas(one);
        lemma_names_stay(one);
        assert(front + one =~= names);
    }
}

/// Without a recipes file there are no recipes, whatever is at hand; a file that cannot be read and
/// one that does not parse are reported under their path and with the cause; else the recipes are
/// those of the file.
pub proof fn recipes_come_from_the_file(
    path: &Option<String>,
    content: Result<String, std::io::Error>,
    r: Result<Vec<Recipe>, NodeError>,
)
    requires
        call_ensures(load_recipes, (path, content), r),
    ensures
        match (*path, content) {
            (None, _) => r matches Ok(v) && v@.len() == 0,
            (Some(p), Err(why)) => r matches Err(e) && (e matches NodeError::RecipesFileRead {
                path,
                cause,
            } && path@ == p@ && cause == why),
            (Some(p), Ok(text)) => match (parser::spec_recipes(text@), r) {
                (Ok(recipes), Ok(v)) => text::views(v@) == recipes,
                (
                    Err(why),
                    Err(NodeError::RecipesFileParse { path, cause }),
                ) => path@ == p@ && cause@ == why,
                _ => false,
            },
        },
{
    if let Ok(v) = r {
        assert(text::views(v@).len() == v@.len());
    }
}

/// A node starts with what it was given: its address, its capabilities, the recipes of its file and
/// the bootstrap peers, of which nothing is known but the address. No order waits, and its version
/// is the first one of the time at which it was started.
pub proof fn nodes_start_with_what_they_were_given(
    args: &StartArgs,
    content: Result<String, std::io::Error>,
    started: UnixTime,
    capabilities: Vec<String>,
    recipes: Result<Vec<Recipe>, NodeError>,
    r: Result<NodeState, NodeError>,
)
    requires
        call_ensures(parse_capabilities, (&args.capabilities,), capabilities),
        call_ensures(load_recipes, (&args.recipes_file, content), recipes),
        call_ensures(NodeState::new, (args, content, started), r),
    ensures
        r is Ok <==> recipes is Ok,
        r matches Ok(state) ==> {
            &&& state@.identity.addr == args.host@
            &&& state@.identity.capabilities == text::views(capabilities@)
            &&& state@.identity.recipes == text::views(recipes->Ok_0@)
            &&& state@.pending_orders == Map::<Seq<char>, u64>::empty()
            &&& state@.gossip.version == (Version { counter: 0, generation: started.secs })
            &&& is_bootstrap(text::views(args.peers@), state@.gossip.peers)
        },
        r matches Err(e) ==> match (e, recipes->Err_0) {
            (
                NodeError::RecipesFileRead { path, cause },
                NodeError::RecipesFileRead { path: p, cause: c },
            ) => path@ == p@ && cause == c,
            (
                NodeError::RecipesFileParse { path, cause },
                NodeError::RecipesFileParse { path: p, cause: c },
            ) => path@ == p@ && cause@ == c@,
            _ => false,
        },
{
}

/// The table holds the given peers and no other, and nothing is known of them.
pub open spec fn is_bootstrap(addrs: Seq<Seq<char>>, peers: Map<Seq<char>, PeerView>) -> bool {
    &&& forall|k: Seq<char>| #[trigger] peers.contains_key(k) <==> addrs.contains(k)
    &&& forall|k: Seq<char>|
        #![trigger peers[k]]
        peers.contains_key(k) ==> {
            &&& peers[k].capabilities.len() == 0
            &&& peers[k].recipes.len() == 0
            &&& peers[k].version == (Version { counter: 0, generation: 0 })
            &&& peers[k].last_seen_us == 0
            &&& peers[k].rtt_us is None
        }
}

/// Of bootstrap peers nothing is known but the address.
pub proof fn bootstrap_peers_are_unknown(addrs: &Vec<String>, r: StringMap<PeerInfo>)
    requires
        call_ensures(bootstrap_peers, (addrs,), r),
    ensures
        is_bootstrap(text::views(addrs@), r@),
{
}

/// The message of an error names the file.
pub proof fn start_errors_name_the_file(e: NodeError, r: String)
    requires
        call_ensures(NodeError::message, (&e,), r),
    ensures
        e is RecipesFileRead ==> r@ == "Failed to read recipes file: "@ + e->RecipesFileRead_path@,
        e is RecipesFileParse ==> r@ == "Failed to parse recipes file: "@
            + e->RecipesFileParse_path@,
{
}

/// Of a bootstrap peer that has not been heard of nothing is known: it can do nothing, has no
/// recipe, and was never seen.
pub proof fn nothing_is_known_of_unknown_peers(r: PeerInfo)
    requires
        call_ensures(PeerInfo::unknown, (), r),
    ensures
        r@.capabilities.len() == 0,
        r@.recipes.len() == 0,
        r@.version.counter == 0,
        r@.version.generation == 0,
        r@.last_seen_us == 0,
        r@.rtt_us is None,
{
}

} // verus!
