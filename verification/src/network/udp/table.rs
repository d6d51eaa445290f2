//! How gossip messages change what a node knows of its peers.
use crate::network::udp::transport;
use crate::network::udp::transport::is_newer_version;
use crate::node;
use crate::node::GossipState;
use crate::node::GossipView;
use crate::node::NodeState;
use crate::node::PeerInfo;
use crate::node::PeerView;
use crate::order;
use crate::protocol::addrs;
use crate::protocol::Announce;
use crate::protocol::AnnounceView;
use crate::protocol::Check;
use crate::protocol::Required;
use crate::protocol::UdpMessage;
use crate::protocol::UdpView;
use crate::protocol::Version;
use crate::recipe::RecipeView;
use crate::text;
use crate::text::copy_texts;
use crate::text::same_text;
use vstd::prelude::*;

verus! {

// ── The table ────────────────────────────────────────────────────────────────

/// What is known of a peer, which may be nothing.
pub open spec fn known(peers: Map<Seq<char>, PeerView>, addr: Seq<char>) -> PeerView {
    if peers.contains_key(addr) {
        peers[addr]
    } else {
        node::unknown_peer()
    }
}

/// The table with some addresses added. Of those that are new nothing is known yet.
pub open spec fn with_neighbours(
    peers: Map<Seq<char>, PeerView>,
    addrs: Seq<Seq<char>>,
) -> Map<Seq<char>, PeerView> {
    Map::new(
        |k: Seq<char>| peers.contains_key(k) || addrs.contains(k),
        |k: Seq<char>| known(peers, k),
    )
}

/// The gossip state after an announcement at `now`.
///
/// The announcing peer is known by what it announced; its neighbours are added; the own version
/// becomes the announced one where that is newer.
pub open spec fn announced(g: GossipView, a: AnnounceView, now: u64) -> GossipView {
    let peer = PeerView {
        capabilities: a.capabilities,
        recipes: a.recipes,
        version: a.version,
        last_seen_us: now,
        rtt_us: known(g.peers, a.node_addr).rtt_us,
    };
    GossipView {
        peers: with_neighbours(g.peers.insert(a.node_addr, peer), a.peers),
        version: transport::newest(a.version, g.version),
    }
}

/// The gossip state after a liveness check from `addr` at `now`.
///
/// The peer has been seen; its version and the own one become the checked one where that is newer.
pub open spec fn checked(g: GossipView, addr: Seq<char>, version: Version, now: u64) -> GossipView {
    let before = known(g.peers, addr);
    let peer = PeerView {
        version: transport::newest(version, before.version),
        last_seen_us: now,
        ..before
    };
    GossipView {
        peers: g.peers.insert(addr, peer),
        version: transport::newest(version, g.version),
    }
}

/// Takes in an announcement and tells whether its sender is new.
pub fn apply_announce(gossip: &mut GossipState, announce: &Announce, now: u64) -> (r: bool)
    ensures
        final(gossip)@ == announced(old(gossip)@, announce@, now),
        r == !old(gossip)@.peers.contains_key(announce@.node_addr),
{
    let ghost before = gossip@;
    let ghost a = announce@;
    let (is_new, rtt_us) = match gossip.peers.get(announce.node_addr.0.as_str()) {
        Some(peer) => (false, peer.rtt_us),
        None => (true, None),
    };
    let peer = PeerInfo {
        capabilities: copy_texts(&announce.capabilities),
        recipes: copy_texts(&announce.recipes),
        version: announce.version,
        last_seen_us: now,
        rtt_us,
    };
    gossip.peers.insert(announce.node_addr.0.clone(), peer);
    let ghost base = gossip.peers@;
    assert(base =~= before.peers.insert(a.node_addr, peer@));
    let ghost all = a.peers;
    assert(gossip.peers@ =~= with_neighbours(base, all.take(0)));
    for i in 0..announce.peers.len()
        invariant
            all == announce@.peers,
            gossip.peers@ == with_neighbours(base, all.take(i as int)),
            gossip.version == before.version,
    {
        let ghost some = all.take(i as int);
        let ghost x = all[i as int];
        let ghost was = gossip.peers@;
        assert(x == announce.peers@[i as int]@);
        assert(all.take(i + 1) =~= some.push(x));
        assert forall|k: Seq<char>| all.take(i + 1).contains(k) == (some.contains(k) || k == x) by {
            vstd::seq_lib::lemma_seq_contains_after_push(some, x, k);
        }
        if !gossip.peers.contains_key(announce.peers[i].0.as_str()) {
            gossip.peers.insert(announce.peers[i].0.clone(), PeerInfo::unknown());
        }
        assert(gossip.peers@ =~= with_neighbours(base, all.take(i + 1)));
    }
    assert(all.take(all.len() as int) =~= all);
    if is_newer_version(&announce.version, &gossip.version) {
        gossip.version = announce.version;
    }
    is_new
}

/// Takes in a liveness check.
pub fn apply_check(gossip: &mut GossipState, peer_addr: &str, check: &Check, now: u64)
    ensures
        final(gossip)@ == checked(old(gossip)@, peer_addr@, check.version, now),
{
    let mut peer = match gossip.peers.get(peer_addr) {
        Some(peer) => peer.clone(),
        None => PeerInfo::unknown(),
    };
    if is_newer_version(&check.version, &peer.version) {
        peer.version = check.version;
    }
    peer.last_seen_us = now;
    gossip.peers.insert(peer_addr.to_string(), peer);
    if is_newer_version(&check.version, &gossip.version) {
        gossip.version = check.version;
    }
}

// ── Messages about the node itself ───────────────────────────────────────────

/// The names of some recipes.
pub open spec fn recipe_names(recipes: Seq<RecipeView>) -> Seq<Seq<char>> {
    Seq::new(recipes.len(), |i: int| recipes[i].name)
}

/// The announcement of a node that names some neighbours.
pub open spec fn own_announce(state: node::NodeView, peers: Seq<Seq<char>>) -> AnnounceView {
    AnnounceView {
        node_addr: state.identity.addr,
        capabilities: state.identity.capabilities,
        recipes: recipe_names(state.identity.recipes),
        peers,
        version: state.gossip.version,
    }
}

/// The announcement of a node.
pub fn build_announce_from_node(state: &NodeState, peers: &Vec<String>) -> (r: UdpMessage)
    ensures
        r@ == UdpView::Announce(own_announce(state@, text::views(peers@))),
{
    let mut recipes: Vec<String> = Vec::new();
    for i in 0..state.identity.recipes.len()
        invariant
            recipes@.len() == i,
            forall|j: int|
                0 <= j < i ==> (#[trigger] recipes@[j])@ == state.identity.recipes@[j]@.name,
    {
        recipes.push(state.identity.recipes[i].name.clone());
    }
    assert(text::views(recipes@) =~= recipe_names(state@.identity.recipes));
    UdpMessage::Announce(
        Announce {
            node_addr: Required(state.identity.addr.clone()),
            capabilities: copy_texts(&state.identity.capabilities),
            recipes,
            peers: addrs(peers),
            version: state.gossip.version,
        },
    )
}

/// The addresses of all known peers, in ascending order.
pub fn peer_addrs(state: &NodeState) -> (r: Vec<String>)
    ensures
        text::views(r@) == order::sorted(state@.gossip.peers.dom()),
{
    let count: usize = state.gossip.peers.len();
    let mut out: Vec<String> = Vec::new();
    let ghost keys = order::sorted(state@.gossip.peers.dom());
    for i in 0..count
        invariant
            keys == order::sorted(state.gossip.peers@.dom()),
            count == keys.len(),
            out@.len() == i,
            forall|j: int| 0 <= j < i ==> (#[trigger] out@[j])@ == keys[j],
    {
        out.push(state.gossip.peers.key_at(i).clone());
    }
    assert(text::views(out@) =~= keys);
    out
}

/// An address is not the node's own.
pub open spec fn is_other(own: Seq<char>) -> spec_fn(Seq<char>) -> bool {
    |a: Seq<char>| a != own
}

/// The addresses that are not the node's own.
pub open spec fn others(addrs: Seq<Seq<char>>, own: Seq<char>) -> Seq<Seq<char>> {
    addrs.filter(is_other(own))
}

/// The addresses that are not the node's own are among all.
pub proof fn lemma_others_within(addrs: Seq<Seq<char>>, own: Seq<char>, i: int)
    requires
        0 <= i < others(addrs, own).len(),
    ensures
        addrs.contains(others(addrs, own)[i]),
{
    let kept = others(addrs, own);
    assert(kept.contains(kept[i]));
    addrs.lemma_filter_contains_rev(is_other(own), kept[i]);
}

/// The addresses to which a message for some peers goes: all but the own one.
pub fn targets(peers: &Vec<String>, own: &str) -> (r: Vec<String>)
    ensures
        text::views(r@) == others(text::views(peers@), own@),
{
    let ghost all = text::views(peers@);
    let ghost keep = is_other(own@);
    let mut out: Vec<String> = Vec::new();
    assert(text::views(out@) =~= all.take(0).filter(keep)) by {
        reveal(Seq::filter);
    }
    for i in 0..peers.len()
        invariant
            all == text::views(peers@),
            keep == is_other(own@),
            text::views(out@) == all.take(i as int).filter(keep),
    {
        assert(all.take(i + 1) =~= all.take(i as int).push(peers@[i as int]@));
        proof {
            all.take(i as int).lemma_filter_push(peers@[i as int]@, keep);
        }
        if !same_text(peers[i].as_str(), own) {
            let ghost was = text::views(out@);
            out.push(peers[i].clone());
            assert(text::views(out@) =~= was.push(peers@[i as int]@));
        }
    }
    assert(all.take(all.len() as int) =~= all);
    out
}

// ── Laws ─────────────────────────────────────────────────────────────────────

/// The own version never goes back: after an announcement or a check it is the old one or a newer
/// one, and not older than what came in.
pub proof fn version_never_goes_back(
    g: GossipView,
    a: AnnounceView,
    addr: Seq<char>,
    version: Version,
    now: u64,
)
    ensures
        announced(g, a, now).version == g.version || transport::newer(
            announced(g, a, now).version,
            g.version,
        ),
        !transport::newer(a.version, announced(g, a, now).version),
        checked(g, addr, version, now).version == g.version || transport::newer(
            checked(g, addr, version, now).version,
            g.version,
        ),
        !transport::newer(version, checked(g, addr, version, now).version),
{
}

/// No peer is ever forgotten, and the sender and the neighbours that it names are known
/// afterwards.
pub proof fn peers_are_kept(
    g: GossipView,
    a: AnnounceView,
    addr: Seq<char>,
    version: Version,
    now: u64,
)
    ensures
        g.peers.dom().subset_of(announced(g, a, now).peers.dom()),
        announced(g, a, now).peers.contains_key(a.node_addr),
        forall|i: int|
            0 <= i < a.peers.len() ==> announced(g, a, now).peers.contains_key(
                #[trigger] a.peers[i],
            ),
        checked(g, addr, version, now).peers.dom() == g.peers.dom().insert(addr),
{
    assert forall|i: int| 0 <= i < a.peers.len() implies announced(g, a, now).peers.contains_key(
        #[trigger] a.peers[i],
    ) by {
        assert(a.peers.contains(a.peers[i]));
    }
    assert(checked(g, addr, version, now).peers.dom() =~= g.peers.dom().insert(addr));
}

/// A peer is known by its last announcement; what is known of all others stays.
pub proof fn announcement_tells_of_its_sender(g: GossipView, a: AnnounceView, now: u64)
    ensures
        ({
            let peer = announced(g, a, now).peers[a.node_addr];
            &&& peer.capabilities == a.capabilities
            &&& peer.recipes == a.recipes
            &&& peer.version == a.version
            &&& peer.last_seen_us == now
        }),
        forall|k: Seq<char>|
            #![trigger announced(g, a, now).peers[k]]
            g.peers.contains_key(k) && k != a.node_addr ==> announced(g, a, now).peers[k]
                == g.peers[k],
{
}

/// Hearing the same announcement again changes nothing but the time at which the peer was seen.
pub proof fn announcement_is_idempotent(g: GossipView, a: AnnounceView, first: u64, second: u64)
    ensures
        announced(announced(g, a, first), a, second) == announced(g, a, second),
{
    let once = announced(g, a, first);
    let twice = announced(once, a, second);
    assert(twice.peers =~= announced(g, a, second).peers);
}

/// A node sends nothing to itself.
pub proof fn nothing_goes_to_oneself(addrs: Seq<Seq<char>>, own: Seq<char>)
    ensures
        !others(addrs, own).contains(own),
        forall|i: int|
            0 <= i < addrs.len() && addrs[i] != own ==> others(addrs, own).contains(
                #[trigger] addrs[i],
            ),
{
    let keep = is_other(own);
    if others(addrs, own).contains(own) {
        let i = choose|i: int| 0 <= i < others(addrs, own).len() && others(addrs, own)[i] == own;
        addrs.lemma_filter_pred(keep, i);
    }
    assert forall|i: int| 0 <= i < addrs.len() && addrs[i] != own implies others(
        addrs,
        own,
    ).contains(#[trigger] addrs[i]) by {
        addrs.lemma_filter_contains(keep, i);
    }
}

/// `v` is what becomes of a version when another one comes in: one of the two, and none of them is
/// newer.
pub open spec fn is_later_of(v: Version, was: Version, came: Version) -> bool {
    &&& v == was || v == came
    &&& !transport::newer(was, v)
    &&& !transport::newer(came, v)
}

/// A liveness check leaves what its sender has announced as it was: capabilities, recipes and
/// round-trip time stay, and only the version and the time at which the peer was seen change. All
/// other peers stay as they were. A sender that was not known is known afterwards, with nothing
/// but its version.
pub proof fn check_keeps_what_was_announced(
    gossip: &mut GossipState,
    peer_addr: &str,
    check: &Check,
    now: u64,
)
    requires
        call_ensures(apply_check, (gossip, peer_addr, check, now), ()),
    ensures
        ({
            let was = old(gossip)@;
            let next = final(gossip)@;
            let sender = next.peers[peer_addr@];
            &&& next.peers.dom() == was.peers.dom().insert(peer_addr@)
            &&& forall|k: Seq<char>|
                #![trigger next.peers[k]]
                k != peer_addr@ && was.peers.contains_key(k) ==> next.peers[k] == was.peers[k]
            &&& sender.last_seen_us == now
            &&& if was.peers.contains_key(peer_addr@) {
                let before = was.peers[peer_addr@];
                &&& sender.capabilities == before.capabilities
                &&& sender.recipes == before.recipes
                &&& sender.rtt_us == before.rtt_us
                &&& is_later_of(sender.version, before.version, check.version)
            } else {
                &&& sender.capabilities.len() == 0
                &&& sender.recipes.len() == 0
                &&& sender.rtt_us is None
                &&& sender.version == check.version
            }
            &&& is_later_of(next.version, was.version, check.version)
        }),
{
    assert(final(gossip)@.peers.dom() =~= old(gossip)@.peers.dom().insert(peer_addr@));
}

/// An announcement replaces what was announced before, and nothing else: its sender is known by
/// exactly what it announced, keeps the round-trip time that was measured, and counts as new where
/// it was not known. The neighbours that it names are added, those that were not known with
/// nothing but their address; no other peer is added, and no known peer changes.
pub proof fn announcement_counts_for_its_sender_alone(
    gossip: &mut GossipState,
    announce: &Announce,
    now: u64,
    r: bool,
)
    requires
        call_ensures(apply_announce, (gossip, announce, now), r),
    ensures
        ({
            let was = old(gossip)@;
            let next = final(gossip)@;
            let a = announce@;
            let sender = next.peers[a.node_addr];
            &&& r == !was.peers.contains_key(a.node_addr)
            &&& forall|k: Seq<char>| #[trigger]
                next.peers.contains_key(k) <==> was.peers.contains_key(k) || k == a.node_addr
                    || a.peers.contains(k)
            &&& sender.capabilities == a.capabilities
            &&& sender.recipes == a.recipes
            &&& sender.version == a.version
            &&& sender.last_seen_us == now
            &&& sender.rtt_us == (if was.peers.contains_key(a.node_addr) {
                was.peers[a.node_addr].rtt_us
            } else {
                None
            })
            &&& forall|k: Seq<char>|
                #![trigger next.peers[k]]
                k != a.node_addr && was.peers.contains_key(k) ==> next.peers[k] == was.peers[k]
            &&& forall|k: Seq<char>|
                #![trigger next.peers[k]]
                k != a.node_addr && !was.peers.contains_key(k) && a.peers.contains(k) ==> {
                    let p = next.peers[k];
                    &&& p.capabilities.len() == 0
                    &&& p.recipes.len() == 0
                    &&& p.version == (Version { counter: 0, generation: 0 })
                    &&& p.last_seen_us == 0
                    &&& p.rtt_us is None
                }
            &&& is_later_of(next.version, was.version, a.version)
        }),
{
}

/// A node announces what it is: its address, its capabilities, the names of all its recipes in
/// order, the given neighbours and its version.
pub proof fn nodes_announce_what_they_are(state: &NodeState, peers: &Vec<String>, r: UdpMessage)
    requires
        call_ensures(build_announce_from_node, (state, peers), r),
    ensures
        r@ matches UdpView::Announce(a) && {
            &&& a.node_addr == state@.identity.addr
            &&& a.capabilities == state@.identity.capabilities
            &&& a.recipes.len() == state@.identity.recipes.len()
            &&& forall|i: int|
                0 <= i < a.recipes.len() ==> #[trigger] a.recipes[i]
                    == state@.identity.recipes[i].name
            &&& a.peers == text::views(peers@)
            &&& a.version == state@.gossip.version
        },
{
}

/// Every known peer is listed once, in ascending order, and nothing else is.
pub proof fn all_known_peers_are_listed(state: &NodeState, r: Vec<String>)
    requires
        state@.gossip.peers.dom().finite(),
        call_ensures(peer_addrs, (state,), r),
    ensures
        order::ascending(text::views(r@)),
        forall|k: Seq<char>| #[trigger]
            text::views(r@).contains(k) <==> state@.gossip.peers.contains_key(k),
{
    lemma_sorted_holds(state@.gossip.peers);
}

/// The sorted addresses are those of the table.
pub proof fn lemma_sorted_holds(peers: Map<Seq<char>, PeerView>)
    requires
        peers.dom().finite(),
    ensures
        order::ascending(order::sorted(peers.dom())),
        forall|k: Seq<char>| #[trigger]
            order::sorted(peers.dom()).contains(k) <==> peers.contains_key(k),
{
    let keys = order::sorted(peers.dom());
    order::lemma_sorted(peers.dom());
    assert forall|k: Seq<char>| #[trigger] keys.contains(k) <==> peers.contains_key(k) by {
        assert(keys.to_set().contains(k) <==> keys.contains(k));
    }
}

/// A message goes to each given address but the own one, in the given order: what is sent for two
/// lists in a row is what is sent for the one and then what is sent for the other, and a single
/// address is left out exactly where it is the own one.
pub proof fn all_but_oneself_are_told(
    a: &Vec<String>,
    b: &Vec<String>,
    both: &Vec<String>,
    own: &str,
    to_a: Vec<String>,
    to_b: Vec<String>,
    to_both: Vec<String>,
)
    requires
        call_ensures(targets, (a, own), to_a),
        call_ensures(targets, (b, own), to_b),
        call_ensures(targets, (both, own), to_both),
        text::views(both@) == text::views(a@) + text::views(b@),
    ensures
        text::views(to_both@) == text::views(to_a@) + text::views(to_b@),
        forall|k: Seq<char>| #[trigger]
            text::views(to_a@).contains(k) <==> text::views(a@).contains(k) && k != own@,
        a@.len() == 1 && a@[0]@ != own@ ==> text::views(to_a@) == text::views(a@),
{
    let x = text::views(a@);
    let y = text::views(b@);
    let keep = is_other(own@);
    Seq::filter_distributes_over_add(x, y, keep);
    lemma_others_hold(x, own@);
    if a@.len() == 1 && a@[0]@ != own@ {
        let none = Seq::<Seq<char>>::empty();
        assert(x[0] == a@[0]@);
        assert(none.push(x[0]) =~= x);
        none.lemma_filter_push(x[0], keep);
        reveal(Seq::filter);
        assert(none.filter(keep) =~= none);
    }
}

/// The addresses that are not the own one are all others.
pub proof fn lemma_others_hold(addrs: Seq<Seq<char>>, own: Seq<char>)
    ensures
        forall|k: Seq<char>| #[trigger]
            others(addrs, own).contains(k) <==> addrs.contains(k) && k != own,
{
    let kept = others(addrs, own);
    nothing_goes_to_oneself(addrs, own);
    assert forall|k: Seq<char>| #[trigger] kept.contains(k) <==> addrs.contains(k) && k != own by {
        if kept.contains(k) {
            let i = choose|i: int| 0 <= i < kept.len() && kept[i] == k;
            lemma_others_within(addrs, own, i);
        }
        if addrs.contains(k) && k != own {
            let i = choose|i: int| 0 <= i < addrs.len() && addrs[i] == k;
            assert(kept.contains(addrs[i]));
        }
    }
}

} // verus!
