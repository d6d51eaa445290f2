//! The gossip dialect in which a new peer's announcement is answered and a ping is echoed.
use crate::clock::UnixTime;
use crate::network::udp::table;
use crate::network::udp::table::apply_announce;
use crate::network::udp::table::apply_check;
use crate::network::udp::table::build_announce_from_node;
use crate::network::udp::table::peer_addrs;
use crate::network::udp::table::targets;
use crate::network::udp::transport;
use crate::network::udp::transport::Processed;
use crate::network::udp::transport::Received;
use crate::network::udp::transport::RecvFailure;
use crate::node::GossipView;
use crate::node::NodeState;
use crate::node::NodeView;
use crate::order;
use crate::protocol::Check;
use crate::protocol::CheckView;
use crate::protocol::LastSeenMap;
use crate::protocol::LastSeenView;
use crate::protocol::Required;
use crate::protocol::TaggedLastSeen;
use crate::protocol::UdpMessage;
use crate::protocol::UdpView;
use crate::protocol::Version;
use crate::text;
use std::collections::HashMap;
use vstd::prelude::*;

verus! {

/// Seconds between two rounds of pings.
pub const HEARTBEAT_INTERVAL_SECS: u64 = 2;

/// The last-seen map of a heartbeat: whole seconds under 1, microseconds on top under -6.
pub open spec fn heartbeat(micros: u64) -> LastSeenView {
    LastSeenView::ByCode(
        Map::<i64, u64>::empty().insert(1, (micros / 1_000_000) as u64).insert(
            (-6) as i64,
            (micros % 1_000_000) as u64,
        ),
    )
}

/// Microseconds since the epoch as they are written down.
pub open spec fn micros_at(now: UnixTime) -> u64 {
    (now.total_micros() % 0x1_0000_0000_0000_0000) as u64
}

/// The last-seen map of a heartbeat at `now`.
pub fn heartbeat_last_seen(now: UnixTime) -> (r: TaggedLastSeen)
    ensures
        r@ == heartbeat(micros_at(now)),
{
    broadcast use vstd::std_specs::hash::group_hash_axioms;

    let micros: u64 = now.micros();
    let mut by_code: HashMap<i64, u64> = HashMap::new();
    by_code.insert(1, micros / 1_000_000);
    by_code.insert(-6, micros % 1_000_000);
    Required(LastSeenMap::ByCode(by_code))
}

/// What stands for a message where none came in.
pub open spec fn placeholder(now: UnixTime) -> UdpView {
    UdpView::Pong(
        CheckView {
            last_seen: heartbeat(micros_at(now)),
            version: Version { counter: 0, generation: 0 },
        },
    )
}

/// What stands for a message where none came in.
pub fn placeholder_pong(now: UnixTime) -> (r: UdpMessage)
    ensures
        r@ == placeholder(now),
{
    UdpMessage::Pong(
        Check {
            last_seen: heartbeat_last_seen(now),
            version: Version { counter: 0, generation: 0 },
        },
    )
}

/// The ping of a node.
pub fn build_ping_from_node(state: &NodeState, now: UnixTime) -> (r: UdpMessage)
    ensures
        r@ == UdpView::Ping(
            CheckView {
                last_seen: heartbeat(micros_at(now)),
                version: state@.gossip.version,
            },
        ),
{
    UdpMessage::Ping(
        Check { last_seen: heartbeat_last_seen(now), version: state.gossip.version },
    )
}

/// The addresses that are pinged: all known peers but the node itself.
pub fn ping_targets(state: &NodeState) -> (r: Vec<String>)
    ensures
        text::views(r@) == table::others(
            order::sorted(state@.gossip.peers.dom()),
            state@.identity.addr,
        ),
{
    targets(&peer_addrs(state), state.identity.addr.as_str())
}

/// The first announcement of a node and the bootstrap peers that it goes to.
pub fn first_announcement(state: &NodeState, peers: &Vec<String>) -> (r: (UdpMessage, Vec<String>))
    ensures
        r.0@ == UdpView::Announce(table::own_announce(state@, text::views(peers@))),
        text::views(r.1@) == table::others(text::views(peers@), state@.identity.addr),
{
    (build_announce_from_node(state, peers), targets(peers, state.identity.addr.as_str()))
}

/// The state of a node after a message from `from` at `now`.
pub open spec fn after(state: NodeView, from: Seq<char>, message: UdpView, now: UnixTime) -> NodeView {
    NodeView {
        gossip: match message {
            UdpView::Announce(a) => table::announced(state.gossip, a, micros_at(now)),
            UdpView::Ping(c) => table::checked(state.gossip, from, c.version, micros_at(now)),
            UdpView::Pong(c) => table::checked(state.gossip, from, c.version, micros_at(now)),
        },
        ..state
    }
}

/// The reply to a message, sent from the state after it.
///
/// - An announcement of a peer that was not known is answered with the own announcement, which
///   names all peers known by then.
/// - A ping is answered with a pong that echoes its last-seen map.
/// - Anything else is not answered.
pub open spec fn reply(
    state: NodeView,
    from: Seq<char>,
    message: UdpView,
    now: UnixTime,
) -> Option<UdpView> {
    let next = after(state, from, message, now);
    match message {
        UdpView::Announce(a) => if state.gossip.peers.contains_key(a.node_addr) {
            None
        } else {
            Some(
                UdpView::Announce(
                    table::own_announce(next, order::sorted(next.gossip.peers.dom())),
                ),
            )
        },
        UdpView::Ping(c) => Some(
            UdpView::Pong(CheckView { last_seen: c.last_seen, version: next.gossip.version }),
        ),
        UdpView::Pong(c) => None,
    }
}

/// Applies one UDP message at `now` and builds the reply, if there is one.
pub fn handle_udp_message_at(
    state: &mut NodeState,
    peer_addr: &str,
    message: &UdpMessage,
    now: UnixTime,
) -> (r: Option<UdpMessage>)
    ensures
        final(state)@ == after(old(state)@, peer_addr@, message@, now),
        transport::message_view(r) == reply(old(state)@, peer_addr@, message@, now),
{
    match message {
        UdpMessage::Announce(announce) => {
            let is_new = apply_announce(&mut state.gossip, announce, now.micros());
            if is_new {
                let peers = peer_addrs(state);
                Some(build_announce_from_node(state, &peers))
            } else {
                None
            }
        },
        UdpMessage::Ping(check) => {
            apply_check(&mut state.gossip, peer_addr, check, now.micros());
            Some(
                UdpMessage::Pong(
                    Check { last_seen: check.last_seen.clone(), version: state.gossip.version },
                ),
            )
        },
        UdpMessage::Pong(check) => {
            apply_check(&mut state.gossip, peer_addr, check, now.micros());
            None
        },
    }
}

/// Applies one UDP message and builds the reply, if there is one.
///
/// - `Announce` updates known peer data and is answered if the peer is newly discovered.
/// - `Ping` updates liveness and version data and is answered with a `Pong`.
/// - `Pong` only updates liveness and version data.
pub fn handle_udp_message_shared(
    state: &mut NodeState,
    peer_addr: &str,
    message: &UdpMessage,
) -> (r: Option<UdpMessage>)
    ensures
        exists|now: UnixTime|
            {
                &&& now.wf()
                &&& final(state)@ == #[trigger] after(old(state)@, peer_addr@, message@, now)
                &&& transport::message_view(r) == reply(old(state)@, peer_addr@, message@, now)
            },
{
    let now = UnixTime::now();
    let r = handle_udp_message_at(state, peer_addr, message, now);
    assert(state@ == after(old(state)@, peer_addr@, message@, now));
    r
}

/// Takes in what one attempt to receive a datagram gave.
///
/// A message is handled and its reply goes back to where it came from. A datagram that is no
/// message, and an attempt that gave nothing for now, leave all as it is and count as a
/// placeholder. A broken socket counts as nothing.
pub fn process_one_datagram_at(state: &mut NodeState, received: Received, now: UnixTime) -> (r:
    Processed)
    ensures
        match received {
            Received::Message { from, message } => {
                &&& final(state)@ == after(old(state)@, from@, message@, now)
                &&& transport::message_view(r.message) == Some(message@)
                &&& transport::reply_view(r.reply) == match reply(
                    old(state)@,
                    from@,
                    message@,
                    now,
                ) {
                    Some(m) => Some((from@, m)),
                    None => None,
                }
            },
            Received::Malformed => {
                &&& final(state)@ == old(state)@
                &&& transport::message_view(r.message) == Some(placeholder(now))
                &&& r.reply is None
            },
            Received::Nothing(why) => {
                &&& final(state)@ == old(state)@
                &&& transport::message_view(r.message) == (if why == RecvFailure::Other {
                    None
                } else {
                    Some(placeholder(now))
                })
                &&& r.reply is None
            },
        },
{
    match received {
        Received::Message { from, message } => {
            let answer = handle_udp_message_at(state, from.as_str(), &message, now);
            let reply = match answer {
                Some(m) => Some((from, m)),
                None => None,
            };
            Processed { message: Some(message), reply }
        },
        Received::Malformed => Processed { message: Some(placeholder_pong(now)), reply: None },
        Received::Nothing(why) => match why {
            RecvFailure::Other => Processed { message: None, reply: None },
            _ => Processed { message: Some(placeholder_pong(now)), reply: None },
        },
    }
}

// ── Laws ─────────────────────────────────────────────────────────────────────

/// Gossip changes neither what a node is nor which orders wait.
pub proof fn gossip_touches_only_gossip(
    state: NodeView,
    from: Seq<char>,
    message: UdpView,
    now: UnixTime,
)
    ensures
        after(state, from, message, now).identity == state.identity,
        after(state, from, message, now).pending_orders == state.pending_orders,
{
}

/// Whatever message comes in, the own version does not go back and no peer is forgotten.
pub proof fn gossip_only_grows(state: NodeView, from: Seq<char>, message: UdpView, now: UnixTime)
    ensures
        ({
            let next = after(state, from, message, now).gossip;
            &&& next.version == state.gossip.version || transport::newer(
                next.version,
                state.gossip.version,
            )
            &&& state.gossip.peers.dom().subset_of(next.peers.dom())
        }),
{
}

/// A peer's first announcement is answered with an announcement, its second one is not.
pub proof fn only_the_first_announcement_is_answered(
    state: NodeView,
    from: Seq<char>,
    message: UdpView,
    now: UnixTime,
    later: UnixTime,
)
    requires
        message is Announce,
        !state.gossip.peers.contains_key(message->Announce_0.node_addr),
    ensures
        reply(state, from, message, now) matches Some(UdpView::Announce(a)) && a.node_addr
            == state.identity.addr,
        reply(after(state, from, message, now), from, message, later) is None,
{
}

/// Between two nodes an exchange of announcements ends: the answer to an announcement is not
/// answered by the node that sent the first one, once it knows the other.
pub proof fn answers_are_not_answered(
    sender: NodeView,
    receiver: NodeView,
    message: UdpView,
    now: UnixTime,
)
    requires
        message is Announce,
        reply(receiver, sender.identity.addr, message, now) is Some,
        sender.gossip.peers.contains_key(receiver.identity.addr),
    ensures
        reply(
            sender,
            receiver.identity.addr,
            reply(receiver, sender.identity.addr, message, now)->0,
            now,
        ) is None,
{
}

/// Two nodes get to know each other by one announcement and its answer: the receiver knows the
/// sender by its capabilities and recipes, and once the sender has taken in the answer, it knows
/// the receiver by those of the receiver.
pub proof fn strangers_get_to_know_each_other(
    sender: NodeView,
    receiver: NodeView,
    neighbours: Seq<Seq<char>>,
    now: UnixTime,
    later: UnixTime,
)
    requires
        !receiver.gossip.peers.contains_key(sender.identity.addr),
    ensures
        ({
            let hello = UdpView::Announce(table::own_announce(sender, neighbours));
            let met = after(receiver, sender.identity.addr, hello, now);
            let answer = reply(receiver, sender.identity.addr, hello, now);
            &&& is_introduced(met, sender)
            &&& answer is Some
            &&& is_introduced(after(sender, receiver.identity.addr, answer->0, later), receiver)
        }),
{
}

/// A node knows another one by its address, with its capabilities and the names of its recipes.
pub open spec fn is_introduced(state: NodeView, other: NodeView) -> bool {
    let peers = state.gossip.peers;
    &&& peers.contains_key(other.identity.addr)
    &&& peers[other.identity.addr].capabilities == other.identity.capabilities
    &&& peers[other.identity.addr].recipes == table::recipe_names(other.identity.recipes)
}

/// Every ping is answered with a pong that carries the ping's last-seen map and a version that is
/// not older than the ping's; the pong is not answered in turn.
pub proof fn pings_are_echoed(
    state: NodeView,
    other: NodeView,
    from: Seq<char>,
    check: CheckView,
    now: UnixTime,
)
    ensures
        reply(state, from, UdpView::Ping(check), now) matches Some(UdpView::Pong(c))
            && c.last_seen == check.last_seen && !transport::newer(check.version, c.version)
            && reply(other, state.identity.addr, UdpView::Pong(c), now) is None,
{
}

/// `next` is what a node knows after it has heard a sign of life of a peer: the peer was seen at that
/// time, what it has announced stays, and all other peers stay as they were.
pub open spec fn is_seen(
    was: GossipView,
    next: GossipView,
    addr: Seq<char>,
    version: Version,
    at: int,
) -> bool {
    &&& next.peers.dom() == was.peers.dom().insert(addr)
    &&& next.peers[addr].last_seen_us == at
    &&& was.peers.contains_key(addr) ==> {
        &&& next.peers[addr].capabilities == was.peers[addr].capabilities
        &&& next.peers[addr].recipes == was.peers[addr].recipes
        &&& next.peers[addr].rtt_us == was.peers[addr].rtt_us
        &&& table::is_later_of(next.peers[addr].version, was.peers[addr].version, version)
    }
    &&& forall|k: Seq<char>|
        #![trigger next.peers[k]]
        k != addr && was.peers.contains_key(k) ==> next.peers[k] == was.peers[k]
    &&& table::is_later_of(next.version, was.version, version)
}

/// `next` is what a node has become after a message: an announcement replaces what was known of the
/// peer that it names and adds the neighbours that it names; a ping or a pong is a sign of life of
/// the peer that it came from. Nothing else changes.
pub open spec fn tells_of_sender(
    was: NodeView,
    next: NodeView,
    from: Seq<char>,
    message: UdpView,
    now: UnixTime,
) -> bool {
    let micros = (now.secs * 1_000_000 + now.nanos / 1_000) % 0x1_0000_0000_0000_0000;
    &&& next.identity == was.identity
    &&& next.pending_orders == was.pending_orders
    &&& match message {
        UdpView::Announce(a) => {
            let old_peers = was.gossip.peers;
            let peers = next.gossip.peers;
            &&& peers[a.node_addr].capabilities == a.capabilities
            &&& peers[a.node_addr].recipes == a.recipes
            &&& peers[a.node_addr].version == a.version
            &&& peers[a.node_addr].last_seen_us == micros
            &&& forall|k: Seq<char>| #[trigger]
                peers.contains_key(k) <==> old_peers.contains_key(k) || k == a.node_addr
                    || a.peers.contains(k)
            &&& forall|k: Seq<char>|
                #![trigger peers[k]]
                k != a.node_addr && old_peers.contains_key(k) ==> peers[k] == old_peers[k]
            &&& forall|k: Seq<char>|
                #![trigger peers[k]]
                k != a.node_addr && !old_peers.contains_key(k) && a.peers.contains(k)
                    ==> peers[k].capabilities.len() == 0 && peers[k].recipes.len() == 0
            &&& table::is_later_of(next.gossip.version, was.gossip.version, a.version)
        },
        UdpView::Ping(c) => is_seen(was.gossip, next.gossip, from, c.version, micros),
        UdpView::Pong(c) => is_seen(was.gossip, next.gossip, from, c.version, micros),
    }
}

/// What a node becomes after a message is due to the sender of the message.
pub proof fn lemma_tells_of_sender(
    state: NodeView,
    from: Seq<char>,
    message: UdpView,
    now: UnixTime,
)
    ensures
        tells_of_sender(state, after(state, from, message, now), from, message, now),
{
    let next = after(state, from, message, now).gossip;
    assert(message is Announce || next.peers.dom() =~= state.gossip.peers.dom().insert(from));
}

/// A message tells of its sender and of nobody else: an announcement replaces what was known of the
/// peer that it names, a ping or a pong marks the peer that it came from as seen and leaves what
/// that peer has announced. The node itself and its orders stay as they were.
pub proof fn messages_tell_of_their_sender(
    state: &mut NodeState,
    peer_addr: &str,
    message: &UdpMessage,
    now: UnixTime,
    r: Option<UdpMessage>,
)
    requires
        call_ensures(handle_udp_message_at, (state, peer_addr, message, now), r),
    ensures
        tells_of_sender(old(state)@, final(state)@, peer_addr@, message@, now),
{
    lemma_tells_of_sender(old(state)@, peer_addr@, message@, now);
}

/// `answer` is what the sender of a message waits for. A newly discovered peer is told who this
/// node is and whom it knows by then, that peer included; a known one is told nothing. A ping comes
/// back as a pong with the same last-seen map and the version that the node then has. A pong is not
/// answered.
pub open spec fn is_due(
    was: NodeView,
    next: NodeView,
    message: UdpView,
    answer: Option<UdpView>,
) -> bool {
    match message {
        UdpView::Announce(a) => if was.gossip.peers.contains_key(a.node_addr) {
            answer is None
        } else {
            answer matches Some(UdpView::Announce(own)) && {
                &&& own.node_addr == was.identity.addr
                &&& own.capabilities == was.identity.capabilities
                &&& own.recipes.len() == was.identity.recipes.len()
                &&& forall|i: int|
                    0 <= i < own.recipes.len() ==> #[trigger] own.recipes[i]
                        == was.identity.recipes[i].name
                &&& own.version == next.gossip.version
                &&& order::ascending(own.peers)
                &&& forall|k: Seq<char>| #[trigger]
                    own.peers.contains(k) <==> was.gossip.peers.contains_key(k) || k == a.node_addr
                        || a.peers.contains(k)
            }
        },
        UdpView::Ping(c) => answer matches Some(UdpView::Pong(p)) && p.last_seen == c.last_seen
            && p.version == next.gossip.version,
        UdpView::Pong(c) => answer is None,
    }
}

/// What a node replies is what the sender of the message waits for.
proof fn lemma_due(state: NodeView, from: Seq<char>, message: UdpView, now: UnixTime)
    requires
        state.gossip.peers.dom().finite(),
    ensures
        is_due(
            state,
            after(state, from, message, now),
            message,
            reply(state, from, message, now),
        ),
{
    if message is Announce {
        let a = message->Announce_0;
        let was = state.gossip.peers;
        let next = after(state, from, message, now).gossip.peers;
        vstd::seq_lib::seq_to_set_is_finite(a.peers);
        assert(next.dom() =~= was.dom().insert(a.node_addr).union(a.peers.to_set()));
        table::lemma_sorted_holds(next);
    }
}

/// The sender of a message gets the reply that it waits for, and no other.
pub proof fn peers_get_the_reply_they_wait_for(
    state: &mut NodeState,
    peer_addr: &str,
    message: &UdpMessage,
    now: UnixTime,
    r: Option<UdpMessage>,
)
    requires
        old(state)@.gossip.peers.dom().finite(),
        call_ensures(handle_udp_message_at, (state, peer_addr, message, now), r),
    ensures
        is_due(old(state)@, final(state)@, message@, transport::message_view(r)),
{
    lemma_due(old(state)@, peer_addr@, message@, now);
}

/// The same holds where the clock of the machine tells the time.
pub proof fn messages_are_handled_in_time(
    state: &mut NodeState,
    peer_addr: &str,
    message: &UdpMessage,
    r: Option<UdpMessage>,
)
    requires
        old(state)@.gossip.peers.dom().finite(),
        call_ensures(handle_udp_message_shared, (state, peer_addr, message), r),
    ensures
        exists|now: UnixTime| #[trigger]
            tells_of_sender(old(state)@, final(state)@, peer_addr@, message@, now) && now.wf(),
        is_due(old(state)@, final(state)@, message@, transport::message_view(r)),
{
    let now = choose|now: UnixTime|
        {
            &&& now.wf()
            &&& final(state)@ == #[trigger] after(old(state)@, peer_addr@, message@, now)
            &&& transport::message_view(r) == reply(old(state)@, peer_addr@, message@, now)
        };
    lemma_tells_of_sender(old(state)@, peer_addr@, message@, now);
    lemma_due(old(state)@, peer_addr@, message@, now);
    assert(tells_of_sender(old(state)@, final(state)@, peer_addr@, message@, now));
}

/// What comes in over the wire is handled as a message of the one that it came from, and the reply
/// goes back there. Where nothing comes in, or nothing that is a message, nothing changes and
/// nobody is answered; only a broken socket counts as no message at all.
pub proof fn datagrams_are_handled_or_left(
    state: &mut NodeState,
    received: Received,
    now: UnixTime,
    r: Processed,
)
    requires
        old(state)@.gossip.peers.dom().finite(),
        call_ensures(process_one_datagram_at, (state, received, now), r),
    ensures
        match received {
            Received::Message { from, message } => {
                &&& r.message is Some && r.message->0@ == message@
                &&& r.reply matches Some((to, m)) ==> to@ == from@
                &&& is_due(
                    old(state)@,
                    final(state)@,
                    message@,
                    match r.reply {
                        Some((to, m)) => Some(m@),
                        None => None,
                    },
                )
                &&& tells_of_sender(old(state)@, final(state)@, from@, message@, now)
            },
            Received::Malformed => final(state)@ == old(state)@ && r.reply is None
                && r.message is Some && tells_time_alone(r.message->0@, now),
            Received::Nothing(why) => final(state)@ == old(state)@ && r.reply is None && (
            r.message is None <==> why == RecvFailure::Other) && (r.message matches Some(m)
                ==> tells_time_alone(m@, now)),
        },
{
    lemma_tells_time(now);
    if let Received::Message { from, message } = received {
        lemma_tells_of_sender(old(state)@, from@, message@, now);
        lemma_due(old(state)@, from@, message@, now);
    }
}

/// The last-seen map of a heartbeat gives the time back: its two entries are the whole seconds and
/// the microseconds on top.
pub proof fn heartbeats_give_the_time_back(now: UnixTime, r: TaggedLastSeen)
    requires
        call_ensures(heartbeat_last_seen, (now,), r),
    ensures
        tells_time(r@, now),
{
    lemma_tells_time(now);
}

/// The last-seen map tells a point in time: whole seconds and the microseconds on top, of which 64
/// bits count together.
pub open spec fn tells_time(seen: LastSeenView, now: UnixTime) -> bool {
    seen matches LastSeenView::ByCode(m) && {
        &&& m.dom() == set![1i64, -6i64]
        &&& m[-6i64] < 1_000_000
        &&& m[1i64] * 1_000_000 + m[-6i64] == (now.secs * 1_000_000 + now.nanos / 1_000)
            % 0x1_0000_0000_0000_0000
    }
}

proof fn lemma_tells_time(now: UnixTime)
    ensures
        tells_time(heartbeat(micros_at(now)), now),
{
    let seen = heartbeat(micros_at(now));
    assert(now.total_micros() == now.secs * 1_000_000 + now.nanos / 1_000);
    assert(seen->ByCode_0.dom() =~= set![1i64, -6i64]);
}

/// The message is a pong of a point in time that tells of no version.
pub open spec fn tells_time_alone(m: UdpView, now: UnixTime) -> bool {
    m matches UdpView::Pong(c) && c.version.counter == 0 && c.version.generation == 0
        && tells_time(c.last_seen, now)
}

/// A ping carries the version of the node that sends it; it goes to all peers that the node knows
/// but to the node itself.
pub proof fn pings_go_to_all_peers(
    state: &NodeState,
    now: UnixTime,
    ping: UdpMessage,
    to: Vec<String>,
)
    requires
        state@.gossip.peers.dom().finite(),
        call_ensures(build_ping_from_node, (state, now), ping),
        call_ensures(ping_targets, (state,), to),
    ensures
        ping@ matches UdpView::Ping(c) && c.version == state@.gossip.version && tells_time(
            c.last_seen,
            now,
        ),
        forall|k: Seq<char>| #[trigger]
            text::views(to@).contains(k) <==> state@.gossip.peers.contains_key(k) && k
                != state@.identity.addr,
        order::ascending(text::views(to@)),
{
    lemma_tells_time(now);
    let keys = order::sorted(state@.gossip.peers.dom());
    order::lemma_sorted(state@.gossip.peers.dom());
    order::lemma_filter_ascending(keys, table::is_other(state@.identity.addr));
    table::lemma_sorted_holds(state@.gossip.peers);
    table::lemma_others_hold(keys, state@.identity.addr);
}

/// A node introduces itself to its bootstrap peers but not to itself, and names them all.
pub proof fn first_announcement_goes_to_the_bootstrap_peers(
    state: &NodeState,
    peers: &Vec<String>,
    r: (UdpMessage, Vec<String>),
)
    requires
        call_ensures(first_announcement, (state, peers), r),
    ensures
        r.0@ matches UdpView::Announce(a) && a.node_addr == state@.identity.addr && a.capabilities
            == state@.identity.capabilities && a.peers == text::views(peers@) && a.version
            == state@.gossip.version,
        forall|k: Seq<char>| #[trigger]
            text::views(r.1@).contains(k) <==> text::views(peers@).contains(k) && k
                != state@.identity.addr,
{
    table::lemma_others_hold(text::views(peers@), state@.identity.addr);
}

/// What stands for a message where none came in tells the time and no version.
pub proof fn placeholders_tell_the_time_alone(now: UnixTime, r: UdpMessage)
    requires
        call_ensures(placeholder_pong, (now,), r),
    ensures
        tells_time_alone(r@, now),
{
    lemma_tells_time(now);
}

} // verus!
