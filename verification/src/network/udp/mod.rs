//! Gossip over UDP, in the dialect in which announcements are repeated and never answered.
pub mod gossip;
pub mod table;
pub mod transport;
pub use crate::clock::now_secs;
pub use transport::is_newer_version;

use crate::clock::UnixTime;
use crate::network::udp::table::apply_announce;
use crate::network::udp::table::apply_check;
use crate::network::udp::table::build_announce_from_node;
use crate::network::udp::table::peer_addrs;
use crate::network::udp::table::targets;
use crate::network::udp::transport::Processed;
use crate::network::udp::transport::Received;
use crate::network::udp::transport::RecvFailure;
use crate::node::NodeState;
use crate::node::NodeView;
use crate::order;
use crate::protocol::Check;
use crate::protocol::CheckView;
use crate::protocol::LastSeenMap;
use crate::protocol::LastSeenView;
use crate::protocol::Required;
use crate::protocol::UdpMessage;
use crate::protocol::UdpView;
use crate::protocol::Version;
use crate::string_map::StringMap;
use crate::text;
use vstd::prelude::*;

verus! {

/// The liveness check of a node: its address, seen at `now`, and its version.
pub open spec fn own_check(state: NodeView, now: UnixTime) -> CheckView {
    CheckView {
        last_seen: LastSeenView::ByAddress(
            Map::<Seq<char>, u64>::empty().insert(state.identity.addr, now.secs),
        ),
        version: state.gossip.version,
    }
}

/// The liveness check of a node.
fn check_from_node(state: &NodeState, now: UnixTime) -> (r: Check)
    ensures
        r@ == own_check(state@, now),
{
    let mut last_seen: StringMap<u64> = StringMap::new();
    last_seen.insert(state.identity.addr.clone(), now.secs);
    Check {
        last_seen: Required(LastSeenMap::ByAddress(last_seen)),
        version: state.gossip.version,
    }
}

/// The ping of a node.
pub fn build_ping_from_node(state: &NodeState, now: UnixTime) -> (r: UdpMessage)
    ensures
        r@ == UdpView::Ping(own_check(state@, now)),
{
    UdpMessage::Ping(check_from_node(state, now))
}

/// The pong of a node.
pub fn build_pong_from_node(state: &NodeState, now: UnixTime) -> (r: UdpMessage)
    ensures
        r@ == UdpView::Pong(own_check(state@, now)),
{
    UdpMessage::Pong(check_from_node(state, now))
}

/// What one round of gossip sends: the announcement of the node and its ping, each to all known
/// peers but the node itself.
pub fn round(state: &NodeState, now: UnixTime) -> (r: (UdpMessage, UdpMessage, Vec<String>))
    ensures
        r.0@ == UdpView::Announce(
            table::own_announce(state@, order::sorted(state@.gossip.peers.dom())),
        ),
        r.1@ == UdpView::Ping(own_check(state@, now)),
        text::views(r.2@) == table::others(
            order::sorted(state@.gossip.peers.dom()),
            state@.identity.addr,
        ),
{
    let peers = peer_addrs(state);
    let announce = build_announce_from_node(state, &peers);
    let to = targets(&peers, state.identity.addr.as_str());
    (announce, build_ping_from_node(state, now), to)
}

/// The reply to a message: a ping is answered with the own pong, anything else is not answered.
pub open spec fn reply(
    state: NodeView,
    from: Seq<char>,
    message: UdpView,
    now: UnixTime,
) -> Option<UdpView> {
    match message {
        UdpView::Announce(a) => None,
        UdpView::Ping(c) => Some(
            UdpView::Pong(own_check(gossip::after(state, from, message, now), now)),
        ),
        UdpView::Pong(c) => None,
    }
}

/// Applies one UDP message at `now` and builds the reply, if there is one.
pub fn handle_udp_message_at(
    state: &mut NodeState,
    peer_addr: &str,
    message: &UdpMessage,
    now: UnixTime,
) -> (r: Option<UdpMessage>)
    ensures
        final(state)@ == gossip::after(old(state)@, peer_addr@, message@, now),
        transport::message_view(r) == reply(old(state)@, peer_addr@, message@, now),
{
    match message {
        UdpMessage::Announce(announce) => {
            let _ = apply_announce(&mut state.gossip, announce, now.micros());
            None
        },
        UdpMessage::Ping(check) => {
            apply_check(&mut state.gossip, peer_addr, check, now.micros());
            Some(build_pong_from_node(state, now))
        },
        UdpMessage::Pong(check) => {
            apply_check(&mut state.gossip, peer_addr, check, now.micros());
            None
        },
    }
}

/// Applies one UDP message and builds the reply, if there is one.
pub fn handle_udp_message_shared(
    state: &mut NodeState,
    peer_addr: &str,
    message: &UdpMessage,
) -> (r: Option<UdpMessage>)
    ensures
        exists|now: UnixTime|
            {
                &&& now.wf()
                &&& final(state)@ == #[trigger] gossip::after(
                    old(state)@,
                    peer_addr@,
                    message@,
                    now,
                )
                &&& transport::message_view(r) == reply(old(state)@, peer_addr@, message@, now)
            },
{
    let now = UnixTime::now();
    let r = handle_udp_message_at(state, peer_addr, message, now);
    assert(state@ == gossip::after(old(state)@, peer_addr@, message@, now));
    r
}

/// What stands for a message where none came in.
pub open spec fn placeholder() -> UdpView {
    UdpView::Pong(
        CheckView {
            last_seen: LastSeenView::ByAddress(Map::empty()),
            version: Version { counter: 0, generation: 0 },
        },
    )
}

/// Takes in what one attempt to receive a datagram gave.
///
/// A message is handled and its reply goes back to where it came from. An attempt that timed out
/// leaves all as it is and counts as a placeholder. Anything else is an error.
pub fn process_one_datagram_at(state: &mut NodeState, received: Received, now: UnixTime) -> (r:
    Processed)
    ensures
        match received {
            Received::Message { from, message } => {
                &&& final(state)@ == gossip::after(old(state)@, from@, message@, now)
                &&& transport::message_view(r.message) == Some(message@)
                &&& transport::reply_view(r.reply) == match reply(
                    old(state)@,
                    from@,
                    message@,
                    now,
                ) {
                    Some(m) => Some((from@, m)),
                    None => None,
                }
            },
            Received::Malformed => {
                &&& final(state)@ == old(state)@
                &&& r.message is None
                &&& r.reply is None
            },
            Received::Nothing(why) => {
                &&& final(state)@ == old(state)@
                &&& transport::message_view(r.message) == (if why == RecvFailure::WouldBlock || why
                    == RecvFailure::TimedOut {
                    Some(placeholder())
                } else {
                    None
                })
                &&& r.reply is None
            },
        },
{
    match received {
        Received::Message { from, message } => {
            let answer = handle_udp_message_at(state, from.as_str(), &message, now);
            let reply = match answer {
                Some(m) => Some((from, m)),
                None => None,
            };
            Processed { message: Some(message), reply }
        },
        Received::Malformed => Processed { message: None, reply: None },
        Received::Nothing(why) => match why {
            RecvFailure::WouldBlock | RecvFailure::TimedOut => {
                let pong = UdpMessage::Pong(
                    Check {
                        last_seen: Required(LastSeenMap::ByAddress(StringMap::new())),
                        version: Version { counter: 0, generation: 0 },
                    },
                );
                Processed { message: Some(pong), reply: None }
            },
            _ => Processed { message: None, reply: None },
        },
    }
}

/// Only pings are answered, each with a pong whose version is not older than the ping's.
pub proof fn only_pings_are_answered(
    state: NodeView,
    from: Seq<char>,
    message: UdpView,
    now: UnixTime,
)
    ensures
        match message {
            UdpView::Ping(c) => reply(state, from, message, now) matches Some(UdpView::Pong(p))
                && !transport::newer(c.version, p.version),
            _ => reply(state, from, message, now) is None,
        },
{
}

/// A message tells of its sender and of nobody else: an announcement replaces what was known of the
/// peer that it names, a ping or a pong marks the peer that it came from as seen and leaves what
/// that peer has announced. The node itself and its orders stay as they were.
pub proof fn messages_tell_of_their_sender(
    state: &mut NodeState,
    peer_addr: &str,
    message: &UdpMessage,
    now: UnixTime,
    r: Option<UdpMessage>,
)
    requires
        call_ensures(handle_udp_message_at, (state, peer_addr, message, now), r),
    ensures
        gossip::tells_of_sender(old(state)@, final(state)@, peer_addr@, message@, now),
{
    gossip::lemma_tells_of_sender(old(state)@, peer_addr@, message@, now);
}

/// A ping is answered with a pong that says when this node was alive and which version it then has;
/// announcements and pongs are not answered.
pub proof fn pings_are_answered_with_a_sign_of_life(
    state: &mut NodeState,
    peer_addr: &str,
    message: &UdpMessage,
    now: UnixTime,
    r: Option<UdpMessage>,
)
    requires
        call_ensures(handle_udp_message_at, (state, peer_addr, message, now), r),
    ensures
        r is Some <==> message@ is Ping,
        r is Some ==> {
            &&& r->0@ matches UdpView::Pong(p) && p.version == final(state)@.gossip.version
                && is_sign_of_life(p, old(state)@.identity.addr, now)
        },
{
}

/// A check says that a node was alive at a point in time, and nothing of other nodes.
pub open spec fn is_sign_of_life(c: CheckView, addr: Seq<char>, now: UnixTime) -> bool {
    c.last_seen matches LastSeenView::ByAddress(m) && m.contains_key(addr) && m[addr] == now.secs
        && forall|k: Seq<char>| #[trigger] m.contains_key(k) ==> k == addr
}

/// The same holds where the clock of the machine tells the time.
pub proof fn messages_are_handled_in_time(
    state: &mut NodeState,
    peer_addr: &str,
    message: &UdpMessage,
    r: Option<UdpMessage>,
)
    requires
        call_ensures(handle_udp_message_shared, (state, peer_addr, message), r),
    ensures
        exists|now: UnixTime|
            {
                &&& now.wf()
                &&& #[trigger] gossip::tells_of_sender(
                    old(state)@,
                    final(state)@,
                    peer_addr@,
                    message@,
                    now,
                )
                &&& r is Some <==> message@ is Ping
                &&& r is Some ==> (r->0@ matches UdpView::Pong(p) && p.version
                    == final(state)@.gossip.version && is_sign_of_life(
                    p,
                    old(state)@.identity.addr,
                    now,
                ))
            },
{
    let now = choose|now: UnixTime|
        {
            &&& now.wf()
            &&& final(state)@ == #[trigger] gossip::after(
                old(state)@,
                peer_addr@,
                message@,
                now,
            )
            &&& transport::message_view(r) == reply(old(state)@, peer_addr@, message@, now)
        };
    gossip::lemma_tells_of_sender(old(state)@, peer_addr@, message@, now);
    assert(gossip::tells_of_sender(old(state)@, final(state)@, peer_addr@, message@, now));
}

/// In each round a node announces itself with all peers that it knows, and pings; both go to all
/// of these peers but the node itself.
pub proof fn rounds_reach_all_peers(
    state: &NodeState,
    now: UnixTime,
    r: (UdpMessage, UdpMessage, Vec<String>),
)
    requires
        state@.gossip.peers.dom().finite(),
        call_ensures(round, (state, now), r),
    ensures
        r.0@ matches UdpView::Announce(a) && {
            &&& a.node_addr == state@.identity.addr
            &&& a.capabilities == state@.identity.capabilities
            &&& a.recipes.len() == state@.identity.recipes.len()
            &&& forall|i: int|
                0 <= i < a.recipes.len() ==> #[trigger] a.recipes[i]
                    == state@.identity.recipes[i].name
            &&& a.version == state@.gossip.version
            &&& order::ascending(a.peers)
            &&& forall|k: Seq<char>| #[trigger]
                a.peers.contains(k) <==> state@.gossip.peers.contains_key(k)
        },
        r.1@ matches UdpView::Ping(c) && c.version == state@.gossip.version && is_sign_of_life(
            c,
            state@.identity.addr,
            now,
        ),
        forall|k: Seq<char>| #[trigger]
            text::views(r.2@).contains(k) <==> state@.gossip.peers.contains_key(k) && k
                != state@.identity.addr,
        order::ascending(text::views(r.2@)),
{
    let keys = order::sorted(state@.gossip.peers.dom());
    order::lemma_sorted(state@.gossip.peers.dom());
    order::lemma_filter_ascending(keys, table::is_other(state@.identity.addr));
    table::lemma_sorted_holds(state@.gossip.peers);
    table::lemma_others_hold(keys, state@.identity.addr);
}

/// What comes in over the wire is handled as a message of the one that it came from, and only the
/// reply to a ping goes back there. Where nothing comes in, or nothing that is a message, nothing
/// changes and nobody is answered; only having waited for nothing counts as a message.
pub proof fn datagrams_are_handled_or_left(
    state: &mut NodeState,
    received: Received,
    now: UnixTime,
    r: Processed,
)
    requires
        call_ensures(process_one_datagram_at, (state, received, now), r),
    ensures
        match received {
            Received::Message { from, message } => {
                &&& r.message is Some && r.message->0@ == message@
                &&& r.reply is Some <==> message@ is Ping
                &&& r.reply matches Some((to, m)) ==> to@ == from@ && (m@ matches UdpView::Pong(p)
                    && p.version == final(state)@.gossip.version && is_sign_of_life(
                    p,
                    old(state)@.identity.addr,
                    now,
                ))
                &&& gossip::tells_of_sender(old(state)@, final(state)@, from@, message@, now)
            },
            Received::Malformed => final(state)@ == old(state)@ && r.reply is None
                && r.message is None,
            Received::Nothing(why) => final(state)@ == old(state)@ && r.reply is None && (
            r.message is Some <==> why == RecvFailure::WouldBlock || why == RecvFailure::TimedOut)
                && (r.message matches Some(m) ==> says_nothing(m@)),
        },
{
    if let Received::Message { from, message } = received {
        gossip::lemma_tells_of_sender(old(state)@, from@, message@, now);
    }
}

/// Pings and pongs of a node carry the same sign of life and the version of the node.
pub proof fn pings_and_pongs_are_alike(
    state: &NodeState,
    now: UnixTime,
    ping: UdpMessage,
    pong: UdpMessage,
)
    requires
        call_ensures(build_ping_from_node, (state, now), ping),
        call_ensures(build_pong_from_node, (state, now), pong),
    ensures
        ping@ matches UdpView::Ping(c) && c.version == state@.gossip.version && is_sign_of_life(
            c,
            state@.identity.addr,
            now,
        ) && pong@ == UdpView::Pong(c),
{
}

/// The message is a pong that tells neither of a node nor of a version.
pub open spec fn says_nothing(m: UdpView) -> bool {
    m matches UdpView::Pong(c) && c.version.counter == 0 && c.version.generation == 0 && (
    c.last_seen matches LastSeenView::ByAddress(seen) && forall|k: Seq<char>|
        !#[trigger] seen.contains_key(k))
}

} // verus!
