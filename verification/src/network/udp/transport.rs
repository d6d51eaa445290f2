//! What comes in over UDP, and the order of versions.
use crate::protocol::UdpMessage;
use crate::protocol::UdpView;
use crate::protocol::Version;
use vstd::prelude::*;

verus! {

/// `a` is newer than `b`: of a later generation, or of the same one with a higher counter.
pub open spec fn newer(a: Version, b: Version) -> bool {
    a.generation > b.generation || (a.generation == b.generation && a.counter > b.counter)
}

/// The newer of two versions.
pub open spec fn newest(a: Version, b: Version) -> Version {
    if newer(a, b) {
        a
    } else {
        b
    }
}

/// Returns `true` when `candidate` is newer than `current`.
pub fn is_newer_version(candidate: &Version, current: &Version) -> (r: bool)
    ensures
        r == newer(*candidate, *current),
{
    candidate.generation > current.generation || (candidate.generation == current.generation
        && candidate.counter > current.counter)
}

/// Versions are totally ordered: no version is newer than itself, of two different ones exactly
/// one is newer, and newer than newer is newer.
pub proof fn versions_are_ordered(a: Version, b: Version, c: Version)
    ensures
        !newer(a, a),
        !(newer(a, b) && newer(b, a)),
        a != b ==> newer(a, b) || newer(b, a),
        newer(a, b) && newer(b, c) ==> newer(a, c),
{
}

/// Why no datagram was received.
#[derive(Debug, Clone, Copy, PartialEq, Eq, Structural)]
pub enum RecvFailure {
    /// There was none, and waiting for one was not asked for.
    WouldBlock,
    /// There was none within the time to wait.
    TimedOut,
    /// An earlier datagram was turned away by its receiver.
    ConnectionReset,
    /// The socket is broken in some other way.
    Other,
}

/// What one attempt to receive a datagram gave.
#[derive(Debug, PartialEq, Eq)]
pub enum Received {
    /// A message, with the address that it came from.
    Message { from: String, message: UdpMessage },
    /// A datagram that is no message.
    Malformed,
    /// No datagram.
    Nothing(RecvFailure),
}

/// What is to be done after one attempt to receive a datagram.
#[derive(Debug, PartialEq, Eq)]
pub struct Processed {
    /// The message that counts as received; none where the attempt failed for good.
    pub message: Option<UdpMessage>,
    /// A reply and the address that it goes to.
    pub reply: Option<(String, UdpMessage)>,
}

/// The view of an optional message.
pub open spec fn message_view(m: Option<UdpMessage>) -> Option<UdpView> {
    match m {
        Some(m) => Some(m@),
        None => None,
    }
}

/// The view of an optional reply.
pub open spec fn reply_view(r: Option<(String, UdpMessage)>) -> Option<(Seq<char>, UdpView)> {
    match r {
        Some((to, m)) => Some((to@, m@)),
        None => None,
    }
}

/// The generation counts before the counter: a version of a later generation is newer whatever the
/// counters are, and within one generation the higher counter is newer.
pub proof fn generation_counts_first(candidate: &Version, current: &Version, r: bool)
    requires
        call_ensures(is_newer_version, (candidate, current), r),
    ensures
        candidate.generation > current.generation ==> r,
        candidate.generation < current.generation ==> !r,
        candidate.generation == current.generation ==> (r <==> candidate.counter
            > current.counter),
{
}

} // verus!
