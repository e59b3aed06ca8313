//! The per-connection bridge: one client transport paired with one broker
//! subscription, and the state machine that terminates both cleanly.
//!
//! A bridge is born `Connecting`, pings the transport, subscribes to its
//! board's topic, and then relays: a downstream loop forwards every broker
//! message to the client verbatim, an upstream loop watches the client's
//! frames for a close or a protocol violation. Whichever loop terminates
//! first cancels the other (`Closing`); when the other has unwound, the
//! subscription is released and the transport closed (`Closed`). The
//! unverified shell performs the transport and broker operations and feeds
//! the outcomes back as events; every decision — what each frame means, what
//! each payload becomes, which state follows which event, and when the
//! subscription is released — is made here.
//!
//! A bridge's board identifier never changes: a connection cannot re-target,
//! and a new connection takes a fresh bridge.

use vstd::prelude::*;
use vstd::utf8::{decode_utf8, encode_utf8, valid_utf8};
use crate::text::bytes_to_string;

verus! {

/// Why a bridge's relay phase ended. `GracefulClose` is the client's own
/// close handshake and not an error for monitoring purposes; the others are
/// faults. All of them are local to the one connection.
#[derive(Debug, PartialEq, Eq)]
pub enum BridgeTermination {
    /// The client sent a close frame.
    GracefulClose,
    /// The client sent a binary frame, which the protocol does not allow.
    ProtocolViolation,
    /// The broker stream ended unexpectedly mid-session.
    SubscriptionLost,
    /// The client stream ended without a close handshake.
    TransportClosed,
    /// A transport write failed.
    TransportFailed,
    /// A broker message was not valid UTF-8 text.
    BadPayload,
}

/// A frame of the client transport, as the bridge classifies it.
#[derive(Debug, PartialEq, Eq)]
pub enum Frame {
    Text(String),
    Binary(Vec<u8>),
    Ping(Vec<u8>),
    Pong(Vec<u8>),
    Close,
}

/// What the downstream loop does with one broker delivery.
#[derive(Debug, PartialEq, Eq)]
pub enum DownstreamStep {
    /// Forward this text to the client, unmodified.
    Forward(String),
    /// Stop the loop; the bridge machine takes the termination.
    Stop(BridgeTermination),
}

/// The text a downstream delivery is forwarded as, if any: the broker
/// payload decoded as UTF-8, exactly.
pub open spec fn forwarded_text(payload: Seq<u8>) -> Option<Seq<char>> {
    if valid_utf8(payload) {
        Some(decode_utf8(payload))
    } else {
        Option::None
    }
}

/// The downstream loop's decision for one broker delivery: an ended stream
/// stops the loop with `SubscriptionLost`; a payload that is not UTF-8 text
/// stops it with `BadPayload`; any other payload is forwarded to the client
/// as exactly the text it encodes — so what a watcher receives is, byte for
/// byte, what the coordinator published.
pub fn downstream_step(delivery: Option<Vec<u8>>) -> (r: DownstreamStep)
    ensures
        delivery is None ==> r == DownstreamStep::Stop(BridgeTermination::SubscriptionLost),
        delivery matches Some(p) ==> match forwarded_text(p@) {
            Some(t) => r matches DownstreamStep::Forward(s) && s@ == t && encode_utf8(s@)
                == p@,
            Option::None => r == DownstreamStep::Stop(BridgeTermination::BadPayload),
        },
{
    match delivery {
        Option::None => DownstreamStep::Stop(BridgeTermination::SubscriptionLost),
        Some(payload) => {
            let ghost p = payload@;
            match bytes_to_string(payload) {
                Some(text) => {
                    proof {
                        vstd::utf8::decode_utf8_encode_utf8(p);
                    }
                    DownstreamStep::Forward(text)
                },
                Option::None => DownstreamStep::Stop(BridgeTermination::BadPayload),
            }
        },
    }
}

/// What the upstream loop does with one client frame.
#[derive(Debug, PartialEq, Eq)]
pub enum UpstreamStep {
    /// Keep listening.
    Continue,
    /// Stop the loop; the bridge machine takes the termination.
    Stop(BridgeTermination),
}

/// The upstream loop's decision for one client frame: an ended stream stops
/// the loop with `TransportClosed`; a close frame stops it with
/// `GracefulClose`; a binary frame is a protocol violation and stops it; a
/// text frame and the control frames are consumed and ignored — the watch
/// connection is read-only, and mutations go through the write path.
pub fn upstream_step(frame: &Option<Frame>) -> (r: UpstreamStep)
    ensures
        frame is None ==> r == UpstreamStep::Stop(BridgeTermination::TransportClosed),
        frame matches Some(f) ==> match f {
            Frame::Close => r == UpstreamStep::Stop(BridgeTermination::GracefulClose),
            Frame::Binary(_) => r == UpstreamStep::Stop(BridgeTermination::ProtocolViolation),
            _ => r == UpstreamStep::Continue,
        },
{
    match frame {
        Option::None => UpstreamStep::Stop(BridgeTermination::TransportClosed),
        Some(Frame::Close) => UpstreamStep::Stop(BridgeTermination::GracefulClose),
        Some(Frame::Binary(_)) => UpstreamStep::Stop(BridgeTermination::ProtocolViolation),
        Some(Frame::Text(_)) => UpstreamStep::Continue,
        Some(Frame::Ping(_)) => UpstreamStep::Continue,
        Some(Frame::Pong(_)) => UpstreamStep::Continue,
    }
}

/// The bridge's lifecycle states, in order. `Closed` is terminal: a new
/// connection requires a fresh bridge.
#[derive(Debug, PartialEq, Eq)]
pub enum BridgeState {
    /// Transport handshake done; awaiting the outcome of the liveness ping.
    Connecting,
    /// Ping answered; awaiting the outcome of the topic subscription.
    Subscribed,
    /// Both relay loops run under one cancellation scope.
    Relaying,
    /// One loop terminated; the other has been cancelled and is unwinding.
    Closing,
    /// Subscription released, transport closed, state discarded.
    Closed,
}

/// What the shell reports to the bridge machine.
#[derive(Debug, PartialEq, Eq)]
pub enum BridgeEvent {
    PingSucceeded,
    PingFailed,
    SubscribeSucceeded,
    SubscribeFailed,
    /// One relay loop terminated, first, for this reason.
    LoopTerminated(BridgeTermination),
    /// The cancelled loop has unwound.
    OtherLoopUnwound,
}

/// What the shell must do after a step.
#[derive(Debug, PartialEq, Eq)]
pub enum BridgeAction {
    /// Subscribe to the topic of the bridge's board.
    Subscribe,
    /// Spawn the two relay loops under one cancellation scope.
    StartLoops,
    /// Cancel the relay loop that has not terminated yet.
    CancelOther,
    /// Release the broker subscription and close the transport (best effort).
    ReleaseAndClose,
    /// Close the transport (best effort); no subscription exists.
    CloseTransport,
}

/// The bridge: the state machine owning one connection's lifecycle.
#[derive(Debug, PartialEq, Eq)]
pub struct Bridge {
    pub state: BridgeState,
    /// The board this connection watches; fixed for the bridge's lifetime.
    pub board_id: u128,
    /// Whether a broker subscription is currently held.
    pub subscription_active: bool,
    /// Why the relay phase ended, once it has.
    pub termination: Option<BridgeTermination>,
}

impl Bridge {
    /// A subscription is held exactly while relaying or closing — so a
    /// bridge that reaches `Closed` holds none, and no subscription leaks.
    pub open spec fn wf(self) -> bool {
        &&& (self.subscription_active <==> (self.state is Relaying || self.state is Closing))
        &&& (self.termination is Some ==> (self.state is Closing || self.state is Closed))
        &&& (self.state is Closing ==> self.termination is Some)
    }

    /// Which events a state can see: the shell reports each outcome once, in
    /// the order the lifecycle produces them.
    pub open spec fn accepts(self, event: BridgeEvent) -> bool {
        match self.state {
            BridgeState::Connecting => event is PingSucceeded || event is PingFailed,
            BridgeState::Subscribed => event is SubscribeSucceeded || event is SubscribeFailed,
            BridgeState::Relaying => event is LoopTerminated,
            BridgeState::Closing => event is OtherLoopUnwound,
            BridgeState::Closed => false,
        }
    }

    /// A fresh bridge for one connection to one board.
    pub fn new(board_id: u128) -> (b: Bridge)
        ensures
            b.state is Connecting,
            b.board_id == board_id,
            !b.subscription_active,
            b.termination is None,
            b.wf(),
    {
        Bridge {
            state: BridgeState::Connecting,
            board_id,
            subscription_active: false,
            termination: Option::None,
        }
    }

    /// One lifecycle transition. The board identifier never changes; the
    /// subscription becomes active exactly on a successful subscribe and is
    /// released exactly on the step into `Closed` from `Closing`; whichever
    /// loop terminates first puts its reason into `termination` and cancels
    /// the other.
    pub fn step(&mut self, event: BridgeEvent) -> (a: BridgeAction)
        requires
            old(self).wf(),
            old(self).accepts(event),
        ensures
            final(self).wf(),
            final(self).board_id == old(self).board_id,
            match (old(self).state, event) {
                (BridgeState::Connecting, BridgeEvent::PingSucceeded) => {
                    &&& final(self).state is Subscribed
                    &&& !final(self).subscription_active
                    &&& a == BridgeAction::Subscribe
                },
                (BridgeState::Connecting, BridgeEvent::PingFailed) => {
                    // Nothing was subscribed; there is nothing to release.
                    &&& final(self).state is Closed
                    &&& !final(self).subscription_active
                    &&& a == BridgeAction::CloseTransport
                },
                (BridgeState::Subscribed, BridgeEvent::SubscribeSucceeded) => {
                    &&& final(self).state is Relaying
                    &&& final(self).subscription_active
                    &&& a == BridgeAction::StartLoops
                },
                (BridgeState::Subscribed, BridgeEvent::SubscribeFailed) => {
                    &&& final(self).state is Closed
                    &&& !final(self).subscription_active
                    &&& a == BridgeAction::CloseTransport
                },
                (BridgeState::Relaying, BridgeEvent::LoopTerminated(t)) => {
                    // First termination wins; the other loop is cancelled,
                    // not drained.
                    &&& final(self).state is Closing
                    &&& final(self).subscription_active
                    &&& final(self).termination == Some(t)
                    &&& a == BridgeAction::CancelOther
                },
                (BridgeState::Closing, BridgeEvent::OtherLoopUnwound) => {
                    // Both loops have ended: release the subscription,
                    // exactly once, and close the transport.
                    &&& final(self).state is Closed
                    &&& !final(self).subscription_active
                    &&& final(self).termination == old(self).termination
                    &&& a == BridgeAction::ReleaseAndClose
                },
                _ => false,
            },
            final(self).termination is None ==> old(self).termination is None,
    {
        match (&self.state, event) {
            (BridgeState::Connecting, BridgeEvent::PingSucceeded) => {
                self.state = BridgeState::Subscribed;
                BridgeAction::Subscribe
            },
            (BridgeState::Connecting, BridgeEvent::PingFailed) => {
                self.state = BridgeState::Closed;
                BridgeAction::CloseTransport
            },
            (BridgeState::Subscribed, BridgeEvent::SubscribeSucceeded) => {
                self.state = BridgeState::Relaying;
                self.subscription_active = true;
                BridgeAction::StartLoops
            },
            (BridgeState::Subscribed, BridgeEvent::SubscribeFailed) => {
                self.state = BridgeState::Closed;
                BridgeAction::CloseTransport
            },
            (BridgeState::Relaying, BridgeEvent::LoopTerminated(t)) => {
                self.state = BridgeState::Closing;
                self.termination = Some(t);
                BridgeAction::CancelOther
            },
            (BridgeState::Closing, BridgeEvent::OtherLoopUnwound) => {
                self.state = BridgeState::Closed;
                self.subscription_active = false;
                BridgeAction::ReleaseAndClose
            },
            _ => {
                // Unreachable under the precondition.
                proof {
                    assert(false);
                }
                BridgeAction::CloseTransport
            },
        }
    }
}

/// A closed bridge holds no subscription: however a connection ends — failed
/// ping, failed subscribe, graceful close, protocol violation or a lost
/// stream — the broker subscription has been released by the time the bridge
/// is `Closed`, and it is released exactly once, on the one step from
/// `Closing` into `Closed`.
pub proof fn lemma_closed_releases(b: Bridge)
    requires
        b.wf(),
        b.state is Closed,
    ensures
        !b.subscription_active,
{
}

/// A watcher subscribed before a write observes versions in non-decreasing
/// order. The coordinator publishes each post-write board after the store
/// confirms its increment, in the store's serialization order, and the
/// broker preserves per-topic publish order; so the versions a watcher
/// decodes from deliveries `j1 <= j2` are in order, each strictly above the
/// version at subscription time.
pub proof fn lemma_watcher_versions_nondecreasing(
    b0: crate::boards::BoardModel,
    ds: Seq<crate::put_boards_id::BoardDTOModel>,
    j1: int,
    j2: int,
)
    requires
        b0.version + ds.len() <= u64::MAX,
        0 <= j1 <= j2 < ds.len(),
    ensures
        crate::put_boards_id::apply_updates(b0, ds.take(j1 + 1)).version
            <= crate::put_boards_id::apply_updates(b0, ds.take(j2 + 1)).version,
        crate::put_boards_id::apply_updates(b0, ds.take(j1 + 1)).version > b0.version,
{
    crate::put_boards_id::lemma_concurrent_writes(b0, ds);
}

/// Two watchers of one topic receive one write identically: the broker hands
/// every subscriber the same published payload, and the downstream relay
/// forwards a function of the payload alone — the text whose UTF-8 encoding
/// is exactly that payload. So any two bridges forward the same text for the
/// same delivery, and that text carries the published bytes unmodified.
pub proof fn lemma_watchers_agree(p: Seq<u8>, t1: Seq<char>, t2: Seq<char>)
    requires
        forwarded_text(p) == Some(t1),
        forwarded_text(p) == Some(t2),
    ensures
        t1 == t2,
        encode_utf8(t1) == p,
{
    vstd::utf8::decode_utf8_encode_utf8(p);
}

} // verus!

