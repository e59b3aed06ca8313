//! The connection bridge: relay decisions, the termination state machine,
//! and the end-to-end watch scenarios.

use kanban_backend::boards::Board;
use kanban_backend::codec::{decode_board, encode_board};
use kanban_backend::connection::{
    downstream_step, upstream_step, Bridge, BridgeAction, BridgeEvent, BridgeState,
    BridgeTermination, DownstreamStep, Frame, UpstreamStep,
};
use kanban_backend::put_boards_id::{BoardDTO, TaskDTO, TaskListDTO};
use kanban_backend::store::Store;

/// Drives a fresh bridge into the relaying phase.
fn relaying_bridge(board_id: u128) -> Bridge {
    let mut bridge = Bridge::new(board_id);
    assert_eq!(bridge.state, BridgeState::Connecting);
    assert_eq!(bridge.step(BridgeEvent::PingSucceeded), BridgeAction::Subscribe);
    assert_eq!(bridge.state, BridgeState::Subscribed);
    assert_eq!(
        bridge.step(BridgeEvent::SubscribeSucceeded),
        BridgeAction::StartLoops
    );
    assert_eq!(bridge.state, BridgeState::Relaying);
    assert!(bridge.subscription_active);
    bridge
}

#[test]
fn downstream_forwards_payload_verbatim() {
    let payload = String::from("{\"hello\":1}").into_bytes();
    match downstream_step(Some(payload.clone())) {
        DownstreamStep::Forward(text) => assert_eq!(text.into_bytes(), payload),
        DownstreamStep::Stop(_) => panic!("valid text is forwarded"),
    }
}

#[test]
fn downstream_stops_on_ended_stream_and_bad_payload() {
    assert_eq!(
        downstream_step(None),
        DownstreamStep::Stop(BridgeTermination::SubscriptionLost)
    );
    assert_eq!(
        downstream_step(Some(vec![0xff, 0xfe])),
        DownstreamStep::Stop(BridgeTermination::BadPayload)
    );
}

#[test]
fn upstream_classifies_frames() {
    assert_eq!(
        upstream_step(&Some(Frame::Close)),
        UpstreamStep::Stop(BridgeTermination::GracefulClose)
    );
    assert_eq!(
        upstream_step(&Some(Frame::Binary(vec![1, 2]))),
        UpstreamStep::Stop(BridgeTermination::ProtocolViolation)
    );
    assert_eq!(
        upstream_step(&Some(Frame::Text(String::from("ignored")))),
        UpstreamStep::Continue
    );
    assert_eq!(upstream_step(&Some(Frame::Ping(vec![1]))), UpstreamStep::Continue);
    assert_eq!(upstream_step(&Some(Frame::Pong(vec![]))), UpstreamStep::Continue);
    assert_eq!(
        upstream_step(&None),
        UpstreamStep::Stop(BridgeTermination::TransportClosed)
    );
}

#[test]
fn ping_failure_closes_without_a_subscription() {
    let mut bridge = Bridge::new(5);
    assert_eq!(bridge.step(BridgeEvent::PingFailed), BridgeAction::CloseTransport);
    assert_eq!(bridge.state, BridgeState::Closed);
    assert!(!bridge.subscription_active);
    assert_eq!(bridge.termination, None);
}

#[test]
fn subscribe_failure_closes_the_transport() {
    let mut bridge = Bridge::new(5);
    bridge.step(BridgeEvent::PingSucceeded);
    assert_eq!(
        bridge.step(BridgeEvent::SubscribeFailed),
        BridgeAction::CloseTransport
    );
    assert_eq!(bridge.state, BridgeState::Closed);
    assert!(!bridge.subscription_active);
}

#[test]
fn graceful_close_terminates_both_loops() {
    let mut bridge = relaying_bridge(5);
    let step = upstream_step(&Some(Frame::Close));
    let UpstreamStep::Stop(reason) = step else {
        panic!("a close frame ends the upstream loop")
    };
    assert_eq!(
        bridge.step(BridgeEvent::LoopTerminated(reason)),
        BridgeAction::CancelOther
    );
    assert_eq!(bridge.state, BridgeState::Closing);
    assert_eq!(
        bridge.step(BridgeEvent::OtherLoopUnwound),
        BridgeAction::ReleaseAndClose
    );
    assert_eq!(bridge.state, BridgeState::Closed);
    assert!(!bridge.subscription_active);
    assert_eq!(bridge.termination, Some(BridgeTermination::GracefulClose));
}

#[test]
fn binary_frame_is_a_protocol_violation_and_releases_the_subscription() {
    // A binary frame terminates the connection with ProtocolViolation and
    // the broker subscription is released; a fresh connection to the same
    // board still succeeds.
    let mut bridge = relaying_bridge(5);
    let step = upstream_step(&Some(Frame::Binary(vec![0, 1, 2])));
    let UpstreamStep::Stop(reason) = step else {
        panic!("a binary frame ends the upstream loop")
    };
    assert_eq!(reason, BridgeTermination::ProtocolViolation);
    assert_eq!(
        bridge.step(BridgeEvent::LoopTerminated(reason)),
        BridgeAction::CancelOther
    );
    assert_eq!(
        bridge.step(BridgeEvent::OtherLoopUnwound),
        BridgeAction::ReleaseAndClose
    );
    assert_eq!(bridge.state, BridgeState::Closed);
    assert!(!bridge.subscription_active);
    assert_eq!(bridge.termination, Some(BridgeTermination::ProtocolViolation));

    // A fresh bridge for the same board relays again.
    let fresh = relaying_bridge(5);
    assert_eq!(fresh.board_id, 5);
    assert_eq!(fresh.state, BridgeState::Relaying);
}

#[test]
fn lost_subscription_ends_the_bridge() {
    let mut bridge = relaying_bridge(6);
    let DownstreamStep::Stop(reason) = downstream_step(None) else {
        panic!("an ended broker stream stops the downstream loop")
    };
    bridge.step(BridgeEvent::LoopTerminated(reason));
    bridge.step(BridgeEvent::OtherLoopUnwound);
    assert_eq!(bridge.state, BridgeState::Closed);
    assert_eq!(bridge.termination, Some(BridgeTermination::SubscriptionLost));
    assert!(!bridge.subscription_active);
}

#[test]
fn watcher_sees_rename_with_version_one() {
    // A client opens a watch on board X at version 0; another actor PUTs an
    // update renaming it; the watcher's next downstream message decodes to
    // the renamed board at version 1.
    let mut store = Store::new();
    store.insert_board(Board::new(77, 10, String::from("original"), Vec::new()));
    let bridge = relaying_bridge(77);
    assert_eq!(bridge.board_id, 77);

    let dto = BoardDTO { name: String::from("Renamed"), lists: Vec::new() };
    let updated = store.find_one_and_update(77, &dto).expect("board exists");
    let payload = encode_board(&updated).into_bytes();

    match downstream_step(Some(payload)) {
        DownstreamStep::Forward(text) => {
            let seen = decode_board(&text).expect("the published payload is canonical");
            assert_eq!(seen.name, "Renamed");
            assert_eq!(seen.version, 1);
            assert_eq!(seen.id, 77);
        }
        DownstreamStep::Stop(_) => panic!("the publication reaches the watcher"),
    }
}

#[test]
fn watchers_see_versions_in_nondecreasing_order() {
    // One watcher, several writes: deliveries arrive in publish order and
    // their decoded versions never decrease.
    let mut store = Store::new();
    store.insert_board(Board::new(3, 10, String::from("v"), Vec::new()));
    let mut last = 0u64;
    for k in 0..4u64 {
        let dto = BoardDTO {
            name: format!("write {k}"),
            lists: vec![TaskListDTO {
                name: String::from("l"),
                tasks: vec![TaskDTO { name: format!("t{k}") }],
            }],
        };
        let updated = store.find_one_and_update(3, &dto).expect("board exists");
        let payload = encode_board(&updated).into_bytes();
        let DownstreamStep::Forward(text) = downstream_step(Some(payload)) else {
            panic!("delivery is forwarded")
        };
        let seen = decode_board(&text).expect("canonical payload");
        assert!(seen.version >= last);
        assert!(seen.version > 0);
        last = seen.version;
    }
    assert_eq!(last, 4);
}

#[test]
fn two_watchers_receive_identical_bytes() {
    // The broker hands both subscribers the same published payload; each
    // bridge forwards it verbatim, so both clients read the same bytes.
    let mut store = Store::new();
    store.insert_board(Board::new(8, 10, String::from("shared"), Vec::new()));
    let dto = BoardDTO { name: String::from("one write"), lists: Vec::new() };
    let updated = store.find_one_and_update(8, &dto).expect("board exists");
    let payload = encode_board(&updated).into_bytes();

    let DownstreamStep::Forward(t1) = downstream_step(Some(payload.clone())) else {
        panic!("first watcher gets the delivery")
    };
    let DownstreamStep::Forward(t2) = downstream_step(Some(payload.clone())) else {
        panic!("second watcher gets the delivery")
    };
    assert_eq!(t1, t2);
    assert_eq!(t1.clone().into_bytes(), payload);
    assert_eq!(decode_board(&t1), decode_board(&t2));
}
