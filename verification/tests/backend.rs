use localsend_relay::controller::{
    close_session, handle_client_message, hello_of, join_room, leave_room, open_session, route_frame,
    update_peer_info, Delivery, RelayOutbound, ROOM_FULL, TOO_MANY_REQUESTS,
};
use localsend_relay::frame::encode_data;
use localsend_relay::limit::{RateLimited, RequestCounter};
use localsend_relay::messages::{
    DeviceType, RelayClientMessage, RelayDeviceInfo, RelayServerMessage,
};
use localsend_relay::store::RelayStore;

fn info(alias: &str) -> RelayDeviceInfo {
    RelayDeviceInfo {
        alias: alias.to_string(),
        version: "2.1".to_string(),
        device_model: Some("Pixel".to_string()),
        device_type: Some(DeviceType::Mobile),
        fingerprint: format!("fp-{alias}"),
        cert_fingerprint: None,
        download: false,
    }
}

fn control(d: &Delivery) -> &RelayServerMessage {
    match &d.message {
        RelayOutbound::Control(m) => m,
        RelayOutbound::Data(_) => panic!("expected a control message"),
    }
}

fn join(store: &mut RelayStore, counter: &mut RequestCounter, room: &str, id: u128, alias: &str) -> Vec<Delivery> {
    join_room(store, counter, "1.2.3.4", room.to_string(), id, info(alias), 128, 1000).unwrap()
}

#[test]
fn first_device_is_welcomed_with_no_peers() {
    let mut store = RelayStore::new();
    let mut counter = RequestCounter::new();
    let out = join(&mut store, &mut counter, "room", 1, "a");
    assert_eq!(out.len(), 1);
    assert_eq!(out[0].to, 1);
    match control(&out[0]) {
        RelayServerMessage::Welcome { client_id, peers } => {
            assert_eq!(*client_id, 1);
            assert!(peers.is_empty());
        }
        m => panic!("unexpected {m:?}"),
    }
}

#[test]
fn second_device_is_announced_and_welcomed_with_first() {
    let mut store = RelayStore::new();
    let mut counter = RequestCounter::new();
    join(&mut store, &mut counter, "room", 1, "a");
    join(&mut store, &mut counter, "other", 9, "z");
    let out = join(&mut store, &mut counter, "room", 2, "b");
    assert_eq!(out.len(), 2);
    assert_eq!(out[0].to, 1);
    match control(&out[0]) {
        RelayServerMessage::PeerJoined { peer } => {
            assert_eq!(peer.client_id, 2);
            assert_eq!(peer.info.alias, "b");
        }
        m => panic!("unexpected {m:?}"),
    }
    assert_eq!(out[1].to, 2);
    match control(&out[1]) {
        RelayServerMessage::Welcome { client_id, peers } => {
            assert_eq!(*client_id, 2);
            assert_eq!(peers.len(), 1);
            assert_eq!(peers[0].client_id, 1);
            assert_eq!(peers[0].info.alias, "a");
        }
        m => panic!("unexpected {m:?}"),
    }
}

#[test]
fn full_room_refuses_with_503() {
    let mut store = RelayStore::new();
    let mut counter = RequestCounter::new();
    join_room(&mut store, &mut counter, "g", "room".to_string(), 1, info("a"), 1, 1000).unwrap();
    let r = join_room(&mut store, &mut counter, "g", "room".to_string(), 2, info("b"), 1, 1000);
    assert_eq!(r.unwrap_err(), ROOM_FULL);
    assert!(!store.room_is_full("other", 0));
    assert!(store.room_is_full("room", 1));
}

#[test]
fn rate_limited_group_refused_with_429() {
    let mut store = RelayStore::new();
    let mut counter = RequestCounter::new();
    join_room(&mut store, &mut counter, "g", "room".to_string(), 1, info("a"), 10, 1).unwrap();
    let r = join_room(&mut store, &mut counter, "g", "room".to_string(), 2, info("b"), 10, 1);
    assert_eq!(r.unwrap_err(), TOO_MANY_REQUESTS);
    let r = join_room(&mut store, &mut counter, "h", "room".to_string(), 3, info("c"), 10, 1);
    assert!(r.is_ok());
}

#[test]
fn rate_limit_counts_up_to_the_limit() {
    let mut counter = RequestCounter::new();
    assert_eq!(counter.rate_limit("g", 2), Ok(()));
    assert_eq!(counter.rate_limit("g", 2), Ok(()));
    assert_eq!(counter.rate_limit("g", 2), Err(RateLimited));
    assert_eq!(counter.rate_limit("g", 2), Err(RateLimited));
    assert_eq!(counter.rate_limit("other", 2), Ok(()));
    assert_eq!(counter.rate_limit("z", 0), Err(RateLimited));
}

#[test]
fn open_between_members_announces_and_routes_both_ways() {
    let mut store = RelayStore::new();
    let mut counter = RequestCounter::new();
    join(&mut store, &mut counter, "room", 1, "a");
    join(&mut store, &mut counter, "room", 2, "b");
    let out = open_session(&mut store, "room", 1, 2, 77);
    assert_eq!(out.len(), 2);
    assert_eq!(out[0].to, 2);
    match control(&out[0]) {
        RelayServerMessage::Incoming { session_id, peer } => {
            assert_eq!(*session_id, 77);
            assert_eq!(peer.client_id, 1);
            assert_eq!(peer.info.alias, "a");
        }
        m => panic!("unexpected {m:?}"),
    }
    assert_eq!(out[1].to, 1);
    assert!(matches!(control(&out[1]), RelayServerMessage::Opened { session_id: 77 }));

    assert_eq!(store.route_data(1, 77), Some(2));
    assert_eq!(store.route_data(2, 77), Some(1));
    assert_eq!(store.route_data(3, 77), None);

    let frame = encode_data(77, b"bytes");
    let routed = route_frame(&store, 2, frame.clone());
    assert_eq!(routed.len(), 1);
    assert_eq!(routed[0].to, 1);
    match &routed[0].message {
        RelayOutbound::Data(f) => assert_eq!(f, &frame),
        _ => panic!("expected data"),
    }
    assert!(route_frame(&store, 3, frame).is_empty());
    assert!(route_frame(&store, 1, vec![1, 2, 3]).is_empty());
}

#[test]
fn open_to_absent_target_is_closed_for_initiator() {
    let mut store = RelayStore::new();
    let mut counter = RequestCounter::new();
    join(&mut store, &mut counter, "room", 1, "a");
    join(&mut store, &mut counter, "other", 2, "b");
    let out = open_session(&mut store, "room", 1, 2, 5);
    assert_eq!(out.len(), 1);
    assert_eq!(out[0].to, 1);
    assert!(matches!(control(&out[0]), RelayServerMessage::Closed { session_id: 5 }));
    assert_eq!(store.route_data(1, 5), None);
    assert!(open_session(&mut store, "room", 3, 1, 6).is_empty());
}

#[test]
fn close_notifies_other_end_and_stops_routing() {
    let mut store = RelayStore::new();
    let mut counter = RequestCounter::new();
    join(&mut store, &mut counter, "room", 1, "a");
    join(&mut store, &mut counter, "room", 2, "b");
    open_session(&mut store, "room", 1, 2, 8);
    let out = close_session(&mut store, 2, 8);
    assert_eq!(out.len(), 1);
    assert_eq!(out[0].to, 1);
    assert!(matches!(control(&out[0]), RelayServerMessage::Closed { session_id: 8 }));
    assert_eq!(store.route_data(1, 8), None);
    assert!(close_session(&mut store, 2, 8).is_empty());
}

#[test]
fn stranger_closes_session_without_notice() {
    let mut store = RelayStore::new();
    let mut counter = RequestCounter::new();
    join(&mut store, &mut counter, "room", 1, "a");
    join(&mut store, &mut counter, "room", 2, "b");
    open_session(&mut store, "room", 1, 2, 8);
    assert!(close_session(&mut store, 3, 8).is_empty());
    assert_eq!(store.route_data(1, 8), None);
}

#[test]
fn update_announces_to_other_members_only() {
    let mut store = RelayStore::new();
    let mut counter = RequestCounter::new();
    join(&mut store, &mut counter, "room", 1, "a");
    join(&mut store, &mut counter, "room", 2, "b");
    join(&mut store, &mut counter, "room", 3, "c");
    let out = update_peer_info(&mut store, "room", 2, info("b2"));
    let to: Vec<u128> = out.iter().map(|d| d.to).collect();
    assert_eq!(to, vec![1, 3]);
    match control(&out[0]) {
        RelayServerMessage::PeerUpdate { peer } => {
            assert_eq!(peer.client_id, 2);
            assert_eq!(peer.info.alias, "b2");
        }
        m => panic!("unexpected {m:?}"),
    }
    assert!(update_peer_info(&mut store, "room", 9, info("x")).is_empty());
    let out = join(&mut store, &mut counter, "room", 4, "d");
    match control(&out[3]) {
        RelayServerMessage::Welcome { peers, .. } => assert_eq!(peers[1].info.alias, "b2"),
        m => panic!("unexpected {m:?}"),
    }
}

#[test]
fn leave_announces_departure_and_closes_sessions() {
    let mut store = RelayStore::new();
    let mut counter = RequestCounter::new();
    join(&mut store, &mut counter, "room", 1, "a");
    join(&mut store, &mut counter, "room", 2, "b");
    join(&mut store, &mut counter, "room", 3, "c");
    open_session(&mut store, "room", 1, 2, 10);
    open_session(&mut store, "room", 3, 1, 11);
    open_session(&mut store, "room", 2, 3, 12);
    let out = leave_room(&mut store, "room", 1);
    assert_eq!(out.len(), 4);
    assert_eq!((out[0].to, out[1].to), (2, 3));
    assert!(matches!(control(&out[0]), RelayServerMessage::PeerLeft { peer_id: 1 }));
    assert_eq!(out[2].to, 2);
    assert!(matches!(control(&out[2]), RelayServerMessage::Closed { session_id: 10 }));
    assert_eq!(out[3].to, 3);
    assert!(matches!(control(&out[3]), RelayServerMessage::Closed { session_id: 11 }));
    assert_eq!(store.route_data(2, 12), Some(3));
    assert_eq!(store.route_data(2, 10), None);
}

#[test]
fn last_device_leaving_empties_the_room() {
    let mut store = RelayStore::new();
    let mut counter = RequestCounter::new();
    join(&mut store, &mut counter, "room", 1, "a");
    assert!(store.room_is_full("room", 1));
    let out = leave_room(&mut store, "room", 1);
    assert!(out.is_empty());
    assert!(!store.room_is_full("room", 0));
    assert!(leave_room(&mut store, "room", 1).is_empty());
}

#[test]
fn messages_are_rate_limited_then_dispatched() {
    let mut store = RelayStore::new();
    let mut counter = RequestCounter::new();
    join_room(&mut store, &mut counter, "g", "room".to_string(), 1, info("a"), 10, 3).unwrap();
    join_room(&mut store, &mut counter, "h", "room".to_string(), 2, info("b"), 10, 3).unwrap();
    let out = handle_client_message(
        &mut store,
        &mut counter,
        "g",
        "room",
        1,
        RelayClientMessage::Open { session_id: 4, target_id: 2 },
        3,
    )
    .unwrap();
    assert_eq!(out.len(), 2);
    let out = handle_client_message(
        &mut store,
        &mut counter,
        "g",
        "room",
        1,
        RelayClientMessage::Hello { room: "x".to_string(), info: info("a") },
        3,
    )
    .unwrap();
    assert!(out.is_empty());
    let r = handle_client_message(
        &mut store,
        &mut counter,
        "g",
        "room",
        1,
        RelayClientMessage::Close { session_id: 4 },
        3,
    );
    assert_eq!(r.unwrap_err(), RateLimited);
    assert_eq!(store.route_data(1, 4), Some(2));
}

#[test]
fn only_a_hello_opens_a_connection() {
    let hello = RelayClientMessage::Hello { room: "room".to_string(), info: info("a") };
    let (room, device) = hello_of(Some(hello)).unwrap();
    assert_eq!(room, "room");
    assert_eq!(device.alias, "a");
    assert!(hello_of(Some(RelayClientMessage::Update { info: info("a") })).is_none());
    assert!(hello_of(Some(RelayClientMessage::Close { session_id: 7 })).is_none());
    assert!(hello_of(None).is_none());
}

#[test]
fn room_stays_within_its_limit_across_joins_and_leaves() {
    let mut store = RelayStore::new();
    let mut counter = RequestCounter::new();
    let j = |store: &mut RelayStore, counter: &mut RequestCounter, id: u128| {
        join_room(store, counter, "g", "room".to_string(), id, info("d"), 2, 1000)
    };
    assert!(j(&mut store, &mut counter, 1).is_ok());
    assert!(j(&mut store, &mut counter, 2).is_ok());
    assert_eq!(j(&mut store, &mut counter, 3).unwrap_err(), ROOM_FULL);
    leave_room(&mut store, "room", 1);
    assert!(!store.room_is_full("room", 2));
    assert!(j(&mut store, &mut counter, 3).is_ok());
    assert!(store.room_is_full("room", 2));
    assert_eq!(j(&mut store, &mut counter, 4).unwrap_err(), ROOM_FULL);
    let out = update_peer_info(&mut store, "room", 2, info("e"));
    assert_eq!(out.len(), 1);
    assert_eq!(j(&mut store, &mut counter, 4).unwrap_err(), ROOM_FULL);
}
