use localsend_relay::api::{client_id_text, parse_relay_target, InvalidRelayTarget, RsRelayInfo, RsRelayPeer};
use localsend_relay::client::{drain_step, ClientStep, DrainAction, DrainEvent, RelayClient, RelayEvent};
use localsend_relay::frame::encode_data;
use localsend_relay::messages::{
    DeviceType, RelayClientMessage, RelayDeviceInfo, RelayPeer, RelayServerMessage,
};

fn peer(id: u128, alias: &str) -> RelayPeer {
    RelayPeer {
        client_id: id,
        info: RelayDeviceInfo {
            alias: alias.to_string(),
            version: "2.1".to_string(),
            device_model: None,
            device_type: Some(DeviceType::Desktop),
            fingerprint: "fp".to_string(),
            cert_fingerprint: Some("cert".to_string()),
            download: true,
        },
    }
}

const ID: u128 = 0x67e55044_10b1_426f_9247_bb680e5fe0c8;

#[test]
fn welcome_records_id_and_announces_peers_then_connection() {
    let mut c: RelayClient<&str, u8> = RelayClient::new();
    assert_eq!(c.client_id(), None);
    let step = c.on_server_message(RelayServerMessage::Welcome {
        client_id: 5,
        peers: vec![peer(1, "a"), peer(2, "b")],
    });
    assert_eq!(c.client_id(), Some(5));
    match step {
        ClientStep::Emit(events) => {
            assert_eq!(events.len(), 3);
            assert!(matches!(&events[0], RelayEvent::Peer { peer } if peer.client_id == 1));
            assert!(matches!(&events[1], RelayEvent::Peer { peer } if peer.client_id == 2));
            assert!(matches!(&events[2], RelayEvent::Connected { client_id: 5 }));
        }
        _ => panic!("expected events"),
    }
}

#[test]
fn open_then_opened_settles_the_request() {
    let mut c: RelayClient<&str, u8> = RelayClient::new();
    let msg = c.open_session(7, 9, "pipe", 1);
    assert!(matches!(msg, RelayClientMessage::Open { session_id: 7, target_id: 9 }));
    match c.on_server_message(RelayServerMessage::Opened { session_id: 7 }) {
        ClientStep::Opened(p) => assert_eq!(p, Some(1)),
        _ => panic!("expected opened"),
    }
    match c.on_server_message(RelayServerMessage::Opened { session_id: 7 }) {
        ClientStep::Opened(p) => assert_eq!(p, None),
        _ => panic!("expected opened"),
    }
    let frame = encode_data(7, b"data");
    let (s, payload) = c.session_for_frame(&frame).unwrap();
    assert_eq!(*s, "pipe");
    assert_eq!(payload, b"data");
}

#[test]
fn closed_ends_session_and_fails_pending_request() {
    let mut c: RelayClient<&str, u8> = RelayClient::new();
    c.open_session(7, 9, "pipe", 1);
    match c.on_server_message(RelayServerMessage::Closed { session_id: 7 }) {
        ClientStep::Closed(s, p) => {
            assert_eq!(s, Some("pipe"));
            assert_eq!(p, Some(1));
        }
        _ => panic!("expected closed"),
    }
    assert!(c.session_for_frame(&encode_data(7, b"x")).is_none());
}

#[test]
fn incoming_is_registered_by_the_caller() {
    let mut c: RelayClient<&str, u8> = RelayClient::new();
    match c.on_server_message(RelayServerMessage::Incoming { session_id: 3, peer: peer(1, "a") }) {
        ClientStep::Incoming { session_id, peer } => {
            assert_eq!(session_id, 3);
            assert_eq!(peer.info.alias, "a");
        }
        _ => panic!("expected incoming"),
    }
    assert!(c.session_for_frame(&encode_data(3, b"x")).is_none());
    assert_eq!(c.register_session(3, "in"), None);
    assert_eq!(c.register_session(3, "in2"), Some("in"));
    assert_eq!(*c.session_for_frame(&encode_data(3, b"x")).unwrap().0, "in2");
    assert!(c.session_for_frame(&[1, 2]).is_none());
}

#[test]
fn disconnect_ends_every_session() {
    let mut c: RelayClient<&str, u8> = RelayClient::new();
    c.open_session(1, 9, "one", 10);
    c.register_session(2, "two");
    let (drained, lost) = c.disconnect();
    assert_eq!(drained, vec![(1, "one", Some(10)), (2, "two", None)]);
    assert!(matches!(lost, RelayEvent::Disconnected { error: None }));
    assert!(c.disconnect().0.is_empty());
}

#[test]
fn backend_error_changes_nothing() {
    let mut c: RelayClient<&str, u8> = RelayClient::new();
    assert!(matches!(
        c.on_server_message(RelayServerMessage::Error { code: 503 }),
        ClientStep::BackendError(503)
    ));
}

#[test]
fn events_describe_themselves() {
    assert_eq!(
        RelayEvent::Connected { client_id: ID }.describe(),
        "Connected (67e55044-10b1-426f-9247-bb680e5fe0c8)"
    );
    assert_eq!(RelayEvent::Peer { peer: peer(1, "Phone") }.describe(), "Peer joined: Phone");
    assert_eq!(RelayEvent::PeerUpdate { peer: peer(1, "Phone") }.describe(), "Peer updated: Phone");
    assert_eq!(
        RelayEvent::PeerLeft { peer_id: 1 }.describe(),
        "Peer left (00000000-0000-0000-0000-000000000001)"
    );
    assert_eq!(
        RelayEvent::Incoming { session_id: ID, peer: peer(1, "PC") }.describe(),
        "Incoming session 67e55044-10b1-426f-9247-bb680e5fe0c8 from PC"
    );
    assert_eq!(RelayEvent::Disconnected { error: None }.describe(), "Disconnected (None)");
    assert_eq!(
        RelayEvent::Disconnected { error: Some("a \"b\"".to_string()) }.describe(),
        "Disconnected (Some(\"a \\\"b\\\"\"))"
    );
}

#[test]
fn peer_for_the_app_carries_uuid_text_and_fields() {
    let p = peer(ID, "Laptop");
    let rs = RsRelayPeer::from_peer(&p);
    assert_eq!(rs.client_id, "67e55044-10b1-426f-9247-bb680e5fe0c8");
    assert_eq!(rs.info.alias, "Laptop");
    assert_eq!(rs.info.cert_fingerprint.as_deref(), Some("cert"));
    assert_eq!(rs.info.device_type, Some(DeviceType::Desktop));
    assert!(rs.info.download);
    let back: RelayDeviceInfo = rs.info.into();
    assert_eq!(back.alias, "Laptop");
    assert_eq!(back.version, "2.1");
}

#[test]
fn info_from_app_keeps_every_field() {
    let info = RsRelayInfo {
        alias: "a".to_string(),
        version: "v".to_string(),
        device_model: Some("m".to_string()),
        device_type: Some(DeviceType::Web),
        fingerprint: "f".to_string(),
        cert_fingerprint: None,
        download: true,
    };
    let d: RelayDeviceInfo = info.into();
    assert_eq!(d.device_model.as_deref(), Some("m"));
    assert_eq!(d.device_type, Some(DeviceType::Web));
    assert_eq!(d.fingerprint, "f");
    assert!(d.cert_fingerprint.is_none());
    assert!(d.download);
}

#[test]
fn relay_target_parses_uuid_text() {
    assert_eq!(parse_relay_target("67e55044-10b1-426f-9247-bb680e5fe0c8"), Ok(ID));
    assert_eq!(parse_relay_target("67E5504410B1426F9247BB680E5FE0C8"), Ok(ID));
    assert_eq!(parse_relay_target("not a uuid"), Err(InvalidRelayTarget));
    assert_eq!(client_id_text(Some(ID)).as_deref(), Some("67e55044-10b1-426f-9247-bb680e5fe0c8"));
    assert_eq!(client_id_text(None), None);
}

#[test]
fn relay_target_reads_braced_and_urn_forms() {
    assert_eq!(parse_relay_target("{67e55044-10b1-426f-9247-bb680e5fe0c8}"), Ok(ID));
    assert_eq!(parse_relay_target("urn:uuid:67e55044-10b1-426f-9247-bb680e5fe0c8"), Ok(ID));
    assert_eq!(parse_relay_target("URN:UUID:67E55044-10B1-426F-9247-BB680E5FE0C8"), Ok(ID));
    assert_eq!(parse_relay_target("67e55044-10b1-426f-9247-bb680e5fe0c"), Err(InvalidRelayTarget));
    assert_eq!(parse_relay_target("67e55044+10b1-426f-9247-bb680e5fe0c8"), Err(InvalidRelayTarget));
    assert_eq!(parse_relay_target("(67e55044-10b1-426f-9247-bb680e5fe0c8)"), Err(InvalidRelayTarget));
    assert_eq!(parse_relay_target("urn:uuie:67e55044-10b1-426f-9247-bb680e5fe0c8"), Err(InvalidRelayTarget));
    assert_eq!(parse_relay_target("g7e5504410b1426f9247bb680e5fe0c8"), Err(InvalidRelayTarget));
    assert_eq!(parse_relay_target(""), Err(InvalidRelayTarget));
}

#[test]
fn drain_sends_bytes_read_and_closes_on_anything_else() {
    assert!(matches!(drain_step(ID, DrainEvent::Read(5)), DrainAction::SendData));
    for event in [DrainEvent::Read(0), DrainEvent::ReadFailed, DrainEvent::Cancelled, DrainEvent::SendFailed] {
        match drain_step(ID, event) {
            DrainAction::Finish(RelayClientMessage::Close { session_id }) => assert_eq!(session_id, ID),
            other => panic!("expected Close, got {:?}", other),
        }
    }
}
