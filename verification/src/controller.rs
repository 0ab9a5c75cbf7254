//! The decisions of the relay backend endpoint: what the backend does with a
//! device that says `Hello`, with each later message of a device, with the
//! binary frames it sends and with a device that goes away. Each decision
//! changes the backend's state and returns the messages to deliver, each to
//! one device.

use vstd::prelude::*;
use crate::frame::{decode_data, spec_decode_data};
use crate::limit::{RateLimited, RequestCounter, requests_of};
use crate::messages::{RelayClientMessage, RelayDeviceInfo, RelayPeer, RelayServerMessage};
use crate::store::{RelayStore, SessionOutcome, is_member, member_index, room_ids, room_peers,
    other_ids, peer_of, route_target, closed_sessions, joined, lemma_joined_room_size,
    lemma_joined_other_room, rooms_within, lemma_update_keeps_rooms_within,
    lemma_leave_keeps_rooms_within};

verus! {

/// The status with which a full room refuses a device.
pub const ROOM_FULL: u16 = 503;

/// The status with which a device over its request limit is refused.
pub const TOO_MANY_REQUESTS: u16 = 429;

/// An outbound message of a relay device's socket: a control message encoded
/// as JSON text, or the raw bytes of a relay session sent as a binary frame.
#[derive(Debug)]
pub enum RelayOutbound {
    Control(RelayServerMessage),
    Data(Vec<u8>),
}

/// A message to deliver to the device `to`.
#[derive(Debug)]
pub struct Delivery {
    pub to: u128,
    pub message: RelayOutbound,
}

/// The control message `msg`, once to each device of `ids`, in order.
pub open spec fn announce(ids: Seq<u128>, msg: RelayServerMessage) -> Seq<Delivery> {
    Seq::new(ids.len(), |i: int| Delivery { to: ids[i], message: RelayOutbound::Control(msg) })
}

/// An announcement reaches each listed device once, in order, with the
/// message itself, and no one else.
pub proof fn lemma_announce_reaches_each(ids: Seq<u128>, msg: RelayServerMessage)
    ensures
        announce(ids, msg).len() == ids.len(),
        forall|i: int|
            0 <= i < ids.len() ==> (#[trigger] announce(ids, msg)[i]).to == ids[i]
                && announce(ids, msg)[i].message == RelayOutbound::Control(msg),
{
}

/// A device that joins is told, in its `Welcome`, of exactly the devices
/// that were in the room, each once, with their directory information; and
/// each of them, and no other device, is told that it joined.
pub proof fn lemma_join_welcomes_room(store: RelayStore, room: Seq<char>)
    requires
        store.wf(),
    ensures
        forall|x: u128| #[trigger] room_ids(store.clients(), room).contains(x) <==> is_member(
            store.clients(),
            room,
            x,
        ),
        room_ids(store.clients(), room).no_duplicates(),
        room_peers(store.clients(), room).len() == room_ids(store.clients(), room).len(),
        forall|i: int|
            0 <= i < room_peers(store.clients(), room).len() ==> (#[trigger] room_peers(
                store.clients(),
                room,
            )[i]).client_id == room_ids(store.clients(), room)[i],
{
    crate::store::lemma_room_ids_are_members(store.clients(), room);
    crate::store::lemma_room_peers_are_entries(store.clients(), room);
}

/// The control message `msg` to the device `to`.
pub open spec fn control(to: u128, msg: RelayServerMessage) -> Delivery {
    Delivery { to, message: RelayOutbound::Control(msg) }
}

/// `d` welcomes the device `client_id` with the peers `peers`.
pub open spec fn is_welcome(d: Delivery, client_id: u128, peers: Seq<RelayPeer>) -> bool {
    d.to == client_id && match d.message {
        RelayOutbound::Control(RelayServerMessage::Welcome { client_id: id, peers: ps }) => id
            == client_id && ps@ == peers,
        _ => false,
    }
}

fn announce_to(ids: &Vec<u128>, msg: &RelayServerMessage, out: &mut Vec<Delivery>)
    requires
        !(msg is Welcome),
    ensures
        final(out)@ == old(out)@ + announce(ids@, *msg),
{
    let ghost start = out@;
    let mut i: usize = 0;
    while i < ids.len()
        invariant
            i <= ids@.len(),
            !(msg is Welcome),
            out@ == start + announce(ids@.take(i as int), *msg),
        decreases ids@.len() - i,
    {
        out.push(Delivery { to: ids[i], message: RelayOutbound::Control(duplicate_message(msg)) });
        assert(start + announce(ids@.take(i + 1), *msg) =~= start + announce(
            ids@.take(i as int),
            *msg,
        ).push(Delivery { to: ids@[i as int], message: RelayOutbound::Control(*msg) }));
        i = i + 1;
    }
    assert(ids@.take(ids@.len() as int) =~= ids@);
}

/// A copy of a control message that carries no list of peers.
fn duplicate_message(msg: &RelayServerMessage) -> (r: RelayServerMessage)
    ensures
        !(msg is Welcome) ==> r == *msg,
{
    match msg {
        RelayServerMessage::Welcome { client_id, .. } => RelayServerMessage::Welcome {
            client_id: *client_id,
            peers: Vec::new(),
        },
        RelayServerMessage::PeerJoined { peer } => RelayServerMessage::PeerJoined {
            peer: peer.duplicate(),
        },
        RelayServerMessage::PeerUpdate { peer } => RelayServerMessage::PeerUpdate {
            peer: peer.duplicate(),
        },
        RelayServerMessage::PeerLeft { peer_id } => RelayServerMessage::PeerLeft {
            peer_id: *peer_id,
        },
        RelayServerMessage::Incoming { session_id, peer } => RelayServerMessage::Incoming {
            session_id: *session_id,
            peer: peer.duplicate(),
        },
        RelayServerMessage::Opened { session_id } => RelayServerMessage::Opened {
            session_id: *session_id,
        },
        RelayServerMessage::Closed { session_id } => RelayServerMessage::Closed {
            session_id: *session_id,
        },
        RelayServerMessage::Error { code } => RelayServerMessage::Error { code: *code },
    }
}

/// The room and the device that a connection announces with its first
/// message: there are none unless that message is a `Hello`.
pub fn hello_of(first: Option<RelayClientMessage>) -> (r: Option<(String, RelayDeviceInfo)>)
    ensures
        match first {
            Some(RelayClientMessage::Hello { room, info }) => r == Some((room, info)),
            _ => r is None,
        },
{
    match first {
        Some(RelayClientMessage::Hello { room, info }) => Some((room, info)),
        _ => None,
    }
}

/// Whether `room` refuses newcomers: it holds devices, `max_connections` of
/// them or more.
pub open spec fn room_full(store: RelayStore, room: Seq<char>, max_connections: usize) -> bool {
    room_ids(store.clients(), room).len() > 0 && room_ids(store.clients(), room).len()
        >= max_connections
}

/// Lets the device `client_id` (which said `Hello`, from the address group
/// `ip_group`) join `room`. A full room refuses it with [`ROOM_FULL`]; then
/// a group over its request limit is refused with [`TOO_MANY_REQUESTS`].
/// Otherwise the device joins the room, every device already there is told
/// that it joined, and the device is welcomed with the list of those devices.
pub fn join_room(
    store: &mut RelayStore,
    counter: &mut RequestCounter,
    ip_group: &str,
    room: String,
    client_id: u128,
    info: RelayDeviceInfo,
    max_connections: usize,
    max_requests: u32,
) -> (r: Result<Vec<Delivery>, u16>)
    requires
        old(store).wf(),
        old(counter).wf(),
    ensures
        final(store).wf(),
        final(counter).wf(),
        room_full(*old(store), room@, max_connections) ==> r == Err::<Vec<Delivery>, u16>(
            ROOM_FULL,
        ) && *final(store) == *old(store) && *final(counter) == *old(counter),
        !room_full(*old(store), room@, max_connections) && requests_of(old(counter)@, ip_group@)
            >= max_requests ==> r == Err::<Vec<Delivery>, u16>(TOO_MANY_REQUESTS)
            && *final(store) == *old(store) && final(counter)@ == old(counter)@.insert(
            ip_group@,
            requests_of(old(counter)@, ip_group@),
        ),
        !room_full(*old(store), room@, max_connections) && requests_of(old(counter)@, ip_group@)
            < max_requests ==> {
            &&& final(counter)@ == old(counter)@.insert(
                ip_group@,
                (requests_of(old(counter)@, ip_group@) + 1) as u32,
            )
            &&& final(store).sessions() == old(store).sessions()
            &&& final(store).clients() == joined(old(store).clients(), room, client_id, info)
            &&& r matches Ok(ds) && ds@.len() == room_ids(old(store).clients(), room@).len() + 1
                && ds@.take(ds@.len() - 1) == announce(
                room_ids(old(store).clients(), room@),
                RelayServerMessage::PeerJoined { peer: RelayPeer { client_id, info } },
            ) && is_welcome(ds@.last(), client_id, room_peers(old(store).clients(), room@))
        },
        max_connections > 0 && rooms_within(old(store).clients(), max_connections as nat)
            ==> rooms_within(final(store).clients(), max_connections as nat),
{
    let ghost before = *store;
    proof {
        if max_connections > 0 && rooms_within(before.clients(), max_connections as nat)
            && !room_full(before, room@, max_connections) {
            lemma_join_keeps_rooms_within(before, room, client_id, info, max_connections);
        }
    }
    if store.room_is_full(room.as_str(), max_connections) {
        return Err(ROOM_FULL);
    }
    match counter.rate_limit(ip_group, max_requests) {
        Err(_) => return Err(TOO_MANY_REQUESTS),
        Ok(()) => {},
    }
    let siblings = store.room_member_ids(&room);
    let self_peer = RelayPeer { client_id, info: info.duplicate() };
    let peers = store.join(room, client_id, info);
    let mut out: Vec<Delivery> = Vec::new();
    announce_to(&siblings, &RelayServerMessage::PeerJoined { peer: self_peer }, &mut out);
    let ghost announced = out@;
    out.push(
        Delivery { to: client_id, message: RelayOutbound::Control(RelayServerMessage::Welcome { client_id, peers }) },
    );
    assert(out@.take(out@.len() - 1) =~= announced);
    Ok(out)
}

/// Replaces the information of the device `client_id` of `room` and tells
/// the other devices of the room; nothing where the device is not there.
pub fn update_peer_info(store: &mut RelayStore, room: &str, client_id: u128, info: RelayDeviceInfo)
    -> (r: Vec<Delivery>)
    requires
        old(store).wf(),
    ensures
        final(store).wf(),
        final(store).sessions() == old(store).sessions(),
        !is_member(old(store).clients(), room@, client_id) ==> r@ == Seq::<Delivery>::empty()
            && final(store).clients() == old(store).clients(),
        is_member(old(store).clients(), room@, client_id) ==> {
            let k = member_index(old(store).clients(), room@, client_id);
            &&& final(store).clients() == old(store).clients().update(
                k,
                crate::store::RelayClient {
                    room: old(store).clients()[k].room,
                    client_id,
                    info,
                },
            )
            &&& r@ == announce(
                other_ids(final(store).clients(), room@, client_id),
                RelayServerMessage::PeerUpdate { peer: RelayPeer { client_id, info } },
            )
        },
        forall|m: nat|
            rooms_within(old(store).clients(), m) ==> #[trigger] rooms_within(final(store).clients(), m),
{
    let ghost cs = store.clients();
    proof {
        if is_member(cs, room@, client_id) {
            let k = member_index(cs, room@, client_id);
            assert forall|m: nat| rooms_within(cs, m) implies #[trigger] rooms_within(
                cs.update(k, crate::store::RelayClient { room: cs[k].room, client_id, info }),
                m,
            ) by {
                lemma_update_keeps_rooms_within(cs, k, client_id, info, m);
            }
        }
    }
    let mut out: Vec<Delivery> = Vec::new();
    match store.update_info(room, client_id, info) {
        None => {},
        Some((peer, others)) => {
            announce_to(&others, &RelayServerMessage::PeerUpdate { peer }, &mut out);
            assert(out@ =~= Seq::<Delivery>::empty() + announce(
                others@,
                RelayServerMessage::PeerUpdate { peer: RelayPeer { client_id, info } },
            ));
        },
    }
    out
}

/// The messages that follow an `Open` request: where the session is
/// recorded, the target learns of it and the initiator that it is open;
/// where the target is not in the room, the initiator learns that it is
/// closed; where the initiator is not in the room, nothing.
pub open spec fn open_deliveries(outcome: Option<SessionOutcome>, session_id: u128) -> Seq<Delivery> {
    match outcome {
        None => Seq::empty(),
        Some(SessionOutcome::Unreachable { initiator_id }) => seq![
            control(initiator_id, RelayServerMessage::Closed { session_id }),
        ],
        Some(SessionOutcome::Opened { peer, target_id, initiator_id }) => seq![
            control(target_id, RelayServerMessage::Incoming { session_id, peer }),
            control(initiator_id, RelayServerMessage::Opened { session_id }),
        ],
    }
}

/// Opens the session `session_id` from `initiator_id` to `target_id` in
/// `room`, as [`RelayStore::plan_open`] decides, and returns the messages
/// that announce the outcome.
pub fn open_session(
    store: &mut RelayStore,
    room: &str,
    initiator_id: u128,
    target_id: u128,
    session_id: u128,
) -> (r: Vec<Delivery>)
    requires
        old(store).wf(),
    ensures
        final(store).wf(),
        final(store).clients() == old(store).clients(),
        !is_member(old(store).clients(), room@, initiator_id) ==> r@ == Seq::<Delivery>::empty()
            && final(store).sessions() == old(store).sessions(),
        is_member(old(store).clients(), room@, initiator_id) && !is_member(
            old(store).clients(),
            room@,
            target_id,
        ) ==> r@ == seq![control(initiator_id, RelayServerMessage::Closed { session_id })]
            && final(store).sessions() == old(store).sessions(),
        is_member(old(store).clients(), room@, initiator_id) && is_member(
            old(store).clients(),
            room@,
            target_id,
        ) ==> r@ == seq![
            control(
                target_id,
                RelayServerMessage::Incoming {
                    session_id,
                    peer: peer_of(
                        old(store).clients()[member_index(old(store).clients(), room@, initiator_id)],
                    ),
                },
            ),
            control(initiator_id, RelayServerMessage::Opened { session_id }),
        ] && final(store).sessions() == crate::store::sessions_with(
            old(store).sessions(),
            session_id,
            crate::store::RelaySession { a_id: initiator_id, b_id: target_id },
        ),
{
    let outcome = store.plan_open(room, initiator_id, target_id, session_id);
    let mut out: Vec<Delivery> = Vec::new();
    match outcome {
        None => {},
        Some(SessionOutcome::Unreachable { initiator_id }) => {
            out.push(
                Delivery {
                    to: initiator_id,
                    message: RelayOutbound::Control(RelayServerMessage::Closed { session_id }),
                },
            );
        },
        Some(SessionOutcome::Opened { peer, target_id, initiator_id }) => {
            out.push(
                Delivery {
                    to: target_id,
                    message: RelayOutbound::Control(
                        RelayServerMessage::Incoming { session_id, peer },
                    ),
                },
            );
            out.push(
                Delivery {
                    to: initiator_id,
                    message: RelayOutbound::Control(RelayServerMessage::Opened { session_id }),
                },
            );
        },
    }
    assert(out@ =~= open_deliveries(outcome, session_id)) by {
        match outcome {
            None => {},
            Some(SessionOutcome::Unreachable { initiator_id }) => {},
            Some(SessionOutcome::Opened { peer, target_id, initiator_id }) => {},
        }
    }
    out
}

/// Ends the session `session_id` at the request of `source_id`; its other
/// end, where `source_id` is one of its ends, learns that it is closed.
pub fn close_session(store: &mut RelayStore, source_id: u128, session_id: u128) -> (r: Vec<Delivery>)
    requires
        old(store).wf(),
    ensures
        final(store).wf(),
        final(store).clients() == old(store).clients(),
        final(store).sessions() == crate::store::sessions_without(old(store).sessions(), session_id),
        r@ == match route_target(old(store).sessions(), session_id, source_id) {
            Some(other) => seq![control(other, RelayServerMessage::Closed { session_id })],
            None => Seq::<Delivery>::empty(),
        },
{
    let mut out: Vec<Delivery> = Vec::new();
    if let Some(other) = store.close_session(source_id, session_id) {
        out.push(
            Delivery {
                to: other,
                message: RelayOutbound::Control(RelayServerMessage::Closed { session_id }),
            },
        );
    }
    assert(out@ =~= match route_target(old(store).sessions(), session_id, source_id) {
        Some(other) => seq![control(other, RelayServerMessage::Closed { session_id })],
        None => Seq::<Delivery>::empty(),
    });
    out
}

/// Forwards a binary frame of `source_id` to the other end of the session
/// that it names; nothing where the frame names no session of `source_id`.
pub fn route_frame(store: &RelayStore, source_id: u128, frame: Vec<u8>) -> (r: Vec<Delivery>)
    requires
        store.wf(),
    ensures
        r@ == match spec_decode_data(frame@) {
            Some((session_id, _)) => match route_target(store.sessions(), session_id, source_id) {
                Some(other) => seq![Delivery { to: other, message: RelayOutbound::Data(frame) }],
                None => Seq::<Delivery>::empty(),
            },
            None => Seq::<Delivery>::empty(),
        },
{
    let mut out: Vec<Delivery> = Vec::new();
    let target = match decode_data(frame.as_slice()) {
        Some((session_id, _)) => store.route_data(source_id, session_id),
        None => None,
    };
    if let Some(other) = target {
        out.push(Delivery { to: other, message: RelayOutbound::Data(frame) });
    }
    assert(out@ =~= match spec_decode_data(frame@) {
        Some((session_id, _)) => match route_target(store.sessions(), session_id, source_id) {
            Some(other) => seq![Delivery { to: other, message: RelayOutbound::Data(frame) }],
            None => Seq::<Delivery>::empty(),
        },
        None => Seq::<Delivery>::empty(),
    });
    out
}

/// Handles a control message of the device `client_id` of `room`, from the
/// address group `ip_group`: a group over its request limit is refused (the
/// caller then ends the connection); otherwise `Update`, `Open` and `Close`
/// are carried out as [`update_peer_info`], [`open_session`] and
/// [`close_session`] say, and a repeated `Hello` is ignored.
pub fn handle_client_message(
    store: &mut RelayStore,
    counter: &mut RequestCounter,
    ip_group: &str,
    room: &str,
    client_id: u128,
    message: RelayClientMessage,
    max_requests: u32,
) -> (r: Result<Vec<Delivery>, RateLimited>)
    requires
        old(store).wf(),
        old(counter).wf(),
    ensures
        final(store).wf(),
        final(counter).wf(),
        requests_of(old(counter)@, ip_group@) >= max_requests ==> r is Err && *final(store)
            == *old(store) && final(counter)@ == old(counter)@.insert(
            ip_group@,
            requests_of(old(counter)@, ip_group@),
        ),
        requests_of(old(counter)@, ip_group@) < max_requests ==> r is Ok && final(counter)@
            == old(counter)@.insert(ip_group@, (requests_of(old(counter)@, ip_group@) + 1) as u32),
        requests_of(old(counter)@, ip_group@) < max_requests ==> match message {
            RelayClientMessage::Hello { .. } => r matches Ok(ds) && ds@ == Seq::<Delivery>::empty()
                && *final(store) == *old(store),
            RelayClientMessage::Update { info } => r matches Ok(ds) && final(store).sessions()
                == old(store).sessions() && if is_member(old(store).clients(), room@, client_id) {
                let k = member_index(old(store).clients(), room@, client_id);
                &&& final(store).clients() == old(store).clients().update(
                    k,
                    crate::store::RelayClient {
                        room: old(store).clients()[k].room,
                        client_id,
                        info,
                    },
                )
                &&& ds@ == announce(
                    other_ids(final(store).clients(), room@, client_id),
                    RelayServerMessage::PeerUpdate { peer: RelayPeer { client_id, info } },
                )
            } else {
                ds@ == Seq::<Delivery>::empty() && final(store).clients() == old(store).clients()
            },
            RelayClientMessage::Open { session_id, target_id } => r matches Ok(ds)
                && final(store).clients() == old(store).clients() && if !is_member(
                old(store).clients(),
                room@,
                client_id,
            ) {
                ds@ == Seq::<Delivery>::empty() && final(store).sessions() == old(store).sessions()
            } else if !is_member(old(store).clients(), room@, target_id) {
                ds@ == seq![control(client_id, RelayServerMessage::Closed { session_id })]
                    && final(store).sessions() == old(store).sessions()
            } else {
                &&& ds@ == seq![
                    control(
                        target_id,
                        RelayServerMessage::Incoming {
                            session_id,
                            peer: peer_of(
                                old(store).clients()[member_index(
                                    old(store).clients(),
                                    room@,
                                    client_id,
                                )],
                            ),
                        },
                    ),
                    control(client_id, RelayServerMessage::Opened { session_id }),
                ]
                &&& final(store).sessions() == crate::store::sessions_with(
                    old(store).sessions(),
                    session_id,
                    crate::store::RelaySession { a_id: client_id, b_id: target_id },
                )
            },
            RelayClientMessage::Close { session_id } => r matches Ok(ds) && final(store).clients()
                == old(store).clients() && final(store).sessions()
                == crate::store::sessions_without(old(store).sessions(), session_id) && ds@
                == match route_target(old(store).sessions(), session_id, client_id) {
                Some(other) => seq![control(other, RelayServerMessage::Closed { session_id })],
                None => Seq::<Delivery>::empty(),
            },
        },
        forall|m: nat|
            rooms_within(old(store).clients(), m) ==> #[trigger] rooms_within(final(store).clients(), m),
{
    if counter.rate_limit(ip_group, max_requests).is_err() {
        return Err(RateLimited);
    }
    match message {
        RelayClientMessage::Hello { .. } => Ok(Vec::new()),
        RelayClientMessage::Update { info } => Ok(update_peer_info(store, room, client_id, info)),
        RelayClientMessage::Open { session_id, target_id } => Ok(
            open_session(store, room, client_id, target_id, session_id),
        ),
        RelayClientMessage::Close { session_id } => Ok(close_session(store, client_id, session_id)),
    }
}

/// The messages that follow the departure of a device: each device left in
/// its room learns that it left, then the other end of each of its sessions
/// learns that the session is closed.
pub open spec fn leave_deliveries(peers: Seq<u128>, closed: Seq<(u128, u128)>, client_id: u128) -> Seq<Delivery> {
    announce(peers, RelayServerMessage::PeerLeft { peer_id: client_id }) + Seq::new(
        closed.len(),
        |i: int| control(closed[i].1, RelayServerMessage::Closed { session_id: closed[i].0 }),
    )
}

/// Removes the device `client_id` from `room` and ends its sessions, as
/// [`RelayStore::leave_room`] says, and returns the messages that announce it.
pub fn leave_room(store: &mut RelayStore, room: &str, client_id: u128) -> (r: Vec<Delivery>)
    requires
        old(store).wf(),
    ensures
        final(store).wf(),
        final(store).clients() == crate::store::without_member(old(store).clients(), room@, client_id),
        final(store).sessions() == crate::store::kept_sessions(old(store).sessions(), client_id),
        r@ == leave_deliveries(
            if is_member(old(store).clients(), room@, client_id) {
                room_ids(final(store).clients(), room@)
            } else {
                Seq::<u128>::empty()
            },
            closed_sessions(old(store).sessions(), client_id),
            client_id,
        ),
        forall|m: nat|
            rooms_within(old(store).clients(), m) ==> #[trigger] rooms_within(final(store).clients(), m),
{
    let ghost cs = store.clients();
    proof {
        assert forall|m: nat| rooms_within(cs, m) implies #[trigger] rooms_within(
            crate::store::without_member(cs, room@, client_id),
            m,
        ) by {
            lemma_leave_keeps_rooms_within(cs, room@, client_id, m);
        }
    }
    let (peers, closed) = store.leave_room(room, client_id);
    let mut out: Vec<Delivery> = Vec::new();
    announce_to(&peers, &RelayServerMessage::PeerLeft { peer_id: client_id }, &mut out);
    let ghost announced = out@;
    let mut i: usize = 0;
    while i < closed.len()
        invariant
            i <= closed@.len(),
            out@ == announced + Seq::new(
                i as nat,
                |j: int| control(closed@[j].1, RelayServerMessage::Closed { session_id: closed@[j].0 }),
            ),
        decreases closed@.len() - i,
    {
        let (session_id, other) = closed[i];
        out.push(
            Delivery {
                to: other,
                message: RelayOutbound::Control(RelayServerMessage::Closed { session_id }),
            },
        );
        assert(out@ =~= announced + Seq::new(
            (i + 1) as nat,
            |j: int| control(closed@[j].1, RelayServerMessage::Closed { session_id: closed@[j].0 }),
        ));
        i = i + 1;
    }
    assert(out@ =~= leave_deliveries(peers@, closed@, client_id));
    out
}

/// Every room stays within `max_connections` devices, whatever devices
/// join: a device refused by [`join_room`] changes nothing, and one let in
/// joins a room that was not full, and no other room. (With
/// `max_connections` zero an empty room still lets its first device in.)
/// [`join_room`] states it of every join; [`update_peer_info`],
/// [`handle_client_message`] and [`leave_room`] keep every limit, so that it
/// holds across any sequence of these.
pub proof fn lemma_join_keeps_rooms_within(
    store: RelayStore,
    room: String,
    client_id: u128,
    info: RelayDeviceInfo,
    max_connections: usize,
)
    requires
        max_connections > 0,
        rooms_within(store.clients(), max_connections as nat),
        !room_full(store, room@, max_connections),
    ensures
        rooms_within(joined(store.clients(), room, client_id, info), max_connections as nat),
{
    let cs = store.clients();
    assert forall|r: Seq<char>| #[trigger] room_ids(joined(cs, room, client_id, info), r).len()
        <= max_connections by {
        if r == room@ {
            lemma_joined_room_size(cs, room, client_id, info);
        } else {
            lemma_joined_other_room(cs, room, client_id, info, r);
            assert(room_ids(cs, r).len() <= max_connections);
        }
    }
}

} // verus!
