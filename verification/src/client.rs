//! The client of the relay backend: what it makes of each message from the
//! backend, and the bookkeeping of its sessions and of the sessions that it
//! asked for and that are not confirmed yet. The client keeps, for each
//! session, the end that feeds the session's pipe (`S`), and for each
//! unconfirmed session the means to report the outcome (`P`).

use vstd::prelude::*;
use vstd::string::*;
use crate::assoc::{distinct_keys, has_key, key_index, to_map, lookup, lemma_to_map_at,
    lemma_to_map_push, lemma_to_map_update, lemma_to_map_remove};
use crate::frame::{decode_data, spec_decode_data};
use crate::ids::{uuid_text, uuid_to_string};
use crate::messages::{RelayClientMessage, RelayPeer, RelayServerMessage};

verus! {

/// An event emitted by a relay client.
#[derive(Debug)]
pub enum RelayEvent {
    /// The connection is established and this device has an ID.
    Connected { client_id: u128 },
    /// A device joined the room, or is currently in the room (on connect).
    Peer { peer: RelayPeer },
    /// A device updated its information.
    PeerUpdate { peer: RelayPeer },
    /// A device left the room.
    PeerLeft { peer_id: u128 },
    /// A peer in the room opened a relay session to this device; the caller
    /// feeds the session's pipe into the HTTP server.
    Incoming { session_id: u128, peer: RelayPeer },
    /// The connection was lost; the client must be reconnected.
    Disconnected { error: Option<String> },
}

/// The text that `Debug` gives for a string: quoted, with escapes.
pub uninterp spec fn debug_text(s: Seq<char>) -> Seq<char>;

/// `format!("{:?}", s)`: the `Debug` text of a string.
#[verifier::external_body]
fn debug_string(s: &str) -> (r: String)
    ensures
        r@ == debug_text(s@),
{
    format!("{:?}", s)
}

/// How an event reads in the log.
pub open spec fn event_text(e: RelayEvent) -> Seq<char> {
    match e {
        RelayEvent::Connected { client_id } => "Connected ("@ + uuid_text(client_id) + ")"@,
        RelayEvent::Peer { peer } => "Peer joined: "@ + peer.info.alias@,
        RelayEvent::PeerUpdate { peer } => "Peer updated: "@ + peer.info.alias@,
        RelayEvent::PeerLeft { peer_id } => "Peer left ("@ + uuid_text(peer_id) + ")"@,
        RelayEvent::Incoming { session_id, peer } => "Incoming session "@ + uuid_text(session_id)
            + " from "@ + peer.info.alias@,
        RelayEvent::Disconnected { error } => match error {
            None => "Disconnected (None)"@,
            Some(text) => "Disconnected (Some("@ + debug_text(text@) + "))"@,
        },
    }
}

impl RelayEvent {
    /// How this event reads in the log.
    pub fn describe(&self) -> (r: String)
        ensures
            r@ == event_text(*self),
    {
        match self {
            RelayEvent::Connected { client_id } => {
                let mut s = "Connected (".to_owned();
                s.append(uuid_to_string(*client_id).as_str());
                s.append(")");
                s
            },
            RelayEvent::Peer { peer } => {
                let mut s = "Peer joined: ".to_owned();
                s.append(peer.info.alias.as_str());
                s
            },
            RelayEvent::PeerUpdate { peer } => {
                let mut s = "Peer updated: ".to_owned();
                s.append(peer.info.alias.as_str());
                s
            },
            RelayEvent::PeerLeft { peer_id } => {
                let mut s = "Peer left (".to_owned();
                s.append(uuid_to_string(*peer_id).as_str());
                s.append(")");
                s
            },
            RelayEvent::Incoming { session_id, peer } => {
                let mut s = "Incoming session ".to_owned();
                s.append(uuid_to_string(*session_id).as_str());
                s.append(" from ");
                s.append(peer.info.alias.as_str());
                s
            },
            RelayEvent::Disconnected { error } => match error {
                None => "Disconnected (None)".to_owned(),
                Some(text) => {
                    let mut s = "Disconnected (Some(".to_owned();
                    s.append(debug_string(text.as_str()).as_str());
                    s.append("))");
                    s
                },
            },
        }
    }
}

/// The events that a `Welcome` brings: each device of the room, in order,
/// then the connection.
pub open spec fn welcome_events(peers: Seq<RelayPeer>, client_id: u128) -> Seq<RelayEvent> {
    Seq::new(peers.len(), |i: int| RelayEvent::Peer { peer: peers[i] }).push(
        RelayEvent::Connected { client_id },
    )
}

/// A `Welcome` brings one `Peer` event for each device of the room, in
/// order, and then, always, as its last event, `Connected` with this
/// device's id, whatever the number of devices.
pub proof fn lemma_welcome_ends_connected(peers: Seq<RelayPeer>, client_id: u128)
    ensures
        welcome_events(peers, client_id).len() == peers.len() + 1,
        welcome_events(peers, client_id).last() == (RelayEvent::Connected { client_id }),
        forall|i: int|
            0 <= i < peers.len() ==> #[trigger] welcome_events(peers, client_id)[i] == (RelayEvent::Peer {
                peer: peers[i],
            }),
{
}

/// What the client does with a message from the backend.
pub enum ClientStep<S, P> {
    /// Emit these events, in order.
    Emit(Vec<RelayEvent>),
    /// A peer opened the session `session_id` to this device: create its
    /// pipe, register it and emit [`RelayEvent::Incoming`].
    Incoming { session_id: u128, peer: RelayPeer },
    /// The backend confirmed a session that this device asked for: report
    /// success through `P`, where the request is still waiting.
    Opened(Option<P>),
    /// A session ended: stop and close its pipe (`S`, where it was live) and
    /// report failure through `P`, where it was still waiting.
    Closed(Option<S>, Option<P>),
    /// The backend reported an error; nothing changes.
    BackendError(u16),
}

/// The state of a relay client.
pub struct RelayClient<S, P> {
    client_id: Option<u128>,
    sessions: Vec<(u128, S)>,
    opened: Vec<(u128, P)>,
}

impl<S, P> RelayClient<S, P> {
    /// The id that the backend assigned to this device, once it did.
    pub closed spec fn spec_client_id(&self) -> Option<u128> {
        self.client_id
    }

    /// The live sessions, keyed by session id.
    pub closed spec fn sessions(&self) -> Seq<(u128, S)> {
        self.sessions@
    }

    /// The sessions asked for and not confirmed yet, keyed by session id.
    pub closed spec fn opened(&self) -> Seq<(u128, P)> {
        self.opened@
    }

    /// No session is listed twice, and every session that waits for
    /// confirmation is a live session.
    pub open spec fn wf(&self) -> bool {
        &&& distinct_keys(self.sessions())
        &&& distinct_keys(self.opened())
        &&& forall|k: u128| has_key(self.opened(), k) ==> #[trigger] has_key(self.sessions(), k)
    }

    /// A client with no id yet and no session.
    pub fn new() -> (r: Self)
        ensures
            r.wf(),
            r.spec_client_id() is None,
            r.sessions() == Seq::<(u128, S)>::empty(),
            r.opened() == Seq::<(u128, P)>::empty(),
    {
        RelayClient { client_id: None, sessions: Vec::new(), opened: Vec::new() }
    }

    /// The ID the backend assigned to this device, once connected.
    pub fn client_id(&self) -> (r: Option<u128>)
        ensures
            r == self.spec_client_id(),
    {
        self.client_id
    }

    fn find_session(&self, session_id: u128) -> (r: Option<usize>)
        requires
            distinct_keys(self.sessions()),
        ensures
            match r {
                Some(i) => i < self.sessions().len() && self.sessions()[i as int].0 == session_id
                    && key_index(self.sessions(), session_id) == i && has_key(
                    self.sessions(),
                    session_id,
                ),
                None => !has_key(self.sessions(), session_id),
            },
    {
        let mut i: usize = 0;
        while i < self.sessions.len()
            invariant
                i <= self.sessions@.len(),
                distinct_keys(self.sessions@),
                forall|j: int| 0 <= j < i ==> #[trigger] self.sessions@[j].0 != session_id,
            decreases self.sessions@.len() - i,
        {
            if self.sessions[i].0 == session_id {
                proof {
                    lemma_to_map_at(self.sessions@, i as int);
                }
                return Some(i);
            }
            i = i + 1;
        }
        None
    }

    fn find_opened(&self, session_id: u128) -> (r: Option<usize>)
        requires
            distinct_keys(self.opened()),
        ensures
            match r {
                Some(i) => i < self.opened().len() && self.opened()[i as int].0 == session_id
                    && key_index(self.opened(), session_id) == i && has_key(
                    self.opened(),
                    session_id,
                ),
                None => !has_key(self.opened(), session_id),
            },
    {
        let mut i: usize = 0;
        while i < self.opened.len()
            invariant
                i <= self.opened@.len(),
                distinct_keys(self.opened@),
                forall|j: int| 0 <= j < i ==> #[trigger] self.opened@[j].0 != session_id,
            decreases self.opened@.len() - i,
        {
            if self.opened[i].0 == session_id {
                proof {
                    lemma_to_map_at(self.opened@, i as int);
                }
                return Some(i);
            }
            i = i + 1;
        }
        None
    }

    /// Removes `session_id` from the sessions that wait for confirmation.
    fn take_opened(&mut self, session_id: u128) -> (r: Option<P>)
        requires
            distinct_keys(old(self).opened()),
        ensures
            distinct_keys(final(self).opened()),
            r == lookup(old(self).opened(), session_id),
            to_map(final(self).opened()) == to_map(old(self).opened()).remove(session_id),
            !has_key(final(self).opened(), session_id),
            forall|k: u128| #[trigger] has_key(final(self).opened(), k) ==> has_key(old(self).opened(), k),
            final(self).sessions() == old(self).sessions(),
            final(self).spec_client_id() == old(self).spec_client_id(),
    {
        match self.find_opened(session_id) {
            None => {
                assert(to_map(self.opened@) =~= to_map(self.opened@).remove(session_id));
                None
            },
            Some(k) => {
                proof {
                    lemma_to_map_at(self.opened@, k as int);
                    lemma_to_map_remove(self.opened@, k as int);
                }
                let (_, p) = self.opened.remove(k);
                proof {
                    assert forall|key: u128| #[trigger] has_key(self.opened@, key) implies has_key(
                        old(self).opened@,
                        key,
                    ) && key != session_id by {
                        assert(to_map(self.opened@).dom().contains(key));
                    }
                }
                Some(p)
            },
        }
    }

    /// Removes `session_id` from the live sessions.
    fn take_session(&mut self, session_id: u128) -> (r: Option<S>)
        requires
            distinct_keys(old(self).sessions()),
        ensures
            distinct_keys(final(self).sessions()),
            r == lookup(old(self).sessions(), session_id),
            to_map(final(self).sessions()) == to_map(old(self).sessions()).remove(session_id),
            !has_key(final(self).sessions(), session_id),
            forall|k: u128| #[trigger] has_key(old(self).sessions(), k) && k != session_id ==> has_key(
                final(self).sessions(),
                k,
            ),
            final(self).opened() == old(self).opened(),
            final(self).spec_client_id() == old(self).spec_client_id(),
    {
        match self.find_session(session_id) {
            None => {
                assert(to_map(self.sessions@) =~= to_map(self.sessions@).remove(session_id));
                None
            },
            Some(k) => {
                proof {
                    lemma_to_map_at(self.sessions@, k as int);
                    lemma_to_map_remove(self.sessions@, k as int);
                }
                let (_, s) = self.sessions.remove(k);
                proof {
                    assert forall|key: u128| #[trigger] has_key(old(self).sessions@, key) && key
                        != session_id implies has_key(self.sessions@, key) by {
                        assert(to_map(old(self).sessions@).dom().contains(key));
                        assert(to_map(self.sessions@).dom().contains(key));
                    }
                    assert(!to_map(self.sessions@).dom().contains(session_id));
                }
                Some(s)
            },
        }
    }

    /// Registers the session `session_id` with the end `s` that feeds its
    /// pipe; an earlier registration of the same id is replaced and handed
    /// back.
    pub fn register_session(&mut self, session_id: u128, s: S) -> (r: Option<S>)
        requires
            old(self).wf(),
        ensures
            final(self).wf(),
            r == lookup(old(self).sessions(), session_id),
            to_map(final(self).sessions()) == to_map(old(self).sessions()).insert(session_id, s),
            final(self).opened() == old(self).opened(),
            final(self).spec_client_id() == old(self).spec_client_id(),
    {
        let ghost old_sessions = self.sessions@;
        match self.find_session(session_id) {
            Some(k) => {
                proof {
                    lemma_to_map_at(self.sessions@, k as int);
                    lemma_to_map_update(self.sessions@, k as int, s);
                }
                let (_, prev) = self.sessions.remove(k);
                self.sessions.insert(k, (session_id, s));
                assert(self.sessions@ =~= old_sessions.update(k as int, (session_id, s)));
                proof {
                    assert forall|key: u128| has_key(self.opened@, key) implies #[trigger] has_key(
                        self.sessions@,
                        key,
                    ) by {
                        assert(to_map(old_sessions).dom().contains(key));
                        assert(to_map(self.sessions@).dom().contains(key));
                    }
                }
                Some(prev)
            },
            None => {
                proof {
                    lemma_to_map_push(self.sessions@, session_id, s);
                }
                self.sessions.push((session_id, s));
                proof {
                    assert forall|key: u128| has_key(self.opened@, key) implies #[trigger] has_key(
                        self.sessions@,
                        key,
                    ) by {
                        assert(to_map(old_sessions).dom().contains(key));
                        assert(to_map(self.sessions@).dom().contains(key));
                    }
                }
                None
            },
        }
    }

    /// Opens the session `session_id` to the device `target_id`: registers
    /// it with the end `s` that feeds its pipe, records `p` to report the
    /// backend's answer, and returns the request to send.
    pub fn open_session(&mut self, session_id: u128, target_id: u128, s: S, p: P) -> (r:
        RelayClientMessage)
        requires
            old(self).wf(),
        ensures
            final(self).wf(),
            r == (RelayClientMessage::Open { session_id, target_id }),
            to_map(final(self).sessions()) == to_map(old(self).sessions()).insert(session_id, s),
            to_map(final(self).opened()) == to_map(old(self).opened()).insert(session_id, p),
            final(self).spec_client_id() == old(self).spec_client_id(),
    {
        let _ = self.register_session(session_id, s);
        let ghost mid_sessions = self.sessions@;
        let ghost mid_opened = self.opened@;
        match self.find_opened(session_id) {
            Some(k) => {
                proof {
                    lemma_to_map_update(self.opened@, k as int, p);
                }
                self.opened.remove(k);
                self.opened.insert(k, (session_id, p));
                assert(self.opened@ =~= mid_opened.update(k as int, (session_id, p)));
            },
            None => {
                proof {
                    lemma_to_map_push(self.opened@, session_id, p);
                }
                self.opened.push((session_id, p));
            },
        }
        proof {
            assert(to_map(mid_sessions).dom().contains(session_id));
            assert forall|key: u128| has_key(self.opened@, key) implies #[trigger] has_key(
                self.sessions@,
                key,
            ) by {
                assert(to_map(self.opened@).dom().contains(key));
                if key != session_id {
                    assert(to_map(mid_opened).dom().contains(key));
                }
                assert(to_map(self.sessions@).dom().contains(key));
            }
        }
        RelayClientMessage::Open { session_id, target_id }
    }

    /// Closes the session `session_id`: it is no longer live nor waiting;
    /// hands back its pipe end and its pending report, where there were any.
    pub fn close_session(&mut self, session_id: u128) -> (r: (Option<S>, Option<P>))
        requires
            old(self).wf(),
        ensures
            final(self).wf(),
            r.0 == lookup(old(self).sessions(), session_id),
            r.1 == lookup(old(self).opened(), session_id),
            to_map(final(self).sessions()) == to_map(old(self).sessions()).remove(session_id),
            to_map(final(self).opened()) == to_map(old(self).opened()).remove(session_id),
            final(self).spec_client_id() == old(self).spec_client_id(),
    {
        let s = self.take_session(session_id);
        let ghost mid = self.sessions@;
        let p = self.take_opened(session_id);
        assert forall|key: u128| has_key(self.opened@, key) implies #[trigger] has_key(
            self.sessions@,
            key,
        ) by {
            assert(has_key(old(self).opened@, key));
            assert(has_key(old(self).sessions@, key));
            assert(key != session_id);
            assert(has_key(mid, key));
        }
        (s, p)
    }

    /// What the client does with the message `msg` from the backend. A
    /// `Welcome` records this device's id and announces each device of the
    /// room, then the connection; `Opened` and `Closed` settle the session
    /// they name; the other messages change nothing.
    pub fn on_server_message(&mut self, msg: RelayServerMessage) -> (r: ClientStep<S, P>)
        requires
            old(self).wf(),
        ensures
            final(self).wf(),
            match msg {
                RelayServerMessage::Welcome { client_id, peers } => {
                    &&& final(self).spec_client_id() == Some(client_id)
                    &&& final(self).sessions() == old(self).sessions()
                    &&& final(self).opened() == old(self).opened()
                    &&& r matches ClientStep::Emit(events) && events@ == welcome_events(
                        peers@,
                        client_id,
                    )
                },
                RelayServerMessage::PeerJoined { peer } => {
                    &&& *final(self) == *old(self)
                    &&& r matches ClientStep::Emit(events) && events@ == seq![RelayEvent::Peer { peer }]
                },
                RelayServerMessage::PeerUpdate { peer } => {
                    &&& *final(self) == *old(self)
                    &&& r matches ClientStep::Emit(events) && events@ == seq![RelayEvent::PeerUpdate { peer }]
                },
                RelayServerMessage::PeerLeft { peer_id } => {
                    &&& *final(self) == *old(self)
                    &&& r matches ClientStep::Emit(events) && events@ == seq![RelayEvent::PeerLeft { peer_id }]
                },
                RelayServerMessage::Incoming { session_id, peer } => *final(self) == *old(self)
                    && r == (ClientStep::<S, P>::Incoming { session_id, peer }),
                RelayServerMessage::Opened { session_id } => {
                    &&& final(self).sessions() == old(self).sessions()
                    &&& to_map(final(self).opened()) == to_map(old(self).opened()).remove(
                        session_id,
                    )
                    &&& final(self).spec_client_id() == old(self).spec_client_id()
                    &&& r == ClientStep::<S, P>::Opened(lookup(old(self).opened(), session_id))
                },
                RelayServerMessage::Closed { session_id } => {
                    &&& to_map(final(self).sessions()) == to_map(old(self).sessions()).remove(
                        session_id,
                    )
                    &&& to_map(final(self).opened()) == to_map(old(self).opened()).remove(
                        session_id,
                    )
                    &&& final(self).spec_client_id() == old(self).spec_client_id()
                    &&& r == ClientStep::<S, P>::Closed(
                        lookup(old(self).sessions(), session_id),
                        lookup(old(self).opened(), session_id),
                    )
                },
                RelayServerMessage::Error { code } => *final(self) == *old(self) && r
                    == ClientStep::<S, P>::BackendError(code),
            },
    {
        match msg {
            RelayServerMessage::Welcome { client_id, peers } => {
                self.client_id = Some(client_id);
                let mut events: Vec<RelayEvent> = Vec::new();
                let mut i: usize = 0;
                while i < peers.len()
                    invariant
                        i <= peers@.len(),
                        events@ == Seq::new(
                            i as nat,
                            |j: int| RelayEvent::Peer { peer: peers@[j] },
                        ),
                    decreases peers@.len() - i,
                {
                    events.push(RelayEvent::Peer { peer: peers[i].duplicate() });
                    assert(events@ =~= Seq::new(
                        (i + 1) as nat,
                        |j: int| RelayEvent::Peer { peer: peers@[j] },
                    ));
                    i = i + 1;
                }
                events.push(RelayEvent::Connected { client_id });
                ClientStep::Emit(events)
            },
            RelayServerMessage::PeerJoined { peer } => ClientStep::Emit(
                vec![RelayEvent::Peer { peer }],
            ),
            RelayServerMessage::PeerUpdate { peer } => ClientStep::Emit(
                vec![RelayEvent::PeerUpdate { peer }],
            ),
            RelayServerMessage::PeerLeft { peer_id } => ClientStep::Emit(
                vec![RelayEvent::PeerLeft { peer_id }],
            ),
            RelayServerMessage::Incoming { session_id, peer } => ClientStep::Incoming {
                session_id,
                peer,
            },
            RelayServerMessage::Opened { session_id } => {
                let p = self.take_opened(session_id);
                proof {
                    assert forall|key: u128| has_key(self.opened@, key) implies #[trigger] has_key(
                        self.sessions@,
                        key,
                    ) by {
                        assert(has_key(old(self).opened@, key));
                    }
                }
                ClientStep::Opened(p)
            },
            RelayServerMessage::Closed { session_id } => {
                let (s, p) = self.close_session(session_id);
                ClientStep::Closed(s, p)
            },
            RelayServerMessage::Error { code } => ClientStep::BackendError(code),
        }
    }

    /// The live session that a binary frame from the backend is for, with
    /// the frame's payload; `None` where the frame is malformed or names no
    /// live session.
    pub fn session_for_frame<'a>(&'a self, frame: &'a [u8]) -> (r: Option<(&'a S, &'a [u8])>)
        requires
            self.wf(),
        ensures
            match spec_decode_data(frame@) {
                Some((session_id, payload)) => if has_key(self.sessions(), session_id) {
                    r matches Some((s, p)) && *s == to_map(self.sessions())[session_id] && p@
                        == payload
                } else {
                    r is None
                },
                None => r is None,
            },
    {
        match decode_data(frame) {
            None => None,
            Some((session_id, payload)) => match self.find_session(session_id) {
                None => None,
                Some(k) => {
                    proof {
                        lemma_to_map_at(self.sessions@, k as int);
                    }
                    Some((&self.sessions[k].1, payload))
                },
            },
        }
    }

    /// The connection is gone: every live session ends. Hands back each
    /// session, in table order, with its pipe end and its pending report,
    /// and the event to emit once they are ended, that the connection is
    /// lost; afterwards no session is live or waiting.
    pub fn disconnect(&mut self) -> (r: (Vec<(u128, S, Option<P>)>, RelayEvent))
        requires
            old(self).wf(),
        ensures
            final(self).wf(),
            final(self).sessions() == Seq::<(u128, S)>::empty(),
            final(self).opened() == Seq::<(u128, P)>::empty(),
            final(self).spec_client_id() == old(self).spec_client_id(),
            r.1 == (RelayEvent::Disconnected { error: None }),
            r.0@.len() == old(self).sessions().len(),
            forall|i: int|
                0 <= i < r.0@.len() ==> (#[trigger] r.0@[i]).0 == old(self).sessions()[i].0 && r.0@[i].1
                    == old(self).sessions()[i].1 && r.0@[i].2 == lookup(
                    old(self).opened(),
                    old(self).sessions()[i].0,
                ),
    {
        let ghost old_sessions = self.sessions@;
        let ghost old_opened = self.opened@;
        let mut out: Vec<(u128, S, Option<P>)> = Vec::new();
        let mut i: usize = 0;
        assert(old_sessions.len() == self.sessions.len());
        while self.sessions.len() > 0
            invariant
                i <= old_sessions.len(),
                old_sessions.len() <= usize::MAX,
                forall|j: int| 0 <= j < i ==> !has_key(self.opened@, #[trigger] old_sessions[j].0),
                self.sessions@ == old_sessions.skip(i as int),
                distinct_keys(old_sessions),
                distinct_keys(self.opened@),
                forall|k: u128| #[trigger] has_key(self.opened@, k) ==> has_key(old_opened, k),
                forall|k: u128| has_key(old_opened, k) ==> #[trigger] has_key(old_sessions, k),
                forall|k: u128|
                    #[trigger] has_key(old_opened, k) && !has_key(self.opened@, k) ==> exists|j: int|
                        0 <= j < i && old_sessions[j].0 == k,
                forall|k: u128| #[trigger] has_key(self.opened@, k) ==> to_map(self.opened@)[k]
                    == to_map(old_opened)[k],
                forall|j: int| i <= j < old_sessions.len() ==> has_key(old_opened, #[trigger] old_sessions[j].0)
                    ==> has_key(self.opened@, old_sessions[j].0),
                out@.len() == i,
                forall|j: int|
                    0 <= j < i ==> (#[trigger] out@[j]).0 == old_sessions[j].0 && out@[j].1
                        == old_sessions[j].1 && out@[j].2 == lookup(old_opened, old_sessions[j].0),
                self.client_id == old(self).client_id,
            decreases self.sessions@.len(),
        {
            let ghost before = self.opened@;
            let (session_id, s) = self.sessions.remove(0);
            assert(session_id == old_sessions[i as int].0);
            let p = self.take_opened(session_id);
            proof {
                if has_key(old_opened, session_id) {
                    assert(has_key(before, session_id));
                    assert(to_map(before)[session_id] == to_map(old_opened)[session_id]);
                } else {
                    assert(!has_key(before, session_id));
                }
                assert forall|k: u128| #[trigger] has_key(self.opened@, k) implies to_map(
                    self.opened@,
                )[k] == to_map(old_opened)[k] by {
                    assert(to_map(self.opened@).dom().contains(k));
                    assert(has_key(before, k));
                }
                assert forall|j: int| 0 <= j < i + 1 implies !has_key(
                    self.opened@,
                    #[trigger] old_sessions[j].0,
                ) by {
                    if j < i {
                        assert(!has_key(before, old_sessions[j].0));
                    }
                }
                assert forall|j: int| i + 1 <= j < old_sessions.len() && has_key(
                    old_opened,
                    #[trigger] old_sessions[j].0,
                ) implies has_key(self.opened@, old_sessions[j].0) by {
                    {
                        assert(old_sessions[j].0 != old_sessions[i as int].0);
                        assert(has_key(before, old_sessions[j].0));
                        assert(to_map(before).dom().contains(old_sessions[j].0));
                        assert(to_map(self.opened@).dom().contains(old_sessions[j].0));
                    }
                }
                assert forall|k: u128| #[trigger] has_key(old_opened, k) && !has_key(
                    self.opened@,
                    k,
                ) implies exists|j: int| 0 <= j < i + 1 && old_sessions[j].0 == k by {
                    if has_key(before, k) {
                        assert(to_map(before).dom().contains(k));
                        if k != session_id {
                            assert(to_map(self.opened@).dom().contains(k));
                        }
                    }
                }
                assert(self.sessions@ =~= old_sessions.skip(i + 1));
            }
            out.push((session_id, s, p));
            i = i + 1;
        }
        proof {
            assert(i == old_sessions.len());
            if self.opened@.len() > 0 {
                let k = self.opened@[0].0;
                assert(has_key(self.opened@, k));
                assert(has_key(old_opened, k));
                assert(has_key(old_sessions, k));
                let j = key_index(old_sessions, k);
                assert(old_sessions[j].0 == k);
                assert(!has_key(self.opened@, old_sessions[j].0));
                assert(false);
            }
            assert(self.opened@ =~= Seq::<(u128, P)>::empty());
        }
        (out, RelayEvent::Disconnected { error: None })
    }
}


/// What happened while a session's outbound bytes are being sent to the
/// backend: a read of the session's pipe that gave `n` bytes (none at its
/// end), a read that failed, the session was cancelled, or handing bytes to
/// the backend connection failed.
#[derive(Debug, Clone, Copy, PartialEq, Eq, Structural)]
pub enum DrainEvent {
    Read(usize),
    ReadFailed,
    Cancelled,
    SendFailed,
}

/// What the sender of a session's outbound bytes does next: send the bytes
/// just read, as one binary frame, and read again; or send this last
/// message and stop.
#[derive(Debug)]
pub enum DrainAction {
    SendData,
    Finish(RelayClientMessage),
}

/// `event` is a read that gave bytes.
pub open spec fn gives_bytes(event: DrainEvent) -> bool {
    match event {
        DrainEvent::Read(n) => n > 0,
        _ => false,
    }
}

/// The step of the sender after `event`, for the session `session_id`.
pub open spec fn drain_action(session_id: u128, event: DrainEvent) -> DrainAction {
    if gives_bytes(event) {
        DrainAction::SendData
    } else {
        DrainAction::Finish(RelayClientMessage::Close { session_id })
    }
}

/// Decides the next step of the sender of the session `session_id`: bytes
/// read are sent on; the end of the data, a failed read, cancellation or a
/// failed send ends the session, with `Close` as its last message.
pub fn drain_step(session_id: u128, event: DrainEvent) -> (a: DrainAction)
    ensures
        a == drain_action(session_id, event),
        gives_bytes(event) ==> a is SendData,
        !gives_bytes(event) ==> a == DrainAction::Finish(
            RelayClientMessage::Close { session_id },
        ),
        forall|n: usize| event == DrainEvent::Read(n) ==> ((a is SendData) <==> n > 0),
{
    match event {
        DrainEvent::Read(n) => if n > 0 {
            DrainAction::SendData
        } else {
            DrainAction::Finish(RelayClientMessage::Close { session_id })
        },
        _ => DrainAction::Finish(RelayClientMessage::Close { session_id }),
    }
}

/// Every read that gave bytes, however many (a whole chunk too), is sent
/// on; the end of the data, a failed read, cancellation and a failed send
/// each end the session with its `Close`.
pub proof fn lemma_drain_sends_every_read(session_id: u128, n: usize)
    ensures
        (drain_action(session_id, DrainEvent::Read(n)) is SendData) == (n > 0),
        n == 0 ==> drain_action(session_id, DrainEvent::Read(n)) == DrainAction::Finish(
            RelayClientMessage::Close { session_id },
        ),
        drain_action(session_id, DrainEvent::ReadFailed) == DrainAction::Finish(
            RelayClientMessage::Close { session_id },
        ),
        drain_action(session_id, DrainEvent::Cancelled) == DrainAction::Finish(
            RelayClientMessage::Close { session_id },
        ),
        drain_action(session_id, DrainEvent::SendFailed) == DrainAction::Finish(
            RelayClientMessage::Close { session_id },
        ),
{
}

/// The actions of a sender that meets `events` in turn and stops at its
/// first `Finish`.
pub open spec fn drain_actions(session_id: u128, events: Seq<DrainEvent>) -> Seq<DrainAction>
    decreases events.len(),
{
    if events.len() == 0 {
        Seq::empty()
    } else {
        let a = drain_action(session_id, events[0]);
        if a is Finish {
            seq![a]
        } else {
            seq![a] + drain_actions(session_id, events.skip(1))
        }
    }
}

/// A session's sender sends one frame for each read that gave bytes, in the
/// order of the reads, and at most one other message: `Close` of its
/// session, which comes last; it comes exactly where one of the events was
/// not a read that gave bytes.
pub proof fn lemma_drain_closes_last(session_id: u128, events: Seq<DrainEvent>)
    ensures
        ({
            let acts = drain_actions(session_id, events);
            &&& forall|i: int| 0 <= i < acts.len() - 1 ==> #[trigger] acts[i] is SendData
            &&& forall|i: int| 0 <= i < acts.len() - 1 ==> gives_bytes(#[trigger] events[i])
            &&& acts.len() > 0 && acts.last() is Finish ==> acts.last() == DrainAction::Finish(
                RelayClientMessage::Close { session_id },
            )
            &&& (exists|j: int| 0 <= j < events.len() && !gives_bytes(#[trigger] events[j]))
                <==> acts.len() > 0 && acts.last() is Finish
            &&& acts.len() <= events.len()
        }),
    decreases events.len(),
{
    if events.len() > 0 {
        let rest = events.skip(1);
        lemma_drain_closes_last(session_id, rest);
        let acts = drain_actions(session_id, events);
        if !gives_bytes(events[0]) {
            assert(acts =~= seq![drain_action(session_id, events[0])]);
        } else {
            let tail = drain_actions(session_id, rest);
            assert(acts =~= seq![DrainAction::SendData] + tail);
            assert forall|i: int| 0 <= i < acts.len() - 1 implies gives_bytes(#[trigger] events[i]) by {
                if i > 0 {
                    assert(events[i] == rest[i - 1]);
                }
            }
            if exists|j: int| 0 <= j < events.len() && !gives_bytes(#[trigger] events[j]) {
                let j = choose|j: int| 0 <= j < events.len() && !gives_bytes(#[trigger] events[j]);
                assert(j > 0);
                assert(rest[j - 1] == events[j]);
            }
            if tail.len() > 0 && tail.last() is Finish {
                let j = choose|j: int| 0 <= j < rest.len() && !gives_bytes(#[trigger] rest[j]);
                assert(events[j + 1] == rest[j]);
            }
        }
    }
}

} // verus!
