//! The relay backend's state: the devices connected to each room and the
//! live sessions between them.

use vstd::prelude::*;
use crate::assoc::{distinct_keys, has_key, key_index, to_map, lemma_to_map_at,
    lemma_to_map_push, lemma_to_map_update, lemma_to_map_remove};
use crate::messages::{RelayDeviceInfo, RelayPeer};

verus! {

/// A device connected to the relay backend, in a room.
#[derive(Debug)]
pub struct RelayClient {
    pub room: String,
    pub client_id: u128,
    pub info: RelayDeviceInfo,
}

/// A live relay session: a bidirectional pipe between two devices in a room.
#[derive(Debug, Clone, Copy, PartialEq, Eq, Structural)]
pub struct RelaySession {
    pub a_id: u128,
    pub b_id: u128,
}

/// The relay backend state: the per-room device directory and the live
/// sessions that the backend pipes bytes through.
pub struct RelayStore {
    clients: Vec<RelayClient>,
    sessions: Vec<(u128, RelaySession)>,
}

/// The result of an `Open` request between two devices of a room.
#[derive(Debug)]
pub enum SessionOutcome {
    /// The session is recorded: `peer` (the initiator) is announced to the
    /// target and the initiator is told that the session is open.
    Opened { peer: RelayPeer, target_id: u128, initiator_id: u128 },
    /// The target is not in the room: the initiator is told that the session
    /// is closed.
    Unreachable { initiator_id: u128 },
}

/// Two entries stand for the same device in the same room.
pub open spec fn same_member(a: RelayClient, b: RelayClient) -> bool {
    a.room@ == b.room@ && a.client_id == b.client_id
}

/// No device is listed twice in one room.
pub open spec fn clients_distinct(cs: Seq<RelayClient>) -> bool {
    forall|i: int, j: int|
        0 <= i < cs.len() && 0 <= j < cs.len() && i != j ==> !same_member(
            #[trigger] cs[i],
            #[trigger] cs[j],
        )
}

/// The device `id` is in the room `room`.
pub open spec fn is_member(cs: Seq<RelayClient>, room: Seq<char>, id: u128) -> bool {
    exists|i: int| 0 <= i < cs.len() && #[trigger] cs[i].room@ == room && cs[i].client_id == id
}

/// The position of the device `id` of the room `room` in the directory.
pub open spec fn member_index(cs: Seq<RelayClient>, room: Seq<char>, id: u128) -> int {
    choose|i: int| 0 <= i < cs.len() && #[trigger] cs[i].room@ == room && cs[i].client_id == id
}

/// A directory entry as a peer.
pub open spec fn peer_of(c: RelayClient) -> RelayPeer {
    RelayPeer { client_id: c.client_id, info: c.info }
}

/// The devices of the room `room`, in directory order.
pub open spec fn room_peers(cs: Seq<RelayClient>, room: Seq<char>) -> Seq<RelayPeer> {
    cs.filter_map(|c: RelayClient| if c.room@ == room { Some(peer_of(c)) } else { None })
}

/// The ids of the devices of the room `room`, in directory order.
pub open spec fn room_ids(cs: Seq<RelayClient>, room: Seq<char>) -> Seq<u128> {
    cs.filter_map(|c: RelayClient| if c.room@ == room { Some(c.client_id) } else { None })
}

/// The ids of the devices of the room `room` other than `id`.
pub open spec fn other_ids(cs: Seq<RelayClient>, room: Seq<char>, id: u128) -> Seq<u128> {
    cs.filter_map(
        |c: RelayClient|
            if c.room@ == room && c.client_id != id {
                Some(c.client_id)
            } else {
                None
            },
    )
}

/// The directory without the device `id` of the room `room`.
pub open spec fn without_member(cs: Seq<RelayClient>, room: Seq<char>, id: u128) -> Seq<
    RelayClient,
> {
    cs.filter(keeps_member(room, id))
}

/// Whether an entry is not the device `id` of the room `room`.
pub open spec fn keeps_member(room: Seq<char>, id: u128) -> spec_fn(RelayClient) -> bool {
    |c: RelayClient| !(c.room@ == room && c.client_id == id)
}

/// The directory after the device `client_id` joins `room`: its entry is
/// replaced in place where it was there already, appended otherwise.
pub open spec fn joined(cs: Seq<RelayClient>, room: String, client_id: u128, info: RelayDeviceInfo) -> Seq<
    RelayClient,
> {
    if is_member(cs, room@, client_id) {
        cs.update(member_index(cs, room@, client_id), RelayClient { room, client_id, info })
    } else {
        cs.push(RelayClient { room, client_id, info })
    }
}

/// Dropping the last entry keeps the directory free of repeated devices.
proof fn lemma_distinct_drop_last(cs: Seq<RelayClient>)
    requires
        clients_distinct(cs),
        cs.len() > 0,
    ensures
        clients_distinct(cs.drop_last()),
        !is_member(cs.drop_last(), cs.last().room@, cs.last().client_id),
{
    let t = cs.drop_last();
    assert forall|i: int, j: int|
        0 <= i < t.len() && 0 <= j < t.len() && i != j implies !same_member(
        #[trigger] t[i],
        #[trigger] t[j],
    ) by {
        assert(t[i] == cs[i] && t[j] == cs[j]);
    }
    if is_member(t, cs.last().room@, cs.last().client_id) {
        let i = choose|i: int|
            0 <= i < t.len() && #[trigger] t[i].room@ == cs.last().room@ && t[i].client_id
                == cs.last().client_id;
        assert(same_member(cs[i], cs[cs.len() - 1]));
    }
}

/// The device `x` is in `room` exactly where it is in the directory without
/// its last entry, or it is that last entry.
proof fn lemma_member_drop_last(cs: Seq<RelayClient>, room: Seq<char>, x: u128)
    requires
        cs.len() > 0,
    ensures
        is_member(cs, room, x) <==> (is_member(cs.drop_last(), room, x) || (cs.last().room@ == room
            && cs.last().client_id == x)),
{
    let t = cs.drop_last();
    if is_member(cs, room, x) {
        let i = choose|i: int| 0 <= i < cs.len() && #[trigger] cs[i].room@ == room && cs[i].client_id == x;
        if i < t.len() {
            assert(t[i] == cs[i]);
        }
    }
    if is_member(t, room, x) {
        let i = choose|i: int| 0 <= i < t.len() && #[trigger] t[i].room@ == room && t[i].client_id == x;
        assert(cs[i] == t[i]);
    }
    if cs.last().room@ == room && cs.last().client_id == x {
        assert(cs[cs.len() - 1].room@ == room);
    }
}

/// What a sequence with `y` appended contains.
proof fn lemma_push_contains(r: Seq<u128>, y: u128, x: u128)
    ensures
        r.push(y).contains(x) <==> (r.contains(x) || x == y),
{
    if r.push(y).contains(x) {
        let k = choose|k: int| 0 <= k < r.len() + 1 && r.push(y)[k] == x;
        if k < r.len() {
            assert(r[k] == x);
        }
    }
    if r.contains(x) {
        let k = choose|k: int| 0 <= k < r.len() && r[k] == x;
        assert(r.push(y)[k] == x);
    }
    if x == y {
        assert(r.push(y)[r.len() as int] == y);
    }
}

/// The ids of a room are its devices, each once: `x` is listed exactly
/// where the device `x` is in the room, and no id is listed twice.
pub proof fn lemma_room_ids_are_members(cs: Seq<RelayClient>, room: Seq<char>)
    requires
        clients_distinct(cs),
    ensures
        forall|x: u128| #[trigger] room_ids(cs, room).contains(x) <==> is_member(cs, room, x),
        room_ids(cs, room).no_duplicates(),
    decreases cs.len(),
{
    if cs.len() > 0 {
        let t = cs.drop_last();
        let c = cs.last();
        lemma_distinct_drop_last(cs);
        lemma_room_ids_are_members(t, room);
        assert forall|x: u128| #[trigger] room_ids(cs, room).contains(x) <==> is_member(cs, room, x) by {
            lemma_member_drop_last(cs, room, x);
            if c.room@ == room {
                assert(room_ids(cs, room) =~= room_ids(t, room).push(c.client_id));
                lemma_push_contains(room_ids(t, room), c.client_id, x);
            } else {
                assert(room_ids(cs, room) =~= room_ids(t, room));
            }
        }
        if c.room@ == room {
            let r = room_ids(t, room);
            assert(room_ids(cs, room) =~= r.push(c.client_id));
            assert(!r.contains(c.client_id));
            assert forall|i: int, j: int|
                0 <= i < r.len() + 1 && 0 <= j < r.len() + 1 && i != j implies #[trigger] r.push(
                c.client_id,
            )[i] != #[trigger] r.push(c.client_id)[j] by {
                if i < r.len() && j < r.len() {
                } else if i < r.len() {
                    assert(r.contains(r[i]));
                } else {
                    assert(r.contains(r[j]));
                }
            }
        } else {
            assert(room_ids(cs, room) =~= room_ids(t, room));
        }
    }
}

/// The devices told of an update of `id` in `room` are the other devices of
/// that room, each once: `x` is listed exactly where the device `x` is in
/// `room` and is not `id`, and no id is listed twice.
pub proof fn lemma_other_ids_are_room_members(cs: Seq<RelayClient>, room: Seq<char>, id: u128)
    requires
        clients_distinct(cs),
    ensures
        forall|x: u128| #[trigger] other_ids(cs, room, id).contains(x) <==> (is_member(cs, room, x)
            && x != id),
        other_ids(cs, room, id).no_duplicates(),
    decreases cs.len(),
{
    if cs.len() > 0 {
        let t = cs.drop_last();
        let c = cs.last();
        lemma_distinct_drop_last(cs);
        lemma_other_ids_are_room_members(t, room, id);
        let keep = c.room@ == room && c.client_id != id;
        assert forall|x: u128| #[trigger] other_ids(cs, room, id).contains(x) <==> (is_member(
            cs,
            room,
            x,
        ) && x != id) by {
            lemma_member_drop_last(cs, room, x);
            if keep {
                assert(other_ids(cs, room, id) =~= other_ids(t, room, id).push(c.client_id));
                lemma_push_contains(other_ids(t, room, id), c.client_id, x);
            } else {
                assert(other_ids(cs, room, id) =~= other_ids(t, room, id));
            }
        }
        if keep {
            let r = other_ids(t, room, id);
            assert(other_ids(cs, room, id) =~= r.push(c.client_id));
            assert(!r.contains(c.client_id));
            assert forall|i: int, j: int|
                0 <= i < r.len() + 1 && 0 <= j < r.len() + 1 && i != j implies #[trigger] r.push(
                c.client_id,
            )[i] != #[trigger] r.push(c.client_id)[j] by {
                if i < r.len() && j < r.len() {
                } else if i < r.len() {
                    assert(r.contains(r[i]));
                } else {
                    assert(r.contains(r[j]));
                }
            }
        } else {
            assert(other_ids(cs, room, id) =~= other_ids(t, room, id));
        }
    }
}

/// The peers of a room are its devices as the directory lists them, in
/// order: peer `i` has the `i`-th id of the room, and is a directory entry
/// of the room, with that entry's information.
pub proof fn lemma_room_peers_are_entries(cs: Seq<RelayClient>, room: Seq<char>)
    ensures
        room_peers(cs, room).len() == room_ids(cs, room).len(),
        forall|i: int|
            0 <= i < room_peers(cs, room).len() ==> (#[trigger] room_peers(cs, room)[i]).client_id
                == room_ids(cs, room)[i] && exists|j: int|
                0 <= j < cs.len() && cs[j].room@ == room && #[trigger] peer_of(cs[j]) == room_peers(
                    cs,
                    room,
                )[i],
    decreases cs.len(),
{
    if cs.len() > 0 {
        let t = cs.drop_last();
        let c = cs.last();
        lemma_room_peers_are_entries(t, room);
        let p = room_peers(cs, room);
        if c.room@ == room {
            assert(p =~= room_peers(t, room).push(peer_of(c)));
            assert(room_ids(cs, room) =~= room_ids(t, room).push(c.client_id));
        } else {
            assert(p =~= room_peers(t, room));
            assert(room_ids(cs, room) =~= room_ids(t, room));
        }
        assert forall|i: int| 0 <= i < p.len() implies (#[trigger] p[i]).client_id == room_ids(cs, room)[i]
            && exists|j: int| 0 <= j < cs.len() && cs[j].room@ == room && #[trigger] peer_of(cs[j])
            == p[i] by {
            if i < room_peers(t, room).len() {
                let j = choose|j: int|
                    0 <= j < t.len() && t[j].room@ == room && #[trigger] peer_of(t[j]) == room_peers(
                        t,
                        room,
                    )[i];
                assert(cs[j] == t[j]);
            } else {
                assert(peer_of(cs[cs.len() - 1]) == p[i]);
            }
        }
    }
}

/// Replacing an entry by one of the same room keeps the room's size.
pub proof fn lemma_room_ids_update_len(cs: Seq<RelayClient>, k: int, c: RelayClient, room: Seq<char>)
    requires
        0 <= k < cs.len(),
        (cs[k].room@ == room) == (c.room@ == room),
    ensures
        room_ids(cs.update(k, c), room).len() == room_ids(cs, room).len(),
    decreases cs.len(),
{
    let t = cs.update(k, c);
    if k == cs.len() - 1 {
        assert(t.drop_last() =~= cs.drop_last());
    } else {
        lemma_room_ids_update_len(cs.drop_last(), k, c, room);
        assert(t.drop_last() =~= cs.drop_last().update(k, c));
        assert(t.last() == cs.last());
    }
}

/// No room holds more than `max_connections` devices.
pub open spec fn rooms_within(cs: Seq<RelayClient>, max_connections: nat) -> bool {
    forall|r: Seq<char>| #[trigger] room_ids(cs, r).len() <= max_connections
}

/// Appending an entry grows its own room by one and no other room.
pub proof fn lemma_room_ids_push_len(cs: Seq<RelayClient>, c: RelayClient, r: Seq<char>)
    ensures
        room_ids(cs.push(c), r).len() == room_ids(cs, r).len() + if c.room@ == r {
            1nat
        } else {
            0nat
        },
{
    assert(cs.push(c).drop_last() =~= cs);
}

/// Dropping entries never grows a room.
pub proof fn lemma_room_ids_filter_len(cs: Seq<RelayClient>, p: spec_fn(RelayClient) -> bool, r: Seq<char>)
    ensures
        room_ids(cs.filter(p), r).len() <= room_ids(cs, r).len(),
    decreases cs.len(),
{
    reveal(Seq::filter);
    if cs.len() > 0 {
        let t = cs.drop_last();
        lemma_room_ids_filter_len(t, p, r);
        if p(cs.last()) {
            lemma_room_ids_push_len(t.filter(p), cs.last(), r);
        }
    }
}

/// Joining a room adds at most one device to it.
pub proof fn lemma_joined_room_size(cs: Seq<RelayClient>, room: String, client_id: u128, info: RelayDeviceInfo)
    ensures
        room_ids(joined(cs, room, client_id, info), room@).len() <= room_ids(cs, room@).len() + 1,
        is_member(joined(cs, room, client_id, info), room@, client_id),
{
    let c = RelayClient { room, client_id, info };
    if is_member(cs, room@, client_id) {
        let k = member_index(cs, room@, client_id);
        lemma_room_ids_update_len(cs, k, c, room@);
        assert(joined(cs, room, client_id, info)[k] == c);
        assert(joined(cs, room, client_id, info)[k].room@ == room@);
    } else {
        let t = cs.push(c);
        assert(t.drop_last() =~= cs);
        assert(t[cs.len() as int] == c);
        assert(t[cs.len() as int].room@ == room@);
    }
}

/// Joining a room changes the size of no other room.
pub proof fn lemma_joined_other_room(
    cs: Seq<RelayClient>,
    room: String,
    client_id: u128,
    info: RelayDeviceInfo,
    r: Seq<char>,
)
    requires
        r != room@,
    ensures
        room_ids(joined(cs, room, client_id, info), r).len() == room_ids(cs, r).len(),
{
    let c = RelayClient { room, client_id, info };
    if is_member(cs, room@, client_id) {
        let k = member_index(cs, room@, client_id);
        lemma_room_ids_update_len(cs, k, c, r);
    } else {
        lemma_room_ids_push_len(cs, c, r);
    }
}

/// A device that leaves a room keeps every room within its limit.
pub proof fn lemma_leave_keeps_rooms_within(cs: Seq<RelayClient>, room: Seq<char>, client_id: u128, max_connections: nat)
    requires
        rooms_within(cs, max_connections),
    ensures
        rooms_within(without_member(cs, room, client_id), max_connections),
{
    assert forall|r: Seq<char>| #[trigger] room_ids(without_member(cs, room, client_id), r).len()
        <= max_connections by {
        lemma_room_ids_filter_len(cs, keeps_member(room, client_id), r);
        assert(room_ids(cs, r).len() <= max_connections);
    }
}

/// A device that updates its information keeps every room within its limit.
pub proof fn lemma_update_keeps_rooms_within(
    cs: Seq<RelayClient>,
    k: int,
    client_id: u128,
    info: RelayDeviceInfo,
    max_connections: nat,
)
    requires
        0 <= k < cs.len(),
        rooms_within(cs, max_connections),
    ensures
        rooms_within(
            cs.update(k, RelayClient { room: cs[k].room, client_id, info }),
            max_connections,
        ),
{
    let c = RelayClient { room: cs[k].room, client_id, info };
    assert forall|r: Seq<char>| #[trigger] room_ids(cs.update(k, c), r).len() <= max_connections by {
        lemma_room_ids_update_len(cs, k, c, r);
        assert(room_ids(cs, r).len() <= max_connections);
    }
}

/// The session `s` has the device `id` at one of its ends.
pub open spec fn involves(s: RelaySession, id: u128) -> bool {
    s.a_id == id || s.b_id == id
}

/// The end of `s` that is not `id` (its `b` end where `id` is its `a` end).
pub open spec fn other_end(s: RelaySession, id: u128) -> u128 {
    if s.a_id == id {
        s.b_id
    } else {
        s.a_id
    }
}

/// The device to which `source` sends the bytes of the session
/// `session_id`: the other end, where `source` is one of its ends.
pub open spec fn route_target(ss: Seq<(u128, RelaySession)>, session_id: u128, source: u128) -> Option<u128> {
    if has_key(ss, session_id) {
        let s = to_map(ss)[session_id];
        if s.a_id == source {
            Some(s.b_id)
        } else if s.b_id == source {
            Some(s.a_id)
        } else {
            None
        }
    } else {
        None
    }
}

/// The sessions that do not involve `id`, in table order.
pub open spec fn kept_sessions(ss: Seq<(u128, RelaySession)>, id: u128) -> Seq<(u128, RelaySession)> {
    ss.filter(|e: (u128, RelaySession)| !involves(e.1, id))
}

/// The sessions that involve `id`, each with its other end, in table order.
pub open spec fn closed_sessions(ss: Seq<(u128, RelaySession)>, id: u128) -> Seq<(u128, u128)> {
    ss.filter_map(
        |e: (u128, RelaySession)|
            if involves(e.1, id) {
                Some((e.0, other_end(e.1, id)))
            } else {
                None
            },
    )
}

/// The session table after `session_id` is set to `s`: replaced in place, or
/// appended.
pub open spec fn sessions_with(ss: Seq<(u128, RelaySession)>, session_id: u128, s: RelaySession) -> Seq<(u128, RelaySession)> {
    if has_key(ss, session_id) {
        ss.update(key_index(ss, session_id), (session_id, s))
    } else {
        ss.push((session_id, s))
    }
}

/// The session table without `session_id`.
pub open spec fn sessions_without(ss: Seq<(u128, RelaySession)>, session_id: u128) -> Seq<(u128, RelaySession)> {
    if has_key(ss, session_id) {
        ss.remove(key_index(ss, session_id))
    } else {
        ss
    }
}

/// Unfolds `filter_map` over the first `i + 1` elements of `s`.
proof fn lemma_filter_map_step<A, B>(s: Seq<A>, f: spec_fn(A) -> Option<B>, i: int)
    requires
        0 <= i < s.len(),
    ensures
        s.take(i + 1).filter_map(f) == match f(s[i]) {
            Some(b) => s.take(i).filter_map(f).push(b),
            None => s.take(i).filter_map(f),
        },
{
    assert(s.take(i + 1).drop_last() =~= s.take(i));
    assert(s.take(i + 1).last() == s[i]);
    match f(s[i]) {
        Some(b) => {
            assert(s.take(i).filter_map(f) + seq![b] =~= s.take(i).filter_map(f).push(b));
        },
        None => {},
    }
}

proof fn lemma_take_full<A>(s: Seq<A>)
    ensures
        s.take(s.len() as int) == s,
{
    assert(s.take(s.len() as int) =~= s);
}

proof fn lemma_filter_step<A>(s: Seq<A>, p: spec_fn(A) -> bool, i: int)
    requires
        0 <= i < s.len(),
    ensures
        s.take(i + 1).filter(p) == if p(s[i]) {
            s.take(i).filter(p).push(s[i])
        } else {
            s.take(i).filter(p)
        },
{
    assert(s.take(i + 1) =~= s.take(i).push(s[i]));
    s.take(i).lemma_filter_push(s[i], p);
}

/// Dropping pairs keeps the keys distinct.
pub proof fn lemma_filter_distinct_keys<K, V>(s: Seq<(K, V)>, p: spec_fn((K, V)) -> bool)
    requires
        distinct_keys(s),
    ensures
        distinct_keys(s.filter(p)),
    decreases s.len(),
{
    reveal(Seq::filter);
    if s.len() > 0 {
        let t = s.drop_last();
        assert forall|a: int, b: int|
            0 <= a < t.len() && 0 <= b < t.len() && a != b implies #[trigger] t[a].0
            != #[trigger] t[b].0 by {
            assert(t[a] == s[a] && t[b] == s[b]);
        }
        lemma_filter_distinct_keys(t, p);
        let ft = t.filter(p);
        if p(s.last()) {
            let r = ft.push(s.last());
            assert forall|a: int, b: int|
                0 <= a < r.len() && 0 <= b < r.len() && a != b implies #[trigger] r[a].0
                != #[trigger] r[b].0 by {
                if a < ft.len() && b < ft.len() {
                    assert(r[a] == ft[a] && r[b] == ft[b]);
                } else {
                    let c = if a < ft.len() { a } else { b };
                    assert(r[c] == ft[c]);
                    assert(ft.contains(ft[c]));
                    t.lemma_filter_contains_rev(p, ft[c]);
                    let j = choose|j: int| 0 <= j < t.len() && t[j] == ft[c];
                    assert(s[j] == t[j]);
                    assert(s[j].0 != s[s.len() - 1].0);
                }
            }
        }
    }
}

/// Dropping directory entries keeps them distinct.
pub proof fn lemma_filter_clients_distinct(s: Seq<RelayClient>, p: spec_fn(RelayClient) -> bool)
    requires
        clients_distinct(s),
    ensures
        clients_distinct(s.filter(p)),
    decreases s.len(),
{
    reveal(Seq::filter);
    if s.len() > 0 {
        let t = s.drop_last();
        assert forall|a: int, b: int|
            0 <= a < t.len() && 0 <= b < t.len() && a != b implies !same_member(
            #[trigger] t[a],
            #[trigger] t[b],
        ) by {
            assert(t[a] == s[a] && t[b] == s[b]);
        }
        lemma_filter_clients_distinct(t, p);
        let ft = t.filter(p);
        if p(s.last()) {
            let r = ft.push(s.last());
            assert forall|a: int, b: int|
                0 <= a < r.len() && 0 <= b < r.len() && a != b implies !same_member(
                #[trigger] r[a],
                #[trigger] r[b],
            ) by {
                if a < ft.len() && b < ft.len() {
                    assert(r[a] == ft[a] && r[b] == ft[b]);
                } else {
                    let c = if a < ft.len() { a } else { b };
                    assert(r[c] == ft[c]);
                    assert(ft.contains(ft[c]));
                    t.lemma_filter_contains_rev(p, ft[c]);
                    let j = choose|j: int| 0 <= j < t.len() && t[j] == ft[c];
                    assert(s[j] == t[j]);
                    assert(!same_member(s[j], s[s.len() - 1]));
                }
            }
        }
    }
}

/// Once the session `session_id` is recorded between `a_id` and `b_id`, the
/// bytes that either end sends are routed to the other end.
pub proof fn lemma_open_then_route(
    ss: Seq<(u128, RelaySession)>,
    session_id: u128,
    a_id: u128,
    b_id: u128,
)
    requires
        distinct_keys(ss),
    ensures
        route_target(sessions_with(ss, session_id, RelaySession { a_id, b_id }), session_id, a_id)
            == Some(b_id),
        route_target(sessions_with(ss, session_id, RelaySession { a_id, b_id }), session_id, b_id)
            == Some(a_id),
{
    let s = RelaySession { a_id, b_id };
    let t = sessions_with(ss, session_id, s);
    if has_key(ss, session_id) {
        let k = key_index(ss, session_id);
        assert(ss[k].0 == session_id);
        lemma_to_map_update(ss, k, s);
        lemma_to_map_at(t, k);
    } else {
        lemma_to_map_push(ss, session_id, s);
        lemma_to_map_at(t, ss.len() as int);
    }
}

/// Once the session `session_id` is closed, no byte is routed through it.
pub proof fn lemma_closed_routes_nowhere(ss: Seq<(u128, RelaySession)>, session_id: u128, source_id: u128)
    requires
        distinct_keys(ss),
    ensures
        route_target(sessions_without(ss, session_id), session_id, source_id) is None,
{
    if has_key(ss, session_id) {
        let k = key_index(ss, session_id);
        assert(ss[k].0 == session_id);
        lemma_to_map_remove(ss, k);
        assert(!to_map(sessions_without(ss, session_id)).dom().contains(session_id));
    }
}

/// After a device leaves a room it is no longer in that room, and no session
/// left has it at either end.
pub proof fn lemma_leave_removes_client(
    cs: Seq<RelayClient>,
    ss: Seq<(u128, RelaySession)>,
    room: Seq<char>,
    client_id: u128,
)
    ensures
        !is_member(without_member(cs, room, client_id), room, client_id),
        forall|i: int|
            0 <= i < kept_sessions(ss, client_id).len() ==> !involves(
                #[trigger] kept_sessions(ss, client_id)[i].1,
                client_id,
            ),
{
    let p = |c: RelayClient| !(c.room@ == room && c.client_id == client_id);
    let q = |e: (u128, RelaySession)| !involves(e.1, client_id);
    let w = without_member(cs, room, client_id);
    if is_member(w, room, client_id) {
        let i = member_index(w, room, client_id);
        cs.lemma_filter_pred(p, i);
    }
    assert forall|i: int| 0 <= i < kept_sessions(ss, client_id).len() implies !involves(
        #[trigger] kept_sessions(ss, client_id)[i].1,
        client_id,
    ) by {
        ss.lemma_filter_pred(q, i);
    }
}

impl RelayStore {
    /// The devices of all rooms, in directory order.
    pub closed spec fn clients(&self) -> Seq<RelayClient> {
        self.clients@
    }

    /// The live sessions, keyed by session id, in table order.
    pub closed spec fn sessions(&self) -> Seq<(u128, RelaySession)> {
        self.sessions@
    }

    /// No device is listed twice in a room and no session id twice.
    pub open spec fn wf(&self) -> bool {
        clients_distinct(self.clients()) && distinct_keys(self.sessions())
    }

    /// An empty backend: no room, no session.
    pub fn new() -> (r: Self)
        ensures
            r.wf(),
            r.clients() == Seq::<RelayClient>::empty(),
            r.sessions() == Seq::<(u128, RelaySession)>::empty(),
    {
        RelayStore { clients: Vec::new(), sessions: Vec::new() }
    }

    fn find_client(&self, room: &String, id: u128) -> (r: Option<usize>)
        requires
            self.wf(),
        ensures
            match r {
                Some(i) => i < self.clients().len() && self.clients()[i as int].room@ == room@
                    && self.clients()[i as int].client_id == id && member_index(
                    self.clients(),
                    room@,
                    id,
                ) == i,
                None => !is_member(self.clients(), room@, id),
            },
    {
        let mut i: usize = 0;
        while i < self.clients.len()
            invariant
                i <= self.clients@.len(),
                clients_distinct(self.clients@),
                forall|j: int|
                    0 <= j < i ==> !(#[trigger] self.clients@[j].room@ == room@
                        && self.clients@[j].client_id == id),
            decreases self.clients@.len() - i,
        {
            if self.clients[i].client_id == id && self.clients[i].room == *room {
                proof {
                    let k = member_index(self.clients@, room@, id);
                    assert(self.clients@[i as int].room@ == room@);
                    assert(is_member(self.clients@, room@, id));
                    assert(k == i as int) by {
                        if k != i as int {
                            assert(!same_member(self.clients@[k], self.clients@[i as int]));
                        }
                    }
                }
                return Some(i);
            }
            i = i + 1;
        }
        None
    }

    fn find_session(&self, session_id: u128) -> (r: Option<usize>)
        requires
            self.wf(),
        ensures
            match r {
                Some(i) => i < self.sessions().len() && self.sessions()[i as int].0 == session_id
                    && key_index(self.sessions(), session_id) == i && has_key(
                    self.sessions(),
                    session_id,
                ),
                None => !has_key(self.sessions(), session_id),
            },
    {
        let mut i: usize = 0;
        while i < self.sessions.len()
            invariant
                i <= self.sessions@.len(),
                distinct_keys(self.sessions@),
                forall|j: int| 0 <= j < i ==> #[trigger] self.sessions@[j].0 != session_id,
            decreases self.sessions@.len() - i,
        {
            if self.sessions[i].0 == session_id {
                proof {
                    lemma_to_map_at(self.sessions@, i as int);
                }
                return Some(i);
            }
            i = i + 1;
        }
        None
    }

    /// The ids of the devices of `room`.
    fn collect_room_ids(&self, room: &String) -> (r: Vec<u128>)
        ensures
            r@ == room_ids(self.clients(), room@),
    {
        let mut out: Vec<u128> = Vec::new();
        let mut i: usize = 0;
        while i < self.clients.len()
            invariant
                i <= self.clients@.len(),
                out@ == room_ids(self.clients@.take(i as int), room@),
            decreases self.clients@.len() - i,
        {
            proof {
                lemma_filter_map_step(
                    self.clients@,
                    |c: RelayClient| if c.room@ == room@ { Some(c.client_id) } else { None },
                    i as int,
                );
            }
            if self.clients[i].room == *room {
                out.push(self.clients[i].client_id);
            }
            i = i + 1;
        }
        proof {
            lemma_take_full(self.clients@);
        }
        out
    }

    /// The ids of the devices of `room`, in directory order.
    pub fn room_member_ids(&self, room: &String) -> (r: Vec<u128>)
        ensures
            r@ == room_ids(self.clients(), room@),
    {
        self.collect_room_ids(room)
    }

    /// Whether `room` holds devices, at least `max_connections` of them.
    pub fn room_is_full(&self, room: &str, max_connections: usize) -> (r: bool)
        ensures
            r == (room_ids(self.clients(), room@).len() > 0 && room_ids(self.clients(), room@).len()
                >= max_connections),
    {
        let key = room.to_owned();
        let ids = self.collect_room_ids(&key);
        ids.len() > 0 && ids.len() >= max_connections
    }

    /// Adds the device `client_id` to `room` (replacing its information if it
    /// is there already) and returns the devices that were in the room before.
    pub fn join(&mut self, room: String, client_id: u128, info: RelayDeviceInfo) -> (peers: Vec<
        RelayPeer,
    >)
        requires
            old(self).wf(),
        ensures
            final(self).wf(),
            peers@ == room_peers(old(self).clients(), room@),
            final(self).sessions() == old(self).sessions(),
            final(self).clients() == joined(old(self).clients(), room, client_id, info),
    {
        let mut peers: Vec<RelayPeer> = Vec::new();
        let mut i: usize = 0;
        while i < self.clients.len()
            invariant
                i <= self.clients@.len(),
                peers@ == room_peers(self.clients@.take(i as int), room@),
            decreases self.clients@.len() - i,
        {
            proof {
                lemma_filter_map_step(
                    self.clients@,
                    |c: RelayClient| if c.room@ == room@ { Some(peer_of(c)) } else { None },
                    i as int,
                );
            }
            if self.clients[i].room == room {
                peers.push(
                    RelayPeer {
                        client_id: self.clients[i].client_id,
                        info: self.clients[i].info.duplicate(),
                    },
                );
            }
            i = i + 1;
        }
        proof {
            lemma_take_full(self.clients@);
        }
        let ghost old_clients = self.clients@;
        match self.find_client(&room, client_id) {
            Some(k) => {
                self.clients.set(k, RelayClient { room, client_id, info });
                assert forall|a: int, b: int|
                    0 <= a < self.clients@.len() && 0 <= b < self.clients@.len() && a
                        != b implies !same_member(
                    #[trigger] self.clients@[a],
                    #[trigger] self.clients@[b],
                ) by {
                    assert(same_member(self.clients@[a], old_clients[a]));
                    assert(same_member(self.clients@[b], old_clients[b]));
                    assert(!same_member(old_clients[a], old_clients[b]));
                }
            },
            None => {
                self.clients.push(RelayClient { room, client_id, info });
                assert forall|a: int, b: int|
                    0 <= a < self.clients@.len() && 0 <= b < self.clients@.len() && a
                        != b implies !same_member(
                    #[trigger] self.clients@[a],
                    #[trigger] self.clients@[b],
                ) by {
                    if a < old_clients.len() && b < old_clients.len() {
                        assert(!same_member(old_clients[a], old_clients[b]));
                    } else if a < old_clients.len() {
                        assert(self.clients@[a] == old_clients[a]);
                    } else {
                        assert(self.clients@[b] == old_clients[b]);
                    }
                }
            },
        }
        peers
    }

    /// Replaces the information of the device `client_id` of `room`. Returns
    /// the device as a peer and the ids of the other devices of the room, or
    /// `None` (changing nothing) where the device is not in the room.
    pub fn update_info(&mut self, room: &str, client_id: u128, info: RelayDeviceInfo) -> (r:
        Option<(RelayPeer, Vec<u128>)>)
        requires
            old(self).wf(),
        ensures
            final(self).wf(),
            final(self).sessions() == old(self).sessions(),
            !is_member(old(self).clients(), room@, client_id) ==> r is None && final(self).clients()
                == old(self).clients(),
            is_member(old(self).clients(), room@, client_id) ==> {
                let k = member_index(old(self).clients(), room@, client_id);
                &&& final(self).clients() == old(self).clients().update(
                    k,
                    RelayClient { room: old(self).clients()[k].room, client_id, info },
                )
                &&& r matches Some((peer, others)) && peer == (RelayPeer { client_id, info })
                    && others@ == other_ids(final(self).clients(), room@, client_id)
            },
    {
        let key = room.to_owned();
        match self.find_client(&key, client_id) {
            None => None,
            Some(k) => {
                let ghost old_clients = self.clients@;
                let peer = RelayPeer { client_id, info: info.duplicate() };
                let room_name = self.clients[k].room.clone();
                self.clients.set(k, RelayClient { room: room_name, client_id, info });
                assert forall|a: int, b: int|
                    0 <= a < self.clients@.len() && 0 <= b < self.clients@.len() && a
                        != b implies !same_member(
                    #[trigger] self.clients@[a],
                    #[trigger] self.clients@[b],
                ) by {
                    assert(same_member(self.clients@[a], old_clients[a]));
                    assert(same_member(self.clients@[b], old_clients[b]));
                    assert(!same_member(old_clients[a], old_clients[b]));
                }
                let mut others: Vec<u128> = Vec::new();
                let mut i: usize = 0;
                while i < self.clients.len()
                    invariant
                        i <= self.clients@.len(),
                        others@ == other_ids(self.clients@.take(i as int), room@, client_id),
                        key@ == room@,
                    decreases self.clients@.len() - i,
                {
                    proof {
                        lemma_filter_map_step(
                            self.clients@,
                            |c: RelayClient|
                                if c.room@ == room@ && c.client_id != client_id {
                                    Some(c.client_id)
                                } else {
                                    None
                                },
                            i as int,
                        );
                    }
                    if self.clients[i].room == key && self.clients[i].client_id != client_id {
                        others.push(self.clients[i].client_id);
                    }
                    i = i + 1;
                }
                proof {
                    lemma_take_full(self.clients@);
                }
                Some((peer, others))
            },
        }
    }

    /// Records the session `session_id` from `initiator_id` to `target_id`,
    /// where both are devices of `room`. `None` (changing nothing) where the
    /// initiator is not in the room; [`SessionOutcome::Unreachable`]
    /// (changing nothing) where the target is not.
    pub fn plan_open(&mut self, room: &str, initiator_id: u128, target_id: u128, session_id: u128)
        -> (r: Option<SessionOutcome>)
        requires
            old(self).wf(),
        ensures
            final(self).wf(),
            final(self).clients() == old(self).clients(),
            !is_member(old(self).clients(), room@, initiator_id) ==> r is None && final(self).sessions()
                == old(self).sessions(),
            is_member(old(self).clients(), room@, initiator_id) && !is_member(
                old(self).clients(),
                room@,
                target_id,
            ) ==> r == Some(SessionOutcome::Unreachable { initiator_id }) && final(self).sessions()
                == old(self).sessions(),
            is_member(old(self).clients(), room@, initiator_id) && is_member(
                old(self).clients(),
                room@,
                target_id,
            ) ==> r == Some(
                SessionOutcome::Opened {
                    peer: peer_of(
                        old(self).clients()[member_index(old(self).clients(), room@, initiator_id)],
                    ),
                    target_id,
                    initiator_id,
                },
            ) && final(self).sessions() == sessions_with(
                old(self).sessions(),
                session_id,
                RelaySession { a_id: initiator_id, b_id: target_id },
            ),
    {
        let key = room.to_owned();
        let ki = match self.find_client(&key, initiator_id) {
            None => return None,
            Some(ki) => ki,
        };
        match self.find_client(&key, target_id) {
            None => Some(SessionOutcome::Unreachable { initiator_id }),
            Some(_) => {
                let peer = RelayPeer {
                    client_id: initiator_id,
                    info: self.clients[ki].info.duplicate(),
                };
                self.set_session(session_id, RelaySession { a_id: initiator_id, b_id: target_id });
                Some(SessionOutcome::Opened { peer, target_id, initiator_id })
            },
        }
    }

    fn set_session(&mut self, session_id: u128, s: RelaySession)
        requires
            old(self).wf(),
        ensures
            final(self).wf(),
            final(self).clients() == old(self).clients(),
            final(self).sessions() == sessions_with(old(self).sessions(), session_id, s),
            to_map(final(self).sessions()) == to_map(old(self).sessions()).insert(session_id, s),
    {
        match self.find_session(session_id) {
            Some(k) => {
                proof {
                    lemma_to_map_update(self.sessions@, k as int, s);
                }
                self.sessions.set(k, (session_id, s));
            },
            None => {
                proof {
                    lemma_to_map_push(self.sessions@, session_id, s);
                }
                self.sessions.push((session_id, s));
            },
        }
    }

    /// The device to which `source_id` sends the bytes of `session_id`.
    pub fn route_data(&self, source_id: u128, session_id: u128) -> (r: Option<u128>)
        requires
            self.wf(),
        ensures
            r == route_target(self.sessions(), session_id, source_id),
    {
        match self.find_session(session_id) {
            None => None,
            Some(k) => {
                proof {
                    lemma_to_map_at(self.sessions@, k as int);
                }
                let s = self.sessions[k].1;
                if s.a_id == source_id {
                    Some(s.b_id)
                } else if s.b_id == source_id {
                    Some(s.a_id)
                } else {
                    None
                }
            },
        }
    }

    /// Ends the session `session_id`, whoever asks, and returns its other end
    /// where `source_id` is one of its ends.
    pub fn close_session(&mut self, source_id: u128, session_id: u128) -> (r: Option<u128>)
        requires
            old(self).wf(),
        ensures
            final(self).wf(),
            final(self).clients() == old(self).clients(),
            r == route_target(old(self).sessions(), session_id, source_id),
            final(self).sessions() == sessions_without(old(self).sessions(), session_id),
            to_map(final(self).sessions()) == to_map(old(self).sessions()).remove(session_id),
    {
        match self.find_session(session_id) {
            None => {
                assert(to_map(self.sessions@) =~= to_map(self.sessions@).remove(session_id));
                None
            },
            Some(k) => {
                proof {
                    lemma_to_map_at(self.sessions@, k as int);
                    lemma_to_map_remove(self.sessions@, k as int);
                }
                let (_, s) = self.sessions.remove(k);
                if s.a_id == source_id {
                    Some(s.b_id)
                } else if s.b_id == source_id {
                    Some(s.a_id)
                } else {
                    None
                }
            },
        }
    }

    /// Removes the device `client_id` from `room` and ends every session it
    /// is an end of. Returns the ids of the devices left in the room (none
    /// where the device was not in it) and each ended session with its other
    /// end.
    pub fn leave_room(&mut self, room: &str, client_id: u128) -> (r: (Vec<u128>, Vec<(u128, u128)>))
        requires
            old(self).wf(),
        ensures
            final(self).wf(),
            final(self).clients() == without_member(old(self).clients(), room@, client_id),
            final(self).sessions() == kept_sessions(old(self).sessions(), client_id),
            r.1@ == closed_sessions(old(self).sessions(), client_id),
            r.0@ == if is_member(old(self).clients(), room@, client_id) {
                room_ids(final(self).clients(), room@)
            } else {
                Seq::<u128>::empty()
            },
    {
        let key = room.to_owned();
        let ghost old_sessions = self.sessions@;
        let mut kept: Vec<(u128, RelaySession)> = Vec::new();
        let mut closed: Vec<(u128, u128)> = Vec::new();
        let mut i: usize = 0;
        while i < self.sessions.len()
            invariant
                i <= self.sessions@.len(),
                self.sessions@ == old_sessions,
                kept@ == kept_sessions(old_sessions.take(i as int), client_id),
                closed@ == closed_sessions(old_sessions.take(i as int), client_id),
            decreases self.sessions@.len() - i,
        {
            proof {
                lemma_filter_step(
                    old_sessions,
                    |e: (u128, RelaySession)| !involves(e.1, client_id),
                    i as int,
                );
                lemma_filter_map_step(
                    old_sessions,
                    |e: (u128, RelaySession)|
                        if involves(e.1, client_id) {
                            Some((e.0, other_end(e.1, client_id)))
                        } else {
                            None
                        },
                    i as int,
                );
            }
            let (sid, s) = self.sessions[i];
            if s.a_id == client_id {
                closed.push((sid, s.b_id));
            } else if s.b_id == client_id {
                closed.push((sid, s.a_id));
            } else {
                kept.push((sid, s));
            }
            i = i + 1;
        }
        proof {
            lemma_take_full(old_sessions);
            lemma_filter_distinct_keys(
                old_sessions,
                |e: (u128, RelaySession)| !involves(e.1, client_id),
            );
        }
        self.sessions = kept;

        let member = self.find_client(&key, client_id);
        let ghost old_clients = self.clients@;
        let mut rest: Vec<RelayClient> = Vec::new();
        let mut j: usize = 0;
        while j < self.clients.len()
            invariant
                j <= self.clients@.len(),
                self.clients@ == old_clients,
                key@ == room@,
                rest@ == without_member(old_clients.take(j as int), room@, client_id),
            decreases self.clients@.len() - j,
        {
            proof {
                lemma_filter_step(
                    old_clients,
                    keeps_member(room@, client_id),
                    j as int,
                );
            }
            if self.clients[j].client_id == client_id && self.clients[j].room == key {
            } else {
                let c = RelayClient {
                    room: self.clients[j].room.clone(),
                    client_id: self.clients[j].client_id,
                    info: self.clients[j].info.duplicate(),
                };
                rest.push(c);
            }
            j = j + 1;
        }
        proof {
            lemma_take_full(old_clients);
            lemma_filter_clients_distinct(
                old_clients,
                keeps_member(room@, client_id),
            );
        }
        self.clients = rest;
        let peers = match member {
            Some(_) => self.collect_room_ids(&key),
            None => Vec::new(),
        };
        (peers, closed)
    }
}

} // verus!
