//! The binary frames that carry the bytes of a relay session:
//! `[session id (16 bytes, big-endian)][payload]`.

use vstd::prelude::*;
use crate::pow::{pow256, lemma_pow256_positive, lemma_pow256_16};

verus! {

/// The number of bytes of the session id at the head of a frame.
pub const SESSION_ID_LEN: usize = 16;

/// The `n` low-order base-256 digits of `v`, most significant first.
pub open spec fn be_bytes(v: nat, n: nat) -> Seq<u8>
    decreases n,
{
    if n == 0 {
        Seq::empty()
    } else {
        be_bytes(v / 256, (n - 1) as nat).push((v % 256) as u8)
    }
}

/// The number whose base-256 digits, most significant first, are `s`.
pub open spec fn be_value(s: Seq<u8>) -> nat
    decreases s.len(),
{
    if s.len() == 0 {
        0
    } else {
        be_value(s.drop_last()) * 256 + s.last() as nat
    }
}

/// The 16 bytes of a session id on the wire.
pub open spec fn id_bytes(id: u128) -> Seq<u8> {
    be_bytes(id as nat, 16)
}

/// A frame carrying `payload` for the session `session_id`.
pub open spec fn spec_encode_data(session_id: u128, payload: Seq<u8>) -> Seq<u8> {
    id_bytes(session_id) + payload
}

/// What a frame carries: its session id and its payload, where the frame
/// holds at least a whole session id.
pub open spec fn spec_decode_data(frame: Seq<u8>) -> Option<(u128, Seq<u8>)> {
    if frame.len() < 16 {
        None
    } else {
        Some((be_value(frame.take(16)) as u128, frame.skip(16)))
    }
}

pub proof fn lemma_be_bytes_len(v: nat, n: nat)
    ensures
        be_bytes(v, n).len() == n,
    decreases n,
{
    if n > 0 {
        lemma_be_bytes_len(v / 256, (n - 1) as nat);
    }
}

pub proof fn lemma_be_value_bound(s: Seq<u8>)
    ensures
        be_value(s) < pow256(s.len()),
    decreases s.len(),
{
    if s.len() > 0 {
        lemma_be_value_bound(s.drop_last());
        let p = pow256((s.len() - 1) as nat);
        let r = be_value(s.drop_last());
        assert(r * 256 + s.last() < p * 256) by (nonlinear_arith)
            requires
                r < p,
                s.last() < 256,
        ;
    }
}

/// Reading back the digits of `v` gives `v` modulo `256^n`.
pub proof fn lemma_be_value_of_bytes(v: nat, n: nat)
    ensures
        be_value(be_bytes(v, n)) == v % pow256(n),
    decreases n,
{
    if n > 0 {
        let m = (n - 1) as nat;
        lemma_be_value_of_bytes(v / 256, m);
        lemma_be_bytes_len(v / 256, m);
        let s = be_bytes(v, n);
        assert(s.drop_last() =~= be_bytes(v / 256, m));
        let p = pow256(m);
        lemma_pow256_positive(m);
        assert(((v / 256) % p) * 256 + v % 256 == v % (256 * p)) by (nonlinear_arith)
            requires
                p >= 1,
        {
            vstd::arithmetic::div_mod::lemma_breakdown(v as int, 256, p as int);
        }
    }
}

/// Writing out the digits of the value of `s` gives `s` back.
pub proof fn lemma_bytes_of_be_value(s: Seq<u8>)
    ensures
        be_bytes(be_value(s), s.len()) == s,
    decreases s.len(),
{
    if s.len() > 0 {
        let t = s.drop_last();
        lemma_bytes_of_be_value(t);
        let v = be_value(s);
        let r = be_value(t);
        assert(v / 256 == r && v % 256 == s.last()) by (nonlinear_arith)
            requires
                v == r * 256 + s.last(),
                s.last() < 256,
        ;
        assert(be_bytes(v, s.len()) =~= t.push(s.last()));
        assert(t.push(s.last()) =~= s);
    }
}

/// A session id survives being written into a frame and read back.
pub proof fn lemma_id_bytes_roundtrip(id: u128)
    ensures
        id_bytes(id).len() == 16,
        be_value(id_bytes(id)) == id,
{
    lemma_be_bytes_len(id as nat, 16);
    lemma_be_value_of_bytes(id as nat, 16);
    lemma_pow256_16();
}

/// Decoding a frame built by [`encode_data`] gives back its session id and
/// payload.
pub proof fn lemma_decode_encode(session_id: u128, payload: Seq<u8>)
    ensures
        spec_decode_data(spec_encode_data(session_id, payload)) == Some((session_id, payload)),
{
    lemma_id_bytes_roundtrip(session_id);
    let f = spec_encode_data(session_id, payload);
    assert(f.take(16) =~= id_bytes(session_id));
    assert(f.skip(16) =~= payload);
}

/// Encoding what a frame decodes to gives back the frame itself.
pub proof fn lemma_encode_decode(frame: Seq<u8>)
    requires
        spec_decode_data(frame) is Some,
    ensures
        spec_encode_data(spec_decode_data(frame).unwrap().0, spec_decode_data(frame).unwrap().1)
            == frame,
{
    let head = frame.take(16);
    lemma_be_value_bound(head);
    lemma_pow256_16();
    lemma_bytes_of_be_value(head);
    assert(frame =~= head + frame.skip(16));
}

/// Digit `i` of the `n` low-order base-256 digits of `v`, most significant
/// first, is `v / 256^(n - 1 - i)` modulo 256.
proof fn lemma_be_bytes_digit(v: nat, n: nat, i: int)
    requires
        0 <= i < n,
    ensures
        be_bytes(v, n)[i] as int == (v / pow256((n - 1 - i) as nat)) % 256,
    decreases n,
{
    let m = (n - 1) as nat;
    lemma_be_bytes_len(v / 256, m);
    if i == n - 1 {
        assert(pow256(0) == 1);
        assert(v / 1 == v);
    } else {
        lemma_be_bytes_digit(v / 256, m, i);
        let k = (m - 1 - i) as nat;
        lemma_pow256_positive(k);
        assert(pow256((n - 1 - i) as nat) == 256 * pow256(k));
        vstd::arithmetic::div_mod::lemma_div_denominator(v as int, 256, pow256(k) as int);
    }
}

/// A frame is the session id's 16 base-256 digits, most significant first,
/// followed by the payload: byte `i < 16` of the frame is
/// `session_id / 256^(15 - i)` modulo 256, and byte `16 + j` is byte `j` of
/// the payload.
pub proof fn lemma_encode_layout(session_id: u128, payload: Seq<u8>)
    ensures
        spec_encode_data(session_id, payload).len() == 16 + payload.len(),
        forall|i: int|
            0 <= i < 16 ==> #[trigger] spec_encode_data(session_id, payload)[i] as int == (
            session_id as int / pow256((15 - i) as nat) as int) % 256,
        forall|j: int|
            0 <= j < payload.len() ==> #[trigger] spec_encode_data(session_id, payload)[16 + j]
                == payload[j],
{
    lemma_be_bytes_len(session_id as nat, 16);
    assert forall|i: int| 0 <= i < 16 implies #[trigger] spec_encode_data(session_id, payload)[i] as int
        == (session_id as int / pow256((15 - i) as nat) as int) % 256 by {
        lemma_be_bytes_digit(session_id as nat, 16, i);
    }
}

/// Decoding reads the session id from the frame's first 16 bytes as
/// base-256 digits, most significant first, and the payload is the rest:
/// each head byte `i` is `id / 256^(15 - i)` modulo 256.
pub proof fn lemma_decode_layout(frame: Seq<u8>)
    requires
        frame.len() >= 16,
    ensures
        spec_decode_data(frame) matches Some((id, payload)) && payload == frame.skip(16) && (
        forall|i: int|
            0 <= i < 16 ==> #[trigger] frame[i] as int == (id as int / pow256((15 - i) as nat) as int)
                % 256),
{
    lemma_encode_decode(frame);
    let (id, payload) = spec_decode_data(frame).unwrap();
    lemma_encode_layout(id, payload);
    assert forall|i: int| 0 <= i < 16 implies #[trigger] frame[i] as int == (id as int / pow256(
        (15 - i) as nat,
    ) as int) % 256 by {
        assert(spec_encode_data(id, payload)[i] == frame[i]);
    }
}

/// Builds the frame that carries `payload` for the session `session_id`.
pub fn encode_data(session_id: u128, payload: &[u8]) -> (frame: Vec<u8>)
    ensures
        frame@ == spec_encode_data(session_id, payload@),
{
    let mut out: Vec<u8> = Vec::new();
    let mut v: u128 = session_id;
    let mut k: usize = 0;
    while k < SESSION_ID_LEN
        invariant
            k <= 16,
            out@.len() == k,
            be_bytes(v as nat, (16 - k) as nat) + out@ == id_bytes(session_id),
        decreases 16 - k,
    {
        let ghost old_out = out@;
        let ghost rest = (16 - k - 1) as nat;
        assert(be_bytes(v as nat, (16 - k) as nat) == be_bytes((v / 256) as nat, rest).push(
            (v % 256) as u8,
        ));
        out.insert(0, (v % 256) as u8);
        assert(be_bytes((v / 256) as nat, rest) + out@ =~= be_bytes(v as nat, (16 - k) as nat)
            + old_out);
        v = v / 256;
        k = k + 1;
    }
    assert(be_bytes(v as nat, 0) + out@ =~= out@);
    let mut i: usize = 0;
    while i < payload.len()
        invariant
            i <= payload@.len(),
            out@ == id_bytes(session_id) + payload@.take(i as int),
        decreases payload@.len() - i,
    {
        out.push(payload[i]);
        assert(payload@.take(i + 1) =~= payload@.take(i as int).push(payload@[i as int]));
        i = i + 1;
    }
    assert(payload@.take(payload@.len() as int) =~= payload@);
    out
}

/// Splits a frame into its session id and its payload; `None` where the
/// frame is shorter than a session id.
pub fn decode_data(frame: &[u8]) -> (res: Option<(u128, &[u8])>)
    ensures
        match res {
            Some((id, payload)) => spec_decode_data(frame@) == Some((id, payload@)),
            None => spec_decode_data(frame@) is None,
        },
{
    if frame.len() < SESSION_ID_LEN {
        return None;
    }
    let mut acc: u128 = 0;
    let mut i: usize = 0;
    while i < SESSION_ID_LEN
        invariant
            i <= 16,
            frame@.len() >= 16,
            acc == be_value(frame@.take(i as int)),
        decreases 16 - i,
    {
        let ghost t = frame@.take(i as int);
        let ghost t1 = frame@.take(i + 1);
        assert(t1.drop_last() =~= t);
        proof {
            lemma_be_value_bound(t1);
            lemma_pow256_16();
            assert(pow256(t1.len()) <= pow256(16)) by {
                lemma_pow256_mono(t1.len(), 16);
            }
        }
        acc = acc * 256 + frame[i] as u128;
        i = i + 1;
    }
    let (_, payload) = frame.split_at(SESSION_ID_LEN);
    assert(payload@ =~= frame@.skip(16));
    Some((acc, payload))
}

proof fn lemma_pow256_mono(a: nat, b: nat)
    requires
        a <= b,
    ensures
        pow256(a) <= pow256(b),
    decreases b,
{
    if a < b {
        lemma_pow256_mono(a, (b - 1) as nat);
        lemma_pow256_positive((b - 1) as nat);
    }
}

} // verus!
