use vstd::prelude::*;
use crate::wire::{be32_at, be32_bytes, lemma_be32_round_trip, push_be32, extend_range};

verus! {

/// The largest payload that a packet can carry: its length field must hold
/// one byte of padding length, the payload and up to eleven bytes of padding.
pub const MAX_PAYLOAD: usize = 0xffff_fff0;

/// How many padding bytes a payload of `payload_len` bytes gets: the fewest,
/// at least four, that make the padded region a multiple of eight bytes. In
/// plaintext framing the padded region starts at the length field; under
/// the AEAD framing it starts after it.
pub open spec fn padding_len_spec(payload_len: nat, encrypted: bool) -> nat {
    let base = if encrypted { 1 + payload_len } else { 5 + payload_len };
    let pad = (8 - base % 8) as nat;
    if pad < 4 { pad + 8 } else { pad }
}

/// `packet_length || padding_length || payload || padding`.
pub open spec fn packet_bytes(payload: Seq<u8>, padding: Seq<u8>) -> Seq<u8> {
    be32_bytes((1 + payload.len() + padding.len()) as u32) + seq![padding.len() as u8] + payload
        + padding
}

/// The payload held by a packet body `padding_length || payload || padding`,
/// or `None` where the padding length does not fit in the body.
pub open spec fn body_payload(body: Seq<u8>) -> Option<Seq<u8>> {
    if body.len() >= 1 && body[0] + 1 <= body.len() {
        Some(body.subrange(1, body.len() - body[0]))
    } else {
        None
    }
}

pub fn padding_length(payload_len: usize, encrypted: bool) -> (r: u8)
    ensures
        r as nat == padding_len_spec(payload_len as nat, encrypted),
        4 <= r < 12,
{
    let base: usize = if encrypted { 1 + payload_len % 8 } else { 5 + payload_len % 8 };
    assert(base % 8 == (if encrypted { 1 + payload_len } else { 5 + payload_len }) % 8) by (nonlinear_arith)
        requires base == (if encrypted { 1 + payload_len % 8 } else { 5 + payload_len % 8 });
    let pad: usize = 8 - base % 8;
    if pad < 4 { (pad + 8) as u8 } else { pad as u8 }
}

/// Frames `payload` with the given padding bytes.
pub fn build_packet(payload: &[u8], padding: &[u8]) -> (r: Vec<u8>)
    requires
        payload@.len() <= MAX_PAYLOAD,
        padding@.len() < 12,
    ensures
        r@ == packet_bytes(payload@, padding@),
{
    let mut r: Vec<u8> = Vec::new();
    let len: u32 = (1 + payload.len() + padding.len()) as u32;
    push_be32(&mut r, len);
    r.push(padding.len() as u8);
    extend_range(&mut r, payload, 0, payload.len());
    extend_range(&mut r, padding, 0, padding.len());
    assert(payload@.subrange(0, payload@.len() as int) =~= payload@);
    assert(padding@.subrange(0, padding@.len() as int) =~= padding@);
    assert(r@ =~= packet_bytes(payload@, padding@));
    r
}

/// The payload of the packet body `s[from..to]`, where the body is
/// `padding_length || payload || padding`.
pub fn unpack_body(s: &[u8], from: usize, to: usize) -> (r: Option<Vec<u8>>)
    requires
        from <= to <= s@.len(),
    ensures
        match body_payload(s@.subrange(from as int, to as int)) {
            Some(p) => r is Some && r->0@ == p,
            None => r is None,
        },
{
    let ghost body = s@.subrange(from as int, to as int);
    if from == to {
        return None;
    }
    let pad = s[from] as usize;
    if pad + 1 > to - from {
        return None;
    }
    let mut r: Vec<u8> = Vec::new();
    extend_range(&mut r, s, from + 1, to - pad);
    assert(r@ =~= body.subrange(1, body.len() - body[0]));
    Some(r)
}

/// Building a packet and reading it back gives the payload: its length field
/// counts the bytes that follow it, and the body after it holds the payload.
pub proof fn lemma_unpack_build(payload: Seq<u8>, padding: Seq<u8>)
    requires
        payload.len() <= MAX_PAYLOAD,
        padding.len() < 12,
    ensures
        be32_at(packet_bytes(payload, padding), 0) + 4 == packet_bytes(payload, padding).len(),
        body_payload(packet_bytes(payload, padding).subrange(4, packet_bytes(payload, padding).len() as int))
            == Some(payload),
{
    let p = packet_bytes(payload, padding);
    let n = (1 + payload.len() + padding.len()) as u32;
    lemma_be32_round_trip(n);
    assert(p.subrange(0, 4) =~= be32_bytes(n));
    assert(be32_at(p, 0) == be32_at(be32_bytes(n), 0));
    let body = p.subrange(4, p.len() as int);
    assert(body[0] == padding.len() as u8);
    assert(body.subrange(1, body.len() - body[0]) =~= payload);
}

/// A packet built with the padding length that `padding_length` gives is
/// aligned: plaintext packets fill whole eight-byte blocks, and under the
/// AEAD framing the part after the length field does.
pub proof fn lemma_build_aligned(payload: Seq<u8>, padding: Seq<u8>, encrypted: bool)
    requires
        payload.len() <= MAX_PAYLOAD,
        padding.len() == padding_len_spec(payload.len(), encrypted),
    ensures
        padding.len() >= 4,
        encrypted ==> (packet_bytes(payload, padding).len() - 4) % 8 == 0,
        !encrypted ==> packet_bytes(payload, padding).len() % 8 == 0,
{
}

} // verus!
