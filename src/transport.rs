use vstd::prelude::*;
use crate::sequence::{Sequence, seq_advance, lemma_advance_add, lemma_counter_run};
use crate::wire::{be32_at, be32_of, read_be32, extend_range};
use crate::packet::{lemma_unpack_build, MAX_PAYLOAD, padding_len_spec, packet_bytes, body_payload, padding_length, build_packet, unpack_body};
use crate::aead::{sealed, opened_length, opened, seal, decrypt_length, open, random_bytes};

verus! {

/// The message code of SSH_MSG_NEWKEYS, after which the peer encrypts.
pub const SSH_MSG_NEWKEYS: u8 = 21;

/// The length of the Poly1305 tag that ends each AEAD frame.
pub const TAG_LEN: usize = 16;

/// What makes a transport operation fail.
#[derive(Clone, Copy, Debug, PartialEq, Eq)]
pub enum TransportError {
    /// An AEAD frame did not authenticate.
    MacError,
    /// A packet body whose padding length does not fit in it.
    Malformed,
    /// A payload too long for the packet length field.
    TooLong,
    /// The system's random generator failed while padding a packet.
    RandomFailed,
    /// The peer closed the stream in the middle of a packet.
    ShortRead,
    /// A read or write on the stream failed.
    Io,
}

/// How one read from the stream ended.
#[derive(Clone, Copy, Debug, PartialEq, Eq)]
pub enum ReadOutcome {
    /// Some bytes arrived.
    Bytes,
    /// The peer closed the stream: the read gave no bytes.
    Closed,
    /// A non-blocking stream had nothing ready.
    WouldBlock,
    /// The read failed otherwise.
    Failed,
}

/// What a reader does after one read from the stream.
#[derive(Clone, Copy, Debug, PartialEq, Eq)]
pub enum ReadAction {
    /// Hand the bytes to `Transport::receive`.
    Decode,
    /// Return the packets decoded so far.
    Finish,
    /// Read again: a frame has begun and must be completed.
    Retry,
    /// Give up with this error.
    Fail(TransportError),
}

pub fn is_would_block(outcome: &ReadOutcome) -> (r: bool)
    ensures
        r == (*outcome == ReadOutcome::WouldBlock),
{
    match outcome {
        ReadOutcome::WouldBlock => true,
        _ => false,
    }
}

/// The reader's decision after a read, given whether a frame is partly
/// buffered. Between frames, nothing ready or a closed stream ends the
/// call quietly; inside a frame, nothing ready means reading again and a
/// closed stream is a short read. A failed read is an I/O error.
pub fn read_action(outcome: ReadOutcome, mid_packet: bool) -> (r: ReadAction)
    ensures
        r == match outcome {
            ReadOutcome::Bytes => ReadAction::Decode,
            ReadOutcome::WouldBlock => if mid_packet { ReadAction::Retry } else { ReadAction::Finish },
            ReadOutcome::Closed => if mid_packet {
                ReadAction::Fail(TransportError::ShortRead)
            } else {
                ReadAction::Finish
            },
            ReadOutcome::Failed => ReadAction::Fail(TransportError::Io),
        },
{
    match outcome {
        ReadOutcome::Bytes => ReadAction::Decode,
        ReadOutcome::WouldBlock => if mid_packet { ReadAction::Retry } else { ReadAction::Finish },
        ReadOutcome::Closed => if mid_packet {
            ReadAction::Fail(TransportError::ShortRead)
        } else {
            ReadAction::Finish
        },
        ReadOutcome::Failed => ReadAction::Fail(TransportError::Io),
    }
}

/// The result of decoding buffered bytes: the packets found, the counter
/// and NEWKEYS state after them and the bytes of an incomplete frame that
/// remain; or the error that stopped decoding.
pub enum Decoded {
    Done { packets: Seq<Seq<u8>>, counter: u32, seen: bool, rest: Seq<u8> },
    Failed { error: TransportError },
}

pub open spec fn key_view(k: Option<[u8; 64]>) -> Option<Seq<u8>> {
    match k {
        Some(a) => Some(a@),
        None => None,
    }
}

/// The receive key in force: the installed one, once the peer's NEWKEYS
/// has been read.
pub open spec fn active(key: Option<Seq<u8>>, seen: bool) -> Option<Seq<u8>> {
    if seen { key } else { None }
}

pub open spec fn is_newkeys(p: Seq<u8>) -> bool {
    p.len() >= 1 && p[0] == SSH_MSG_NEWKEYS
}

/// The length of the frame at the front of `buf` (at least four bytes):
/// the length field, what it counts and, under a key, the tag.
pub open spec fn frame_len(key: Option<Seq<u8>>, counter: u32, buf: Seq<u8>) -> int {
    match key {
        Some(k) => 4 + be32_at(opened_length(k, counter, buf.subrange(0, 4)), 0) + 16,
        None => 4 + be32_at(buf, 0),
    }
}

/// The body `padding_length || payload || padding` of a whole frame: after
/// the length field in plaintext, or opened and authenticated under a key.
pub open spec fn frame_body(key: Option<Seq<u8>>, counter: u32, frame: Seq<u8>) -> Option<Seq<u8>> {
    match key {
        Some(k) => opened(
            k,
            counter,
            frame.subrange(0, frame.len() - 16),
            frame.subrange(frame.len() - 16, frame.len() as int),
        ),
        None => Some(frame.subrange(4, frame.len() as int)),
    }
}

pub open spec fn prepend(ps: Seq<Seq<u8>>, d: Decoded) -> Decoded {
    match d {
        Decoded::Done { packets, counter, seen, rest } => Decoded::Done {
            packets: ps + packets,
            counter,
            seen,
            rest,
        },
        Decoded::Failed { error } => Decoded::Failed { error },
    }
}

/// What the front of `buf` holds: an incomplete frame, a frame that
/// fails, or a frame of `len` bytes that carries `payload`.
pub enum Step {
    Incomplete,
    Bad { error: TransportError },
    Frame { payload: Seq<u8>, len: int },
}

pub open spec fn frame_step(key: Option<Seq<u8>>, counter: u32, buf: Seq<u8>) -> Step {
    if buf.len() < 4 || buf.len() < frame_len(key, counter, buf) {
        Step::Incomplete
    } else {
        let n = frame_len(key, counter, buf);
        match frame_body(key, counter, buf.subrange(0, n)) {
            None => Step::Bad { error: TransportError::MacError },
            Some(body) => match body_payload(body) {
                None => Step::Bad { error: TransportError::Malformed },
                Some(p) => Step::Frame { payload: p, len: n },
            },
        }
    }
}

/// Decodes every whole frame at the front of `buf`, in order. Each frame
/// uses the receive counter as it stands and then advances it by one; a
/// plaintext NEWKEYS switches the frames after it to the installed key.
pub open spec fn decode(key: Option<Seq<u8>>, counter: u32, seen: bool, buf: Seq<u8>) -> Decoded
    decreases buf.len(),
{
    match frame_step(active(key, seen), counter, buf) {
        Step::Frame { payload, len } => if 4 <= len <= buf.len() {
            prepend(
                seq![payload],
                decode(key, seq_advance(counter, 1), seen || is_newkeys(payload), buf.subrange(len, buf.len() as int)),
            )
        } else {
            Decoded::Done { packets: Seq::empty(), counter, seen, rest: buf }
        },
        Step::Bad { error } => Decoded::Failed { error },
        Step::Incomplete => Decoded::Done { packets: Seq::empty(), counter, seen, rest: buf },
    }
}

/// Decodes the frame at `buf[pos..]` under `key`: `None` where it is not
/// complete yet, else its payload and length, or the error it gives.
fn next_frame(key: Option<[u8; 64]>, counter: u32, buf: &[u8], pos: usize) -> (r: Option<Result<(Vec<u8>, usize), TransportError>>)
    requires
        pos <= buf@.len(),
    ensures
        match frame_step(key_view(key), counter, buf@.subrange(pos as int, buf@.len() as int)) {
            Step::Incomplete => r is None,
            Step::Bad { error } => r == Some(Err::<(Vec<u8>, usize), TransportError>(error)),
            Step::Frame { payload, len } => r is Some && r->0 is Ok && r->0->Ok_0.0@ == payload
                && r->0->Ok_0.1 == len && 4 <= len <= buf@.len() - pos,
        },
{
    let ghost rem = buf@.subrange(pos as int, buf@.len() as int);
    let avail = buf.len() - pos;
    if avail < 4 {
        return None;
    }
    let n: u64 = match key {
        Some(k) => {
            let l = decrypt_length(&k, counter, [buf[pos], buf[pos + 1], buf[pos + 2], buf[pos + 3]]);
            assert(rem.subrange(0, 4) =~= seq![buf@[pos as int], buf@[pos + 1], buf@[pos + 2], buf@[pos + 3]]);
            4 + be32_of(l[0], l[1], l[2], l[3]) as u64 + 16
        },
        None => 4 + read_be32(buf, pos) as u64,
    };
    assert(n == frame_len(key_view(key), counter, rem));
    if (avail as u64) < n {
        return None;
    }
    let n = n as usize;
    let ghost frame = rem.subrange(0, n as int);
    let body = match key {
        Some(k) => {
            let mut ct: Vec<u8> = Vec::new();
            extend_range(&mut ct, buf, pos, pos + n - TAG_LEN);
            let mut tag: Vec<u8> = Vec::new();
            extend_range(&mut tag, buf, pos + n - TAG_LEN, pos + n);
            assert(ct@ =~= frame.subrange(0, frame.len() - 16));
            assert(tag@ =~= frame.subrange(frame.len() - 16, frame.len() as int));
            open(&k, counter, ct.as_slice(), tag.as_slice())
        },
        None => {
            let mut b: Vec<u8> = Vec::new();
            extend_range(&mut b, buf, pos + 4, pos + n);
            assert(b@ =~= frame.subrange(4, frame.len() as int));
            Some(b)
        },
    };
    let body = match body {
        Some(b) => b,
        None => return Some(Err(TransportError::MacError)),
    };
    assert(body@.subrange(0, body@.len() as int) =~= body@);
    match unpack_body(body.as_slice(), 0, body.len()) {
        Some(p) => Some(Ok((p, n))),
        None => Some(Err(TransportError::Malformed)),
    }
}

/// The bytes that go on the wire for a packet: plaintext framing, or the
/// AEAD frame under the send key.
pub open spec fn outgoing(key: Option<Seq<u8>>, counter: u32, payload: Seq<u8>, padding: Seq<u8>) -> Seq<u8> {
    match key {
        Some(k) => sealed(k, counter, packet_bytes(payload, padding)),
        None => packet_bytes(payload, padding),
    }
}

pub open spec fn views(v: Seq<Vec<u8>>) -> Seq<Seq<u8>> {
    v.map_values(|x: Vec<u8>| x@)
}

proof fn lemma_prepend_failed(a: Seq<Seq<u8>>, e: TransportError)
    ensures
        prepend(a, Decoded::Failed { error: e }) == (Decoded::Failed { error: e }),
{
}

proof fn lemma_prepend_prepend(a: Seq<Seq<u8>>, b: Seq<Seq<u8>>, d: Decoded)
    ensures
        prepend(a, prepend(b, d)) == prepend(a + b, d),
{
    match d {
        Decoded::Done { packets, .. } => {
            assert(a + (b + packets) =~= (a + b) + packets);
        },
        Decoded::Failed { .. } => {},
    }
}

/// The framing state of one SSH connection: counters, keys, whether the
/// peer's NEWKEYS has been read, and the bytes of a frame not complete yet.
pub struct Transport {
    sequence: Sequence,
    send_key: Option<[u8; 64]>,
    recv_key: Option<[u8; 64]>,
    newkeys_seen: bool,
    buffer: Vec<u8>,
}

impl Transport {
    pub closed spec fn client_seq(&self) -> u32 {
        self.sequence.client_sequence_num
    }

    pub closed spec fn server_seq(&self) -> u32 {
        self.sequence.server_sequence_num
    }

    pub closed spec fn send_key_view(&self) -> Option<Seq<u8>> {
        key_view(self.send_key)
    }

    pub closed spec fn recv_key_view(&self) -> Option<Seq<u8>> {
        key_view(self.recv_key)
    }

    pub closed spec fn newkeys_seen(&self) -> bool {
        self.newkeys_seen
    }

    /// The bytes of an incomplete frame kept for the next read.
    pub closed spec fn pending(&self) -> Seq<u8> {
        self.buffer@
    }

    pub fn new() -> (r: Transport)
        ensures
            r.client_seq() == 0,
            r.server_seq() == 0,
            r.send_key_view() is None,
            r.recv_key_view() is None,
            !r.newkeys_seen(),
            r.pending() == Seq::<u8>::empty(),
    {
        Transport {
            sequence: Sequence::new(),
            send_key: None,
            recv_key: None,
            newkeys_seen: false,
            buffer: Vec::new(),
        }
    }

    pub fn client_sequence_num(&self) -> (r: u32)
        ensures
            r == self.client_seq(),
    {
        self.sequence.client_sequence_num
    }

    pub fn server_sequence_num(&self) -> (r: u32)
        ensures
            r == self.server_seq(),
    {
        self.sequence.server_sequence_num
    }

    /// Whether bytes of an incomplete frame are waiting for more input.
    pub fn needs_more(&self) -> (r: bool)
        ensures
            r == (self.pending().len() > 0),
    {
        self.buffer.len() > 0
    }

    /// Installs the keys of the finished key exchange. Packets sent from now
    /// on are sealed with `client_key`; packets received after the peer's
    /// NEWKEYS are opened with `server_key`.
    pub fn enable_encryption(&mut self, client_key: [u8; 64], server_key: [u8; 64])
        ensures
            final(self).send_key_view() == Some(client_key@),
            final(self).recv_key_view() == Some(server_key@),
            final(self).client_seq() == old(self).client_seq(),
            final(self).server_seq() == old(self).server_seq(),
            final(self).newkeys_seen() == old(self).newkeys_seen(),
            final(self).pending() == old(self).pending(),
    {
        self.send_key = Some(client_key);
        self.recv_key = Some(server_key);
    }

    /// Frames `payload` with the given padding under the current send state,
    /// and counts the packet as sent.
    pub fn frame_packet(&mut self, payload: &[u8], padding: &[u8]) -> (r: Vec<u8>)
        requires
            payload@.len() <= MAX_PAYLOAD,
            padding@.len() == padding_len_spec(payload@.len(), old(self).send_key_view() is Some),
        ensures
            r@ == outgoing(old(self).send_key_view(), old(self).client_seq(), payload@, padding@),
            final(self).client_seq() == seq_advance(old(self).client_seq(), 1),
            final(self).server_seq() == old(self).server_seq(),
            final(self).send_key_view() == old(self).send_key_view(),
            final(self).recv_key_view() == old(self).recv_key_view(),
            final(self).newkeys_seen() == old(self).newkeys_seen(),
            final(self).pending() == old(self).pending(),
    {
        let plain = build_packet(payload, padding);
        let out = match self.send_key {
            Some(k) => seal(&k, self.sequence.client_sequence_num, plain),
            None => plain,
        };
        self.sequence.client_auto_increment();
        out
    }

    /// Frames `payload` with fresh random padding and counts it as sent.
    /// Fails, changing nothing, on a payload too long for the length field
    /// or when the random generator fails.
    pub fn write(&mut self, payload: &[u8]) -> (r: Result<Vec<u8>, TransportError>)
        ensures
            payload@.len() > MAX_PAYLOAD <==> r == Err::<Vec<u8>, TransportError>(TransportError::TooLong),
            r is Err ==> r == Err::<Vec<u8>, TransportError>(TransportError::TooLong)
                || r == Err::<Vec<u8>, TransportError>(TransportError::RandomFailed),
            r is Err ==> *final(self) == *old(self),
            r is Ok ==> exists|padding: Seq<u8>|
                padding.len() == padding_len_spec(payload@.len(), old(self).send_key_view() is Some)
                && r->Ok_0@ == outgoing(old(self).send_key_view(), old(self).client_seq(), payload@, padding),
            r is Ok ==> final(self).client_seq() == seq_advance(old(self).client_seq(), 1),
            r is Ok ==> final(self).server_seq() == old(self).server_seq(),
            r is Ok ==> final(self).send_key_view() == old(self).send_key_view(),
            r is Ok ==> final(self).recv_key_view() == old(self).recv_key_view(),
            r is Ok ==> final(self).newkeys_seen() == old(self).newkeys_seen(),
            r is Ok ==> final(self).pending() == old(self).pending(),
    {
        if payload.len() > MAX_PAYLOAD {
            return Err(TransportError::TooLong);
        }
        let pad = padding_length(payload.len(), self.send_key.is_some());
        match random_bytes(pad as usize) {
            None => Err(TransportError::RandomFailed),
            Some(padding) => {
                let out = self.frame_packet(payload, padding.as_slice());
                assert(padding@.len() == padding_len_spec(payload@.len(), old(self).send_key_view() is Some)
                    && out@ == outgoing(old(self).send_key_view(), old(self).client_seq(), payload@, padding@));
                Ok(out)
            },
        }
    }
    /// Takes the bytes of one read from the stream and decodes every frame
    /// that they complete, in stream order; the bytes of a frame not yet
    /// complete are kept for the next call. Fails with `MacError` on a
    /// frame that does not authenticate, and with `Malformed` on a body
    /// whose padding length does not fit in it.
    #[verifier::rlimit(50)]
    #[verifier::spinoff_prover]
    pub fn receive(&mut self, chunk: &[u8]) -> (r: Result<Vec<Vec<u8>>, TransportError>)
        ensures
            match decode(old(self).recv_key_view(), old(self).server_seq(), old(self).newkeys_seen(), old(self).pending() + chunk@) {
                Decoded::Done { packets, counter, seen, rest } => r is Ok
                    && views(r->Ok_0@) == packets
                    && final(self).server_seq() == counter
                    && final(self).newkeys_seen() == seen
                    && final(self).pending() == rest,
                Decoded::Failed { error } => r == Err::<Vec<Vec<u8>>, TransportError>(error),
            },
            r is Ok ==> final(self).server_seq() == seq_advance(old(self).server_seq(), r->Ok_0@.len()),
            final(self).client_seq() == old(self).client_seq(),
            final(self).send_key_view() == old(self).send_key_view(),
            final(self).recv_key_view() == old(self).recv_key_view(),
    {
        let mut buf: Vec<u8> = Vec::new();
        extend_range(&mut buf, self.buffer.as_slice(), 0, self.buffer.len());
        extend_range(&mut buf, chunk, 0, chunk.len());
        let ghost key = self.recv_key_view();
        let ghost whole = old(self).pending() + chunk@;
        assert(buf@ =~= whole);
        assert(buf@.subrange(0, buf@.len() as int) =~= whole);
        let mut pos: usize = 0;
        let mut out: Vec<Vec<u8>> = Vec::new();
        let mut done = false;
        while !done
            invariant
                pos <= buf@.len(),
                buf@ == whole,
                whole == old(self).pending() + chunk@,
                key == self.recv_key_view(),
                key == old(self).recv_key_view(),
                self.client_seq() == old(self).client_seq(),
                self.send_key_view() == old(self).send_key_view(),
                decode(key, old(self).server_seq(), old(self).newkeys_seen(), whole) == prepend(
                    views(out@),
                    decode(key, self.server_seq(), self.newkeys_seen, buf@.subrange(pos as int, buf@.len() as int)),
                ),
                done ==> decode(key, self.server_seq(), self.newkeys_seen, buf@.subrange(pos as int, buf@.len() as int))
                    == (Decoded::Done {
                        packets: Seq::empty(),
                        counter: self.server_seq(),
                        seen: self.newkeys_seen,
                        rest: buf@.subrange(pos as int, buf@.len() as int),
                    }),
            decreases buf@.len() - pos, if done { 0int } else { 1int },
        {
            let ghost rem = buf@.subrange(pos as int, buf@.len() as int);
            let active_key = if self.newkeys_seen { self.recv_key } else { None };
            assert(key_view(active_key) == active(key, self.newkeys_seen));
            let ghost counter = self.server_seq();
            let ghost seen = self.newkeys_seen;
            let step = next_frame(active_key, self.sequence.server_sequence_num, buf.as_slice(), pos);
            match step {
                None => {
                    assert(frame_step(active(key, seen), counter, rem) is Incomplete);
                    done = true;
                },
                Some(Err(e)) => {
                    assert(frame_step(active(key, seen), counter, rem) == (Step::Bad { error: e }));
                    assert(decode(key, counter, seen, rem) == (Decoded::Failed { error: e }));
                    proof {
                        lemma_prepend_failed(views(out@), e);
                    }
                    return Err(e);
                },
                Some(Ok((p, n))) => {
                    let ghost pv = p@;
                    assert(frame_step(active(key, seen), counter, rem) == (Step::Frame { payload: pv, len: n as int }));
                    assert(n <= buf@.len() - pos);
                    let newkeys = p.len() >= 1 && p[0] == SSH_MSG_NEWKEYS;
                    self.newkeys_seen = self.newkeys_seen || newkeys;
                    self.sequence.server_auto_increment();
                    let ghost old_out = views(out@);
                    out.push(p);
                    pos = pos + n;
                    proof {
                        assert(rem.subrange(n as int, rem.len() as int) =~= buf@.subrange(pos as int, buf@.len() as int));
                        assert(views(out@) =~= old_out + seq![pv]);
                        lemma_prepend_prepend(old_out, seq![pv], decode(key, self.server_seq(), self.newkeys_seen, buf@.subrange(pos as int, buf@.len() as int)));
                    }
                },
            }
        }
        let mut rest: Vec<u8> = Vec::new();
        extend_range(&mut rest, buf.as_slice(), pos, buf.len());
        self.buffer = rest;
        proof {
            assert(views(out@) + Seq::<Seq<u8>>::empty() =~= views(out@));
            lemma_decode_counts(key, old(self).server_seq(), old(self).newkeys_seen(), whole);
        }
        Ok(out)
    }

}

} // verus!

verus! {

/// Decoding counts each packet once: the receive counter ends as many past
/// where it started as packets were decoded.
pub proof fn lemma_decode_counts(key: Option<Seq<u8>>, counter: u32, seen: bool, buf: Seq<u8>)
    ensures
        decode(key, counter, seen, buf) is Done ==> decode(key, counter, seen, buf)->counter == seq_advance(
            counter,
            decode(key, counter, seen, buf)->packets.len(),
        ),
    decreases buf.len(),
{
    match frame_step(active(key, seen), counter, buf) {
        Step::Frame { payload, len } => {
            if 4 <= len <= buf.len() {
                let c1 = seq_advance(counter, 1);
                let s1 = seen || is_newkeys(payload);
                let tail = buf.subrange(len, buf.len() as int);
                lemma_decode_counts(key, c1, s1, tail);
                if decode(key, c1, s1, tail) is Done {
                    lemma_advance_add(counter, 1, decode(key, c1, s1, tail)->packets.len());
                }
            } else {
                assert(seq_advance(counter, 0) == counter);
            }
        },
        Step::Bad { .. } => {},
        Step::Incomplete => {
            assert(seq_advance(counter, 0) == counter);
        },
    }
}

/// Each successful `write` advances the client counter by one.
pub open spec fn write_step(before: Transport, after: Transport) -> bool {
    after.client_seq() == seq_advance(before.client_seq(), 1)
}

/// After `n` successful writes the client counter has advanced by exactly
/// `n`, modulo 2^32.
pub proof fn lemma_writes_advance(states: Seq<Transport>)
    requires
        states.len() >= 1,
        forall|i: int| 0 <= i < states.len() - 1 ==> #[trigger] write_step(states[i], states[i + 1]),
    ensures
        states.last().client_seq() == seq_advance(states[0].client_seq(), (states.len() - 1) as nat),
{
    let run = states.map_values(|t: Transport| t.client_seq());
    assert forall|i: int| 0 <= i < run.len() - 1 implies run[i + 1] == seq_advance(run[i], 1) by {
        assert(write_step(states[i], states[i + 1]));
    }
    lemma_counter_run(run);
}

/// What decoding `buf1 + buf2` gives, knowing what decoding `buf1` gave:
/// its packets, then those of what it left over followed by `buf2`.
pub open spec fn decode_more(key: Option<Seq<u8>>, first: Decoded, buf2: Seq<u8>) -> Decoded {
    match first {
        Decoded::Done { packets, counter, seen, rest } => prepend(packets, decode(key, counter, seen, rest + buf2)),
        Decoded::Failed { error } => Decoded::Failed { error },
    }
}

proof fn lemma_prepend_empty(d: Decoded)
    ensures
        prepend(Seq::empty(), d) == d,
{
    match d {
        Decoded::Done { packets, .. } => {
            assert(Seq::<Seq<u8>>::empty() + packets =~= packets);
        },
        Decoded::Failed { .. } => {},
    }
}

/// How the stream is cut into reads does not matter: decoding `buf1` and
/// then the leftover with `buf2` gives the packets, counter and state that
/// decoding `buf1 + buf2` at once gives.
pub proof fn lemma_decode_chunking(key: Option<Seq<u8>>, counter: u32, seen: bool, buf1: Seq<u8>, buf2: Seq<u8>)
    ensures
        decode(key, counter, seen, buf1 + buf2) == decode_more(key, decode(key, counter, seen, buf1), buf2),
    decreases buf1.len(),
{
    let whole = buf1 + buf2;
    let k = active(key, seen);
    match frame_step(k, counter, buf1) {
        Step::Incomplete => {
            lemma_prepend_empty(decode(key, counter, seen, whole));
        },
        Step::Bad { error } => {
            let n = frame_len(k, counter, buf1);
            assert(whole.subrange(0, 4) =~= buf1.subrange(0, 4));
            assert(frame_len(k, counter, whole) == n);
            assert(whole.subrange(0, n) =~= buf1.subrange(0, n));
        },
        Step::Frame { payload, len } => {
            let n = frame_len(k, counter, buf1);
            assert(whole.subrange(0, 4) =~= buf1.subrange(0, 4));
            assert(frame_len(k, counter, whole) == n);
            assert(whole.subrange(0, n) =~= buf1.subrange(0, n));
            assert(frame_step(k, counter, whole) == frame_step(k, counter, buf1));
            if 4 <= len <= buf1.len() {
                let c1 = seq_advance(counter, 1);
                let s1 = seen || is_newkeys(payload);
                let t1 = buf1.subrange(len, buf1.len() as int);
                assert(whole.subrange(len, whole.len() as int) =~= t1 + buf2);
                lemma_decode_chunking(key, c1, s1, t1, buf2);
                let d1 = decode(key, c1, s1, t1);
                match d1 {
                    Decoded::Done { packets, counter: c2, seen: s2, rest } => {
                        lemma_prepend_prepend(seq![payload], packets, decode(key, c2, s2, rest + buf2));
                    },
                    Decoded::Failed { .. } => {},
                }
            } else {
                lemma_prepend_empty(decode(key, counter, seen, whole));
            }
        },
    }
}

/// A plaintext packet built from `payload` decodes, alone in the buffer, to
/// exactly that payload and advances the receive counter by one.
#[verifier::rlimit(40)]
pub proof fn lemma_decode_built(key: Option<Seq<u8>>, counter: u32, payload: Seq<u8>, padding: Seq<u8>)
    requires
        payload.len() <= MAX_PAYLOAD,
        padding.len() < 12,
    ensures
        decode(key, counter, false, packet_bytes(payload, padding)) == (Decoded::Done {
            packets: seq![payload],
            counter: seq_advance(counter, 1),
            seen: is_newkeys(payload),
            rest: Seq::empty(),
        }),
{
    let p = packet_bytes(payload, padding);
    lemma_unpack_build(payload, padding);
    assert(p.subrange(0, p.len() as int) =~= p);
    assert(frame_len(None, counter, p) == p.len());
    assert(frame_step(active(key, false), counter, p) == (Step::Frame { payload, len: p.len() as int }));
    let tail = p.subrange(p.len() as int, p.len() as int);
    assert(tail =~= Seq::<u8>::empty());
    let d = decode(key, seq_advance(counter, 1), is_newkeys(payload), tail);
    assert(d == (Decoded::Done {
        packets: Seq::empty(),
        counter: seq_advance(counter, 1),
        seen: is_newkeys(payload),
        rest: Seq::<u8>::empty(),
    }));
    assert(seq![payload] + Seq::<Seq<u8>>::empty() =~= seq![payload]);
}

} // verus!
