use ssh_transport::packet::{build_packet, padding_length, unpack_body};
use ssh_transport::sequence::Sequence;
use ssh_transport::transport::{
    is_would_block, read_action, ReadAction, ReadOutcome, Transport, TransportError,
};

const CLIENT_KEY: [u8; 64] = [7u8; 64];
const SERVER_KEY: [u8; 64] = [9u8; 64];

fn plain_frame(payload: &[u8]) -> Vec<u8> {
    let pad = padding_length(payload.len(), false) as usize;
    build_packet(payload, &vec![0u8; pad])
}

/// A peer that sends NEWKEYS in plaintext and then `payload` sealed with
/// `SERVER_KEY`; returns the two frames.
fn peer_frames(payload: &[u8]) -> (Vec<u8>, Vec<u8>) {
    let mut peer = Transport::new();
    let newkeys = peer.write(&[21]).unwrap();
    peer.enable_encryption(SERVER_KEY, CLIENT_KEY);
    let sealed = peer.write(payload).unwrap();
    (newkeys, sealed)
}

fn receiver() -> Transport {
    let mut t = Transport::new();
    t.enable_encryption(CLIENT_KEY, SERVER_KEY);
    t
}

#[test]
fn new_transport_counts_nothing() {
    let t = Transport::new();
    assert_eq!(t.client_sequence_num(), 0);
    assert_eq!(t.server_sequence_num(), 0);
    assert!(!t.needs_more());
}

#[test]
fn sequence_wraps_at_u32_max() {
    let mut s = Sequence::new();
    s.client_sequence_num = u32::MAX;
    s.server_sequence_num = u32::MAX - 1;
    s.client_auto_increment();
    s.server_auto_increment();
    assert_eq!(s.client_sequence_num, 0);
    assert_eq!(s.server_sequence_num, u32::MAX);
    s.server_auto_increment();
    assert_eq!(s.server_sequence_num, 0);
}

#[test]
fn plaintext_write_is_framed_and_counted() {
    let mut t = Transport::new();
    let payload = [0x05, b'h', b'e', b'l', b'l', b'o', 0, 0, 0, 0, 0];
    let wire = t.write(&payload).unwrap();
    let len = u32::from_be_bytes([wire[0], wire[1], wire[2], wire[3]]) as usize;
    assert_eq!(len, wire.len() - 4);
    assert!(wire[4] >= 4);
    assert_eq!(wire.len() % 8, 0);
    assert_eq!(wire.len(), 4 + 1 + 11 + wire[4] as usize);
    assert_eq!(&wire[5..16], &payload[..]);
    assert_eq!(t.client_sequence_num(), 1);
}

#[test]
fn n_writes_advance_client_counter_by_n() {
    let mut t = Transport::new();
    for i in 0..5u8 {
        t.write(&[i]).unwrap();
    }
    assert_eq!(t.client_sequence_num(), 5);
}

#[test]
fn build_packet_exact_bytes() {
    let p = build_packet(&[0x15], &[1, 2, 3, 4, 5, 6]);
    assert_eq!(p, vec![0, 0, 0, 8, 6, 0x15, 1, 2, 3, 4, 5, 6]);
}

#[test]
fn padding_length_values() {
    // plaintext: 4 + 1 + 1 + pad is a multiple of 8, pad at least 4
    assert_eq!(padding_length(1, false), 10);
    assert_eq!(padding_length(3, false), 8);
    assert_eq!(padding_length(7, false), 4);
    // under AEAD the length field is outside the aligned part
    assert_eq!(padding_length(1, true), 6);
    assert_eq!(padding_length(3, true), 4);
    assert_eq!(padding_length(4, true), 11);
}

#[test]
fn unpack_body_strips_padding() {
    let body = [3, 0x05, b'h', b'i', 9, 9, 9];
    assert_eq!(unpack_body(&body, 0, body.len()), Some(vec![0x05, b'h', b'i']));
    assert_eq!(unpack_body(&[7, 1, 2], 0, 3), None);
    assert_eq!(unpack_body(&[], 0, 0), None);
}

#[test]
fn two_plaintext_packets_in_one_read() {
    let mut wire = plain_frame(&[0x15]);
    wire.extend(plain_frame(&[0x05, b'h', b'i']));
    let mut t = Transport::new();
    let got = t.receive(&wire).unwrap();
    assert_eq!(got, vec![vec![0x15], vec![0x05, b'h', b'i']]);
    assert_eq!(t.server_sequence_num(), 2);
    assert!(!t.needs_more());
}

#[test]
fn malformed_padding_length_is_refused() {
    let wire = vec![0, 0, 0, 4, 9, 1, 2, 3];
    let mut t = Transport::new();
    assert_eq!(t.receive(&wire), Err(TransportError::Malformed));
}

#[test]
fn plaintext_chunking_does_not_matter() {
    let mut wire = plain_frame(&[1, 2, 3]);
    wire.extend(plain_frame(&[4]));
    wire.extend(plain_frame(&[5, 6, 7, 8, 9, 10, 11, 12, 13]));
    let mut whole = Transport::new();
    let expected = whole.receive(&wire).unwrap();
    assert_eq!(expected.len(), 3);
    for cut in [1usize, 3, 4, 5, 17, 31] {
        let mut t = Transport::new();
        let mut got = Vec::new();
        for part in wire.chunks(cut) {
            got.extend(t.receive(part).unwrap());
        }
        assert_eq!(got, expected);
        assert_eq!(t.server_sequence_num(), 3);
        assert!(!t.needs_more());
    }
}

#[test]
fn encrypted_packet_split_across_three_reads() {
    let (newkeys, sealed) = peer_frames(&[0x05, b'h', b'i']);
    let mut t = receiver();
    assert_eq!(t.receive(&newkeys).unwrap(), vec![vec![21]]);
    let before = t.server_sequence_num();
    assert!(t.receive(&sealed[..1]).unwrap().is_empty());
    assert!(t.needs_more());
    assert!(t.receive(&sealed[1..4]).unwrap().is_empty());
    let got = t.receive(&sealed[4..]).unwrap();
    assert_eq!(got, vec![vec![0x05, b'h', b'i']]);
    assert_eq!(t.server_sequence_num(), before + 1);
    assert!(!t.needs_more());
}

#[test]
fn sealed_frame_differs_from_plaintext() {
    let (_, sealed) = peer_frames(&[0x05, b'h', b'i']);
    let pad = padding_length(3, true) as usize;
    assert_eq!(sealed.len(), 4 + 1 + 3 + pad + 16);
    assert_ne!(&sealed[5..8], &[0x05, b'h', b'i']);
}

#[test]
fn corrupted_encrypted_packet_fails_mac() {
    let (newkeys, sealed) = peer_frames(&[0x05, b'h', b'i']);
    for i in 4..sealed.len() {
        let mut bad = sealed.clone();
        bad[i] ^= 0x01;
        let mut t = receiver();
        t.receive(&newkeys).unwrap();
        assert_eq!(t.receive(&bad), Err(TransportError::MacError));
    }
}

#[test]
fn corrupted_length_field_emits_nothing() {
    let (newkeys, sealed) = peer_frames(&[0x05, b'h', b'i']);
    for i in 0..4 {
        let mut bad = sealed.clone();
        bad[i] ^= 0x01;
        let mut t = receiver();
        t.receive(&newkeys).unwrap();
        match t.receive(&bad) {
            Err(e) => assert_eq!(e, TransportError::MacError),
            Ok(got) => {
                assert!(got.is_empty());
                assert!(t.needs_more());
            }
        }
    }
}

#[test]
fn newkeys_and_first_encrypted_packet_in_one_read() {
    let (newkeys, sealed) = peer_frames(&[0x05, b'o', b'k']);
    let mut wire = newkeys.clone();
    wire.extend(sealed);
    let mut t = receiver();
    let got = t.receive(&wire).unwrap();
    assert_eq!(got, vec![vec![21], vec![0x05, b'o', b'k']]);
    assert_eq!(t.server_sequence_num(), 2);
}

#[test]
fn encrypted_round_trip_many_packets() {
    let mut peer = Transport::new();
    let mut wire = peer.write(&[21]).unwrap();
    peer.enable_encryption(SERVER_KEY, CLIENT_KEY);
    let payloads: Vec<Vec<u8>> = (0..6u8).map(|i| vec![94, i, i, i]).collect();
    for p in &payloads {
        wire.extend(peer.write(p).unwrap());
    }
    let mut t = receiver();
    let mut got = Vec::new();
    for part in wire.chunks(7) {
        got.extend(t.receive(part).unwrap());
    }
    assert_eq!(got[0], vec![21]);
    assert_eq!(&got[1..], &payloads[..]);
    assert_eq!(t.server_sequence_num(), 7);
}

#[test]
fn read_decisions() {
    assert_eq!(read_action(ReadOutcome::Bytes, false), ReadAction::Decode);
    assert_eq!(read_action(ReadOutcome::WouldBlock, false), ReadAction::Finish);
    assert_eq!(read_action(ReadOutcome::WouldBlock, true), ReadAction::Retry);
    assert_eq!(read_action(ReadOutcome::Closed, false), ReadAction::Finish);
    assert_eq!(
        read_action(ReadOutcome::Closed, true),
        ReadAction::Fail(TransportError::ShortRead)
    );
    assert_eq!(read_action(ReadOutcome::Failed, false), ReadAction::Fail(TransportError::Io));
    assert!(is_would_block(&ReadOutcome::WouldBlock));
    assert!(!is_would_block(&ReadOutcome::Failed));
}
