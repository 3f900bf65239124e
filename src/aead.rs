use vstd::prelude::*;

verus! {

/// The frame that ring's OpenSSH ChaCha20-Poly1305 sealing key made of
/// `key` seals a plaintext packet into under `seq`:
/// `encrypted_length || ciphertext || tag`.
pub uninterp spec fn sealed(key: Seq<u8>, seq: u32, plain: Seq<u8>) -> Seq<u8>;

/// The four length bytes that ring's OpenSSH ChaCha20-Poly1305 opening key
/// made of `key` decrypts `enc` into under `seq`.
pub uninterp spec fn opened_length(key: Seq<u8>, seq: u32, enc: Seq<u8>) -> Seq<u8>;

/// What ring's OpenSSH ChaCha20-Poly1305 opening key made of `key` gives for
/// `encrypted_length || ciphertext` with `tag` under `seq`: the plaintext
/// after the length field, or `None` where the tag does not authenticate it.
pub uninterp spec fn opened(key: Seq<u8>, seq: u32, frame: Seq<u8>, tag: Seq<u8>) -> Option<Seq<u8>>;

/// Relies on ring's `chacha20_poly1305_openssh::SealingKey::seal_in_place`,
/// which panics only on input shorter than the length field; the tag it
/// writes is appended.
#[verifier::external_body]
pub(crate) fn seal(key: &[u8; 64], seq: u32, plain: Vec<u8>) -> (r: Vec<u8>)
    requires
        plain@.len() >= 4,
    ensures
        r@ == sealed(key@, seq, plain@),
        r@.len() == plain@.len() + 16,
{
    let mut buf = plain;
    let mut tag = [0u8; 16];
    ring::aead::chacha20_poly1305_openssh::SealingKey::new(key).seal_in_place(seq, &mut buf, &mut tag);
    buf.extend_from_slice(&tag);
    buf
}

/// Relies on ring's `chacha20_poly1305_openssh::OpeningKey::decrypt_packet_length`.
#[verifier::external_body]
pub(crate) fn decrypt_length(key: &[u8; 64], seq: u32, enc: [u8; 4]) -> (r: [u8; 4])
    ensures
        r@ == opened_length(key@, seq, enc@),
{
    ring::aead::chacha20_poly1305_openssh::OpeningKey::new(key).decrypt_packet_length(seq, enc)
}

/// Relies on ring's `chacha20_poly1305_openssh::OpeningKey::open_in_place`:
/// `Ok` with the plaintext after the length field, or an error where the
/// tag fails or the frame is shorter than the length field.
#[verifier::external_body]
pub(crate) fn open(key: &[u8; 64], seq: u32, frame: &[u8], tag: &[u8]) -> (r: Option<Vec<u8>>)
    requires
        tag@.len() == 16,
    ensures
        match opened(key@, seq, frame@, tag@) {
            Some(p) => r is Some && r->0@ == p,
            None => r is None,
        },
{
    let tag: &[u8; 16] = tag.try_into().unwrap();
    let mut buf = frame.to_vec();
    match ring::aead::chacha20_poly1305_openssh::OpeningKey::new(key).open_in_place(seq, &mut buf, tag) {
        Ok(p) => Some(p.to_vec()),
        Err(_) => None,
    }
}

/// Relies on ring's `SystemRandom::fill`: `n` bytes from the operating
/// system's generator, or `None` where it fails.
#[verifier::external_body]
pub(crate) fn random_bytes(n: usize) -> (r: Option<Vec<u8>>)
    ensures
        r is Some ==> r->0@.len() == n,
{
    let mut buf = vec![0u8; n];
    match ring::rand::SecureRandom::fill(&ring::rand::SystemRandom::new(), &mut buf) {
        Ok(()) => Some(buf),
        Err(_) => None,
    }
}

} // verus!
