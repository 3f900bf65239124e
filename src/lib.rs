//! The framing core of an SSH client transport: binary packets over a byte
//! stream, in plaintext or under OpenSSH's ChaCha20-Poly1305 AEAD, with the
//! per-direction sequence counters, and ssh-rsa host-key signature checks.
pub mod sequence;
pub mod wire;
pub mod packet;
pub mod aead;
pub mod hostkey;
pub mod transport;
