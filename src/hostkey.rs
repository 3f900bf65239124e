use vstd::prelude::*;
use crate::wire::{Data, string_at};
use ::rsa::PublicKey;

verus! {

/// The SHA-1 digest of `m`.
pub uninterp spec fn sha1_of(m: Seq<u8>) -> Seq<u8>;

/// Whether rsa's PKCS#1 v1.5 verification with the SHA-1 prefix accepts
/// `sig` over `digest` under the key of big-endian modulus `n` and exponent
/// `e`; false also where rsa refuses the key itself.
pub uninterp spec fn rsa_sha1_accepts(n: Seq<u8>, e: Seq<u8>, digest: Seq<u8>, sig: Seq<u8>) -> bool;

/// Relies on ring's `digest::digest` with `SHA1_FOR_LEGACY_USE_ONLY`, whose
/// output is twenty bytes.
#[verifier::external_body]
fn sha1(m: &[u8]) -> (r: Vec<u8>)
    ensures
        r@ == sha1_of(m@),
        r@.len() == 20,
{
    ring::digest::digest(&ring::digest::SHA1_FOR_LEGACY_USE_ONLY, m).as_ref().to_vec()
}

/// Relies on rsa's `RsaPublicKey::new`, which refuses an invalid key with an
/// error, and `PublicKey::verify` with `PaddingScheme::PKCS1v15Sign` and
/// `Hash::SHA1`, which returns `Ok` where the signature is valid.
#[verifier::external_body]
fn rsa_verify_sha1(n: &[u8], e: &[u8], digest: &[u8], sig: &[u8]) -> (r: bool)
    ensures
        r == rsa_sha1_accepts(n@, e@, digest@, sig@),
{
    let n = ::rsa::BigUint::from_bytes_be(n);
    let e = ::rsa::BigUint::from_bytes_be(e);
    match ::rsa::RsaPublicKey::new(n, e) {
        Ok(k) => k.verify(::rsa::PaddingScheme::new_pkcs1v15_sign(Some(::rsa::Hash::SHA1)), digest, sig).is_ok(),
        Err(_) => false,
    }
}

/// The exponent and modulus of an SSH-format RSA key blob: a 32-bit outer
/// length, then the strings algorithm name, `e` and `n`.
pub open spec fn rsa_key_parts(ks: Seq<u8>) -> Option<(Seq<u8>, Seq<u8>)> {
    if ks.len() < 4 {
        None
    } else {
        match string_at(ks.subrange(4, ks.len() as int)) {
            None => None,
            Some((_name, r1)) => match string_at(r1) {
                None => None,
                Some((e, r2)) => match string_at(r2) {
                    None => None,
                    Some((n, _r3)) => Some((e, n)),
                },
            },
        }
    }
}

/// Widens each byte to 32 bits.
pub fn u8s_to_u32s(v: Vec<u8>) -> (r: Vec<u32>)
    ensures
        r@.len() == v@.len(),
        forall|i: int| 0 <= i < v@.len() ==> r@[i] == v@[i] as u32,
{
    let mut r: Vec<u32> = Vec::new();
    let mut i: usize = 0;
    while i < v.len()
        invariant
            i <= v@.len(),
            r@.len() == i,
            forall|j: int| 0 <= j < i ==> r@[j] == v@[j] as u32,
        decreases v@.len() - i,
    {
        r.push(v[i] as u32);
        i = i + 1;
    }
    r
}

pub struct RSA;

impl RSA {
    pub fn new() -> (r: RSA) {
        RSA
    }

    /// Checks an ssh-rsa signature: `sig` over the SHA-1 digest of
    /// `message`, under the key in the blob `ks`. A blob that does not
    /// parse is a rejection.
    pub fn verify_signature(&self, ks: &[u8], message: &[u8], sig: &[u8]) -> (r: bool)
        ensures
            r == match rsa_key_parts(ks@) {
                Some((e, n)) => rsa_sha1_accepts(n, e, sha1_of(message@), sig@),
                None => false,
            },
    {
        if ks.len() < 4 {
            return false;
        }
        let mut rest: Vec<u8> = Vec::new();
        crate::wire::extend_range(&mut rest, ks, 4, ks.len());
        let mut data = Data::new(rest);
        let name = data.get_u8s();
        if name.is_none() {
            return false;
        }
        let e = match data.get_u8s() {
            Some(e) => e,
            None => return false,
        };
        let n = match data.get_u8s() {
            Some(n) => n,
            None => return false,
        };
        let digest = sha1(message);
        rsa_verify_sha1(n.as_slice(), e.as_slice(), digest.as_slice(), sig)
    }
}

} // verus!
