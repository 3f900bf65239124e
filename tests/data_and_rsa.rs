use rand::SeedableRng;
use rsa::{PaddingScheme, PublicKeyParts, RsaPrivateKey};
use ssh_transport::hostkey::{u8s_to_u32s, RSA};
use ssh_transport::wire::Data;

fn ssh_string(out: &mut Vec<u8>, s: &[u8]) {
    out.extend_from_slice(&(s.len() as u32).to_be_bytes());
    out.extend_from_slice(s);
}

#[test]
fn data_reads_from_the_front() {
    let mut d = Data::new(vec![7, 0, 0, 1, 2, 0, 0, 0, 2, b'h', b'i', 9]);
    assert_eq!(d.get_u8(), Some(7));
    assert_eq!(d.get_u32(), Some(258));
    assert_eq!(d.get_u8s(), Some(vec![b'h', b'i']));
    assert_eq!(d.remaining(), 1);
    assert_eq!(d.get_u32(), None);
    assert_eq!(d.to_vec(), vec![9]);
    assert_eq!(d.get_u8(), Some(9));
    assert_eq!(d.get_u8(), None);
}

#[test]
fn data_short_string_reads_nothing() {
    let mut d = Data::new(vec![0, 0, 0, 5, 1, 2]);
    assert_eq!(d.get_u8s(), None);
    assert_eq!(d.remaining(), 6);
}

#[test]
fn widen_bytes() {
    assert_eq!(u8s_to_u32s(vec![0, 1, 255]), vec![0u32, 1, 255]);
    assert_eq!(u8s_to_u32s(vec![]), Vec::<u32>::new());
}

#[test]
fn rsa_signature_accepts_valid_and_rejects_flipped() {
    let mut rng = rand::rngs::StdRng::seed_from_u64(42);
    let key = RsaPrivateKey::new(&mut rng, 512).unwrap();
    let message = b"exchange hash".to_vec();
    let digest = ring::digest::digest(&ring::digest::SHA1_FOR_LEGACY_USE_ONLY, &message);
    let sig = key
        .sign(PaddingScheme::new_pkcs1v15_sign(Some(rsa::Hash::SHA1)), digest.as_ref())
        .unwrap();
    let mut inner = Vec::new();
    ssh_string(&mut inner, b"ssh-rsa");
    ssh_string(&mut inner, &key.e().to_bytes_be());
    ssh_string(&mut inner, &key.n().to_bytes_be());
    let mut ks = Vec::new();
    ssh_string(&mut ks, &inner);

    let v = RSA::new();
    assert!(v.verify_signature(&ks, &message, &sig));
    assert!(!v.verify_signature(&ks, b"other message", &sig));
    for i in 0..sig.len() {
        let mut bad = sig.clone();
        bad[i] ^= 0x80;
        assert!(!v.verify_signature(&ks, &message, &bad));
    }
}

#[test]
fn rsa_unparsable_key_is_rejected() {
    let v = RSA::new();
    assert!(!v.verify_signature(&[0, 0], b"m", &[1, 2, 3]));
    assert!(!v.verify_signature(&[0, 0, 0, 9, 0, 0, 0, 50, 1], b"m", &[1, 2, 3]));
}
