//! The crypto envelope: seal/open round trips and authentication failures.

use enc_kv_store::encryption::{DefaultDecrypter, DefaultEncrypter, NoncePlaceholder};

fn b(s: &str) -> Vec<u8> {
    s.as_bytes().to_vec()
}

#[test]
fn seal_open_roundtrip() {
    let enc = DefaultEncrypter::new(b("password")).unwrap();
    let salt = enc.get_salt_bytes().clone();
    let aad = b("some-key");
    let plaintext = b("forty-two");
    let mut buf = plaintext.clone();
    let nonce = enc.encrypt(&mut buf, Some(&aad)).unwrap();
    assert_eq!(nonce.len(), 12);
    assert_eq!(buf.len(), plaintext.len() + 16);
    assert_ne!(&buf[..plaintext.len()], plaintext.as_slice());

    let dec = DefaultDecrypter::new(b("password"), salt).unwrap();
    let opened = dec.decrypt(&buf, &nonce, &aad).unwrap();
    assert_eq!(opened, plaintext);
}

#[test]
fn open_fails_on_tampered_ciphertext() {
    let enc = DefaultEncrypter::new(b("password")).unwrap();
    let salt = enc.get_salt_bytes().clone();
    let aad = b("k");
    let mut buf = b("value");
    let nonce = enc.encrypt(&mut buf, Some(&aad)).unwrap();
    let mut tampered = buf.clone();
    tampered[0] ^= 1;
    let dec = DefaultDecrypter::new(b("password"), salt).unwrap();
    assert!(dec.decrypt(&tampered, &nonce, &aad).is_err());
}

#[test]
fn open_fails_on_wrong_password() {
    let enc = DefaultEncrypter::new(b("password")).unwrap();
    let salt = enc.get_salt_bytes().clone();
    let aad = b("k");
    let mut buf = b("value");
    let nonce = enc.encrypt(&mut buf, Some(&aad)).unwrap();
    let dec = DefaultDecrypter::new(b("hunter2"), salt).unwrap();
    assert!(dec.decrypt(&buf, &nonce, &aad).is_err());
}

#[test]
fn open_fails_on_wrong_aad() {
    let enc = DefaultEncrypter::new(b("password")).unwrap();
    let salt = enc.get_salt_bytes().clone();
    let mut buf = b("value");
    let nonce = enc.encrypt(&mut buf, Some(&b("k"))).unwrap();
    let dec = DefaultDecrypter::new(b("password"), salt).unwrap();
    assert!(dec.decrypt(&buf, &nonce, &b("other")).is_err());
}

#[test]
fn open_fails_on_wrong_nonce() {
    let enc = DefaultEncrypter::new(b("password")).unwrap();
    let salt = enc.get_salt_bytes().clone();
    let aad = b("k");
    let mut buf = b("value");
    let mut nonce = enc.encrypt(&mut buf, Some(&aad)).unwrap();
    nonce[3] ^= 0xff;
    let dec = DefaultDecrypter::new(b("password"), salt).unwrap();
    assert!(dec.decrypt(&buf, &nonce, &aad).is_err());
}

#[test]
fn open_fails_on_wrong_salt() {
    let enc = DefaultEncrypter::new(b("password")).unwrap();
    let mut salt = enc.get_salt_bytes().clone();
    let aad = b("k");
    let mut buf = b("value");
    let nonce = enc.encrypt(&mut buf, Some(&aad)).unwrap();
    salt[0] ^= 1;
    let dec = DefaultDecrypter::new(b("password"), salt).unwrap();
    assert!(dec.decrypt(&buf, &nonce, &aad).is_err());
}

#[test]
fn derivation_is_deterministic_per_salt() {
    let enc = DefaultEncrypter::new(b("password")).unwrap();
    let salt = enc.get_salt_bytes().clone();
    // sealing with the encrypter and opening with a decrypter derived
    // independently from the same password and salt must agree
    let aad = b("k");
    let mut buf = b("payload");
    let nonce = enc.encrypt(&mut buf, Some(&aad)).unwrap();
    let dec1 = DefaultDecrypter::new(b("password"), salt.clone()).unwrap();
    let dec2 = DefaultDecrypter::new(b("password"), salt).unwrap();
    assert_eq!(dec1.decrypt(&buf, &nonce, &aad).unwrap(), b("payload"));
    assert_eq!(dec2.decrypt(&buf, &nonce, &aad).unwrap(), b("payload"));
}

#[test]
fn fresh_nonces_differ() {
    let n1 = NoncePlaceholder::new();
    let n2 = NoncePlaceholder::new();
    assert_eq!(n1.n.len(), 12);
    assert_eq!(n2.n.len(), 12);
    assert_ne!(n1.n, n2.n);
    let n3 = NoncePlaceholder::from_bytes(vec![7u8; 12]);
    assert_eq!(n3.n, vec![7u8; 12]);
}

#[test]
fn salts_are_sixteen_bytes_and_differ_per_encrypter() {
    let e1 = DefaultEncrypter::new(b("password")).unwrap();
    let e2 = DefaultEncrypter::new(b("password")).unwrap();
    assert_eq!(e1.get_salt_bytes().len(), 16);
    assert_eq!(e2.get_salt_bytes().len(), 16);
    assert_ne!(e1.get_salt_bytes(), e2.get_salt_bytes());
}
