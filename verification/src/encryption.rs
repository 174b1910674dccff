//! The crypto envelope: password-based key derivation, AEAD sealing and
//! opening of record values, and the random salt and nonce material.
//!
//! The outside crypto calls stand behind trusted wrappers; their results are
//! named by uninterpreted spec functions, so contracts further up can say
//! exactly which sealed bytes a record holds and when opening recovers the
//! value that was sealed.

use vstd::prelude::*;

use argon2::PasswordHasher;
use rand::TryRngCore;

verus! {

/// Failure while sealing a value.
#[derive(Clone, Copy, Debug, PartialEq, Eq, Structural)]
pub enum EncryptError {
    KeyError,
}

/// Failure while opening a sealed value: authentication failed (wrong
/// password, tampered bytes, wrong nonce or AAD), or key material is absent.
#[derive(Clone, Copy, Debug, PartialEq, Eq, Structural)]
pub enum DecryptError {
    KeyError,
    KeyMissing,
}

/// Failure of password-based key derivation.
#[derive(Clone, Copy, Debug, PartialEq, Eq, Structural)]
pub enum KeyGenError {
    HashError,
    HashMissing,
}

/// The 32-byte key that Argon2 (default parameters) derives from a password
/// and a 16-byte salt.
pub uninterp spec fn derived_key_of(password: Seq<u8>, salt: Seq<u8>) -> Seq<u8>;

/// The ciphertext-and-tag that AES-256-GCM produces from a key, nonce,
/// AAD and plaintext.
pub uninterp spec fn sealed_of(key: Seq<u8>, nonce: Seq<u8>, aad: Seq<u8>, plaintext: Seq<u8>) -> Seq<u8>;

/// The outcome of AES-256-GCM authenticated decryption: the plaintext when
/// the ciphertext authenticates under key, nonce and AAD, `None` otherwise.
pub uninterp spec fn opened_of(key: Seq<u8>, nonce: Seq<u8>, aad: Seq<u8>, cipher: Seq<u8>) -> Option<
    Seq<u8>,
>;

/// Relies on rand's `OsRng::try_fill_bytes`: fills a buffer from the
/// operating system's randomness source. Nothing is assumed of the bytes
/// beyond their count; like the rest of the engine, it treats a failing
/// randomness source as fatal.
#[verifier::external_body]
pub(crate) fn random_bytes(n: usize) -> (r: Vec<u8>)
    ensures
        r@.len() == n,
{
    let mut buf = vec![0u8; n];
    rand::rngs::OsRng.try_fill_bytes(&mut buf).expect("unable to draw randomness");
    buf
}

/// Relies on argon2's `Argon2::hash_password` with the crate's default
/// parameters: for a password shorter than 2^32 bytes and a 16-byte salt it
/// always succeeds, and its 32-byte output is a function of password and
/// salt alone.
#[verifier::external_body]
pub(crate) fn derive_key(password: &Vec<u8>, salt: &Vec<u8>) -> (r: Vec<u8>)
    requires
        password@.len() < 0x100000000,
        salt@.len() == 16,
    ensures
        r@ == derived_key_of(password@, salt@),
        r@.len() == 32,
{
    let salt_string = argon2::password_hash::SaltString::encode_b64(salt.as_slice())
        .expect("a 16-byte salt encodes");
    let hashed = argon2::Argon2::default()
        .hash_password(password.as_slice(), salt_string.as_salt())
        .expect("default parameters accept these inputs");
    let output = hashed.hash.expect("hashing produces an output");
    output.as_bytes().to_vec()
}

/// Relies on ring's `LessSafeKey::seal_in_place_append_tag` with
/// `AES_256_GCM`: the buffer is replaced by ciphertext plus a 16-byte tag, a
/// function of key, nonce, AAD and plaintext alone, and opening the sealed
/// buffer under the same key, nonce and AAD recovers the plaintext.
#[verifier::external_body]
pub(crate) fn aead_seal(key: &Vec<u8>, nonce: &Vec<u8>, aad: &Vec<u8>, data: &mut Vec<u8>)
    requires
        key@.len() == 32,
        nonce@.len() == 12,
        aad@.len() < 0x100000000,
        old(data)@.len() < 0x100000000,
    ensures
        final(data)@ == sealed_of(key@, nonce@, aad@, old(data)@),
        final(data)@.len() == old(data)@.len() + 16,
        opened_of(key@, nonce@, aad@, final(data)@) == Some(old(data)@),
{
    let unbound = ring::aead::UnboundKey::new(&ring::aead::AES_256_GCM, key.as_slice())
        .expect("an AES-256 key is 32 bytes");
    let sealing = ring::aead::LessSafeKey::new(unbound);
    let n = ring::aead::Nonce::try_assume_unique_for_key(nonce.as_slice())
        .expect("a nonce is 12 bytes");
    sealing
        .seal_in_place_append_tag(n, ring::aead::Aad::from(aad.as_slice()), data)
        .expect("plaintext is within AES-GCM bounds");
}

/// Relies on ring's `LessSafeKey::open_in_place` with `AES_256_GCM`: the
/// outcome is a function of key, nonce, AAD and ciphertext alone; it is the
/// plaintext exactly when the buffer authenticates under them.
#[verifier::external_body]
pub(crate) fn aead_open(key: &Vec<u8>, nonce: &Vec<u8>, aad: &Vec<u8>, data: &Vec<u8>) -> (r: Result<Vec<u8>, DecryptError>)
    requires
        key@.len() == 32,
        nonce@.len() == 12,
    ensures
        match r {
            Ok(p) => opened_of(key@, nonce@, aad@, data@) == Some(p@) && p@.len() + 16
                == data@.len(),
            Err(e) => opened_of(key@, nonce@, aad@, data@) is None && e == DecryptError::KeyError,
        },
{
    let unbound = ring::aead::UnboundKey::new(&ring::aead::AES_256_GCM, key.as_slice())
        .expect("an AES-256 key is 32 bytes");
    let opening = ring::aead::LessSafeKey::new(unbound);
    let n = ring::aead::Nonce::try_assume_unique_for_key(nonce.as_slice())
        .expect("a nonce is 12 bytes");
    let mut buf = data.clone();
    match opening.open_in_place(n, ring::aead::Aad::from(aad.as_slice()), buf.as_mut_slice()) {
        Ok(plain) => Ok(plain.to_vec()),
        Err(_) => Err(DecryptError::KeyError),
    }
}

/// Carrier for one freshly drawn 12-byte nonce.
#[derive(Clone, Debug)]
pub struct NoncePlaceholder {
    pub n: Vec<u8>,
}

impl NoncePlaceholder {
    /// Draws a fresh random nonce from the OS randomness source.
    pub fn new() -> (r: Self)
        ensures
            r.n@.len() == 12,
    {
        NoncePlaceholder { n: random_bytes(12) }
    }

    pub fn from_bytes(bytes: Vec<u8>) -> (r: Self)
        ensures
            r.n@ == bytes@,
    {
        NoncePlaceholder { n: bytes }
    }
}

/// Sealing half of the envelope: a password, the key derived from it under
/// a fresh salt, and the salt itself.
#[derive(Clone, Debug)]
pub struct DefaultEncrypter {
    pub password: Vec<u8>,
    pub key: Vec<u8>,
    pub salt: Vec<u8>,
}

impl DefaultEncrypter {
    /// The key matches what Argon2 derives from the password and salt.
    pub open spec fn wf(&self) -> bool {
        &&& self.key@ == derived_key_of(self.password@, self.salt@)
        &&& self.key@.len() == 32
        &&& self.salt@.len() == 16
        &&& self.password@.len() < 0x100000000
    }

    pub open spec fn spec_salt(&self) -> Seq<u8> {
        self.salt@
    }

    /// Draws a fresh 16-byte salt and derives the sealing key from it.
    pub fn new(password: Vec<u8>) -> (r: Result<Self, KeyGenError>)
        requires
            password@.len() < 0x100000000,
        ensures
            match r {
                Ok(e) => e.wf() && e.password@ == password@,
                Err(_) => false,
            },
    {
        let salt = random_bytes(16);
        let key = derive_key(&password, &salt);
        Ok(DefaultEncrypter { password, key, salt })
    }

    /// The raw 16-byte salt this encrypter derives its key from.
    pub fn get_salt_bytes(&self) -> (r: &Vec<u8>)
        ensures
            r@ == self.spec_salt(),
    {
        &self.salt
    }

    /// Seals the buffer in place under a fresh random nonce, authenticating
    /// the AAD (the record's key name), and returns the nonce.
    pub fn encrypt(&self, data_in_place: &mut Vec<u8>, aad: Option<&Vec<u8>>) -> (r: Result<
        Vec<u8>,
        EncryptError,
    >)
        requires
            self.wf(),
            aad is Some,
            aad.unwrap()@.len() < 0x100000000,
            old(data_in_place)@.len() < 0x100000000,
        ensures
            match r {
                Ok(nonce) => {
                    &&& nonce@.len() == 12
                    &&& final(data_in_place)@ == sealed_of(
                        self.key@,
                        nonce@,
                        aad.unwrap()@,
                        old(data_in_place)@,
                    )
                    &&& final(data_in_place)@.len() == old(data_in_place)@.len() + 16
                    &&& opened_of(self.key@, nonce@, aad.unwrap()@, final(data_in_place)@)
                        == Some(old(data_in_place)@)
                },
                Err(_) => false,
            },
    {
        let nonce = NoncePlaceholder::new();
        let a = aad.unwrap();
        aead_seal(&self.key, &nonce.n, a, data_in_place);
        Ok(nonce.n)
    }
}

/// Opening half of the envelope: the key derived from a password and the
/// salt carried by the data being opened.
#[derive(Clone, Debug)]
pub struct DefaultDecrypter {
    pub key: Vec<u8>,
}

impl DefaultDecrypter {
    pub open spec fn spec_key(&self) -> Seq<u8> {
        self.key@
    }

    pub open spec fn wf(&self) -> bool {
        self.key@.len() == 32
    }

    /// Derives the opening key for the given password and 16-byte salt.
    pub fn new(password: Vec<u8>, salt: Vec<u8>) -> (r: Result<Self, KeyGenError>)
        requires
            password@.len() < 0x100000000,
            salt@.len() == 16,
        ensures
            match r {
                Ok(d) => d.wf() && d.spec_key() == derived_key_of(password@, salt@),
                Err(_) => false,
            },
    {
        Ok(DefaultDecrypter { key: derive_key(&password, &salt) })
    }

    /// Opens a sealed buffer. Succeeds exactly when the bytes authenticate
    /// under this key, the nonce and the AAD; a buffer sealed under the same
    /// key, nonce and AAD yields the plaintext that was sealed.
    pub fn decrypt(&self, enc_bytes: &Vec<u8>, nonce_bytes: &Vec<u8>, value_key_bytes: &Vec<u8>) -> (r:
        Result<Vec<u8>, DecryptError>)
        requires
            self.wf(),
            nonce_bytes@.len() == 12,
        ensures
            match r {
                Ok(p) => opened_of(self.spec_key(), nonce_bytes@, value_key_bytes@, enc_bytes@)
                    == Some(p@),
                Err(_) => opened_of(self.spec_key(), nonce_bytes@, value_key_bytes@, enc_bytes@)
                    is None,
            },
    {
        aead_open(&self.key, nonce_bytes, value_key_bytes, enc_bytes)
    }
}

} // verus!
