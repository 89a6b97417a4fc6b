//! The crypto facade: every cryptographic operation of the store goes
//! through the functions here, which rely on sodiumoxide. The names
//! (`hash_of`, `sig_of`, ...) stand for what the primitives return; the
//! rest of the crate reasons only over those names.

use vstd::prelude::*;

verus! {

/// The number of bytes of a content digest (SHA-512).
pub const DIGEST_LEN: usize = 64;

/// The number of bytes of a detached signature.
pub const SIG_LEN: usize = 64;

/// The number of bytes of a signing public key.
pub const SIGN_PK_LEN: usize = 32;

/// The number of bytes of a signing secret key.
pub const SIGN_SK_LEN: usize = 64;

/// The number of bytes of an encryption public key.
pub const BOX_PK_LEN: usize = 32;

/// The number of bytes of an encryption secret key.
pub const BOX_SK_LEN: usize = 32;

/// The number of bytes a sealed box adds to its plaintext.
pub const SEAL_OVERHEAD: usize = 48;

/// The number of bytes of a symmetric key.
pub const SYM_KEY_LEN: usize = 32;

/// The number of bytes of a symmetric nonce.
pub const SYM_NONCE_LEN: usize = 24;

/// The number of bytes a symmetric seal adds to its plaintext.
pub const SYM_OVERHEAD: usize = 16;

/// The number of bytes of a key-derivation salt.
pub const SALT_LEN: usize = 32;

/// The digest of a byte sequence.
pub uninterp spec fn hash_of(m: Seq<u8>) -> Seq<u8>;

/// The detached signature over a message under a signing secret key.
pub uninterp spec fn sig_of(m: Seq<u8>, sk: Seq<u8>) -> Seq<u8>;

/// Whether a detached signature verifies over a message under a signing
/// public key.
pub uninterp spec fn sig_verifies(sig: Seq<u8>, m: Seq<u8>, pk: Seq<u8>) -> bool;

/// The signing public key that belongs to a signing secret key.
pub uninterp spec fn sign_pk_of(sk: Seq<u8>) -> Seq<u8>;

/// The encryption public key that belongs to an encryption secret key.
pub uninterp spec fn box_pk_of(sk: Seq<u8>) -> Seq<u8>;

/// What opening a sealed box returns under a key pair.
pub uninterp spec fn sealed_box_open_of(c: Seq<u8>, pk: Seq<u8>, sk: Seq<u8>) -> Option<Seq<u8>>;

/// The symmetric authenticated encryption of a message under a nonce and key.
pub uninterp spec fn secretbox_seal_of(m: Seq<u8>, n: Seq<u8>, k: Seq<u8>) -> Seq<u8>;

/// What opening a symmetric box returns under a nonce and key.
pub uninterp spec fn secretbox_open_of(c: Seq<u8>, n: Seq<u8>, k: Seq<u8>) -> Option<Seq<u8>>;

/// The symmetric key derived from a password and a salt.
pub uninterp spec fn kdf_of(pwd: Seq<u8>, salt: Seq<u8>) -> Seq<u8>;

/// Relies on sodiumoxide::crypto::hash::hash: SHA-512, a 64-byte digest
/// determined by the input alone.
#[verifier::external_body]
pub(crate) fn hash_bytes(m: &[u8]) -> (r: Vec<u8>)
    ensures
        r@ == hash_of(m@),
        r@.len() == DIGEST_LEN,
{
    sodiumoxide::crypto::hash::hash(m).0.to_vec()
}

/// Relies on sodiumoxide::crypto::sign::sign_detached: Ed25519, a
/// signature determined by message and key alone. Whether it verifies is
/// a fact about the key pair, stated where the pair is made.
#[verifier::external_body]
pub(crate) fn sign_detached_bytes(m: &[u8], sk: &[u8]) -> (r: Vec<u8>)
    requires
        sk@.len() == SIGN_SK_LEN,
    ensures
        r@ == sig_of(m@, sk@),
        r@.len() == SIG_LEN,
{
    let key = sodiumoxide::crypto::sign::SecretKey::from_slice(sk).unwrap();
    sodiumoxide::crypto::sign::sign_detached(m, &key).to_bytes().to_vec()
}

/// Relies on sodiumoxide::crypto::sign::verify_detached and
/// sign::Signature::from_bytes: whether the signature verifies is determined
/// by signature, message and public key; a byte string that from_bytes
/// rejects (a non-canonical scalar) is no valid signature.
#[verifier::external_body]
pub(crate) fn verify_detached_bytes(sig: &[u8], m: &[u8], pk: &[u8]) -> (r: bool)
    requires
        sig@.len() == SIG_LEN,
        pk@.len() == SIGN_PK_LEN,
    ensures
        r == sig_verifies(sig@, m@, pk@),
{
    let key = sodiumoxide::crypto::sign::PublicKey::from_slice(pk).unwrap();
    match sodiumoxide::crypto::sign::Signature::from_bytes(sig) {
        Ok(signature) => sodiumoxide::crypto::sign::verify_detached(&signature, m, &key),
        Err(_) => false,
    }
}

/// Relies on sodiumoxide::crypto::sign::gen_keypair: a fresh signing key
/// pair; the public half corresponds to the secret half, and a detached
/// signature made with the secret half verifies under the public half.
#[verifier::external_body]
pub(crate) fn sign_gen_keypair() -> (r: (Vec<u8>, Vec<u8>))
    ensures
        r.0@.len() == SIGN_PK_LEN,
        r.1@.len() == SIGN_SK_LEN,
        r.0@ == sign_pk_of(r.1@),
        forall|m: Seq<u8>| sig_verifies(sig_of(m, r.1@), m, r.0@),
{
    let (pk, sk) = sodiumoxide::crypto::sign::gen_keypair();
    (pk.0.to_vec(), sk.0.to_vec())
}

/// Relies on sodiumoxide::crypto::box_::gen_keypair: a fresh encryption key
/// pair; the public half corresponds to the secret half.
#[verifier::external_body]
pub(crate) fn box_gen_keypair() -> (r: (Vec<u8>, Vec<u8>))
    ensures
        r.0@.len() == BOX_PK_LEN,
        r.1@.len() == BOX_SK_LEN,
        r.0@ == box_pk_of(r.1@),
{
    let (pk, sk) = sodiumoxide::crypto::box_::gen_keypair();
    (pk.0.to_vec(), sk.0.to_vec())
}

/// Relies on sodiumoxide::crypto::sign::SecretKey::public_key: the public
/// key that belongs to a signing secret key.
#[verifier::external_body]
pub(crate) fn sign_public_key(sk: &[u8]) -> (r: Vec<u8>)
    requires
        sk@.len() == SIGN_SK_LEN,
    ensures
        r@ == sign_pk_of(sk@),
        r@.len() == SIGN_PK_LEN,
{
    let key = sodiumoxide::crypto::sign::SecretKey::from_slice(sk).unwrap();
    key.public_key().0.to_vec()
}

/// Relies on sodiumoxide::crypto::box_::SecretKey::public_key: the public
/// key that belongs to an encryption secret key.
#[verifier::external_body]
pub(crate) fn box_public_key(sk: &[u8]) -> (r: Vec<u8>)
    requires
        sk@.len() == BOX_SK_LEN,
    ensures
        r@ == box_pk_of(sk@),
        r@.len() == BOX_PK_LEN,
{
    let key = sodiumoxide::crypto::box_::SecretKey::from_slice(sk).unwrap();
    key.public_key().0.to_vec()
}

/// Relies on sodiumoxide::crypto::sealedbox::seal: the ciphertext is 48
/// bytes longer than the message, and sealedbox::open under the matching
/// secret key returns the message.
#[verifier::external_body]
pub(crate) fn sealed_box_seal(m: &[u8], pk: &[u8]) -> (r: Vec<u8>)
    requires
        pk@.len() == BOX_PK_LEN,
    ensures
        r@.len() == m@.len() + SEAL_OVERHEAD,
        forall|sk: Seq<u8>|
            box_pk_of(sk) == pk@ ==> sealed_box_open_of(r@, pk@, sk) == Some(m@),
{
    let key = sodiumoxide::crypto::box_::PublicKey::from_slice(pk).unwrap();
    sodiumoxide::crypto::sealedbox::seal(m, &key)
}

/// Relies on sodiumoxide::crypto::sealedbox::open: the result is determined
/// by ciphertext and key pair; it fails on a tag mismatch or a wrong key.
#[verifier::external_body]
pub(crate) fn sealed_box_open(c: &[u8], pk: &[u8], sk: &[u8]) -> (r: Option<Vec<u8>>)
    requires
        pk@.len() == BOX_PK_LEN,
        sk@.len() == BOX_SK_LEN,
    ensures
        match r {
            Option::Some(v) => sealed_box_open_of(c@, pk@, sk@) == Some(v@),
            Option::None => sealed_box_open_of(c@, pk@, sk@) is None,
        },
{
    let pk = sodiumoxide::crypto::box_::PublicKey::from_slice(pk).unwrap();
    let sk = sodiumoxide::crypto::box_::SecretKey::from_slice(sk).unwrap();
    sodiumoxide::crypto::sealedbox::open(c, &pk, &sk).ok()
}

/// Relies on sodiumoxide::crypto::secretbox::seal: the ciphertext is
/// determined by message, nonce and key, is 16 bytes longer than the
/// message, and secretbox::open on it returns the message.
#[verifier::external_body]
pub(crate) fn secretbox_seal(m: &[u8], n: &[u8], k: &[u8]) -> (r: Vec<u8>)
    requires
        n@.len() == SYM_NONCE_LEN,
        k@.len() == SYM_KEY_LEN,
    ensures
        r@ == secretbox_seal_of(m@, n@, k@),
        r@.len() == m@.len() + SYM_OVERHEAD,
        secretbox_open_of(r@, n@, k@) == Some(m@),
{
    let nonce = sodiumoxide::crypto::secretbox::Nonce::from_slice(n).unwrap();
    let key = sodiumoxide::crypto::secretbox::Key::from_slice(k).unwrap();
    sodiumoxide::crypto::secretbox::seal(m, &nonce, &key)
}

/// Relies on sodiumoxide::crypto::secretbox::open: the result is determined
/// by ciphertext, nonce and key; it fails on a tag mismatch or a wrong key.
#[verifier::external_body]
pub(crate) fn secretbox_open(c: &[u8], n: &[u8], k: &[u8]) -> (r: Option<Vec<u8>>)
    requires
        n@.len() == SYM_NONCE_LEN,
        k@.len() == SYM_KEY_LEN,
    ensures
        match r {
            Option::Some(v) => secretbox_open_of(c@, n@, k@) == Some(v@),
            Option::None => secretbox_open_of(c@, n@, k@) is None,
        },
{
    let nonce = sodiumoxide::crypto::secretbox::Nonce::from_slice(n).unwrap();
    let key = sodiumoxide::crypto::secretbox::Key::from_slice(k).unwrap();
    sodiumoxide::crypto::secretbox::open(c, &nonce, &key).ok()
}

/// Relies on sodiumoxide::crypto::secretbox::gen_key: a fresh 32-byte key.
#[verifier::external_body]
pub(crate) fn secretbox_gen_key() -> (r: Vec<u8>)
    ensures
        r@.len() == SYM_KEY_LEN,
{
    sodiumoxide::crypto::secretbox::gen_key().0.to_vec()
}

/// Relies on sodiumoxide::crypto::secretbox::gen_nonce: a fresh 24-byte
/// nonce.
#[verifier::external_body]
pub(crate) fn secretbox_gen_nonce() -> (r: Vec<u8>)
    ensures
        r@.len() == SYM_NONCE_LEN,
{
    sodiumoxide::crypto::secretbox::gen_nonce().0.to_vec()
}

/// Relies on sodiumoxide::crypto::pwhash::gen_salt: a fresh 32-byte salt.
#[verifier::external_body]
pub(crate) fn pwhash_gen_salt() -> (r: Vec<u8>)
    ensures
        r@.len() == SALT_LEN,
{
    sodiumoxide::crypto::pwhash::gen_salt().0.to_vec()
}

/// Relies on sodiumoxide::crypto::pwhash::derive_key_interactive: a 32-byte
/// key determined by password and salt; it fails only when the memory the
/// computation needs cannot be allocated.
#[verifier::external_body]
pub(crate) fn kdf_derive(pwd: &[u8], salt: &[u8]) -> (r: Option<Vec<u8>>)
    requires
        salt@.len() == SALT_LEN,
    ensures
        match r {
            Option::Some(v) => v@ == kdf_of(pwd@, salt@) && v@.len() == SYM_KEY_LEN,
            Option::None => true,
        },
{
    let salt = sodiumoxide::crypto::pwhash::Salt::from_slice(salt).unwrap();
    let mut key = [0u8; 32];
    match sodiumoxide::crypto::pwhash::derive_key_interactive(&mut key, pwd, &salt) {
        Ok(_) => Some(key.to_vec()),
        Err(()) => None,
    }
}

} // verus!
