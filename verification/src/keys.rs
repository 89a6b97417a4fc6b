//! Device keys: the private key pair a device holds, its form on disk
//! (plain, or encrypted at rest under a PIN-derived key), and the moves
//! between the two.

use vstd::prelude::*;

use crate::crypto;
use crate::errors::StoreError;
use crate::keychain::{key_view, PublicKey, PublicKeyWrapper, SodiumKey};

verus! {

use crate::crypto::{box_pk_of, kdf_of, secretbox_open_of, secretbox_seal_of, sig_of, sig_verifies, sign_pk_of};

/// A device's private key pair: one secret key for sealed decryption and
/// one for detached signing.
pub struct SodiumPrivateKey {
    pub device_id: String,
    pub enc_sk: Vec<u8>,
    pub sign_sk: Vec<u8>,
}

/// A private key pair whose secret halves have the lengths the primitives
/// expect.
pub open spec fn private_key_wf(k: SodiumPrivateKey) -> bool {
    &&& k.enc_sk@.len() == crypto::BOX_SK_LEN
    &&& k.sign_sk@.len() == crypto::SIGN_SK_LEN
}

/// A private key pair encrypted at rest: each secret half sealed under a
/// key derived from the PIN, with its own fresh salt and nonce.
pub struct EncryptedSodiumKey {
    pub device_id: String,
    pub enc_salt: Vec<u8>,
    pub enc_nonce: Vec<u8>,
    pub enc_ct: Vec<u8>,
    pub sign_salt: Vec<u8>,
    pub sign_nonce: Vec<u8>,
    pub sign_ct: Vec<u8>,
}

/// An encrypted key whose salts and nonces have the lengths the
/// primitives expect.
pub open spec fn encrypted_key_wf(k: EncryptedSodiumKey) -> bool {
    &&& k.enc_salt@.len() == crypto::SALT_LEN
    &&& k.enc_nonce@.len() == crypto::SYM_NONCE_LEN
    &&& k.sign_salt@.len() == crypto::SALT_LEN
    &&& k.sign_nonce@.len() == crypto::SYM_NONCE_LEN
}

/// How an encrypted key on disk relates to the plain pair and the PIN it
/// was sealed under.
pub open spec fn pin_seal_rel(e: EncryptedSodiumKey, k: SodiumPrivateKey, pin: Seq<u8>) -> bool {
    &&& encrypted_key_wf(e)
    &&& e.device_id@ == k.device_id@
    &&& e.enc_ct@ == secretbox_seal_of(k.enc_sk@, e.enc_nonce@, kdf_of(pin, e.enc_salt@))
    &&& secretbox_open_of(e.enc_ct@, e.enc_nonce@, kdf_of(pin, e.enc_salt@)) == Some(k.enc_sk@)
    &&& e.sign_ct@ == secretbox_seal_of(k.sign_sk@, e.sign_nonce@, kdf_of(pin, e.sign_salt@))
    &&& secretbox_open_of(e.sign_ct@, e.sign_nonce@, kdf_of(pin, e.sign_salt@)) == Some(
        k.sign_sk@,
    )
}

/// A device key as it stands on disk.
pub enum OnDiskPrivateKey {
    UnencryptedKey(SodiumPrivateKey),
    EncryptedKey(EncryptedSodiumKey),
}

impl OnDiskPrivateKey {
    /// Whether the key is encrypted at rest.
    pub fn is_encrypted(&self) -> (r: bool)
        ensures
            r == (self is EncryptedKey),
    {
        match self {
            OnDiskPrivateKey::EncryptedKey(_) => true,
            OnDiskPrivateKey::UnencryptedKey(_) => false,
        }
    }
}

impl SodiumPrivateKey {
    /// A fresh private key pair for a device. Signatures made with the
    /// signing half verify under its public counterpart.
    pub fn gen_key(device_id: String) -> (r: SodiumPrivateKey)
        ensures
            private_key_wf(r),
            r.device_id@ == device_id@,
            box_pk_of(r.enc_sk@).len() == crypto::BOX_PK_LEN,
            sign_pk_of(r.sign_sk@).len() == crypto::SIGN_PK_LEN,
            forall|m: Seq<u8>| sig_verifies(sig_of(m, r.sign_sk@), m, sign_pk_of(r.sign_sk@)),
    {
        let (_enc_pk, enc_sk) = crypto::box_gen_keypair();
        let (_sign_pk, sign_sk) = crypto::sign_gen_keypair();
        SodiumPrivateKey { device_id, enc_sk, sign_sk }
    }

    /// The public half of the pair, wrapped with the device id.
    pub fn get_public_key(&self) -> (r: PublicKeyWrapper)
        requires
            private_key_wf(*self),
        ensures
            r.device_id@ == self.device_id@,
            key_view(r.key).enc == box_pk_of(self.enc_sk@),
            key_view(r.key).sign == sign_pk_of(self.sign_sk@),
            key_view(r.key).enc.len() == crypto::BOX_PK_LEN,
            key_view(r.key).sign.len() == crypto::SIGN_PK_LEN,
    {
        let enc_key = crypto::box_public_key(self.enc_sk.as_slice());
        let sign_key = crypto::sign_public_key(self.sign_sk.as_slice());
        PublicKeyWrapper {
            device_id: self.device_id.clone(),
            key: PublicKey::Sodium(SodiumKey { enc_key, sign_key }),
        }
    }

    /// Signs a message with the device's signing key.
    pub fn sign(&self, message: &[u8]) -> (r: Vec<u8>)
        requires
            private_key_wf(*self),
        ensures
            r@ == sig_of(message@, self.sign_sk@),
            r@.len() == crypto::SIG_LEN,
    {
        crypto::sign_detached_bytes(message, self.sign_sk.as_slice())
    }

    /// Unseals a message sealed to the device's encryption key.
    pub fn decrypt(&self, ciphertext: &[u8]) -> (r: Option<Vec<u8>>)
        requires
            private_key_wf(*self),
        ensures
            match r {
                Option::Some(m) => crypto::sealed_box_open_of(
                    ciphertext@,
                    box_pk_of(self.enc_sk@),
                    self.enc_sk@,
                ) == Some(m@),
                Option::None => crypto::sealed_box_open_of(
                    ciphertext@,
                    box_pk_of(self.enc_sk@),
                    self.enc_sk@,
                ) is None,
            },
    {
        let pk = crypto::box_public_key(self.enc_sk.as_slice());
        crypto::sealed_box_open(ciphertext, pk.as_slice(), self.enc_sk.as_slice())
    }
}

/// Encrypts a private key pair at rest under a PIN: each secret half gets
/// its own fresh salt and nonce. Fails only when the key derivation cannot
/// get its memory.
pub fn encrypt_key(key: &SodiumPrivateKey, pin: &[u8]) -> (r: Option<EncryptedSodiumKey>)
    ensures
        match r {
            Option::Some(e) => pin_seal_rel(e, *key, pin@),
            Option::None => true,
        },
{
    let enc_salt = crypto::pwhash_gen_salt();
    let enc_nonce = crypto::secretbox_gen_nonce();
    let sign_salt = crypto::pwhash_gen_salt();
    let sign_nonce = crypto::secretbox_gen_nonce();
    let enc_kdf = match crypto::kdf_derive(pin, enc_salt.as_slice()) {
        Option::Some(k) => k,
        Option::None => {
            return Option::None;
        },
    };
    let sign_kdf = match crypto::kdf_derive(pin, sign_salt.as_slice()) {
        Option::Some(k) => k,
        Option::None => {
            return Option::None;
        },
    };
    let enc_ct = crypto::secretbox_seal(key.enc_sk.as_slice(), enc_nonce.as_slice(), enc_kdf.as_slice());
    let sign_ct = crypto::secretbox_seal(
        key.sign_sk.as_slice(),
        sign_nonce.as_slice(),
        sign_kdf.as_slice(),
    );
    Option::Some(
        EncryptedSodiumKey {
            device_id: key.device_id.clone(),
            enc_salt,
            enc_nonce,
            enc_ct,
            sign_salt,
            sign_nonce,
            sign_ct,
        },
    )
}

/// Decrypts an at-rest key with a PIN. A malformed record is `Format`; a
/// PIN under which either half fails to open is `WrongPin`; `Crypto` only
/// when the key derivation cannot get its memory, never on a malformed
/// record or in place of a wrong PIN's own verdict when both halves open.
pub fn decrypt_key(e: &EncryptedSodiumKey, pin: &[u8]) -> (r: Result<SodiumPrivateKey, StoreError>)
    ensures
        !encrypted_key_wf(*e) ==> r == Result::<SodiumPrivateKey, StoreError>::Err(
            StoreError::Format,
        ),
        encrypted_key_wf(*e) && secretbox_open_of(e.enc_ct@, e.enc_nonce@, kdf_of(pin@, e.enc_salt@))
            is Some && secretbox_open_of(e.sign_ct@, e.sign_nonce@, kdf_of(pin@, e.sign_salt@))
            is Some ==> (r is Ok || r == Result::<SodiumPrivateKey, StoreError>::Err(
            StoreError::Crypto,
        )),
        match r {
            Result::Ok(k) => {
                &&& encrypted_key_wf(*e)
                &&& k.device_id@ == e.device_id@
                &&& secretbox_open_of(e.enc_ct@, e.enc_nonce@, kdf_of(pin@, e.enc_salt@)) == Some(
                    k.enc_sk@,
                )
                &&& secretbox_open_of(e.sign_ct@, e.sign_nonce@, kdf_of(pin@, e.sign_salt@))
                    == Some(k.sign_sk@)
            },
            Result::Err(err) => {
                ||| (err == StoreError::Format && !encrypted_key_wf(*e))
                ||| (err == StoreError::WrongPin && encrypted_key_wf(*e) && (secretbox_open_of(
                    e.enc_ct@,
                    e.enc_nonce@,
                    kdf_of(pin@, e.enc_salt@),
                ) is None || secretbox_open_of(
                    e.sign_ct@,
                    e.sign_nonce@,
                    kdf_of(pin@, e.sign_salt@),
                ) is None))
                ||| err == StoreError::Crypto
            },
        },
{
    if e.enc_salt.len() != crypto::SALT_LEN || e.enc_nonce.len() != crypto::SYM_NONCE_LEN
        || e.sign_salt.len() != crypto::SALT_LEN || e.sign_nonce.len() != crypto::SYM_NONCE_LEN {
        return Result::Err(StoreError::Format);
    }
    let enc_kdf = match crypto::kdf_derive(pin, e.enc_salt.as_slice()) {
        Option::Some(k) => k,
        Option::None => {
            return Result::Err(StoreError::Crypto);
        },
    };
    let enc_sk = match crypto::secretbox_open(
        e.enc_ct.as_slice(),
        e.enc_nonce.as_slice(),
        enc_kdf.as_slice(),
    ) {
        Option::Some(m) => m,
        Option::None => {
            return Result::Err(StoreError::WrongPin);
        },
    };
    let sign_kdf = match crypto::kdf_derive(pin, e.sign_salt.as_slice()) {
        Option::Some(k) => k,
        Option::None => {
            return Result::Err(StoreError::Crypto);
        },
    };
    let sign_sk = match crypto::secretbox_open(
        e.sign_ct.as_slice(),
        e.sign_nonce.as_slice(),
        sign_kdf.as_slice(),
    ) {
        Option::Some(m) => m,
        Option::None => {
            return Result::Err(StoreError::WrongPin);
        },
    };
    Result::Ok(SodiumPrivateKey { device_id: e.device_id.clone(), enc_sk, sign_sk })
}

/// Law: decrypting an at-rest key with the PIN it was sealed under gives
/// back both secret halves, unless the key derivation is out of memory.
pub proof fn lemma_pin_round_trip(
    e: EncryptedSodiumKey,
    k: SodiumPrivateKey,
    pin: Seq<u8>,
    r: Result<SodiumPrivateKey, StoreError>,
)
    requires
        pin_seal_rel(e, k, pin),
        match r {
            Result::Ok(k2) => {
                &&& k2.device_id@ == e.device_id@
                &&& secretbox_open_of(e.enc_ct@, e.enc_nonce@, kdf_of(pin, e.enc_salt@)) == Some(
                    k2.enc_sk@,
                )
                &&& secretbox_open_of(e.sign_ct@, e.sign_nonce@, kdf_of(pin, e.sign_salt@))
                    == Some(k2.sign_sk@)
            },
            Result::Err(err) => {
                ||| (err == StoreError::Format && !encrypted_key_wf(e))
                ||| (err == StoreError::WrongPin && encrypted_key_wf(e) && (secretbox_open_of(
                    e.enc_ct@,
                    e.enc_nonce@,
                    kdf_of(pin, e.enc_salt@),
                ) is None || secretbox_open_of(
                    e.sign_ct@,
                    e.sign_nonce@,
                    kdf_of(pin, e.sign_salt@),
                ) is None))
                ||| err == StoreError::Crypto
            },
        },
    ensures
        r is Err ==> r->Err_0 == StoreError::Crypto,
        r is Ok ==> r->Ok_0.enc_sk@ == k.enc_sk@ && r->Ok_0.sign_sk@ == k.sign_sk@
            && r->Ok_0.device_id@ == k.device_id@,
{
}

} // verus!
