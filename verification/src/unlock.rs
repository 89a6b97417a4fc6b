//! The PIN-gated unlock state machine: each encrypted device key carries a
//! retry counter; wrong PINs count up to a bound, and from then on every
//! attempt is a lockout until the agent reloads.

use vstd::prelude::*;

use crate::errors::StoreError;
use crate::keys::{decrypt_key, encrypted_key_wf, EncryptedSodiumKey, SodiumPrivateKey};

verus! {

use crate::crypto::{kdf_of, secretbox_open_of};

/// The number of wrong PINs an encrypted key tolerates.
pub const MAX_TRIES: u32 = 3;

/// The outcome of one unlock attempt.
pub enum UnlockResult {
    /// The key was decrypted.
    Success,
    /// The PIN was wrong or the dialog was canceled; more attempts remain.
    Failure,
    /// The attempts are used up; the record is dead until a reload.
    Lockout,
}

impl UnlockResult {
    pub fn is_success(&self) -> (r: bool)
        ensures
            r == (self is Success),
    {
        match self {
            UnlockResult::Success => true,
            _ => false,
        }
    }

    pub fn is_failure(&self) -> (r: bool)
        ensures
            r == (self is Failure),
    {
        match self {
            UnlockResult::Failure => true,
            _ => false,
        }
    }

    pub fn is_lockout(&self) -> (r: bool)
        ensures
            r == (self is Lockout),
    {
        match self {
            UnlockResult::Lockout => true,
            _ => false,
        }
    }
}

/// An encrypted device key with its retry state.
pub struct LockedKey {
    pub key: EncryptedSodiumKey,
    pub num_tries: u32,
    pub max_tries: u32,
}

/// Whether a PIN opens both halves of the encrypted key.
pub open spec fn pin_opens(e: EncryptedSodiumKey, pin: Seq<u8>) -> bool {
    &&& secretbox_open_of(e.enc_ct@, e.enc_nonce@, kdf_of(pin, e.enc_salt@)) is Some
    &&& secretbox_open_of(e.sign_ct@, e.sign_nonce@, kdf_of(pin, e.sign_salt@)) is Some
}

impl LockedKey {
    /// A fresh record for an encrypted key, with no tries used.
    pub fn new(key: EncryptedSodiumKey) -> (r: LockedKey)
        ensures
            r.key == key,
            r.num_tries == 0,
            r.max_tries == MAX_TRIES,
    {
        LockedKey { key, num_tries: 0, max_tries: MAX_TRIES }
    }

    /// One unlock attempt. `None` for the PIN means the user canceled: the
    /// attempt fails but does not count. Once the counter has reached the
    /// bound, every further attempt is `Lockout` and nothing changes, until
    /// the record is rebuilt by a reload. A right PIN resets the counter and
    /// never counts — at worst the key derivation runs out of memory, which
    /// fails without counting. Only a wrong PIN counts, and the attempt that
    /// exhausts the bound already reports `Lockout`; a record whose salts or
    /// nonces are malformed can never open and never counts either.
    pub fn try_unlock(&mut self, pin: Option<&Vec<u8>>) -> (r: (
        UnlockResult,
        Option<SodiumPrivateKey>,
    ))
        ensures
            old(self).key == final(self).key,
            old(self).max_tries == final(self).max_tries,
            old(self).num_tries >= old(self).max_tries ==> r.0 is Lockout && r.1 is None
                && final(self).num_tries == old(self).num_tries,
            pin is None && old(self).num_tries < old(self).max_tries ==> r.0 is Failure && r.1
                is None && final(self).num_tries == old(self).num_tries,
            r.0 is Success ==> r.1 is Some && final(self).num_tries == 0 && pin is Some
                && pin_opens(old(self).key, pin->Some_0@) && {
                let k = r.1->Some_0;
                &&& secretbox_open_of(
                    old(self).key.enc_ct@,
                    old(self).key.enc_nonce@,
                    kdf_of(pin->Some_0@, old(self).key.enc_salt@),
                ) == Some(k.enc_sk@)
                &&& secretbox_open_of(
                    old(self).key.sign_ct@,
                    old(self).key.sign_nonce@,
                    kdf_of(pin->Some_0@, old(self).key.sign_salt@),
                ) == Some(k.sign_sk@)
            },
            pin is Some && old(self).num_tries < old(self).max_tries && encrypted_key_wf(
                old(self).key,
            ) && pin_opens(old(self).key, pin->Some_0@) ==> r.0 is Success || (r.0 is Failure
                && r.1 is None && final(self).num_tries == old(self).num_tries),
            pin is Some && old(self).num_tries < old(self).max_tries && !encrypted_key_wf(
                old(self).key,
            ) ==> r.0 is Failure && r.1 is None && final(self).num_tries == old(self).num_tries,
            pin is Some && old(self).num_tries < old(self).max_tries && encrypted_key_wf(
                old(self).key,
            ) && !pin_opens(old(self).key, pin->Some_0@) ==> r.1 is None && ((r.0 is Failure
                && final(self).num_tries == old(self).num_tries) || (final(self).num_tries == old(
                self,
            ).num_tries + 1 && (r.0 is Lockout <==> old(self).num_tries + 1 >= old(
                self,
            ).max_tries) && (r.0 is Failure <==> old(self).num_tries + 1 < old(
                self,
            ).max_tries))),
    {
        if self.num_tries >= self.max_tries {
            return (UnlockResult::Lockout, Option::None);
        }
        let pin_bytes = match pin {
            Option::None => {
                return (UnlockResult::Failure, Option::None);
            },
            Option::Some(p) => p,
        };
        match decrypt_key(&self.key, pin_bytes.as_slice()) {
            Result::Ok(k) => {
                self.num_tries = 0;
                (UnlockResult::Success, Option::Some(k))
            },
            Result::Err(StoreError::WrongPin) => {
                // Only a genuinely wrong PIN counts against the bound.
                self.num_tries = self.num_tries + 1;
                if self.num_tries >= self.max_tries {
                    (UnlockResult::Lockout, Option::None)
                } else {
                    (UnlockResult::Failure, Option::None)
                }
            },
            Result::Err(_) => (UnlockResult::Failure, Option::None),
        }
    }
}

} // verus!
