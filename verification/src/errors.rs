//! The error kinds of the store, one closed variant per failure class.

use vstd::prelude::*;

verus! {

/// Why a store operation failed.
#[derive(PartialEq, Eq, Structural, Clone, Copy, Debug)]
pub enum StoreError {
    /// Filesystem, socket, or subprocess trouble.
    Io,
    /// A frame, document or encoding that does not parse.
    Format,
    /// A tag mismatch, a bad key, or a failed derivation.
    Crypto,
    /// The keychain does not verify, or a device id is not trusted.
    Trust,
    /// A path that escapes the store.
    PathEscape,
    /// A resolved recipient set that is empty.
    NoRecipients,
    /// A key kind the agent cannot serve.
    Unsupported,
    /// The user canceled the PIN dialog.
    PinCanceled,
    /// A PIN that does not match.
    WrongPin,
    /// Too many wrong PINs; locked until the agent reloads.
    Lockout,
    /// No recipient key could open the vault.
    NoUsableKey,
}

/// Why a stored document could not be read back into a value.
#[derive(PartialEq, Eq, Structural, Clone, Copy, Debug)]
pub enum ParseError {
    /// The document is not well-formed.
    JsonError,
    /// A binary field is not valid base32 text.
    Base32DecodeError,
    /// A key field has the wrong length.
    MalformedKeyError,
    /// A salt field has the wrong length.
    MalformedSaltError,
    /// An encrypted field would not decrypt.
    DecryptError,
    /// The document is encrypted and no password was given.
    MissingPassword,
}

impl StoreError {
    /// A short description of the error.
    pub fn message(&self) -> (r: &'static str)
        ensures
            r@.len() > 0,
    {
        let m: &'static str = match self {
            StoreError::Io => "input or output failed",
            StoreError::Format => "malformed data",
            StoreError::Crypto => "cryptographic operation failed",
            StoreError::Trust => "keychain verification failed",
            StoreError::PathEscape => "path escapes the store",
            StoreError::NoRecipients => "no recipients for path",
            StoreError::Unsupported => "unsupported key kind",
            StoreError::PinCanceled => "pin entry canceled",
            StoreError::WrongPin => "wrong pin",
            StoreError::Lockout => "too many wrong pins",
            StoreError::NoUsableKey => "no usable key for vault",
        };
        proof {
            reveal_strlit("input or output failed");
            reveal_strlit("malformed data");
            reveal_strlit("cryptographic operation failed");
            reveal_strlit("keychain verification failed");
            reveal_strlit("path escapes the store");
            reveal_strlit("no recipients for path");
            reveal_strlit("unsupported key kind");
            reveal_strlit("pin entry canceled");
            reveal_strlit("wrong pin");
            reveal_strlit("too many wrong pins");
            reveal_strlit("no usable key for vault");
        }
        m
    }
}

} // verus!
