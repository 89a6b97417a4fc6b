//! Creating device keys: a fresh key pair joins the keychain as a
//! self-signed `NewKey` link, and the private half is prepared for disk,
//! encrypted under the PIN when one was given.

use vstd::prelude::*;

use crate::errors::StoreError;
use crate::keychain::{key_view, spec_chain_digest, spec_sig_payload, spec_verify_sig, KeyChain};
use crate::keys::{
    encrypt_key, pin_seal_rel, private_key_wf, OnDiskPrivateKey, SodiumPrivateKey,
};
use crate::util;

verus! {

use vstd::string::StringSliceAdditionalSpecFns;
use crate::crypto::{box_pk_of, sign_pk_of};

/// How the new last link of the chain relates to a generate call: it is a
/// `NewKey` for `device_id`, chained to the old head, and self-signed by
/// the key it introduces.
pub open spec fn spec_generated_link(
    old_chain: Seq<crate::keychain::ChainLink>,
    new_chain: Seq<crate::keychain::ChainLink>,
    device_id: Seq<char>,
) -> bool {
    &&& new_chain.len() == old_chain.len() + 1
    &&& new_chain.drop_last() == old_chain
    &&& {
        let l = new_chain.last();
        &&& l.parent@ == spec_chain_digest(old_chain)
        &&& l.event is NewKey
        &&& crate::keychain::event_wrap(l.event).device_id@ == device_id
        &&& l.signature.signing_key_id@ == device_id
        &&& spec_verify_sig(
            l.signature.payload@,
            spec_sig_payload(l),
            key_view(crate::keychain::event_wrap(l.event).key),
        )
    }
}

/// How a key pair corresponds to the wrapped public key of a chain link.
pub open spec fn key_pair_matches(w: crate::keychain::PublicKeyWrapper, k: SodiumPrivateKey) -> bool {
    &&& k.device_id@ == w.device_id@
    &&& key_view(w.key).enc == box_pk_of(k.enc_sk@)
    &&& key_view(w.key).sign == sign_pk_of(k.sign_sk@)
}

/// How the on-disk key a generate call returns relates to the new link's
/// public key and the PIN: the plain private half of that key, or that
/// half encrypted at rest under the PIN.
pub open spec fn on_disk_rel(
    dk: OnDiskPrivateKey,
    w: crate::keychain::PublicKeyWrapper,
    pin: Seq<u8>,
) -> bool {
    match dk {
        OnDiskPrivateKey::UnencryptedKey(k) => {
            &&& pin.len() == 0
            &&& private_key_wf(k)
            &&& key_pair_matches(w, k)
        },
        OnDiskPrivateKey::EncryptedKey(e) => {
            &&& pin.len() > 0
            &&& exists|k: SodiumPrivateKey| #[trigger]
                pin_seal_rel(e, k, pin) && key_pair_matches(w, k)
        },
    }
}

/// Creates a fresh key pair for `device_id`, appends its self-signed
/// `NewKey` link, and returns the private half as it will stand on disk:
/// plain for an empty PIN, encrypted at rest otherwise. With an empty PIN
/// it always succeeds; with one it fails, leaving the chain alone, only
/// when the key derivation cannot get its memory.
pub fn generate_sodium_key(chain: &mut KeyChain, device_id: String, pin: &[u8]) -> (r: Option<
    OnDiskPrivateKey,
>)
    ensures
        pin@.len() == 0 ==> r is Some,
        r is None ==> final(chain).chain@ == old(chain).chain@ && pin@.len() > 0,
        r is Some ==> spec_generated_link(old(chain).chain@, final(chain).chain@, device_id@),
        r is Some ==> on_disk_rel(
            r->Some_0,
            crate::keychain::event_wrap(final(chain).chain@.last().event),
            pin@,
        ),
{
    let key = SodiumPrivateKey::gen_key(device_id.clone());
    let on_disk: OnDiskPrivateKey = if pin.len() == 0 {
        let dup = SodiumPrivateKey {
            device_id: key.device_id.clone(),
            enc_sk: key.enc_sk.clone(),
            sign_sk: key.sign_sk.clone(),
        };
        proof {
            assert(dup.enc_sk@ =~= key.enc_sk@);
            assert(dup.sign_sk@ =~= key.sign_sk@);
        }
        OnDiskPrivateKey::UnencryptedKey(dup)
    } else {
        match encrypt_key(&key, pin) {
            Option::Some(e) => OnDiskPrivateKey::EncryptedKey(e),
            Option::None => {
                return Option::None;
            },
        }
    };
    let wrap = key.get_public_key();
    chain.append_new_key(wrap, device_id, key.sign_sk.as_slice());
    proof {
        let l = chain.chain@.last();
        assert(chain.chain@.drop_last() =~= old(chain).chain@);
        assert(spec_verify_sig(
            l.signature.payload@,
            spec_sig_payload(l),
            key_view(crate::keychain::event_wrap(l.event).key),
        ));
        let w = crate::keychain::event_wrap(l.event);
        match &on_disk {
            OnDiskPrivateKey::UnencryptedKey(k2) => {
                assert(key_pair_matches(w, *k2));
            },
            OnDiskPrivateKey::EncryptedKey(e2) => {
                assert(pin_seal_rel(*e2, key, pin@) && key_pair_matches(w, key));
            },
        }
    }
    Option::Some(on_disk)
}

/// Creates a fresh key pair for `device_id`, appends its self-signed
/// `NewKey` link, and returns the secret halves as one lowercase hex
/// string for paper; nothing of the key is kept.
pub fn generate_paper_key(chain: &mut KeyChain, device_id: String) -> (r: String)
    ensures
        spec_generated_link(old(chain).chain@, final(chain).chain@, device_id@),
        exists|k: SodiumPrivateKey|
            {
                let w = crate::keychain::event_wrap(final(chain).chain@.last().event);
                &&& #[trigger] private_key_wf(k)
                &&& r@ == crate::util::hex_of(k.enc_sk@ + k.sign_sk@)
                &&& key_view(w.key).enc == box_pk_of(k.enc_sk@)
                &&& key_view(w.key).sign == sign_pk_of(k.sign_sk@)
            },
{
    let key = SodiumPrivateKey::gen_key(device_id.clone());
    let joined = util::concat2(key.enc_sk.as_slice(), key.sign_sk.as_slice());
    let paper = util::hexify(joined.as_slice());
    let wrap = key.get_public_key();
    chain.append_new_key(wrap, device_id, key.sign_sk.as_slice());
    proof {
        let l = chain.chain@.last();
        assert(chain.chain@.drop_last() =~= old(chain).chain@);
        assert(spec_verify_sig(
            l.signature.payload@,
            spec_sig_payload(l),
            key_view(crate::keychain::event_wrap(l.event).key),
        ));
    }
    paper
}

/// Reads a paper secret back into a device's private key pair: the hex
/// string must decode to exactly the two secret halves, encryption key
/// first; anything else is `Format`.
pub fn decode_paper_key(device_id: String, secret: &str) -> (r: Result<
    SodiumPrivateKey,
    StoreError,
>)
    ensures
        ({
            let decoded = crate::util::unhex_bytes(
                crate::util::trimmed(secret.spec_bytes()),
            );
            match r {
                Result::Ok(k) => {
                    &&& decoded is Some
                    &&& decoded->Some_0.len() == crate::crypto::BOX_SK_LEN
                        + crate::crypto::SIGN_SK_LEN
                    &&& k.device_id@ == device_id@
                    &&& private_key_wf(k)
                    &&& k.enc_sk@ == decoded->Some_0.subrange(
                        0,
                        crate::crypto::BOX_SK_LEN as int,
                    )
                    &&& k.sign_sk@ == decoded->Some_0.subrange(
                        crate::crypto::BOX_SK_LEN as int,
                        decoded->Some_0.len() as int,
                    )
                },
                Result::Err(e) => {
                    &&& e == StoreError::Format
                    &&& (decoded is None || decoded->Some_0.len() != crate::crypto::BOX_SK_LEN
                        + crate::crypto::SIGN_SK_LEN)
                },
            }
        }),
{
    let mut bytes = match crate::util::unhexify(secret) {
        Option::Some(bytes) => bytes,
        Option::None => {
            return Result::Err(StoreError::Format);
        },
    };
    if bytes.len() != crate::crypto::BOX_SK_LEN + crate::crypto::SIGN_SK_LEN {
        return Result::Err(StoreError::Format);
    }
    let sign_sk = bytes.split_off(crate::crypto::BOX_SK_LEN);
    Result::Ok(SodiumPrivateKey { device_id, enc_sk: bytes, sign_sk })
}

} // verus!
