use basalt::generate;
use basalt::keychain::KeyChain;
use basalt::keys::{OnDiskPrivateKey, SodiumPrivateKey};

#[test]
fn bootstrap_generates_self_signed_genesis() {
    sodiumoxide::init().unwrap();
    let mut chain = KeyChain::new();
    let on_disk = generate::generate_sodium_key(&mut chain, "laptop".to_string(), b"").unwrap();
    assert!(matches!(on_disk, OnDiskPrivateKey::UnencryptedKey(_)));
    assert_eq!(chain.chain.len(), 1);

    let head = chain.get_digest();
    let trusted = chain.verify(head, false).expect("genesis chain verifies");
    assert!(trusted.contains_key("laptop"));
    assert!(chain.is_valid_device_id("laptop"));
    assert!(!chain.is_valid_device_id("phone"));
}

#[test]
fn generate_with_pin_stores_encrypted() {
    sodiumoxide::init().unwrap();
    let mut chain = KeyChain::new();
    let on_disk = generate::generate_sodium_key(&mut chain, "laptop".to_string(), b"1234").unwrap();
    match on_disk {
        OnDiskPrivateKey::EncryptedKey(e) => {
            let k = basalt::keys::decrypt_key(&e, b"1234").unwrap();
            assert_eq!(k.device_id, "laptop");
        }
        OnDiskPrivateKey::UnencryptedKey(_) => panic!("pin-protected key stored in the plain"),
    }
}

#[test]
fn second_device_sign_request_and_merge() {
    sodiumoxide::init().unwrap();
    let mut chain = KeyChain::new();
    let laptop_disk =
        generate::generate_sodium_key(&mut chain, "laptop".to_string(), b"").unwrap();
    let laptop = match laptop_disk {
        OnDiskPrivateKey::UnencryptedKey(k) => k,
        OnDiskPrivateKey::EncryptedKey(_) => unreachable!(),
    };
    let old_head = chain.get_digest();

    // Offline, the phone appends a self-signed request.
    let phone = SodiumPrivateKey::gen_key("phone".to_string());
    let phone_pub = phone.get_public_key();
    chain.append_sign_request(phone_pub, &phone.sign_sk);

    // Strict verification refuses the pending request; merge mode accepts
    // it against the recorded head, without trusting the phone yet.
    assert!(chain.verify(chain.get_digest(), false).is_none());
    let merged = chain.verify(old_head.clone(), true).expect("merge accepts");
    assert!(merged.contains_key("laptop"));
    assert!(!merged.contains_key("phone"));

    // The laptop replaces the request with a signed NewKey link.
    chain.chain.pop();
    let phone_pub2 = phone.get_public_key();
    chain.append_new_key(phone_pub2, "laptop".to_string(), &laptop.sign_sk);

    let head2 = chain.get_digest();
    let trusted = chain.verify(head2, false).expect("extended chain verifies");
    assert!(trusted.contains_key("laptop"));
    assert!(trusted.contains_key("phone"));
}

#[test]
fn revoke_removes_device_and_keeps_history() {
    sodiumoxide::init().unwrap();
    let mut chain = KeyChain::new();
    let laptop_disk =
        generate::generate_sodium_key(&mut chain, "laptop".to_string(), b"").unwrap();
    let laptop = match laptop_disk {
        OnDiskPrivateKey::UnencryptedKey(k) => k,
        OnDiskPrivateKey::EncryptedKey(_) => unreachable!(),
    };
    let phone = SodiumPrivateKey::gen_key("phone".to_string());
    chain.append_new_key(phone.get_public_key(), "laptop".to_string(), &laptop.sign_sk);

    // Revoke the phone, signed by the still-trusted laptop.
    chain.append_revoke(phone.get_public_key(), "laptop".to_string(), &laptop.sign_sk);

    let head = chain.get_digest();
    let trusted = chain.verify(head, false).expect("chain with revoke verifies");
    assert!(trusted.contains_key("laptop"));
    assert!(!trusted.contains_key("phone"));
    assert!(!chain.is_valid_device_id("phone"));
}

#[test]
fn self_revocation_is_refused() {
    sodiumoxide::init().unwrap();
    let mut chain = KeyChain::new();
    let laptop_disk =
        generate::generate_sodium_key(&mut chain, "laptop".to_string(), b"").unwrap();
    let laptop = match laptop_disk {
        OnDiskPrivateKey::UnencryptedKey(k) => k,
        OnDiskPrivateKey::EncryptedKey(_) => unreachable!(),
    };
    chain.append_revoke(laptop.get_public_key(), "laptop".to_string(), &laptop.sign_sk);

    let head = chain.get_digest();
    assert!(chain.verify(head, false).is_none(), "a key may not revoke itself");
}

#[test]
fn paper_key_joins_chain() {
    sodiumoxide::init().unwrap();
    let mut chain = KeyChain::new();
    let secret = generate::generate_paper_key(&mut chain, "paper".to_string());
    assert_eq!(secret.len(), 2 * (32 + 64));
    assert_eq!(chain.chain.len(), 1);
    let head = chain.get_digest();
    let trusted = chain.verify(head, false).expect("paper genesis verifies");
    assert!(trusted.contains_key("paper"));
}

#[test]
fn paper_key_decodes_and_signs() {
    sodiumoxide::init().unwrap();
    let mut chain = KeyChain::new();
    let secret = generate::generate_paper_key(&mut chain, "paper".to_string());

    let key = generate::decode_paper_key("paper".to_string(), &secret).unwrap();
    let head = chain.get_digest();
    let trusted = chain.verify(head, false).expect("paper genesis verifies");
    assert!(trusted.contains_key("paper"));

    // The decoded key signs, and the chain's recorded public key verifies.
    let recovered = key.get_public_key();
    let sig = key.sign(b"still mine");
    assert!(recovered.verify(&sig, b"still mine"));

    assert!(matches!(
        generate::decode_paper_key("paper".to_string(), "zz-not-hex"),
        Err(basalt::errors::StoreError::Format)
    ));
    assert!(matches!(
        generate::decode_paper_key("paper".to_string(), "0a0b"),
        Err(basalt::errors::StoreError::Format)
    ));
}

#[test]
fn sign_request_confers_no_validity() {
    sodiumoxide::init().unwrap();
    let mut chain = KeyChain::new();
    generate::generate_sodium_key(&mut chain, "laptop".to_string(), b"").unwrap();
    let phone = SodiumPrivateKey::gen_key("phone".to_string());
    chain.append_sign_request(phone.get_public_key(), &phone.sign_sk);

    // A pending request claims nothing: the id is not trusted at head.
    assert!(!chain.is_valid_device_id("phone"));
    assert!(chain.is_valid_device_id("laptop"));
}

#[test]
fn genesis_must_have_empty_parent() {
    sodiumoxide::init().unwrap();
    let mut chain = KeyChain::new();
    generate::generate_sodium_key(&mut chain, "laptop".to_string(), b"").unwrap();
    chain.chain[0].parent = vec![7u8; 64];
    let head = chain.get_digest();
    assert!(
        chain.verify(head, false).is_none(),
        "a genesis link with a parent digest must not verify"
    );
}

#[test]
fn lone_sign_request_is_no_genesis() {
    sodiumoxide::init().unwrap();
    let mut chain = KeyChain::new();
    let phone = SodiumPrivateKey::gen_key("phone".to_string());
    chain.append_sign_request(phone.get_public_key(), &phone.sign_sk);
    let head = chain.get_digest();
    assert!(
        chain.verify(head.clone(), true).is_none(),
        "a chain of one pending request must not verify, even merging"
    );
    assert!(chain.verify(head, false).is_none());
}
