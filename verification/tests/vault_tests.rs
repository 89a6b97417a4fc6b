use basalt::keychain::{PublicKey, PublicKeyWrapper, SodiumKey};
use basalt::vault::{plan_reencrypt, ReencryptAction, Vault};
use sodiumoxide::crypto::box_;
use sodiumoxide::crypto::sign;

fn member(id: &str) -> (PublicKeyWrapper, Vec<u8>) {
    let (enc_pk, enc_sk) = box_::gen_keypair();
    let (sign_pk, _) = sign::gen_keypair();
    (
        PublicKeyWrapper {
            device_id: id.to_string(),
            key: PublicKey::Sodium(SodiumKey {
                enc_key: enc_pk.0.to_vec(),
                sign_key: sign_pk.0.to_vec(),
            }),
        },
        enc_sk.0.to_vec(),
    )
}

#[test]
fn vault_round_trip_single() {
    sodiumoxide::init().unwrap();
    let (alice, alice_sk) = member("alice");
    let vault = Vault::seal_vault(b"pw123\n", &vec![alice]);
    let unlock = vec![("alice".to_string(), alice_sk)];
    assert_eq!(vault.open_vault(&unlock), Some(b"pw123\n".to_vec()));
}

#[test]
fn vault_multi_recipient_either_key_alone() {
    sodiumoxide::init().unwrap();
    let (alice, alice_sk) = member("alice");
    let (bob, bob_sk) = member("bob");
    let vault = Vault::seal_vault(b"shared secret", &vec![alice, bob]);

    let only_alice = vec![("alice".to_string(), alice_sk)];
    assert_eq!(vault.open_vault(&only_alice), Some(b"shared secret".to_vec()));

    let only_bob = vec![("bob".to_string(), bob_sk)];
    assert_eq!(vault.open_vault(&only_bob), Some(b"shared secret".to_vec()));
}

#[test]
fn vault_no_usable_key() {
    sodiumoxide::init().unwrap();
    let (alice, _alice_sk) = member("alice");
    let (_mallory, mallory_sk) = member("mallory");
    let vault = Vault::seal_vault(b"secret", &vec![alice]);

    assert_eq!(vault.open_vault(&vec![]), None);
    let wrong = vec![("alice".to_string(), mallory_sk)];
    assert_eq!(vault.open_vault(&wrong), None);
}

#[test]
fn vault_tamper_fails() {
    sodiumoxide::init().unwrap();
    let (alice, alice_sk) = member("alice");
    let vault = Vault::seal_vault(b"tamper me", &vec![alice]);
    let unlock = vec![("alice".to_string(), alice_sk)];

    for i in 0..vault.ciphertext.len() {
        let mut v2 = Vault {
            nonce: vault.nonce.clone(),
            ciphertext: vault.ciphertext.clone(),
            recipients: clone_recipients(&vault),
        };
        v2.ciphertext[i] ^= 0x01;
        assert_eq!(v2.open_vault(&unlock), None, "flipped ciphertext byte {}", i);
    }
    for i in 0..vault.nonce.len() {
        let mut v2 = Vault {
            nonce: vault.nonce.clone(),
            ciphertext: vault.ciphertext.clone(),
            recipients: clone_recipients(&vault),
        };
        v2.nonce[i] ^= 0x01;
        assert_eq!(v2.open_vault(&unlock), None, "flipped nonce byte {}", i);
    }
    for i in 0..vault.recipients[0].wrapped_key.len() {
        let mut v2 = Vault {
            nonce: vault.nonce.clone(),
            ciphertext: vault.ciphertext.clone(),
            recipients: clone_recipients(&vault),
        };
        v2.recipients[0].wrapped_key[i] ^= 0x01;
        assert_eq!(v2.open_vault(&unlock), None, "flipped wrapped key byte {}", i);
    }
}

fn clone_recipients(v: &Vault) -> Vec<basalt::vault::Recipient> {
    v.recipients
        .iter()
        .map(|r| basalt::vault::Recipient {
            device_id: r.device_id.clone(),
            wrapped_key: r.wrapped_key.clone(),
        })
        .collect()
}

#[test]
fn reencrypt_plan_cases() {
    let cur = vec!["a".to_string(), "b".to_string()];
    let same = vec!["b".to_string(), "a".to_string()];
    let fewer = vec!["a".to_string()];
    let more = vec!["a".to_string(), "b".to_string(), "c".to_string()];

    assert!(matches!(plan_reencrypt(&cur, &same), ReencryptAction::Keep));
    assert!(matches!(plan_reencrypt(&cur, &fewer), ReencryptAction::Strip));
    assert!(matches!(plan_reencrypt(&cur, &more), ReencryptAction::Reseal));
}

#[test]
fn reencrypt_idempotent() {
    sodiumoxide::init().unwrap();
    let (alice, alice_sk) = member("alice");
    let (bob, _) = member("bob");
    let vault = Vault::seal_vault(b"data", &vec![alice, bob]);

    let target = vec!["alice".to_string()];
    let current: Vec<String> = vault.recipients.iter().map(|r| r.device_id.clone()).collect();
    assert!(matches!(
        plan_reencrypt(&current, &target),
        ReencryptAction::Strip
    ));

    let stripped = basalt::vault::strip_recipients(&vault, &target);
    assert_eq!(stripped.ciphertext, vault.ciphertext);
    assert_eq!(stripped.nonce, vault.nonce);
    assert_eq!(stripped.recipients.len(), 1);
    assert_eq!(stripped.recipients[0].device_id, "alice");

    let current2: Vec<String> =
        stripped.recipients.iter().map(|r| r.device_id.clone()).collect();
    assert!(matches!(
        plan_reencrypt(&current2, &target),
        ReencryptAction::Keep
    ));

    let unlock = vec![("alice".to_string(), alice_sk)];
    assert_eq!(stripped.open_vault(&unlock), Some(b"data".to_vec()));
}

#[test]
fn reencrypt_vault_reseals_to_target() {
    sodiumoxide::init().unwrap();
    let (alice, alice_sk) = member("alice");
    let (carol, carol_sk) = member("carol");
    let vault = Vault::seal_vault(b"moving day", &vec![alice]);

    let unlock = vec![("alice".to_string(), alice_sk)];
    let resealed = basalt::vault::reencrypt_vault(&vault, &unlock, &vec![carol]).unwrap();
    assert_eq!(resealed.recipients.len(), 1);
    assert_eq!(resealed.recipients[0].device_id, "carol");

    let carol_unlock = vec![("carol".to_string(), carol_sk)];
    assert_eq!(resealed.open_vault(&carol_unlock), Some(b"moving day".to_vec()));
}
