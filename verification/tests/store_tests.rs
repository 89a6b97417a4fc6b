use basalt::base32::{base32_decode, base32_encode};
use basalt::config;
use basalt::errors::StoreError;
use basalt::keychain::TrustedKeys;
use basalt::keys;
use basalt::menu::prompt_yes_no;
use basalt::paper;
use basalt::paths;
use basalt::pinentry::{self, PinEntryResponse};
use basalt::protocol;
use basalt::unlock::LockedKey;

#[test]
fn path_safety() {
    assert!(paths::path_is_safe("notes/wifi"));
    assert!(paths::path_is_safe("a/b/c"));
    assert!(paths::path_is_safe("a/../b"));
    assert!(paths::path_is_safe("./a"));
    assert!(!paths::path_is_safe("../escape"));
    assert!(!paths::path_is_safe("a/../../escape"));
    assert!(!paths::path_is_safe("/absolute"));
    assert!(!paths::path_is_safe("a/b/../../.."));
    assert!(paths::path_is_safe(""));
}

#[test]
fn resolver_walks_ancestors() {
    sodiumoxide::init().unwrap();
    let mut trusted = TrustedKeys::new();
    let k = keys::SodiumPrivateKey::gen_key("laptop".to_string());
    let wrap = k.get_public_key();
    trusted.insert("laptop".to_string(), wrap.key);
    let k2 = keys::SodiumPrivateKey::gen_key("phone".to_string());
    let wrap2 = k2.get_public_key();
    trusted.insert("phone".to_string(), wrap2.key);

    let lists = vec![
        ("".to_string(), vec!["laptop".to_string(), "phone".to_string()]),
        ("notes".to_string(), vec!["laptop".to_string()]),
    ];

    let near = paths::get_key_names_for_path(&lists, "notes/wifi", &trusted).unwrap();
    assert_eq!(near, vec!["laptop".to_string()]);

    let root = paths::get_key_names_for_path(&lists, "other/file", &trusted).unwrap();
    assert_eq!(root, vec!["laptop".to_string(), "phone".to_string()]);

    let escape = paths::get_key_names_for_path(&lists, "../evil", &trusted);
    assert_eq!(escape.unwrap_err(), StoreError::PathEscape);

    let unknown_only = vec![("".to_string(), vec!["stranger".to_string()])];
    let none = paths::get_key_names_for_path(&unknown_only, "x", &trusted);
    assert_eq!(none.unwrap_err(), StoreError::NoRecipients);
}

#[test]
fn unlock_retry_lockout() {
    sodiumoxide::init().unwrap();
    let k = keys::SodiumPrivateKey::gen_key("laptop".to_string());
    let enc = keys::encrypt_key(&k, b"1234").unwrap();
    let mut rec = LockedKey::new(enc);

    let wrong = b"9999".to_vec();
    let (r1, k1) = rec.try_unlock(Some(&wrong));
    assert!(r1.is_failure());
    assert!(k1.is_none());
    let (r2, _) = rec.try_unlock(Some(&wrong));
    assert!(r2.is_failure());
    let (r3, _) = rec.try_unlock(Some(&wrong));
    assert!(r3.is_lockout());
    let right = b"1234".to_vec();
    let (r4, k4) = rec.try_unlock(Some(&right));
    assert!(r4.is_lockout(), "locked out even with the right pin");
    assert!(k4.is_none());
}

#[test]
fn unlock_cancel_does_not_count() {
    sodiumoxide::init().unwrap();
    let k = keys::SodiumPrivateKey::gen_key("laptop".to_string());
    let enc = keys::encrypt_key(&k, b"1234").unwrap();
    let mut rec = LockedKey::new(enc);

    let (r1, _) = rec.try_unlock(None);
    assert!(r1.is_failure());
    let (r2, _) = rec.try_unlock(None);
    assert!(r2.is_failure());
    let right = b"1234".to_vec();
    let (r3, got) = rec.try_unlock(Some(&right));
    assert!(r3.is_success());
    let got = got.unwrap();
    assert_eq!(got.enc_sk, k.enc_sk);
    assert_eq!(got.sign_sk, k.sign_sk);
}

#[test]
fn pin_key_round_trip() {
    sodiumoxide::init().unwrap();
    let k = keys::SodiumPrivateKey::gen_key("laptop".to_string());
    let enc = keys::encrypt_key(&k, b"secret pin").unwrap();
    let back = keys::decrypt_key(&enc, b"secret pin").unwrap();
    assert_eq!(back.enc_sk, k.enc_sk);
    assert_eq!(back.sign_sk, k.sign_sk);
    assert_eq!(back.device_id, "laptop");

    match keys::decrypt_key(&enc, b"not it") {
        Err(e) => assert_eq!(e, StoreError::WrongPin),
        Ok(_) => panic!("a wrong pin was accepted"),
    }
}

#[test]
fn device_key_sign_and_decrypt() {
    sodiumoxide::init().unwrap();
    let k = keys::SodiumPrivateKey::gen_key("laptop".to_string());
    let wrap = k.get_public_key();
    let sig = k.sign(b"hello");
    assert!(wrap.verify(&sig, b"hello"));
    assert!(!wrap.verify(&sig, b"other message"));

    let sealed = wrap.encrypt(b"to me");
    assert_eq!(k.decrypt(&sealed), Some(b"to me".to_vec()));
}

#[test]
fn frame_encoding() {
    let frame = protocol::encode_frame(b"hello");
    assert_eq!(frame, b"5\nhello".to_vec());

    let long = vec![7u8; 123];
    let frame2 = protocol::encode_frame(&long);
    assert_eq!(&frame2[0..4], b"123\n");
    assert_eq!(frame2.len(), 4 + 123);

    assert_eq!(protocol::parse_frame_len(b"5"), Some(5));
    assert_eq!(protocol::parse_frame_len(b"123"), Some(123));
    assert_eq!(protocol::parse_frame_len(b"0"), Some(0));
    assert_eq!(protocol::parse_frame_len(b""), None);
    assert_eq!(protocol::parse_frame_len(b"12a"), None);
    assert_eq!(protocol::parse_frame_len(b"2147483648"), None);
    assert_eq!(protocol::parse_frame_len(b"2147483647"), Some(2147483647));
}

#[test]
fn command_validation() {
    let bad = protocol::Command::Decrypt(protocol::DecryptRequest::new("../../etc/passwd".to_string()));
    assert_eq!(protocol::validate_command(&bad).unwrap_err(), StoreError::PathEscape);

    let good = protocol::Command::Decrypt(protocol::DecryptRequest::new("notes/wifi".to_string()));
    assert!(protocol::validate_command(&good).is_ok());

    let bad_enc = protocol::Command::Encrypt(protocol::EncryptRequest::new(
        "../out".to_string(),
        b"x".to_vec(),
    ));
    assert_eq!(
        protocol::validate_command(&bad_enc).unwrap_err(),
        StoreError::PathEscape
    );

    let yubi = protocol::Command::AddKey(protocol::AddKeyRequest::new(
        "token".to_string(),
        protocol::KeyType::Yubikey,
    ));
    assert_eq!(
        protocol::validate_command(&yubi).unwrap_err(),
        StoreError::Unsupported
    );

    assert!(protocol::validate_command(&protocol::Command::Reload).is_ok());
}

#[test]
fn pinentry_lines() {
    match PinEntryResponse::parse_response(b"OK") {
        PinEntryResponse::Success(p) => assert!(p.is_empty()),
        PinEntryResponse::Error(_) => panic!("OK parsed as error"),
    }
    match PinEntryResponse::parse_response(b"D 1234") {
        PinEntryResponse::Success(p) => assert_eq!(p, b"1234".to_vec()),
        PinEntryResponse::Error(_) => panic!("payload parsed as error"),
    }
    match PinEntryResponse::parse_response(b"ERR 83886179 canceled") {
        PinEntryResponse::Error(m) => assert_eq!(m, b"83886179 canceled".to_vec()),
        PinEntryResponse::Success(_) => panic!("ERR parsed as success"),
    }
    match PinEntryResponse::parse_response(b"NOPE") {
        PinEntryResponse::Error(m) => assert_eq!(m, b"NOPE".to_vec()),
        PinEntryResponse::Success(_) => panic!("junk parsed as success"),
    }

    assert!(pinentry::is_status_line(b"S progress"));
    assert!(!pinentry::is_status_line(b"OK"));

    assert_eq!(pinentry::interpret_getpin(b"D 1234"), Ok(b"1234".to_vec()));
    assert_eq!(pinentry::interpret_getpin(b"OK"), Ok(Vec::new()));
    assert_eq!(
        pinentry::interpret_getpin(b"ERR canceled"),
        Err(StoreError::PinCanceled)
    );
}

#[test]
fn paper_bits() {
    assert_eq!(paper::index_to_bit_array(0), Vec::<bool>::new());
    assert_eq!(paper::index_to_bit_array(5), vec![true, false, true]);
    assert_eq!(paper::index_to_bit_array(6), vec![false, true, true]);

    // 255 and 1 contribute 8 + 1 bits; only the first full byte survives.
    let bytes = paper::nums_to_bytes(&vec![255usize, 1usize]);
    assert_eq!(bytes, vec![255u8]);

    // Two 8-bit values pack into two bytes.
    let bytes2 = paper::nums_to_bytes(&vec![170usize, 149usize]);
    assert_eq!(bytes2, vec![170u8, 149u8]);

    assert_eq!(paper::get_language(), "english");
}

#[test]
fn error_messages_exist() {
    assert!(!StoreError::Io.message().is_empty());
    assert!(!StoreError::Lockout.message().is_empty());
    assert!(!StoreError::NoUsableKey.message().is_empty());
}

#[test]
fn config_layout() {
    let home = "/home/u";
    assert_eq!(config::get_app_dir(home), "/home/u/.basalt");
    assert_eq!(config::get_store_dir(home), "/home/u/.basalt/store");
    assert_eq!(config::get_keys_dir(home), "/home/u/.basalt/keys");
    assert_eq!(config::get_private_key_dir(home), "/home/u/.basalt/keys");
    assert_eq!(config::get_password_dir(home), "/home/u/.basalt/store/passwords");
    assert_eq!(config::get_pubkey_dir(home), "/home/u/.basalt/store/.keys");
    assert_eq!(config::get_public_keys_dir(home), "/home/u/.basalt/store/.keys");
    assert_eq!(config::get_chain_head_file(home), "/home/u/.basalt/store/.head");
    assert_eq!(config::get_agent_socket_path(home), "/home/u/.basalt/agent.socket");
}

#[test]
fn base32_rfc_vectors() {
    assert_eq!(base32_encode(b""), b"".to_vec());
    assert_eq!(base32_encode(b"f"), b"MY======".to_vec());
    assert_eq!(base32_encode(b"fo"), b"MZXQ====".to_vec());
    assert_eq!(base32_encode(b"foo"), b"MZXW6===".to_vec());
    assert_eq!(base32_encode(b"foob"), b"MZXW6YQ=".to_vec());
    assert_eq!(base32_encode(b"fooba"), b"MZXW6YTB".to_vec());
    assert_eq!(base32_encode(b"foobar"), b"MZXW6YTBOI======".to_vec());

    assert_eq!(base32_decode(b"MZXW6YTBOI======"), Some(b"foobar".to_vec()));
    assert_eq!(base32_decode(b"MY======"), Some(b"f".to_vec()));
    assert_eq!(base32_decode(b"M1======"), None, "1 is outside the alphabet");
}

#[test]
fn base32_round_trip() {
    let data: Vec<u8> = (0u8..=255u8).collect();
    for chunk in 0..6 {
        let part = &data[0..(chunk * 37 + 5).min(data.len())];
        let enc = base32_encode(part);
        assert_eq!(base32_decode(&enc), Some(part.to_vec()));
    }
}

#[test]
fn write_and_read_secret() {
    sodiumoxide::init().unwrap();
    let mut trusted = TrustedKeys::new();
    let laptop = keys::SodiumPrivateKey::gen_key("laptop".to_string());
    trusted.insert("laptop".to_string(), laptop.get_public_key().key);

    let lists = vec![("".to_string(), vec!["laptop".to_string()])];
    let vault = basalt::secret::write_secret(&lists, &trusted, "notes/wifi", b"pw123\n").unwrap();
    assert_eq!(vault.recipients.len(), 1);
    assert_eq!(vault.recipients[0].device_id, "laptop");

    let unlock = vec![("laptop".to_string(), laptop.enc_sk.clone())];
    assert_eq!(
        basalt::secret::read_secret(&vault, &unlock),
        Ok(b"pw123\n".to_vec())
    );
    match basalt::secret::read_secret(&vault, &vec![]) {
        Err(e) => assert_eq!(e, StoreError::NoUsableKey),
        Ok(_) => panic!("vault opened without any key"),
    }

    match basalt::secret::write_secret(&lists, &trusted, "../escape", b"x") {
        Err(e) => assert_eq!(e, StoreError::PathEscape),
        Ok(_) => panic!("an escaping path was accepted"),
    }
}

#[test]
fn yes_no_answers() {
    assert_eq!(prompt_yes_no("y", None), Some(true));
    assert_eq!(prompt_yes_no("Y", Some(false)), Some(true));
    assert_eq!(prompt_yes_no("yes", None), Some(true));
    assert_eq!(prompt_yes_no("n", Some(true)), Some(false));
    assert_eq!(prompt_yes_no("no", None), Some(false));
    assert_eq!(prompt_yes_no("", Some(true)), Some(true));
    assert_eq!(prompt_yes_no("", None), None);
    assert_eq!(prompt_yes_no("maybe", Some(true)), None);
}

#[test]
fn name_sorting() {
    let names = vec![
        "phone".to_string(),
        "laptop".to_string(),
        "desk".to_string(),
        "laptop2".to_string(),
    ];
    let sorted = paths::sort_names(names);
    assert_eq!(
        sorted,
        vec![
            "desk".to_string(),
            "laptop".to_string(),
            "laptop2".to_string(),
            "phone".to_string(),
        ]
    );
    assert_eq!(paths::sort_names(Vec::new()), Vec::<String>::new());
}

#[test]
fn write_secret_sorts_recipients() {
    sodiumoxide::init().unwrap();
    let mut trusted = TrustedKeys::new();
    for id in ["zeta", "alpha", "mid"] {
        let k = keys::SodiumPrivateKey::gen_key(id.to_string());
        trusted.insert(id.to_string(), k.get_public_key().key);
    }
    let lists = vec![(
        "".to_string(),
        vec!["zeta".to_string(), "alpha".to_string(), "mid".to_string()],
    )];
    let vault = basalt::secret::write_secret(&lists, &trusted, "notes/pw", b"x").unwrap();
    let ids: Vec<String> = vault.recipients.iter().map(|r| r.device_id.clone()).collect();
    assert_eq!(
        ids,
        vec!["alpha".to_string(), "mid".to_string(), "zeta".to_string()]
    );
}

#[test]
fn unlock_derivation_failure_never_counts() {
    sodiumoxide::init().unwrap();
    // A record with a malformed salt can never open; attempts must not
    // count toward the lockout bound.
    let k = keys::SodiumPrivateKey::gen_key("laptop".to_string());
    let mut enc = keys::encrypt_key(&k, b"1234").unwrap();
    enc.enc_salt = vec![0u8; 5];
    let mut rec = LockedKey::new(enc);
    let pin = b"1234".to_vec();
    for _ in 0..5 {
        let (outcome, got) = rec.try_unlock(Some(&pin));
        assert!(outcome.is_failure());
        assert!(got.is_none());
    }
    assert_eq!(rec.num_tries, 0);
}
