use moonshine::clue::{
    owner_of, payment_keys, registration_step, verified_unifomr_clue, CluePublicKey, Registration,
    RegistrationEvent, RegistrationStep,
};

fn entry(key: &[u8]) -> CluePublicKey {
    CluePublicKey {
        clue_public_key: key.to_vec(),
        ownership_proof: vec![7],
        key_version: 3,
    }
}

fn verify(
    attest: &[u8],
    network: u8,
    version: u64,
    recipient: &[u8; 32],
    key: &[u8],
    proof: &[u8],
) -> Result<(), String> {
    assert_eq!((attest, network, version), (&[5u8; 32][..], 1, 3));
    assert_eq!((recipient, proof), (&[2u8; 32], &[7u8][..]));
    if key[0] == 0 {
        Err("forged".to_string())
    } else {
        Ok(())
    }
}

fn build(key: &[u8]) -> Result<Vec<u8>, String> {
    if key.len() < 2 {
        Err("short".to_string())
    } else {
        Ok(key.iter().rev().copied().collect())
    }
}

#[test]
fn a_clue_needs_a_key_an_attestation_and_a_sound_key() {
    let ask = |key: &[u8], attest: &[u8]| {
        verified_unifomr_clue(1, &[2; 32], &entry(key), attest, verify, build)
    };
    assert_eq!(ask(&[], &[5; 32]), Err("empty clue public key".to_string()));
    assert_eq!(
        ask(&[1, 2], &[5; 31]),
        Err("GetLightInfo missing directory_attest_pubkey; upgrade lightwalletd".to_string())
    );
    assert_eq!(ask(&[0, 2], &[5; 32]), Err("forged".to_string()));
    assert_eq!(
        ask(&[1], &[5; 32]),
        Err("invalid UnifOMR clue public key: short".to_string())
    );
    assert_eq!(ask(&[1, 2], &[5; 32]), Ok(vec![2, 1]));
}

#[test]
fn keys_that_are_no_keys_are_left_out() {
    let addresses = vec![
        ("a".to_string(), vec![1; 32], false),
        ("b".to_string(), vec![2; 31], false),
        ("c".to_string(), vec![3; 40], true),
        ("d".to_string(), vec![0xFF; 32], false),
    ];
    let public_of = |s: &[u8; 32]| {
        if s[0] == 0xFF {
            None
        } else {
            Some([s[0] + 100; 32])
        }
    };
    let keys = payment_keys(&addresses, public_of);
    assert_eq!(keys, vec![([101; 32], [1; 32]), ([103; 32], [3; 32])]);
    assert_eq!(owner_of(&keys, &[103; 32]), Some([3; 32]));
    assert_eq!(owner_of(&keys, &[102; 32]), None);
    let doubled = vec![([1; 32], [5; 32]), ([1; 32], [6; 32])];
    assert_eq!(owner_of(&doubled, &[1; 32]), Some([6; 32]));

    assert!(matches!(
        registration_step(true, &keys, &[9; 32]),
        RegistrationStep::Done
    ));
    assert!(matches!(
        registration_step(false, &keys, &[9; 32]),
        RegistrationStep::MissingKey
    ));
    match registration_step(false, &keys, &[101; 32]) {
        RegistrationStep::Register(s) => assert_eq!(s, [1; 32]),
        other => panic!("{other:?}"),
    }
}

#[test]
fn a_sync_needs_one_registered_address() {
    let mut reg = Registration::new();
    reg.record(RegistrationEvent::Refused("no route".to_string()));
    reg.record(RegistrationEvent::Known);
    reg.record(RegistrationEvent::Taken);
    assert_eq!(reg.finish("http://x"), Ok(2));

    let mut reg = Registration::new();
    reg.record(RegistrationEvent::Refused("no route".to_string()));
    assert_eq!(
        reg.finish("http://x"),
        Err("RegisterCluePublicKey failed for all payment addresses (no route). \
             Ensure darkfi-lightwalletd with UnifOMR is reachable at http://x."
            .to_string())
    );
    let mut reg = Registration::new();
    reg.record(RegistrationEvent::KeyMissing);
    assert_eq!(
        reg.last_error.as_deref(),
        Some("missing payment SecretKey for ownership proof")
    );
    assert!(Registration::new().finish("u").unwrap_err().contains("(unknown)"));
}
