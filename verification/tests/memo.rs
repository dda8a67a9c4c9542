use moonshine::memo::{
    assemble_omr_memo, build_omr_memo, decrypt_omr_metadata, encrypt_omr_metadata, payment_memo,
    MAX_PAYMENT_MEMO_BYTES, OMR_MEMO_MAGIC, SCHEME_UNIFOMR,
};

fn pad(key: &[u8; 32], n: usize) -> Vec<u8> {
    let mut reader = blake3::Hasher::new_keyed(key).finalize_xof();
    let mut out = vec![0; n];
    reader.fill(&mut out);
    out
}

/// A cipher for the tests: a key stream, a tag and room for an ephemeral key.
fn seal(key: [u8; 32]) -> impl Fn(&[u8]) -> Result<Vec<u8>, String> {
    move |plain: &[u8]| {
        let body: Vec<u8> = plain
            .iter()
            .zip(pad(&key, plain.len()))
            .map(|(a, b)| a ^ b)
            .collect();
        let mut out = vec![0; 16];
        out.extend_from_slice(blake3::keyed_hash(&key, &body).as_bytes());
        out.extend_from_slice(&body);
        Ok(out)
    }
}

fn open(key: [u8; 32]) -> impl Fn(&[u8]) -> Option<Vec<u8>> {
    move |sealed: &[u8]| {
        let body = sealed.get(48..)?;
        if sealed[16..48] != blake3::keyed_hash(&key, body).as_bytes()[..] {
            return None;
        }
        Some(
            body.iter()
                .zip(pad(&key, body.len()))
                .map(|(a, b)| a ^ b)
                .collect(),
        )
    }
}

#[test]
fn test_encrypt_omr_metadata_roundtrip() {
    let metadata = build_omr_memo(&[0x42; 32], &[0xAB; 32], Some("hello"), None).unwrap();
    let encrypted = encrypt_omr_metadata(&metadata, seal([5; 32])).unwrap();
    let decrypted = decrypt_omr_metadata(&encrypted, open([5; 32])).unwrap();
    assert_eq!(decrypted, metadata);
}

#[test]
fn test_decrypt_wrong_key_fails() {
    let metadata = build_omr_memo(&[0x01; 32], &[0x02; 32], None, None).unwrap();
    let encrypted = encrypt_omr_metadata(&metadata, seal([1; 32])).unwrap();
    assert!(decrypt_omr_metadata(&encrypted, open([2; 32])).is_none());
}

#[test]
fn the_plaintext_is_the_metadata_behind_its_length() {
    for n in [0usize, 1, 252, 253, 300, 70_000] {
        let metadata = vec![7u8; n];
        let shown = encrypt_omr_metadata(&metadata, |p: &[u8]| Ok(p.to_vec())).unwrap();
        let mut want = match n {
            0..=252 => vec![n as u8],
            253..=0xffff => {
                let mut v = vec![0xfd];
                v.extend_from_slice(&(n as u16).to_le_bytes());
                v
            }
            _ => {
                let mut v = vec![0xfe];
                v.extend_from_slice(&(n as u32).to_le_bytes());
                v
            }
        };
        want.extend_from_slice(&metadata);
        assert_eq!(shown, want);
    }
}

#[test]
fn what_does_not_decode_is_no_metadata() {
    let shown = |p: &[u8]| Some(p.to_vec());
    assert_eq!(decrypt_omr_metadata(&[0; 47], shown), None);
    assert_eq!(decrypt_omr_metadata(&[0; 48], shown), Some(vec![]));
    let mut short = vec![60u8];
    short.extend_from_slice(&[1; 50]);
    assert_eq!(decrypt_omr_metadata(&short, shown), None);
    // A length in a longer form than it needs.
    let mut long_form = vec![0xfd, 2, 0];
    long_form.extend_from_slice(&[1; 50]);
    assert_eq!(decrypt_omr_metadata(&long_form, shown), None);
    let mut more = vec![2u8, 8, 9];
    more.extend_from_slice(&[1; 50]);
    assert_eq!(decrypt_omr_metadata(&more, shown), Some(vec![8, 9]));
    assert_eq!(decrypt_omr_metadata(&more, |_: &[u8]| None), None);
}

#[test]
fn a_refusal_to_encrypt_is_passed_on() {
    let refuse = |_: &[u8]| Err::<Vec<u8>, String>("no curve point".to_string());
    assert_eq!(
        encrypt_omr_metadata(&[1], refuse),
        Err("Failed to encrypt OMR metadata: no curve point".to_string())
    );
}

#[test]
fn the_clue_seed_is_a_keyed_hash() {
    let mut hasher = blake3::Hasher::new_keyed(&[0x42; 32]);
    hasher.update(&[0xAB; 32]);
    hasher.update(b"DarkFi-OMR-TxClue-v1");
    hasher.update(&[SCHEME_UNIFOMR]);
    let seed: [u8; 32] = hasher.finalize().into();

    let memo = build_omr_memo(&[0x42; 32], &[0xAB; 32], Some(" hello "), None).unwrap();
    let mut want = vec![OMR_MEMO_MAGIC, 0x05, 0x03];
    want.extend_from_slice(&seed);
    want.push(5);
    want.extend_from_slice(b"hello");
    assert_eq!(memo, want);
    assert_eq!(
        assemble_omr_memo(&seed, Some("hello"), SCHEME_UNIFOMR).unwrap(),
        want
    );
}

#[test]
fn flags_say_what_a_memo_holds() {
    for (text, scheme, flags) in [
        (Some("x"), 5, 3),
        (Some("x"), 1, 1),
        (None, 5, 2),
        (Some(" \t"), 5, 2),
        (None, 1, 0),
    ] {
        let memo = build_omr_memo(&[1; 32], &[2; 32], text, Some(scheme)).unwrap();
        assert_eq!(memo[1], scheme);
        assert_eq!(memo[2], flags);
        assert_eq!(memo[35] as usize, memo.len() - 36);
    }
}

#[test]
fn a_text_may_have_as_many_bytes_as_its_length_can_say() {
    let longest = "é".repeat(127) + "x";
    assert_eq!(longest.len(), MAX_PAYMENT_MEMO_BYTES);
    let memo = build_omr_memo(&[1; 32], &[2; 32], Some(&longest), None).unwrap();
    assert_eq!(memo.len(), 36 + 255);
    let over = longest + "y";
    assert_eq!(
        build_omr_memo(&[1; 32], &[2; 32], Some(&over), None),
        Err("memo exceeds 255 bytes (UTF-8 length 256)".to_string())
    );
}

#[test]
fn a_blank_memo_is_no_memo() {
    assert_eq!(payment_memo(None), None);
    assert_eq!(payment_memo(Some("  \n")), None);
    assert_eq!(payment_memo(Some(" hi ")), Some(b" hi ".to_vec()));
}
