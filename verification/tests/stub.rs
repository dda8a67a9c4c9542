use moonshine::stub::{parse_stub_recipient_pubkey, read_broadcast, BroadcastRefusal};

#[test]
fn test_parse_stub_recipient() {
    let mut tx = Vec::new();
    tx.extend_from_slice(b"DRK_TX_v1\x00");
    tx.extend_from_slice(&1u32.to_le_bytes());
    let recipient = [0x42u8; 32];
    tx.extend_from_slice(&recipient);
    tx.extend_from_slice(&100u64.to_le_bytes());
    assert_eq!(parse_stub_recipient_pubkey(&tx), Some(recipient));
}

#[test]
fn test_parse_stub_rejects_short() {
    assert!(parse_stub_recipient_pubkey(b"DRK_TX_v1\x00").is_none());
}

#[test]
fn a_broadcast_needs_hex_and_a_recipient() {
    let mut tx = b"DRK_TX_v1\x00".to_vec();
    tx.extend_from_slice(&[1, 0, 0, 0]);
    tx.extend_from_slice(&[0x42; 32]);
    let text = hex::encode(&tx).to_uppercase();
    assert_eq!(read_broadcast(&text).unwrap(), (tx.clone(), [0x42; 32]));
    match read_broadcast("0x") {
        Err(BroadcastRefusal::InvalidHex(m)) => assert!(m.contains("'x'")),
        other => panic!("{other:?}"),
    }
    assert!(matches!(
        read_broadcast("abc"),
        Err(BroadcastRefusal::InvalidHex(_))
    ));
    assert!(matches!(
        read_broadcast(&hex::encode(&tx[..45])),
        Err(BroadcastRefusal::NoRecipient)
    ));
    tx[0] = b'X';
    assert!(matches!(
        read_broadcast(&hex::encode(&tx)),
        Err(BroadcastRefusal::NoRecipient)
    ));
}
