use moonshine::db::{DbError, WalletDb};

const DARK_TOKEN_ID: [u8; 32] = [0x44; 32];
const TIME: &str = "2026-01-01 00:00:00";

fn db() -> WalletDb {
    WalletDb::in_memory(DARK_TOKEN_ID).unwrap()
}

fn pad(i: usize) -> u8 {
    blake3::keyed_hash(&[7u8; 32], &(i as u64).to_le_bytes()).as_bytes()[0]
}

fn wrap(plain: &[u8]) -> Vec<u8> {
    let mut out = b"MSK1".to_vec();
    out.extend(plain.iter().enumerate().map(|(i, b)| b ^ pad(i)));
    out
}

fn unwrap(stored: &[u8]) -> Result<Vec<u8>, String> {
    match stored.strip_prefix(b"MSK1") {
        Some(body) => Ok(body.iter().enumerate().map(|(i, b)| b ^ pad(i)).collect()),
        None => Err("not a wrapped secret".to_string()),
    }
}

#[test]
fn test_db_initialize() {
    let db = db();
    let (height, birthday) = db.get_sync_state().unwrap();
    assert_eq!(height, 0);
    assert_eq!(birthday, 0);
}

#[test]
fn test_secret_not_stored_plaintext() {
    let mut db = db();
    let secret = [0xABu8; 32];
    db.insert_address("pk", &secret, wrap).unwrap();
    let stored: Vec<u8> = db
        .tables()
        .addresses
        .iter()
        .find(|row| row.public_key == "pk")
        .unwrap()
        .secret_key
        .clone();
    assert!(
        stored.starts_with(b"MSK1"),
        "secret_key must be wrapped (MSK1), got {:?}",
        &stored[..stored.len().min(8)]
    );
    assert_ne!(stored, secret.to_vec());
    // Round-trip via public API still yields plaintext.
    let secrets = db.get_all_secrets(unwrap).unwrap();
    assert_eq!(secrets, vec![secret.to_vec()]);
}

#[test]
fn test_insert_and_list_addresses() {
    let mut db = db();
    db.insert_address("addr1_public_key_hex", &[1, 2, 3], wrap)
        .unwrap();
    db.insert_address("addr2_public_key_hex", &[4, 5, 6], wrap)
        .unwrap();
    db.set_default_address("addr1_public_key_hex").unwrap();

    let addrs = db.list_addresses().unwrap();
    assert_eq!(addrs.len(), 2);
    assert_eq!(addrs[0].0, "addr1_public_key_hex");
    assert!(addrs[0].1); // is_default

    let def = db.get_default_address().unwrap();
    assert_eq!(def, Some("addr1_public_key_hex".to_string()));
}

#[test]
fn test_insert_note_and_balance() {
    let mut db = db();
    db.insert_note(
        "txhash1",
        0,
        1000,
        "DRK",
        &[1, 2, 3, 4],
        100,
        None,
        None,
        None,
        None,
        None,
        None,
        None,
        None,
        Some(&[1, 2, 3, 4]),
        Some(&[9u8; 32]),
        0,
        wrap,
    )
    .unwrap();
    db.insert_note(
        "txhash2",
        0,
        500,
        "DRK",
        &[5, 6, 7, 8],
        101,
        Some("test memo"),
        None,
        None,
        None,
        None,
        None,
        None,
        None,
        Some(&[5, 6, 7, 8]),
        Some(&[9u8; 32]),
        0,
        wrap,
    )
    .unwrap();

    let balance = db.confirmed_balance("DRK").unwrap();
    assert_eq!(balance, 1500);

    let unspent = db.list_unspent().unwrap();
    assert_eq!(unspent.len(), 2);
}

#[test]
fn test_mark_spent_reduces_balance() {
    let mut db = db();
    db.insert_note(
        "tx1",
        0,
        1000,
        "DRK",
        &[1, 2, 3, 4],
        100,
        None,
        None,
        None,
        None,
        None,
        None,
        None,
        None,
        Some(&[1, 2, 3, 4]),
        Some(&[9u8; 32]),
        0,
        wrap,
    )
    .unwrap();
    db.insert_note(
        "tx2",
        0,
        500,
        "DRK",
        &[5, 6, 7, 8],
        101,
        None,
        None,
        None,
        None,
        None,
        None,
        None,
        None,
        Some(&[5, 6, 7, 8]),
        Some(&[9u8; 32]),
        0,
        wrap,
    )
    .unwrap();

    db.mark_note_spent(&[1, 2, 3, 4]).unwrap();

    let balance = db.confirmed_balance("DRK").unwrap();
    assert_eq!(balance, 500);
}

#[test]
fn test_mark_spent_by_commitment_and_loc() {
    let mut db = db();
    let commit_a = [0xAAu8; 32];
    let commit_b = [0xBBu8; 32];
    db.insert_note(
        "aabbccdd1111",
        0,
        1000,
        "DRK",
        &[1, 2, 3, 4],
        100,
        None,
        None,
        None,
        None,
        None,
        None,
        None,
        Some(&commit_a),
        Some(&[1, 2, 3, 4]),
        Some(&[9u8; 32]),
        0,
        wrap,
    )
    .unwrap();
    db.insert_note(
        "ccddeeff2222",
        1,
        500,
        "DRK",
        &[5, 6, 7, 8],
        101,
        None,
        None,
        None,
        None,
        None,
        None,
        None,
        Some(&commit_b),
        Some(&[5, 6, 7, 8]),
        Some(&[9u8; 32]),
        0,
        wrap,
    )
    .unwrap();

    assert_eq!(db.mark_note_spent_by_commitment(&commit_a).unwrap(), 1);
    assert_eq!(db.confirmed_balance("DRK").unwrap(), 500);
    assert_eq!(db.mark_note_spent_by_loc("ccddeeff", 1).unwrap(), 1);
    assert_eq!(db.confirmed_balance("DRK").unwrap(), 0);
    assert_eq!(db.list_unspent().unwrap().len(), 0);
}

#[test]
fn test_sync_state_update() {
    let mut db = db();
    db.set_sync_height(42).unwrap();
    db.set_birthday_height(10).unwrap();

    let (height, birthday) = db.get_sync_state().unwrap();
    assert_eq!(height, 42);
    assert_eq!(birthday, 10);
}

#[test]
fn test_prune_spent_notes() {
    let mut db = db();
    db.insert_note(
        "tx1",
        0,
        100,
        "DRK",
        &[1],
        50,
        None,
        None,
        None,
        None,
        None,
        None,
        None,
        None,
        Some(&[1]),
        Some(&[9u8; 32]),
        0,
        wrap,
    )
    .unwrap();
    db.insert_note(
        "tx2",
        0,
        200,
        "DRK",
        &[2],
        60,
        None,
        None,
        None,
        None,
        None,
        None,
        None,
        None,
        Some(&[2]),
        Some(&[9u8; 32]),
        0,
        wrap,
    )
    .unwrap();
    db.mark_note_spent(&[1]).unwrap();

    let pruned = db.prune_spent_below(55).unwrap();
    assert_eq!(pruned, 1);

    // Unspent note still there
    assert_eq!(db.confirmed_balance("DRK").unwrap(), 200);
}

#[test]
fn test_metadata_roundtrip() {
    let mut db = db();
    db.set_meta("seed_hash", &[0xDE, 0xAD]).unwrap();
    let val = db.get_meta("seed_hash").unwrap();
    assert_eq!(val, Some(vec![0xDE, 0xAD]));

    assert_eq!(db.get_meta("nonexistent").unwrap(), None);
}

#[test]
fn test_duplicate_note_ignored() {
    let mut db = db();
    db.insert_note(
        "tx1",
        0,
        100,
        "DRK",
        &[1],
        50,
        None,
        None,
        None,
        None,
        None,
        None,
        None,
        None,
        Some(&[1]),
        Some(&[9u8; 32]),
        0,
        wrap,
    )
    .unwrap();
    // Same tx_hash + output_index should be ignored (INSERT OR IGNORE)
    db.insert_note(
        "tx1",
        0,
        999,
        "DRK",
        &[1],
        50,
        None,
        None,
        None,
        None,
        None,
        None,
        None,
        None,
        Some(&[1]),
        Some(&[9u8; 32]),
        0,
        wrap,
    )
    .unwrap();

    let balance = db.confirmed_balance("DRK").unwrap();
    assert_eq!(balance, 100); // Not 999
}

#[test]
fn test_invalidate_above_height_removes_notes() {
    let mut db = db();
    for (h, ser) in [(100u32, &[10u8][..]), (200, &[20u8]), (300, &[30u8])] {
        db.insert_note(
            &format!("tx_{h}"),
            0,
            1000,
            "DRK",
            ser,
            h,
            None,
            None,
            None,
            None,
            None,
            None,
            None,
            None,
            Some(ser),
            Some(&[9u8; 32]),
            0,
            wrap,
        )
        .unwrap();
    }
    assert_eq!(db.confirmed_balance("DRK").unwrap(), 3000);

    let (notes_del, _) = db.invalidate_above_height(150).unwrap();
    assert_eq!(notes_del, 2);
    assert_eq!(db.confirmed_balance("DRK").unwrap(), 1000);
    let (sync_h, _) = db.get_sync_state().unwrap();
    assert_eq!(sync_h, 150);
}

#[test]
fn test_invalidate_above_height_unspends_coins() {
    let mut db = db();
    db.insert_note(
        "tx_lo",
        0,
        500,
        "DRK",
        &[1],
        100,
        None,
        None,
        None,
        None,
        None,
        None,
        None,
        None,
        Some(&[1]),
        Some(&[9u8; 32]),
        0,
        wrap,
    )
    .unwrap();
    db.insert_note(
        "tx_hi",
        0,
        300,
        "DRK",
        &[2],
        200,
        None,
        None,
        None,
        None,
        None,
        None,
        None,
        None,
        Some(&[2]),
        Some(&[9u8; 32]),
        0,
        wrap,
    )
    .unwrap();
    db.mark_note_spent(&[1]).unwrap();
    db.mark_note_spent(&[2]).unwrap();
    assert_eq!(db.confirmed_balance("DRK").unwrap(), 0);

    db.invalidate_above_height(150).unwrap();
    assert_eq!(db.confirmed_balance("DRK").unwrap(), 500);
}

#[test]
fn test_invalidate_above_height_removes_transactions() {
    let mut db = db();
    db.insert_transaction("hash_100", 100, "incoming", 1000, "DRK", None, None, TIME)
        .unwrap();
    db.insert_transaction("hash_200", 200, "outgoing", 500, "DRK", None, None, TIME)
        .unwrap();
    db.insert_transaction("hash_300", 300, "incoming", 200, "DRK", None, None, TIME)
        .unwrap();

    let (_, txs_del) = db.invalidate_above_height(150).unwrap();
    assert_eq!(txs_del, 2);

    let remaining = db.list_transactions(100).unwrap();
    assert_eq!(remaining.len(), 1);
    assert_eq!(remaining[0].hash, "hash_100");
}

#[test]
fn test_insert_transaction_promotes_mempool_height() {
    let mut db = db();
    db.insert_transaction(
        "685d3b0f",
        0,
        "outgoing",
        1_000_000,
        "DRK",
        None,
        Some("e2e"),
        TIME,
    )
    .unwrap();
    db.insert_transaction("685d3b0f", 62369, "incoming", 4_000_000, "DRK", None, None, TIME)
        .unwrap();
    let tx = db.get_transaction("685d3b0f").unwrap().expect("row");
    assert_eq!(tx.block_height, 62369);
    assert_eq!(tx.direction, "outgoing");
    assert_eq!(tx.memo.as_deref(), Some("e2e"));

    db.insert_transaction("aabbccdd", 0, "outgoing", 1, "DRK", None, None, TIME)
        .unwrap();
    assert_eq!(db.confirm_transaction("aabbccdd", 61675).unwrap(), 1);
    assert_eq!(
        db.get_transaction("aabbccdd")
            .unwrap()
            .unwrap()
            .block_height,
        61675
    );
}

#[test]
fn test_reset_for_rescan_wipes_everything() {
    let mut db = db();
    db.insert_note(
        "tx1",
        0,
        1000,
        "DRK",
        &[1],
        100,
        None,
        None,
        None,
        None,
        None,
        None,
        None,
        None,
        Some(&[1]),
        Some(&[9u8; 32]),
        0,
        wrap,
    )
    .unwrap();
    db.insert_transaction("hash1", 100, "incoming", 1000, "DRK", None, None, TIME)
        .unwrap();
    db.set_meta("tree_state", &[0xFF; 64]).unwrap();
    db.set_sync_height(100).unwrap();

    db.reset_for_rescan(0).unwrap();

    assert_eq!(db.confirmed_balance("DRK").unwrap(), 0);
    assert!(db.list_transactions(100).unwrap().is_empty());
    assert_eq!(db.get_meta("tree_state").unwrap(), None);
    assert!(!db.merkle_from_genesis());
    let (h, _) = db.get_sync_state().unwrap();
    assert_eq!(h, 0);
}

#[test]
fn test_merkle_from_genesis_flag_roundtrip() {
    let mut db = db();
    assert!(!db.merkle_from_genesis());
    db.set_merkle_from_genesis(true).unwrap();
    assert!(db.merkle_from_genesis());
    db.set_meta("tree_state", &[0xFF; 8]).unwrap();
    db.reset_for_rescan(52999).unwrap();
    assert!(!db.merkle_from_genesis());
    assert_eq!(db.get_meta("tree_state").unwrap(), None);
}

#[test]
fn test_invalidate_empty_db_succeeds() {
    let mut db = db();
    let (notes, txs) = db.invalidate_above_height(0).unwrap();
    assert_eq!(notes, 0);
    assert_eq!(txs, 0);
}

fn add(db: &mut WalletDb, tx: &str, index: u32, value: i64, token: &str, height: u32, key: u8) -> i64 {
    db.insert_note(
        tx,
        index,
        value,
        token,
        &[key],
        height,
        None,
        Some(&[1; 32]),
        Some(&[2; 32]),
        Some(&[3; 32]),
        Some(5),
        Some(&[4; 32]),
        Some(key as u32),
        Some(&[key; 32]),
        Some(&[key, 1]),
        Some(&[9u8; 32]),
        0,
        wrap,
    )
    .unwrap()
}

#[test]
fn native_notes_count_under_each_of_their_names() {
    let mut db = db();
    let hex = db.dark_token_id_hex();
    assert_eq!(hex, "44".repeat(32));
    add(&mut db, "a", 0, 1, "DRK", 1, 1);
    add(&mut db, "b", 0, 10, "drk", 1, 2);
    add(&mut db, "c", 0, 100, &hex, 1, 3);
    add(&mut db, "d", 0, 1000, "other", 1, 4);
    assert_eq!(db.confirmed_balance("Drk").unwrap(), 111);
    assert_eq!(db.confirmed_balance(&hex.to_uppercase()).unwrap(), 111);
    assert_eq!(db.confirmed_balance("other").unwrap(), 1000);
    assert_eq!(db.confirmed_balance("OTHER").unwrap(), 0);
    assert!(db.is_drk_token("dRk"));
    assert!(!db.is_drk_token("DRKX"));
}

#[test]
fn notes_are_listed_by_height_then_id() {
    let mut db = db();
    add(&mut db, "late", 0, 1, "DRK", 9, 1);
    add(&mut db, "first", 0, 2, "DRK", 3, 2);
    add(&mut db, "second", 0, 3, "DRK", 3, 3);
    let order: Vec<String> = db.list_unspent().unwrap().into_iter().map(|n| n.0).collect();
    assert_eq!(order, ["first", "second", "late"]);
    assert_eq!(
        db.list_unspent_note_locs().unwrap()[2],
        ("late".to_string(), 0, 9)
    );
}

#[test]
fn spendable_notes_come_with_all_fields() {
    let mut db = db();
    add(&mut db, "a", 2, 70, "DRK", 4, 6);
    let full = db.list_unspent_full(unwrap).unwrap();
    assert_eq!(full.len(), 1);
    let n = &full[0];
    assert_eq!((n.0.as_str(), n.1, n.2, n.3.as_str()), ("a", 2, 70, "DRK"));
    assert_eq!(n.4, vec![1; 32]);
    assert_eq!(n.5, vec![2; 32]);
    assert_eq!(n.6, vec![3; 32]);
    let mut hook = vec![0; 32];
    hook[0] = 5;
    assert_eq!(n.7, hook);
    assert_eq!(n.8, vec![4; 32]);
    assert_eq!(n.9, 6);
    assert_eq!(n.10, vec![6; 32]);
    assert_eq!(n.11, vec![9; 32]);

    assert_eq!(db.set_spend_hook_bytes("a", 2, &[8; 32]).unwrap(), 1);
    assert_eq!(db.list_unspent_full(unwrap).unwrap()[0].7, vec![8; 32]);
    assert_eq!(db.set_spend_hook_bytes("a", 2, &[8; 31]).unwrap(), 1);
    assert_eq!(db.list_unspent_full(unwrap).unwrap()[0].7, hook);
}

#[test]
fn an_empty_column_or_a_broken_secret_ends_the_listing() {
    let mut db = db();
    db.insert_note(
        "t", 0, 1, "DRK", &[0], 1, None, Some(&[1; 32]), None, None, None, None, Some(0),
        Some(&[1; 32]), None, Some(&[9; 32]), 0, wrap,
    )
    .unwrap();
    assert!(matches!(
        db.list_unspent_full(unwrap),
        Err(DbError::NullColumn(5))
    ));
    db.reset_for_rescan(0).unwrap();
    add(&mut db, "a", 0, 1, "DRK", 1, 1);
    let refuse = |_: &[u8]| Err::<Vec<u8>, String>("bad mac".to_string());
    match db.list_unspent_full(refuse) {
        Err(DbError::Unwrap(m)) => assert_eq!(m, "bad mac"),
        _ => panic!("expected the unwrap error"),
    }
    match db.get_all_secrets(refuse) {
        Ok(v) => assert!(v.is_empty()),
        Err(_) => panic!("no address to unwrap"),
    }
    db.insert_address("pk", &[1], wrap).unwrap();
    assert!(matches!(db.get_all_secrets(refuse), Err(DbError::Unwrap(_))));
    assert!(matches!(
        db.get_all_address_keys(refuse),
        Err(DbError::Unwrap(_))
    ));
    assert_eq!(
        db.get_all_address_keys(unwrap).unwrap(),
        vec![("pk".to_string(), vec![1], false)]
    );
}

#[test]
fn refreshed_fields_lose_the_tree_position() {
    let mut db = db();
    add(&mut db, "a", 0, 1, "DRK", 1, 1);
    let n = db
        .update_note_spend_fields(
            "a", 0, 77, "tok", &[1], &[2], &[3], 4, &[5; 32], &[6], &[7; 32], &[8; 32], wrap,
        )
        .unwrap();
    assert_eq!(n, 1);
    let row = &db.tables().notes[0];
    assert_eq!((row.value_raw, row.token_id.as_str()), (77, "tok"));
    assert_eq!(row.leaf_position, None);
    assert_eq!(row.commitment, Some(vec![7; 32]));
    assert_eq!(row.spend_hook, Some(4));
    assert_eq!(row.spend_hook_bytes, Some(vec![5; 32]));
    assert_eq!(row.owner_secret, Some(wrap(&[8; 32])));
    assert_eq!(db.update_leaf_position(&[7; 32], 12).unwrap(), 1);
    assert_eq!(db.tables().notes[0].leaf_position, Some(12));
    assert_eq!(db.list_owned_commitments().unwrap(), vec![vec![7; 32]]);
    db.mark_note_spent(&[1, 1]).unwrap();
    assert_eq!(db.set_note_commitment("a", 0, &[1; 32]).unwrap(), 0);
}

#[test]
fn a_spent_note_is_not_spent_again() {
    let mut db = db();
    add(&mut db, "a", 0, 5, "DRK", 1, 1);
    assert_eq!(db.mark_note_spent_by_commitment(&[1; 32]).unwrap(), 1);
    assert_eq!(db.mark_note_spent_by_commitment(&[1; 32]).unwrap(), 0);
    assert!(db.list_unspent_full(unwrap).unwrap().is_empty());
    assert!(db.list_owned_commitments().unwrap().is_empty());
}

#[test]
fn a_birthday_sets_where_the_scan_starts() {
    let mut db = db();
    db.start_at_birthday(500);
    assert_eq!(db.get_sync_state().unwrap(), (499, 500));
    db.set_sync_height(9000).unwrap();
    add(&mut db, "a", 0, 5, "DRK", 600, 1);
    db.insert_address("pk", &[1], wrap).unwrap();
    db.set_meta("seed_hash", &[3]).unwrap();
    db.rescan_from_birthday();
    assert_eq!(db.get_sync_state().unwrap(), (499, 500));
    assert_eq!(db.confirmed_balance("DRK").unwrap(), 0);
    assert_eq!(db.list_addresses().unwrap().len(), 1);
    assert_eq!(db.get_meta("seed_hash").unwrap(), Some(vec![3]));
    db.start_at_birthday(0);
    assert_eq!(db.get_sync_state().unwrap(), (0, 0));
}

#[test]
fn history_is_listed_newest_first() {
    let mut db = db();
    for (hash, h) in [("a", 0), ("b", 7), ("c", 3), ("d", 7)] {
        db.insert_transaction(hash, h, "incoming", 1, "DRK", None, None, TIME)
            .unwrap();
    }
    let order: Vec<String> = db
        .list_transactions(10)
        .unwrap()
        .into_iter()
        .map(|t| t.hash)
        .collect();
    assert_eq!(order, ["b", "d", "c", "a"]);
    assert_eq!(db.list_transactions(2).unwrap().len(), 2);
    assert!(db.list_transactions(0).unwrap().is_empty());
    assert_eq!(db.confirm_transaction("a", 0).unwrap(), 0);
    assert_eq!(db.confirm_transaction("b", 9).unwrap(), 0);
    assert_eq!(db.confirm_transaction("nobody", 9).unwrap(), 0);
    assert_eq!(db.get_transaction("b").unwrap().unwrap().block_height, 7);
    assert!(db.get_transaction("nobody").unwrap().is_none());
}

#[test]
fn tables_are_checked_when_opened() {
    let mut fresh = db();
    add(&mut fresh, "a", 0, 5, "DRK", 1, 1);
    add(&mut fresh, "b", 0, 5, "DRK", 1, 2);
    fresh.insert_address("pk", &[1], wrap).unwrap();
    let tables = || {
        let t = fresh.tables();
        moonshine::db::WalletTables {
            meta: vec![("k".to_string(), vec![1])],
            addresses: t.addresses.clone(),
            notes: t.notes.clone(),
            transactions: t.transactions.clone(),
            last_synced_height: 3,
            birthday_height: 2,
            last_address_id: t.last_address_id,
            last_note_id: t.last_note_id,
        }
    };
    let db = WalletDb::open(tables(), DARK_TOKEN_ID).unwrap();
    assert_eq!(db.get_sync_state().unwrap(), (3, 2));
    assert_eq!(db.get_meta("k").unwrap(), Some(vec![1]));

    let mut t = tables();
    t.notes.swap(0, 1);
    assert!(matches!(WalletDb::open(t, DARK_TOKEN_ID), Err(DbError::Corrupt)));
    let mut t = tables();
    t.notes[1].tx_hash = "a".to_string();
    assert!(matches!(WalletDb::open(t, DARK_TOKEN_ID), Err(DbError::Corrupt)));
    let mut t = tables();
    t.last_note_id = 1;
    assert!(matches!(WalletDb::open(t, DARK_TOKEN_ID), Err(DbError::Corrupt)));
    let mut t = tables();
    t.meta.push(("k".to_string(), vec![]));
    assert!(matches!(WalletDb::open(t, DARK_TOKEN_ID), Err(DbError::Corrupt)));

    let mut t = tables();
    t.last_note_id = i64::MAX;
    t.last_address_id = i64::MAX;
    let mut full = WalletDb::open(t, DARK_TOKEN_ID).unwrap();
    assert!(matches!(
        full.insert_address("new", &[1], wrap),
        Err(DbError::Full)
    ));
    assert!(matches!(
        full.insert_note(
            "c", 0, 1, "DRK", &[0], 1, None, None, None, None, None, None, None, None, None, None,
            0,
            wrap,
        ),
        Err(DbError::Full)
    ));
}

#[test]
fn commitments_are_derived_anew() {
    let mut db = db();
    let hex = db.dark_token_id_hex();
    add(&mut db, "old", 0, -1, &hex, 1, 1);
    add(&mut db, "same", 0, 20, &hex, 1, 2);
    add(&mut db, "named", 0, 30, "DRK", 1, 3);
    add(&mut db, "spent", 0, 40, &hex, 1, 4);
    db.mark_note_spent(&[4, 1]).unwrap();
    let derive = |c: &moonshine::db::recompute::CoinInputs| {
        assert_eq!(c.secret, [9; 32]);
        assert_eq!(c.token_id, DARK_TOKEN_ID);
        assert_eq!(c.coin_blind, [1; 32]);
        assert_eq!(c.user_data, [4; 32]);
        assert_eq!(c.spend_hook[0], 5);
        if c.value == u64::MAX {
            Some([0xEE; 32])
        } else {
            Some([2; 32])
        }
    };
    assert_eq!(db.recompute_note_commitments(unwrap, derive).unwrap(), (2, 1));
    let rows = &db.tables().notes;
    assert_eq!(rows[0].commitment, Some(vec![0xEE; 32]));
    assert_eq!(rows[0].leaf_position, None);
    assert_eq!(rows[1].commitment, Some(vec![2; 32]));
    assert_eq!(rows[1].leaf_position, Some(2));
    assert_eq!(rows[2].commitment, Some(vec![3; 32]));
    assert_eq!(rows[3].commitment, Some(vec![4; 32]));

    let refuse = |_: &[u8]| Err::<Vec<u8>, String>("bad".to_string());
    assert_eq!(db.recompute_note_commitments(refuse, derive).unwrap(), (0, 0));
}

#[test]
fn a_blind_outside_the_field_is_left_out() {
    let mut db = db();
    let hex = db.dark_token_id_hex();
    db.insert_note(
        "t", 0, 1, &hex, &[0], 1, None, Some(&[0xFF; 32]), None, None, None, None, None, None,
        None, Some(&[9; 32]), 0, wrap,
    )
    .unwrap();
    let derive = |_: &moonshine::db::recompute::CoinInputs| Some([1u8; 32]);
    assert_eq!(db.recompute_note_commitments(unwrap, derive).unwrap(), (0, 0));
}

#[test]
fn nullifiers_are_derived_anew() {
    let mut db = db();
    add(&mut db, "a", 0, 1, "DRK", 1, 1);
    add(&mut db, "b", 0, 1, "DRK", 1, 2);
    let nullifier_of = |secret: &[u8; 32], coin: &[u8; 32]| {
        assert_eq!(*secret, [9; 32]);
        if coin[0] == 1 {
            Some([0x77; 32])
        } else {
            None
        }
    };
    assert_eq!(db.recompute_owned_nullifiers(unwrap, nullifier_of).unwrap(), 1);
    assert_eq!(db.tables().notes[0].nullifier, Some(vec![0x77; 32]));
    assert_eq!(db.tables().notes[1].nullifier, Some(vec![2, 1]));
    assert_eq!(db.mark_note_spent(&[0x77; 32]).unwrap(), 1);
    let refuse = |_: &[u8]| Err::<Vec<u8>, String>("bad".to_string());
    assert!(matches!(
        db.recompute_owned_nullifiers(refuse, nullifier_of),
        Err(DbError::Unwrap(_))
    ));
}

#[test]
fn a_locator_is_a_prefix_of_the_hash() {
    let mut db = db();
    for (tx, value, serial) in [("tx_1", 100, 1u8), ("txA1", 200, 2)] {
        db.insert_note(
            tx, 0, value, "DRK", &[serial], 50, None, None, None, None, None, None, None, None,
            Some(&[serial]), Some(&[9u8; 32]), 0, wrap,
        )
        .unwrap();
    }
    assert_eq!(db.mark_note_spent_by_loc("TX", 0).unwrap(), 0);
    assert_eq!(db.mark_note_spent_by_loc("%", 0).unwrap(), 0);
    assert_eq!(db.mark_note_spent_by_loc("tx_1", 0).unwrap(), 1);
    assert_eq!(db.confirmed_balance("DRK").unwrap(), 200);
    assert_eq!(db.mark_note_spent_by_loc("tx_1", 0).unwrap(), 0);
    assert_eq!(db.mark_note_spent_by_loc("tx", 1).unwrap(), 0);
    assert_eq!(db.mark_note_spent_by_loc("tx", 0).unwrap(), 1);
    assert_eq!(db.confirmed_balance("DRK").unwrap(), 0);
}

#[test]
fn an_ignored_note_leaves_the_last_row_id() {
    let mut db = db();
    let mut insert = |tx: &str, before: i64| {
        db.insert_note(
            tx, 0, 1, "DRK", &[0], 1, None, None, None, None, None, None, None, None, None, None,
            before, wrap,
        )
        .unwrap()
    };
    assert_eq!(insert("a", 7), 1);
    assert_eq!(insert("a", 7), 7);
    assert_eq!(insert("b", 7), 3);
}

#[test]
fn a_second_recompute_changes_nothing() {
    let mut db = db();
    let hex = db.dark_token_id_hex();
    for key in 1..6u8 {
        add(&mut db, "t", key.into(), key.into(), &hex, 1, key);
    }
    add(&mut db, "named", 0, 9, "DRK", 1, 9);
    db.mark_note_spent(&[5, 1]).unwrap();
    let derive = |c: &moonshine::db::recompute::CoinInputs| {
        if c.value < 4 {
            Some([c.value as u8 / 2 * 2; 32])
        } else {
            None
        }
    };
    let (checked, changed) = db.recompute_note_commitments(unwrap, derive).unwrap();
    assert_eq!((checked, changed), (3, 2));
    let state = |db: &WalletDb| -> Vec<(Option<Vec<u8>>, Option<u32>, Option<Vec<u8>>, bool)> {
        let rows = &db.tables().notes;
        rows.iter()
            .map(|n| (n.commitment.clone(), n.leaf_position, n.nullifier.clone(), n.spent))
            .collect()
    };
    let after = state(&db);
    assert_eq!(after[0], (Some(vec![0; 32]), None, Some(vec![1, 1]), false));
    assert_eq!(after[1], (Some(vec![2; 32]), Some(2), Some(vec![2, 1]), false));
    assert_eq!(after[4], (Some(vec![5; 32]), Some(5), Some(vec![5, 1]), true));
    assert_eq!(db.recompute_note_commitments(unwrap, derive).unwrap(), (3, 0));
    assert_eq!(state(&db), after);

    let nullifier_of = |secret: &[u8; 32], coin: &[u8; 32]| {
        Some([secret[0].wrapping_add(coin[0]); 32])
    };
    assert_eq!(db.recompute_owned_nullifiers(unwrap, nullifier_of).unwrap(), 5);
    let after = state(&db);
    assert_eq!(after[3].2, Some(vec![13; 32]));
    assert_eq!(db.recompute_owned_nullifiers(unwrap, nullifier_of).unwrap(), 5);
    assert_eq!(state(&db), after);
    assert_eq!(db.mark_note_spent(&[13; 32]).unwrap(), 1);
    assert!(db.tables().notes[3].spent);
}
