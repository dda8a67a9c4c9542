use moonshine::db::WalletDb;
use moonshine::pruning::{prune_cutoff, prune_wallet};

fn wrap(plain: &[u8]) -> Vec<u8> {
    plain.iter().rev().copied().collect()
}

fn db() -> WalletDb {
    WalletDb::in_memory([0x44; 32]).unwrap()
}

fn add(db: &mut WalletDb, tx: &str, value: i64, key: u8, height: u32) {
    db.insert_note(
        tx,
        0,
        value,
        "DRK",
        &[key],
        height,
        None,
        None,
        None,
        None,
        None,
        None,
        None,
        None,
        Some(&[key]),
        Some(&[9u8; 32]),
        0,
        wrap,
    )
    .unwrap();
}

#[test]
fn test_prune_wallet_empty() {
    let mut db = db();
    let result = prune_wallet(&mut db).unwrap();
    assert_eq!(result.notes_pruned, 0);
}

#[test]
fn test_prune_wallet_with_spent() {
    let mut db = db();
    db.set_sync_height(5000).unwrap();

    add(&mut db, "tx1", 100, 1, 100);
    add(&mut db, "tx2", 200, 2, 200);
    add(&mut db, "tx3", 300, 3, 4500);

    db.mark_note_spent(&[1]).unwrap();
    db.mark_note_spent(&[2]).unwrap();

    let result = prune_wallet(&mut db).unwrap();
    assert_eq!(result.notes_pruned, 2);

    // Unspent note at height 4500 should still exist
    assert_eq!(db.confirmed_balance("DRK").unwrap(), 300);
}

#[test]
fn the_window_is_a_thousand_blocks() {
    assert_eq!(prune_cutoff(0), None);
    assert_eq!(prune_cutoff(1000), None);
    assert_eq!(prune_cutoff(1001), Some(1));
    assert_eq!(prune_cutoff(u32::MAX), Some(u32::MAX - 1000));

    let mut db = db();
    db.set_sync_height(1500).unwrap();
    add(&mut db, "in", 1, 1, 500);
    add(&mut db, "out", 2, 2, 499);
    add(&mut db, "kept", 4, 3, 10);
    db.mark_note_spent(&[1]).unwrap();
    db.mark_note_spent(&[2]).unwrap();
    assert_eq!(prune_wallet(&mut db).unwrap().notes_pruned, 1);
    let left: Vec<&str> = db.tables().notes.iter().map(|n| n.tx_hash.as_str()).collect();
    assert_eq!(left, ["in", "kept"]);
}
