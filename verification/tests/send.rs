use moonshine::db::{DbError, WalletDb};
use moonshine::send::{
    can_select, judge_broadcast, plan_send, record_sent, reports_no_error, select_coins,
    BroadcastVerdict, SendRefusal,
};

const DARK_TOKEN_ID: [u8; 32] = [0x44; 32];

fn keep(plain: &[u8]) -> Vec<u8> {
    plain.to_vec()
}

fn wallet(values: &[(i64, &str)]) -> WalletDb {
    let mut db = WalletDb::in_memory(DARK_TOKEN_ID).unwrap();
    for (i, (value, token)) in values.iter().enumerate() {
        db.insert_note(
            &format!("tx{i}"),
            i as u32,
            *value,
            token,
            &[0],
            100 - i as u32,
            None,
            Some(&[1; 32]),
            Some(&[1; 32]),
            Some(&[1; 32]),
            None,
            Some(&[1; 32]),
            Some(i as u32),
            Some(&[i as u8; 32]),
            Some(&[0xF0 + i as u8; 32]),
            Some(&[9; 32]),
            0,
            keep,
        )
        .unwrap();
    }
    db
}

#[test]
fn coins_are_taken_until_the_need_is_met() {
    let hex = "44".repeat(32);
    let db = wallet(&[(5, "DRK"), (10, &hex), (7, "other"), (20, "drk")]);
    // By height: the last note first.
    let plan = plan_send(&db, "DRK", 24, 2).unwrap();
    assert_eq!(
        plan.inputs,
        vec![("tx3".to_string(), 3, 20), ("tx1".to_string(), 1, 10)]
    );
    assert_eq!(plan.input_total, 30);
    assert_eq!(plan.total_needed, 26);
    assert_eq!(plan.change, 4);
    assert_eq!((plan.amount, plan.fee), (24, 2));
    let exact = plan_send(&db, &hex, 20, 0).unwrap();
    assert_eq!(exact.inputs.len(), 1);
    assert_eq!(exact.change, 0);
}

#[test]
fn payments_are_refused_for_a_reason() {
    let db = wallet(&[(5, "DRK")]);
    assert!(matches!(
        plan_send(&db, "other", 1, 1),
        Err(SendRefusal::UnsupportedToken)
    ));
    assert!(matches!(
        plan_send(&db, "DRK", 0, 1),
        Err(SendRefusal::ZeroAmount)
    ));
    match plan_send(&db, "DRK", 5, 1) {
        Err(SendRefusal::InsufficientFunds { have, need }) => assert_eq!((have, need), (5, 6)),
        other => panic!("{other:?}"),
    }
    assert!(plan_send(&db, "DRK", 5, 0).is_ok());

    let over = wallet(&[(i64::MAX, "DRK"), (1, "DRK")]);
    assert!(matches!(
        plan_send(&over, "DRK", 1, 1),
        Err(SendRefusal::Database(DbError::IntegerOverflow))
    ));

    // A negative note outweighs the other: the sum counts as unsigned.
    let odd = wallet(&[(-3, "DRK")]);
    assert!(plan_send(&odd, "DRK", 5, 1).is_ok());
}

#[test]
fn selection_can_fall_short() {
    let listed = vec![
        ("a".to_string(), 0, 4, "DRK".to_string()),
        ("b".to_string(), 1, 5, "tok".to_string()),
    ];
    let hex = "44".repeat(32);
    assert!(can_select(&listed, "DRK", &hex, 100));
    assert_eq!(
        select_coins(&listed, "DRK", &hex, 100),
        (vec![("a".to_string(), 0, 4)], 4)
    );
    assert_eq!(
        select_coins(&listed, "tok", &hex, 1),
        (vec![("b".to_string(), 1, 5)], 5)
    );
    // At least one coin is taken, even for nothing.
    assert_eq!(select_coins(&listed, "DRK", &hex, 0).0.len(), 1);
    assert_eq!(select_coins(&listed, "none", &hex, 5), (vec![], 0));

    let huge = vec![
        ("a".to_string(), 0, 1, "DRK".to_string()),
        ("b".to_string(), 0, -1, "DRK".to_string()),
    ];
    assert!(!can_select(&huge, "DRK", &hex, 2));
    assert!(can_select(&huge, "DRK", &hex, 1));
}

#[test]
fn a_broadcast_needs_its_clue_taken() {
    assert!(reports_no_error(""));
    assert!(reports_no_error("0"));
    assert!(!reports_no_error("00"));
    assert_eq!(judge_broadcast("boom", &[1], true), BroadcastVerdict::Refused);
    assert_eq!(judge_broadcast("0", &[1], false), BroadcastVerdict::ClueRefused);
    assert_eq!(
        judge_broadcast("", &[1], true),
        BroadcastVerdict::Accepted { clue_stored: true }
    );
    assert_eq!(
        judge_broadcast("", &[], false),
        BroadcastVerdict::Accepted { clue_stored: false }
    );
}

#[test]
fn a_recorded_payment_spends_its_coins() {
    let mut db = wallet(&[(5, "DRK"), (6, "DRK"), (7, "DRK")]);
    record_sent(
        &mut db,
        "hash",
        11,
        "DRK",
        "someone",
        Some("hi"),
        "2026-01-01 00:00:00",
        &vec![vec![0; 32]],
        &vec![vec![0xF1; 32]],
    )
    .unwrap();
    assert_eq!(db.confirmed_balance("DRK").unwrap(), 7);
    let tx = db.get_transaction("hash").unwrap().unwrap();
    assert_eq!(tx.block_height, 0);
    assert_eq!(tx.direction, "outgoing");
    assert_eq!(tx.value_raw, 11);
    assert_eq!(tx.counterparty.as_deref(), Some("someone"));
    assert_eq!(tx.memo.as_deref(), Some("hi"));
    let left = db
        .list_unspent_full(|b: &[u8]| Ok::<Vec<u8>, String>(b.to_vec()))
        .unwrap();
    assert_eq!(left.len(), 1);
    assert_eq!(left[0].10, vec![2; 32]);
}
