//! The tables behave as the same statements do on SQLite.
use moonshine::block_cache::BlockCache;
use moonshine::db::{DbError, WalletDb};
use rusqlite::Connection;

const DARK_TOKEN_ID: [u8; 32] = [0xAB; 32];
const TIME: &str = "2026-01-01 00:00:00";

fn keep(plain: &[u8]) -> Vec<u8> {
    plain.to_vec()
}

fn connection() -> Connection {
    let conn = Connection::open_in_memory().unwrap();
    conn.execute_batch(
        "CREATE TABLE wallet_meta (key TEXT PRIMARY KEY, value BLOB NOT NULL);
         CREATE TABLE addresses (
             id INTEGER PRIMARY KEY AUTOINCREMENT,
             public_key TEXT NOT NULL UNIQUE,
             secret_key BLOB NOT NULL,
             is_default INTEGER NOT NULL DEFAULT 0
         );
         CREATE TABLE notes (
             id INTEGER PRIMARY KEY AUTOINCREMENT,
             tx_hash TEXT NOT NULL,
             output_index INTEGER NOT NULL,
             value_raw INTEGER NOT NULL,
             token_id TEXT NOT NULL,
             serial_number BLOB NOT NULL,
             nullifier BLOB,
             block_height INTEGER NOT NULL,
             spent INTEGER NOT NULL DEFAULT 0,
             memo TEXT,
             coin_blind BLOB,
             value_blind BLOB,
             token_blind BLOB,
             spend_hook INTEGER,
             spend_hook_bytes BLOB,
             user_data BLOB,
             leaf_position INTEGER,
             commitment BLOB,
             owner_secret BLOB,
             UNIQUE(tx_hash, output_index)
         );
         CREATE TABLE transactions (
             hash TEXT PRIMARY KEY,
             block_height INTEGER NOT NULL,
             direction TEXT NOT NULL,
             value_raw INTEGER NOT NULL,
             token_id TEXT NOT NULL,
             counterparty TEXT,
             memo TEXT,
             timestamp TEXT NOT NULL DEFAULT (datetime('now'))
         );
         CREATE TABLE compact_blocks (height INTEGER PRIMARY KEY, data BLOB NOT NULL);",
    )
    .unwrap();
    conn
}

/// A small generator of repeatable numbers.
struct Numbers(u64);

impl Numbers {
    fn next(&mut self, below: u64) -> u64 {
        self.0 = self.0.wrapping_mul(6364136223846793005).wrapping_add(1442695040888963407);
        (self.0 >> 33) % below
    }
}

type Dump = Vec<(
    i64,
    String,
    u32,
    i64,
    String,
    Option<Vec<u8>>,
    u32,
    bool,
    Option<u32>,
    Option<Vec<u8>>,
)>;

fn sql_notes(conn: &Connection) -> Dump {
    let mut stmt = conn
        .prepare(
            "SELECT id, tx_hash, output_index, value_raw, token_id, nullifier, block_height, spent, \
             leaf_position, commitment FROM notes",
        )
        .unwrap();
    let rows = stmt
        .query_map((), |r| {
            Ok((
                r.get(0)?,
                r.get(1)?,
                r.get(2)?,
                r.get(3)?,
                r.get(4)?,
                r.get(5)?,
                r.get(6)?,
                r.get(7)?,
                r.get(8)?,
                r.get(9)?,
            ))
        })
        .unwrap();
    rows.map(|r| r.unwrap()).collect()
}

fn own_notes(db: &WalletDb) -> Dump {
    db.tables()
        .notes
        .iter()
        .map(|n| {
            (
                n.id,
                n.tx_hash.clone(),
                n.output_index,
                n.value_raw,
                n.token_id.clone(),
                n.nullifier.clone(),
                n.block_height,
                n.spent,
                n.leaf_position,
                n.commitment.clone(),
            )
        })
        .collect()
}

fn sql_balance(conn: &Connection, hex: &str, token: &str) -> Option<i64> {
    if token.eq_ignore_ascii_case("DRK") || token.eq_ignore_ascii_case(hex) {
        conn.query_row(
            "SELECT COALESCE(SUM(value_raw), 0) FROM notes \
             WHERE spent = 0 AND (token_id = ?1 OR lower(token_id) = 'drk')",
            (hex,),
            |r| r.get(0),
        )
        .ok()
    } else {
        conn.query_row(
            "SELECT COALESCE(SUM(value_raw), 0) FROM notes WHERE token_id = ?1 AND spent = 0",
            (token,),
            |r| r.get(0),
        )
        .ok()
    }
}

fn sql_unspent(conn: &Connection) -> Vec<(String, u32, i64, String)> {
    let mut stmt = conn
        .prepare(
            "SELECT tx_hash, output_index, value_raw, token_id FROM notes WHERE spent = 0 ORDER BY block_height",
        )
        .unwrap();
    let rows = stmt
        .query_map((), |r| Ok((r.get(0)?, r.get(1)?, r.get(2)?, r.get(3)?)))
        .unwrap();
    rows.map(|r| r.unwrap()).collect()
}

fn sql_history(conn: &Connection, limit: u32) -> Vec<(String, u32, String, i64, Option<String>)> {
    let mut stmt = conn
        .prepare(
            "SELECT hash, block_height, direction, value_raw, memo \
             FROM transactions ORDER BY block_height DESC LIMIT ?1",
        )
        .unwrap();
    let rows = stmt
        .query_map((limit,), |r| {
            Ok((r.get(0)?, r.get(1)?, r.get(2)?, r.get(3)?, r.get(4)?))
        })
        .unwrap();
    rows.map(|r| r.unwrap()).collect()
}

fn own_history(db: &WalletDb, limit: u32) -> Vec<(String, u32, String, i64, Option<String>)> {
    db.list_transactions(limit)
        .unwrap()
        .into_iter()
        .map(|t| (t.hash, t.block_height, t.direction, t.value_raw, t.memo))
        .collect()
}

#[test]
fn notes_follow_sqlite() {
    let conn = connection();
    let mut db = WalletDb::in_memory(DARK_TOKEN_ID).unwrap();
    let hex = db.dark_token_id_hex();
    let mut numbers = Numbers(1);
    let tokens = ["DRK", "drk", "Drk", "other", hex.as_str()];
    let hashes = ["aa11", "AA11", "aa_1", "a%", "bb", "", "é1"];
    for round in 0..600u32 {
        let tx = hashes[numbers.next(7) as usize];
        let index = numbers.next(3) as u32;
        let height = numbers.next(40) as u32;
        let key = [numbers.next(6) as u8; 32];
        let token = tokens[numbers.next(5) as usize];
        match numbers.next(11) {
            0 | 1 | 2 => {
                let value = numbers.next(1000) as i64 - 200;
                let before = conn.last_insert_rowid();
                let n = conn
                    .execute(
                        "INSERT OR IGNORE INTO notes (tx_hash, output_index, value_raw, token_id, serial_number, nullifier, block_height, memo, coin_blind, value_blind, token_blind, spend_hook, user_data, leaf_position, commitment, owner_secret)
                         VALUES (?1, ?2, ?3, ?4, ?5, ?6, ?7, ?8, ?9, ?10, ?11, ?12, ?13, ?14, ?15, ?16)",
                        (
                            tx,
                            index,
                            value,
                            token,
                            &[1u8][..],
                            Some(&key[..]),
                            height,
                            None::<&str>,
                            None::<&[u8]>,
                            None::<&[u8]>,
                            None::<&[u8]>,
                            None::<u8>,
                            None::<&[u8]>,
                            None::<u32>,
                            Some(&key[..]),
                            Some(&[9u8; 32][..]),
                        ),
                    )
                    .unwrap();
                let id = db
                    .insert_note(
                        tx,
                        index,
                        value,
                        token,
                        &[1],
                        height,
                        None,
                        None,
                        None,
                        None,
                        None,
                        None,
                        None,
                        Some(&key),
                        Some(&key),
                        Some(&[9; 32]),
                        before,
                        keep,
                    )
                    .unwrap();
                assert_eq!(id, conn.last_insert_rowid());
                assert_eq!(id == before, n == 0);
            }
            3 => {
                let n = conn
                    .execute(
                        "UPDATE notes SET spent = 1 WHERE nullifier = ?1 AND spent = 0",
                        (&key[..],),
                    )
                    .unwrap();
                assert_eq!(db.mark_note_spent(&key).unwrap(), n);
            }
            4 => {
                let n = conn
                    .execute(
                        "UPDATE notes SET spent = 1 WHERE commitment = ?1 AND spent = 0",
                        (&key[..],),
                    )
                    .unwrap();
                assert_eq!(db.mark_note_spent_by_commitment(&key).unwrap(), n);
            }
            5 => {
                let head = ["a", "aa1", "A", "a_", "%", "_b", "é"][numbers.next(7) as usize];
                let n = conn
                    .execute(
                        "UPDATE notes SET spent = 1 WHERE spent = 0 AND output_index = ?1 \
                         AND substr(tx_hash, 1, length(?2)) = ?2",
                        (index, head),
                    )
                    .unwrap();
                assert_eq!(db.mark_note_spent_by_loc(head, index).unwrap(), n);
            }
            6 => {
                let n = conn
                    .execute(
                        "UPDATE notes SET leaf_position = ?1 WHERE commitment = ?2 AND spent = 0",
                        (round, &key[..]),
                    )
                    .unwrap();
                assert_eq!(db.update_leaf_position(&key, round).unwrap(), n);
            }
            7 => {
                let n = conn
                    .execute(
                        "UPDATE notes SET commitment = ?1, leaf_position = NULL \
                         WHERE tx_hash = ?2 AND output_index = ?3 AND spent = 0",
                        (&key[..], tx, index),
                    )
                    .unwrap();
                assert_eq!(db.set_note_commitment(tx, index, &key).unwrap(), n);
            }
            8 => {
                let n = conn
                    .execute(
                        "DELETE FROM notes WHERE spent = 1 AND block_height < ?1",
                        (height / 4,),
                    )
                    .unwrap();
                assert_eq!(db.prune_spent_below(height / 4).unwrap(), n);
            }
            9 => {
                let at = height + 25;
                let n = conn
                    .execute("DELETE FROM notes WHERE block_height > ?1", (at,))
                    .unwrap();
                let t = conn
                    .execute("DELETE FROM transactions WHERE block_height > ?1", (at,))
                    .unwrap();
                conn.execute(
                    "UPDATE notes SET spent = 0 WHERE spent = 1 AND block_height <= ?1",
                    (at,),
                )
                .unwrap();
                assert_eq!(
                    db.invalidate_above_height(at).unwrap(),
                    (n as u32, t as u32)
                );
            }
            _ => {
                let hash = format!("tx{}", numbers.next(12));
                let at = if numbers.next(2) == 0 { 0 } else { height };
                let value = numbers.next(50) as i64;
                conn.execute(
                    "INSERT INTO transactions (hash, block_height, direction, value_raw, token_id, counterparty, memo)
                     VALUES (?1, ?2, ?3, ?4, ?5, ?6, ?7)
                     ON CONFLICT(hash) DO UPDATE SET
                       block_height = excluded.block_height
                     WHERE transactions.block_height = 0 AND excluded.block_height > 0",
                    (&hash, at, "incoming", value, token, None::<&str>, Some("m")),
                )
                .unwrap();
                db.insert_transaction(&hash, at, "incoming", value, token, None, Some("m"), TIME)
                    .unwrap();
                if numbers.next(2) == 0 {
                    let n = if height == 0 {
                        0
                    } else {
                        conn.execute(
                            "UPDATE transactions SET block_height = ?1 WHERE hash = ?2 AND block_height = 0",
                            (height, &hash),
                        )
                        .unwrap()
                    };
                    assert_eq!(db.confirm_transaction(&hash, height).unwrap(), n);
                }
            }
        }
        assert_eq!(own_notes(&db), sql_notes(&conn));
        assert_eq!(db.list_unspent().unwrap(), sql_unspent(&conn));
        for t in tokens {
            assert_eq!(
                db.confirmed_balance(t).unwrap(),
                sql_balance(&conn, &hex, t).unwrap()
            );
        }
        for limit in [0, 3, 100] {
            assert_eq!(own_history(&db, limit), sql_history(&conn, limit));
        }
        let commitments: Vec<Vec<u8>> = conn
            .prepare(
                "SELECT commitment FROM notes WHERE spent = 0 \
                 AND commitment IS NOT NULL AND length(commitment) = 32",
            )
            .unwrap()
            .query_map((), |r| r.get(0))
            .unwrap()
            .map(|r| r.unwrap())
            .collect();
        assert_eq!(db.list_owned_commitments().unwrap(), commitments);
    }
}

#[test]
fn sums_overflow_as_on_sqlite() {
    for values in [
        [i64::MAX, 1, -1],
        [i64::MAX, -1, 1],
        [i64::MIN, 1, -1],
        [-1, i64::MIN, 5],
        [i64::MAX, i64::MIN, 0],
    ] {
        let conn = connection();
        let mut db = WalletDb::in_memory(DARK_TOKEN_ID).unwrap();
        let hex = db.dark_token_id_hex();
        for (i, v) in values.iter().enumerate() {
            conn.execute(
                "INSERT INTO notes (tx_hash, output_index, value_raw, token_id, serial_number, block_height) \
                 VALUES ('t', ?1, ?2, 'DRK', x'00', ?3)",
                (i as u32, v, 10 - i as u32),
            )
            .unwrap();
            db.insert_note(
                "t",
                i as u32,
                *v,
                "DRK",
                &[0],
                10 - i as u32,
                None,
                None,
                None,
                None,
                None,
                None,
                None,
                None,
                None,
                None,
                0,
                keep,
            )
            .unwrap();
        }
        match sql_balance(&conn, &hex, "drk") {
            Some(b) => assert_eq!(db.confirmed_balance("drk").unwrap(), b),
            None => assert!(matches!(
                db.confirmed_balance("drk"),
                Err(DbError::IntegerOverflow)
            )),
        }
    }
}

#[test]
fn ids_are_never_given_again() {
    let conn = connection();
    let mut db = WalletDb::in_memory(DARK_TOKEN_ID).unwrap();
    let add = |db: &mut WalletDb, conn: &Connection, tx: &str| {
        conn.execute(
            "INSERT INTO notes (tx_hash, output_index, value_raw, token_id, serial_number, block_height) \
             VALUES (?1, 0, 1, 'DRK', x'00', 1)",
            (tx,),
        )
        .unwrap();
        let id = db
            .insert_note(
                tx, 0, 1, "DRK", &[0], 1, None, None, None, None, None, None, None, None, None,
                None, 0, keep,
            )
            .unwrap();
        assert_eq!(id, conn.last_insert_rowid());
        id
    };
    add(&mut db, &conn, "a");
    add(&mut db, &conn, "b");
    conn.execute("DELETE FROM notes", ()).unwrap();
    db.reset_for_rescan(0).unwrap();
    assert_eq!(add(&mut db, &conn, "c"), 3);
}

#[test]
fn addresses_follow_sqlite() {
    let conn = connection();
    let mut db = WalletDb::in_memory(DARK_TOKEN_ID).unwrap();
    for pk in ["p2", "p1", "p3"] {
        conn.execute(
            "INSERT INTO addresses (public_key, secret_key) VALUES (?1, ?2)",
            (pk, &[1u8][..]),
        )
        .unwrap();
        assert_eq!(
            db.insert_address(pk, &[1], keep).unwrap(),
            conn.last_insert_rowid()
        );
    }
    assert!(conn
        .execute(
            "INSERT INTO addresses (public_key, secret_key) VALUES (?1, ?2)",
            ("p1", &[2u8][..]),
        )
        .is_err());
    assert!(matches!(
        db.insert_address("p1", &[2], keep),
        Err(DbError::DuplicateAddress)
    ));
    conn.execute(
        "INSERT INTO addresses (public_key, secret_key) VALUES (?1, ?2)",
        ("p4", &[3u8][..]),
    )
    .unwrap();
    assert_eq!(
        db.insert_address("p4", &[3], keep).unwrap(),
        conn.last_insert_rowid()
    );
    for pk in ["p1", "p3", "nobody"] {
        conn.execute("UPDATE addresses SET is_default = 0", ()).unwrap();
        conn.execute(
            "UPDATE addresses SET is_default = 1 WHERE public_key = ?1",
            (pk,),
        )
        .unwrap();
        db.set_default_address(pk).unwrap();
        let listed: Vec<(String, bool)> = conn
            .prepare("SELECT public_key, is_default FROM addresses ORDER BY id")
            .unwrap()
            .query_map((), |r| Ok((r.get(0)?, r.get(1)?)))
            .unwrap()
            .map(|r| r.unwrap())
            .collect();
        assert_eq!(db.list_addresses().unwrap(), listed);
        let default: Option<String> = conn
            .query_row(
                "SELECT public_key FROM addresses WHERE is_default = 1 LIMIT 1",
                (),
                |r| r.get(0),
            )
            .ok();
        assert_eq!(db.get_default_address().unwrap(), default);
    }
}

#[test]
fn blocks_follow_sqlite() {
    let conn = connection();
    let mut cache = BlockCache::in_memory().unwrap();
    let mut numbers = Numbers(5);
    for _ in 0..300 {
        let height = numbers.next(60) as u32;
        if numbers.next(12) == 0 {
            let n = conn
                .execute("DELETE FROM compact_blocks WHERE height < ?1", (height / 3,))
                .unwrap();
            assert_eq!(cache.prune_below(height / 3).unwrap(), n);
        } else {
            let data = vec![height as u8; numbers.next(9) as usize];
            conn.execute(
                "INSERT OR REPLACE INTO compact_blocks (height, data) VALUES (?1, ?2)",
                (height, &data),
            )
            .unwrap();
            cache.insert_block(height, &data).unwrap();
        }
        let start = numbers.next(40) as u32;
        let end = start + numbers.next(20) as u32;
        let range: Vec<(u32, Vec<u8>)> = conn
            .prepare(
                "SELECT height, data FROM compact_blocks WHERE height >= ?1 AND height <= ?2 ORDER BY height",
            )
            .unwrap()
            .query_map((start, end), |r| Ok((r.get(0)?, r.get(1)?)))
            .unwrap()
            .map(|r| r.unwrap())
            .collect();
        assert_eq!(cache.get_range(start, end).unwrap(), range);
        assert_eq!(
            cache.is_range_cached(start, end).unwrap(),
            range.len() as u32 == end - start + 1
        );
        let (count, size, low, high): (u32, i64, Option<u32>, u32) = conn
            .query_row(
                "SELECT COUNT(*), COALESCE(SUM(LENGTH(data)), 0), MIN(height), COALESCE(MAX(height), 0) \
                 FROM compact_blocks",
                (),
                |r| Ok((r.get(0)?, r.get(1)?, r.get(2)?, r.get(3)?)),
            )
            .unwrap();
        assert_eq!(cache.count().unwrap(), count);
        assert_eq!(cache.size_bytes().unwrap(), size);
        assert_eq!(cache.lowest_cached().unwrap(), low);
        assert_eq!(cache.highest_cached().unwrap(), high);
    }
}
