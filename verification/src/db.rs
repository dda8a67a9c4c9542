//! Local wallet database: metadata, payment addresses, discovered notes (coins), transaction
//! history and sync progress.
//!
//! [`WalletDb`] holds the tables in memory and is the only place where their rules live; the
//! program around it reads the tables from an encrypted SQLite file before an operation and
//! writes them back after it. Secret keys enter and leave through a wrapping scheme that the
//! caller supplies, so that a table never holds one in the clear.
pub mod addresses;
pub mod effects;
pub mod history;
pub mod laws;
pub mod meta;
pub mod model;
pub mod notes;
pub mod order;
pub mod recompute;
pub mod rows;
pub mod secrets;
pub mod spending;

use crate::db::model::{addresses_ok, notes_ok, transactions_ok, WalletState};
use crate::db::rows::{
    address_views, note_views, tx_views, AddressRow, NoteRow, TransactionRow,
};
use crate::pairs::{distinct_keys, pair_map};
use crate::text::str_eq;
use vstd::prelude::*;

verus! {

/// Why a database operation failed.
#[derive(Debug)]
pub enum DbError {
    /// The tables break a uniqueness rule or an id rule.
    Corrupt,
    /// An address with this public key exists already.
    DuplicateAddress,
    /// No further row id is available.
    Full,
    /// A number left the range of its type.
    IntegerOverflow,
    /// A selected column is empty; the number is its position in the selection.
    NullColumn(usize),
    /// A stored secret could not be unwrapped.
    Unwrap(String),
}

/// The tables of a wallet, as stored.
pub struct WalletTables {
    pub meta: Vec<(String, Vec<u8>)>,
    pub addresses: Vec<AddressRow>,
    pub notes: Vec<NoteRow>,
    pub transactions: Vec<TransactionRow>,
    pub last_synced_height: u32,
    pub birthday_height: u32,
    /// The greatest id an address ever had.
    pub last_address_id: i64,
    /// The greatest id a note ever had.
    pub last_note_id: i64,
}

/// Local wallet database.
pub struct WalletDb {
    tables: WalletTables,
    dark_token_id: [u8; 32],
}

/// The keys and values of metadata rows, in the order of the rows.
pub open spec fn meta_pairs(rows: Seq<(String, Vec<u8>)>) -> Seq<(Seq<char>, Seq<u8>)> {
    Seq::new(rows.len(), |i: int| (rows[i].0@, rows[i].1@))
}

/// No two metadata rows share a key.
pub open spec fn meta_keys_ok(rows: Seq<(String, Vec<u8>)>) -> bool {
    distinct_keys(meta_pairs(rows))
}

impl WalletTables {
    /// What the tables hold, for a chain with this native token.
    pub open spec fn state(self, dark_token_id: Seq<u8>) -> WalletState {
        WalletState {
            meta: pair_map(meta_pairs(self.meta@)),
            addresses: address_views(self.addresses@),
            notes: note_views(self.notes@),
            transactions: tx_views(self.transactions@),
            last_synced_height: self.last_synced_height,
            birthday_height: self.birthday_height,
            dark_token_id,
            last_address_id: self.last_address_id,
            last_note_id: self.last_note_id,
        }
    }

    /// The uniqueness and id rules hold.
    pub open spec fn ok(self) -> bool {
        &&& meta_keys_ok(self.meta@)
        &&& notes_ok(note_views(self.notes@))
        &&& addresses_ok(address_views(self.addresses@))
        &&& transactions_ok(tx_views(self.transactions@))
        &&& 0 <= self.last_note_id
        &&& 0 <= self.last_address_id
        &&& forall|i: int|
            0 <= i < self.notes@.len() ==> (#[trigger] self.notes@[i]).id <= self.last_note_id
        &&& forall|i: int|
            0 <= i < self.addresses@.len() ==> (#[trigger] self.addresses@[i]).id
                <= self.last_address_id
    }
}

impl View for WalletDb {
    type V = WalletState;

    closed spec fn view(&self) -> WalletState {
        self.tables.state(self.dark_token_id@)
    }
}

impl WalletDb {
    /// The invariant of the database.
    pub closed spec fn wf(&self) -> bool {
        self.tables.ok()
    }

    /// What the invariant says of the contents.
    pub proof fn lemma_wf(&self)
        requires
            self.wf(),
        ensures
            self@.wf(),
    {
        let notes = note_views(self.tables.notes@);
        assert forall|i: int| 0 <= i < notes.len() implies (#[trigger] notes[i]).id
            <= self.tables.last_note_id by {
            assert(self.tables.notes@[i].id <= self.tables.last_note_id);
        }
        let addresses = address_views(self.tables.addresses@);
        assert forall|i: int| 0 <= i < addresses.len() implies (#[trigger] addresses[i]).id
            <= self.tables.last_address_id by {
            assert(self.tables.addresses@[i].id <= self.tables.last_address_id);
        }
    }

    /// Contents that keep their invariant, over distinct metadata keys, make up the invariant.
    proof fn lemma_wf_from_contents(&self)
        requires
            self@.wf(),
            meta_keys_ok(self.tables.meta@),
        ensures
            self.wf(),
    {
        let notes = note_views(self.tables.notes@);
        assert forall|i: int| 0 <= i < self.tables.notes@.len() implies (
        #[trigger] self.tables.notes@[i]).id <= self.tables.last_note_id by {
            assert(notes[i].id <= self.tables.last_note_id);
        }
        let addresses = address_views(self.tables.addresses@);
        assert forall|i: int| 0 <= i < self.tables.addresses@.len() implies (
        #[trigger] self.tables.addresses@[i]).id <= self.tables.last_address_id by {
            assert(addresses[i].id <= self.tables.last_address_id);
        }
    }

    /// An empty database.
    pub fn in_memory(dark_token_id: [u8; 32]) -> (db: Result<WalletDb, DbError>)
        ensures
            db matches Ok(db) && db.wf() && db@ == WalletState::empty(dark_token_id@),
    {
        let db = WalletDb {
            tables: WalletTables {
                meta: Vec::new(),
                addresses: Vec::new(),
                notes: Vec::new(),
                transactions: Vec::new(),
                last_synced_height: 0,
                birthday_height: 0,
                last_address_id: 0,
                last_note_id: 0,
            },
            dark_token_id,
        };
        assert(db@ =~= WalletState::empty(dark_token_id@));
        Ok(db)
    }

    /// A database over stored tables. Tables that break a rule are refused.
    pub fn open(tables: WalletTables, dark_token_id: [u8; 32]) -> (db: Result<WalletDb, DbError>)
        ensures
            match db {
                Ok(db) => tables.ok() && db.wf() && db@ == tables.state(dark_token_id@),
                Err(e) => !tables.ok() && e is Corrupt,
            },
    {
        if tables.last_note_id < 0 || tables.last_address_id < 0 {
            return Err(DbError::Corrupt);
        }
        if !check_meta(&tables.meta) || !check_notes(&tables.notes, tables.last_note_id)
            || !check_addresses(&tables.addresses, tables.last_address_id) || !check_transactions(
            &tables.transactions,
        ) {
            return Err(DbError::Corrupt);
        }
        Ok(WalletDb { tables, dark_token_id })
    }

    /// The tables, to be stored.
    pub fn tables(&self) -> (tables: &WalletTables)
        requires
            self.wf(),
        ensures
            tables.ok(),
            tables.state(self@.dark_token_id) == self@,
    {
        &self.tables
    }

    /// Height up to which the chain has been scanned, and the wallet's birthday.
    pub fn get_sync_state(&self) -> (heights: Result<(u32, u32), DbError>)
        ensures
            heights == Ok::<(u32, u32), DbError>(
                (self@.last_synced_height, self@.birthday_height),
            ),
    {
        Ok((self.tables.last_synced_height, self.tables.birthday_height))
    }

    /// Updates the sync progress.
    pub fn set_sync_height(&mut self, height: u32) -> (done: Result<(), DbError>)
        requires
            old(self).wf(),
        ensures
            final(self).wf(),
            done is Ok,
            final(self)@ == old(self)@.synced_to(height),
    {
        self.tables.last_synced_height = height;
        Ok(())
    }

    /// Sets the birthday height.
    pub fn set_birthday_height(&mut self, height: u32) -> (done: Result<(), DbError>)
        requires
            old(self).wf(),
        ensures
            final(self).wf(),
            done is Ok,
            final(self)@ == old(self)@.born_at(height),
    {
        self.tables.birthday_height = height;
        Ok(())
    }
}

/// Whether metadata keys are distinct.
fn check_meta(rows: &Vec<(String, Vec<u8>)>) -> (ok: bool)
    ensures
        ok == meta_keys_ok(rows@),
{
    let ghost pairs = meta_pairs(rows@);
    let mut j: usize = 0;
    while j < rows.len()
        invariant
            j <= rows.len(),
            pairs == meta_pairs(rows@),
            forall|a: int, b: int|
                0 <= a < b < j ==> (#[trigger] pairs[a]).0 != (#[trigger] pairs[b]).0,
        decreases rows.len() - j,
    {
        let mut i: usize = 0;
        while i < j
            invariant
                i <= j < rows.len(),
                pairs == meta_pairs(rows@),
                forall|a: int| 0 <= a < i ==> (#[trigger] pairs[a]).0 != pairs[j as int].0,
            decreases j - i,
        {
            assert(pairs[i as int].0 == rows@[i as int].0@);
            assert(pairs[j as int].0 == rows@[j as int].0@);
            if str_eq(rows[i].0.as_str(), rows[j].0.as_str()) {
                return false;
            }
            i += 1;
        }
        j += 1;
    }
    true
}

/// Whether notes have rising ids up to `last` and distinct outputs.
fn check_notes(rows: &Vec<NoteRow>, last: i64) -> (ok: bool)
    ensures
        ok == (notes_ok(note_views(rows@)) && forall|i: int|
            0 <= i < rows@.len() ==> (#[trigger] rows@[i]).id <= last),
{
    let ghost views = note_views(rows@);
    let mut j: usize = 0;
    while j < rows.len()
        invariant
            j <= rows.len(),
            views == note_views(rows@),
            forall|a: int, b: int|
                0 <= a < b < j ==> (#[trigger] views[a]).id < (#[trigger] views[b]).id,
            forall|a: int, b: int|
                0 <= a < b < j ==> !crate::db::model::same_output(
                    #[trigger] views[a],
                    #[trigger] views[b],
                ),
            forall|a: int| 0 <= a < j ==> (#[trigger] rows@[a]).id <= last,
        decreases rows.len() - j,
    {
        assert(views[j as int] == rows@[j as int]@);
        if rows[j].id > last {
            return false;
        }
        let mut i: usize = 0;
        while i < j
            invariant
                i <= j < rows.len(),
                views == note_views(rows@),
                forall|a: int| 0 <= a < i ==> (#[trigger] views[a]).id < views[j as int].id,
                forall|a: int|
                    0 <= a < i ==> !crate::db::model::same_output(
                        #[trigger] views[a],
                        views[j as int],
                    ),
            decreases j - i,
        {
            assert(views[i as int] == rows@[i as int]@);
            assert(views[j as int] == rows@[j as int]@);
            if rows[i].id >= rows[j].id {
                return false;
            }
            if rows[i].output_index == rows[j].output_index && str_eq(
                rows[i].tx_hash.as_str(),
                rows[j].tx_hash.as_str(),
            ) {
                return false;
            }
            i += 1;
        }
        j += 1;
    }
    true
}

/// Whether addresses have rising ids up to `last` and distinct public keys.
fn check_addresses(rows: &Vec<AddressRow>, last: i64) -> (ok: bool)
    ensures
        ok == (addresses_ok(address_views(rows@)) && forall|i: int|
            0 <= i < rows@.len() ==> (#[trigger] rows@[i]).id <= last),
{
    let ghost views = address_views(rows@);
    let mut j: usize = 0;
    while j < rows.len()
        invariant
            j <= rows.len(),
            views == address_views(rows@),
            forall|a: int, b: int|
                0 <= a < b < j ==> (#[trigger] views[a]).id < (#[trigger] views[b]).id,
            forall|a: int, b: int|
                0 <= a < b < j ==> (#[trigger] views[a]).public_key != (
                #[trigger] views[b]).public_key,
            forall|a: int| 0 <= a < j ==> (#[trigger] rows@[a]).id <= last,
        decreases rows.len() - j,
    {
        assert(views[j as int] == rows@[j as int]@);
        if rows[j].id > last {
            return false;
        }
        let mut i: usize = 0;
        while i < j
            invariant
                i <= j < rows.len(),
                views == address_views(rows@),
                forall|a: int| 0 <= a < i ==> (#[trigger] views[a]).id < views[j as int].id,
                forall|a: int|
                    0 <= a < i ==> (#[trigger] views[a]).public_key != views[j as int].public_key,
            decreases j - i,
        {
            assert(views[i as int] == rows@[i as int]@);
            assert(views[j as int] == rows@[j as int]@);
            if rows[i].id >= rows[j].id {
                return false;
            }
            if str_eq(rows[i].public_key.as_str(), rows[j].public_key.as_str()) {
                return false;
            }
            i += 1;
        }
        j += 1;
    }
    true
}

/// Whether history entries have distinct hashes.
fn check_transactions(rows: &Vec<TransactionRow>) -> (ok: bool)
    ensures
        ok == transactions_ok(tx_views(rows@)),
{
    let ghost views = tx_views(rows@);
    let mut j: usize = 0;
    while j < rows.len()
        invariant
            j <= rows.len(),
            views == tx_views(rows@),
            forall|a: int, b: int|
                0 <= a < b < j ==> (#[trigger] views[a]).hash != (#[trigger] views[b]).hash,
        decreases rows.len() - j,
    {
        let mut i: usize = 0;
        while i < j
            invariant
                i <= j < rows.len(),
                views == tx_views(rows@),
                forall|a: int| 0 <= a < i ==> (#[trigger] views[a]).hash != views[j as int].hash,
            decreases j - i,
        {
            assert(views[i as int] == rows@[i as int]@);
            assert(views[j as int] == rows@[j as int]@);
            if str_eq(rows[i].hash.as_str(), rows[j].hash.as_str()) {
                return false;
            }
            i += 1;
        }
        j += 1;
    }
    true
}

} // verus!
