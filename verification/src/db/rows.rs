//! The rows of the wallet's tables, and what they hold.
use crate::bytes::copy_bytes;
use crate::text::bytes_eq;
use vstd::prelude::*;

verus! {

/// A discovered note (coin) of the wallet.
#[derive(Debug, Clone)]
pub struct NoteRow {
    pub id: i64,
    pub tx_hash: String,
    pub output_index: u32,
    pub value_raw: i64,
    pub token_id: String,
    pub serial_number: Vec<u8>,
    pub nullifier: Option<Vec<u8>>,
    pub block_height: u32,
    pub spent: bool,
    pub memo: Option<String>,
    pub coin_blind: Option<Vec<u8>>,
    pub value_blind: Option<Vec<u8>>,
    pub token_blind: Option<Vec<u8>>,
    pub spend_hook: Option<u8>,
    pub spend_hook_bytes: Option<Vec<u8>>,
    pub user_data: Option<Vec<u8>>,
    pub leaf_position: Option<u32>,
    pub commitment: Option<Vec<u8>>,
    /// The owning address's secret key, wrapped.
    pub owner_secret: Option<Vec<u8>>,
}

/// A payment address of the wallet.
#[derive(Debug, Clone)]
pub struct AddressRow {
    pub id: i64,
    pub public_key: String,
    /// The secret key, wrapped.
    pub secret_key: Vec<u8>,
    pub is_default: bool,
}

/// A row of the transaction history.
#[derive(Debug, Clone)]
pub struct TransactionRow {
    pub hash: String,
    pub block_height: u32,
    pub direction: String,
    pub value_raw: i64,
    pub token_id: String,
    pub counterparty: Option<String>,
    pub memo: Option<String>,
    pub timestamp: String,
}

/// What a [`NoteRow`] holds.
#[verifier::ext_equal]
pub struct Note {
    pub id: i64,
    pub tx_hash: Seq<char>,
    pub output_index: u32,
    pub value_raw: i64,
    pub token_id: Seq<char>,
    pub serial_number: Seq<u8>,
    pub nullifier: Option<Seq<u8>>,
    pub block_height: u32,
    pub spent: bool,
    pub memo: Option<Seq<char>>,
    pub coin_blind: Option<Seq<u8>>,
    pub value_blind: Option<Seq<u8>>,
    pub token_blind: Option<Seq<u8>>,
    pub spend_hook: Option<u8>,
    pub spend_hook_bytes: Option<Seq<u8>>,
    pub user_data: Option<Seq<u8>>,
    pub leaf_position: Option<u32>,
    pub commitment: Option<Seq<u8>>,
    pub owner_secret: Option<Seq<u8>>,
}

/// What an [`AddressRow`] holds.
#[verifier::ext_equal]
pub struct Address {
    pub id: i64,
    pub public_key: Seq<char>,
    pub secret_key: Seq<u8>,
    pub is_default: bool,
}

/// What a [`TransactionRow`] holds.
#[verifier::ext_equal]
pub struct TxRecord {
    pub hash: Seq<char>,
    pub block_height: u32,
    pub direction: Seq<char>,
    pub value_raw: i64,
    pub token_id: Seq<char>,
    pub counterparty: Option<Seq<char>>,
    pub memo: Option<Seq<char>>,
    pub timestamp: Seq<char>,
}

/// What an optional byte string holds.
pub open spec fn opt_bytes(o: Option<Vec<u8>>) -> Option<Seq<u8>> {
    match o {
        Some(b) => Some(b@),
        None => None,
    }
}

/// What an optional byte slice holds.
pub open spec fn opt_slice(o: Option<&[u8]>) -> Option<Seq<u8>> {
    match o {
        Some(b) => Some(b@),
        None => None,
    }
}

/// What an optional string holds.
pub open spec fn opt_text(o: Option<String>) -> Option<Seq<char>> {
    match o {
        Some(s) => Some(s@),
        None => None,
    }
}

/// What an optional string slice holds.
pub open spec fn opt_str(o: Option<&str>) -> Option<Seq<char>> {
    match o {
        Some(s) => Some(s@),
        None => None,
    }
}

impl View for NoteRow {
    type V = Note;

    open spec fn view(&self) -> Note {
        Note {
            id: self.id,
            tx_hash: self.tx_hash@,
            output_index: self.output_index,
            value_raw: self.value_raw,
            token_id: self.token_id@,
            serial_number: self.serial_number@,
            nullifier: opt_bytes(self.nullifier),
            block_height: self.block_height,
            spent: self.spent,
            memo: opt_text(self.memo),
            coin_blind: opt_bytes(self.coin_blind),
            value_blind: opt_bytes(self.value_blind),
            token_blind: opt_bytes(self.token_blind),
            spend_hook: self.spend_hook,
            spend_hook_bytes: opt_bytes(self.spend_hook_bytes),
            user_data: opt_bytes(self.user_data),
            leaf_position: self.leaf_position,
            commitment: opt_bytes(self.commitment),
            owner_secret: opt_bytes(self.owner_secret),
        }
    }
}

impl View for AddressRow {
    type V = Address;

    open spec fn view(&self) -> Address {
        Address {
            id: self.id,
            public_key: self.public_key@,
            secret_key: self.secret_key@,
            is_default: self.is_default,
        }
    }
}

impl View for TransactionRow {
    type V = TxRecord;

    open spec fn view(&self) -> TxRecord {
        TxRecord {
            hash: self.hash@,
            block_height: self.block_height,
            direction: self.direction@,
            value_raw: self.value_raw,
            token_id: self.token_id@,
            counterparty: opt_text(self.counterparty),
            memo: opt_text(self.memo),
            timestamp: self.timestamp@,
        }
    }
}

/// The notes that rows hold, in the order of the rows.
pub open spec fn note_views(rows: Seq<NoteRow>) -> Seq<Note> {
    Seq::new(rows.len(), |i: int| rows[i]@)
}

/// The addresses that rows hold, in the order of the rows.
pub open spec fn address_views(rows: Seq<AddressRow>) -> Seq<Address> {
    Seq::new(rows.len(), |i: int| rows[i]@)
}

/// The history entries that rows hold, in the order of the rows.
pub open spec fn tx_views(rows: Seq<TransactionRow>) -> Seq<TxRecord> {
    Seq::new(rows.len(), |i: int| rows[i]@)
}

/// An owned copy of an optional byte slice.
pub fn own_bytes(o: Option<&[u8]>) -> (owned: Option<Vec<u8>>)
    ensures
        opt_bytes(owned) == opt_slice(o),
{
    match o {
        Some(b) => Some(copy_bytes(b)),
        None => None,
    }
}

/// An owned copy of an optional string slice.
pub fn own_text(o: Option<&str>) -> (owned: Option<String>)
    ensures
        opt_text(owned) == opt_str(o),
{
    match o {
        Some(s) => Some(s.to_owned()),
        None => None,
    }
}

/// A copy of an optional string.
pub fn clone_text(o: &Option<String>) -> (copy: Option<String>)
    ensures
        opt_text(copy) == opt_text(*o),
{
    match o {
        Some(s) => Some(s.clone()),
        None => None,
    }
}

/// Whether an optional byte string is present and equal to `b`.
pub fn is_bytes(o: &Option<Vec<u8>>, b: &[u8]) -> (same: bool)
    ensures
        same == (opt_bytes(*o) == Some(b@)),
{
    match o {
        Some(v) => bytes_eq(v.as_slice(), b),
        None => false,
    }
}

/// A copy of a history row.
pub fn clone_transaction(row: &TransactionRow) -> (copy: TransactionRow)
    ensures
        copy@ == row@,
{
    TransactionRow {
        hash: row.hash.clone(),
        block_height: row.block_height,
        direction: row.direction.clone(),
        value_raw: row.value_raw,
        token_id: row.token_id.clone(),
        counterparty: clone_text(&row.counterparty),
        memo: clone_text(&row.memo),
        timestamp: row.timestamp.clone(),
    }
}

} // verus!
