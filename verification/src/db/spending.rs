//! Notes: finding, spending and counting the wallet's coins.
use crate::bytes::copy_bytes;
use crate::db::meta::{META_MERKLE_FROM_GENESIS, META_TREE_STATE};
use crate::db::model::{
    above, at_locator, at_output, by_height, committed, deleted, lemma_filter_step,
    lemma_filter_transactions_ok, lemma_notes_deleted_wf, lemma_notes_updated_wf, names_native,
    of_token, same_output, set_commitment, set_hook_bytes, set_leaf, set_spend_fields, set_spent,
    spendable, spent_below, spent_upto, total, total_fits, tx_above, unless, unspent,
    with_commitment, with_nullifier, WalletState,
};
use crate::db::notes::{delete_notes, list_notes, pick_notes, update_notes, NoteChange, NotePick};
use crate::db::rows::{
    note_views, opt_bytes, opt_slice, opt_str, own_bytes, own_text, tx_views, Note, NoteRow,
    TransactionRow,
};
use crate::db::secrets::{
    can_unwrap, can_wrap, unwrap_fails, unwrap_secret, unwraps, unwraps_to, wrap_secret, wraps_to,
};
use crate::db::{DbError, WalletDb};
use crate::hexcodec::{hex_encode, hex_text};
use crate::text::{eq_ignore_ascii_case, str_eq};
use vstd::prelude::*;

verus! {

/// An unspent note with everything a spend needs: transaction hash, output index, value, token
/// id, coin blind, value blind, token blind, spend hook, user data, leaf position, commitment,
/// and the owner's secret in the clear.
pub type UnspentNote = (
    String,
    u32,
    i64,
    String,
    Vec<u8>,
    Vec<u8>,
    Vec<u8>,
    Vec<u8>,
    Vec<u8>,
    u32,
    Vec<u8>,
    Vec<u8>,
);

impl WalletState {
    /// The id of the native token in hex.
    pub open spec fn native_hex(self) -> Seq<char> {
        hex_text(self.dark_token_id)
    }

    /// A note at this output of this transaction is known.
    pub open spec fn knows_output(self, tx_hash: Seq<char>, output_index: u32) -> bool {
        exists|i: int|
            0 <= i < self.notes.len() && (#[trigger] self.notes[i]).tx_hash == tx_hash
                && self.notes[i].output_index == output_index
    }

    /// The database with one note more.
    pub open spec fn note_added(self, note: Note) -> WalletState {
        WalletState { notes: self.notes.push(note), last_note_id: note.id, ..self }
    }

    /// The database after an id was set aside for a note that did not come in.
    pub open spec fn note_id_skipped(self) -> WalletState {
        WalletState { last_note_id: (self.last_note_id + 1) as i64, ..self }
    }

    /// The unspent notes of a token.
    pub open spec fn notes_of(self, token: Seq<char>) -> Seq<Note> {
        self.notes.filter(of_token(token, self.native_hex()))
    }

    /// The confirmed balance of a token.
    pub open spec fn balance(self, token: Seq<char>) -> int {
        total(self.notes_of(token))
    }

    /// The unspent notes, by height.
    pub open spec fn unspent_notes(self) -> Seq<Note> {
        by_height(self.notes.filter(unspent()))
    }

    /// The notes that can be spent, by height.
    pub open spec fn spendable_notes(self) -> Seq<Note> {
        by_height(self.notes.filter(spendable()))
    }

    /// The database without notes, history and commitment tree, synced to another height.
    pub open spec fn rescanned(self, height: u32) -> WalletState {
        WalletState {
            notes: Seq::empty(),
            transactions: Seq::empty(),
            meta: self.meta.remove(META_TREE_STATE@).remove(META_MERKLE_FROM_GENESIS@),
            last_synced_height: height,
            ..self
        }
    }

    /// The database without what lies above a height, with what remains unspent, synced to that
    /// height.
    pub open spec fn rewound(self, height: u32) -> WalletState {
        self.notes_deleted(above(height)).with_transactions(
            deleted(self.transactions, tx_above(height)),
        ).notes_updated(spent_upto(height), set_spent(false)).synced_to(height)
    }
}

/// The full spend hook of a note: its full form where it has one of `32` bytes, else its first
/// byte with zeros behind it.
pub open spec fn hook_of(n: Note) -> Seq<u8> {
    match n.spend_hook_bytes {
        Some(b) if b.len() == 32 => b,
        _ => short_hook(n.spend_hook),
    }
}

/// A one-byte spend hook with zeros behind it.
pub open spec fn short_hook(hook: Option<u8>) -> Seq<u8> {
    Seq::new(
        32,
        |i: int|
            if i == 0 {
                match hook {
                    Some(h) => h,
                    None => 0u8,
                }
            } else {
                0u8
            },
    )
}

/// The first empty column that a spendable note may not have, by its position in the listing.
pub open spec fn null_column(n: Note) -> Option<usize> {
    if n.coin_blind is None {
        Some(4)
    } else if n.value_blind is None {
        Some(5)
    } else if n.token_blind is None {
        Some(6)
    } else if n.user_data is None {
        Some(9)
    } else {
        None
    }
}

/// A listed note shows what its row holds.
pub open spec fn shows(t: UnspentNote, n: Note) -> bool {
    &&& t.0@ == n.tx_hash
    &&& t.1 == n.output_index
    &&& t.2 == n.value_raw
    &&& t.3@ == n.token_id
    &&& n.coin_blind == Some(t.4@)
    &&& n.value_blind == Some(t.5@)
    &&& n.token_blind == Some(t.6@)
    &&& t.7@ == hook_of(n)
    &&& n.user_data == Some(t.8@)
    &&& n.leaf_position == Some(t.9)
    &&& n.commitment == Some(t.10@)
}

/// The first `k` of the listed notes lack no column, and their owners' secrets unwrap.
pub open spec fn readable<U: Fn(&[u8]) -> Result<Vec<u8>, String>>(
    rows: Seq<Note>,
    unwrap: U,
    k: int,
) -> bool {
    forall|j: int|
        0 <= j < k ==> null_column(#[trigger] rows[j]) is None && unwraps(
            unwrap,
            rows[j].owner_secret->0,
        )
}

/// The full spend hook of a row.
pub fn full_hook(hook: Option<u8>, bytes: &Option<Vec<u8>>) -> (full: Vec<u8>)
    ensures
        full@ == (match opt_bytes(*bytes) {
            Some(b) if b.len() == 32 => b,
            _ => short_hook(hook),
        }),
{
    if let Some(b) = bytes {
        if b.len() == 32 {
            return copy_bytes(b.as_slice());
        }
    }
    let first: u8 = match hook {
        Some(h) => h,
        None => 0,
    };
    let mut full: Vec<u8> = Vec::new();
    full.push(first);
    while full.len() < 32
        invariant
            1 <= full@.len() <= 32,
            full@[0] == first,
            forall|i: int| 1 <= i < full@.len() ==> full@[i] == 0u8,
        decreases 32 - full.len(),
    {
        full.push(0);
    }
    assert(full@ =~= short_hook(hook));
    full
}

/// Whether a note at this output of this transaction is known.
fn known_output(rows: &Vec<NoteRow>, tx_hash: &str, output_index: u32) -> (known: bool)
    ensures
        known == exists|i: int|
            0 <= i < note_views(rows@).len() && (#[trigger] note_views(rows@)[i]).tx_hash
                == tx_hash@ && note_views(rows@)[i].output_index == output_index,
{
    let ghost views = note_views(rows@);
    let mut i: usize = 0;
    while i < rows.len()
        invariant
            i <= rows.len(),
            views == note_views(rows@),
            forall|j: int|
                0 <= j < i ==> !((#[trigger] views[j]).tx_hash == tx_hash@ && views[j].output_index
                    == output_index),
        decreases rows.len() - i,
    {
        assert(views[i as int] == rows@[i as int]@);
        if rows[i].output_index == output_index && str_eq(rows[i].tx_hash.as_str(), tx_hash) {
            return true;
        }
        i += 1;
    }
    false
}

/// Deletes the history entries above a height and counts them.
fn delete_transactions_above(rows: &mut Vec<TransactionRow>, height: u32) -> (count: usize)
    ensures
        tx_views(final(rows)@) == deleted(tx_views(old(rows)@), tx_above(height)),
        count == tx_views(old(rows)@).filter(tx_above(height)).len(),
{
    let ghost before = tx_views(rows@);
    let ghost p = tx_above(height);
    let ghost q = unless(p);
    let all: usize = rows.len();
    let mut seen: usize = 0;
    let mut i: usize = 0;
    let mut count: usize = 0;
    proof {
        reveal(Seq::filter);
        assert(before.take(0) =~= Seq::empty());
        assert(tx_views(rows@) =~= before.take(0).filter(q) + before.skip(0));
    }
    while seen < all
        invariant
            p == tx_above(height),
            q == unless(p),
            all == before.len(),
            seen <= all,
            i == before.take(seen as int).filter(q).len(),
            count == before.take(seen as int).filter(p).len(),
            count <= seen,
            tx_views(rows@) == before.take(seen as int).filter(q) + before.skip(seen as int),
        decreases all - seen,
    {
        let ghost kept = before.take(seen as int).filter(q);
        proof {
            lemma_filter_step(before, seen as int, p);
            lemma_filter_step(before, seen as int, q);
            assert(tx_views(rows@)[i as int] == before[seen as int]);
            assert(tx_views(rows@).len() == rows@.len());
        }
        let ghost held = rows@;
        if rows[i].block_height > height {
            let _ = rows.remove(i);
            count += 1;
            assert(tx_views(rows@) =~= kept + before.skip(seen as int + 1)) by {
                assert forall|k: int| 0 <= k < rows@.len() implies #[trigger] tx_views(rows@)[k]
                    == (kept + before.skip(seen as int + 1))[k] by {
                    if k < i {
                        assert(rows@[k] == held[k]);
                        assert(tx_views(held)[k] == held[k]@);
                    } else {
                        assert(rows@[k] == held[k + 1]);
                        assert(tx_views(held)[k + 1] == held[k + 1]@);
                    }
                }
            }
        } else {
            i += 1;
            assert(tx_views(rows@) =~= kept.push(before[seen as int]) + before.skip(
                seen as int + 1,
            ));
        }
        seen += 1;
    }
    assert(before.take(seen as int) =~= before);
    count
}

impl WalletDb {
    /// The id of the native token in hex, as the tables hold it.
    pub fn dark_token_id_hex(&self) -> (hex: String)
        ensures
            hex@ == self@.native_hex(),
    {
        hex_encode(self.dark_token_id.as_slice())
    }

    /// Whether `token` is the native token's display name or its id in hex, in any case.
    pub fn is_drk_token(&self, token: &str) -> (native: bool)
        ensures
            native == names_native(token@, self@.native_hex()),
    {
        eq_ignore_ascii_case(token, "DRK") || eq_ignore_ascii_case(
            token,
            self.dark_token_id_hex().as_str(),
        )
    }

    /// Changes the selected notes and counts them.
    fn change_notes(&mut self, pick: &NotePick, change: &NoteChange) -> (count: usize)
        requires
            old(self).wf(),
            pick.ok(),
        ensures
            final(self).wf(),
            final(self)@ == old(self)@.notes_updated(pick.pred(), change.func()),
            count == old(self)@.count_notes(pick.pred()),
    {
        let ghost before = self@;
        proof {
            self.lemma_wf();
        }
        let count: usize = update_notes(&mut self.tables.notes, pick, change);
        proof {
            let f = change.func();
            assert forall|n: Note| (#[trigger] f(n)).id == n.id && same_output(f(n), n) by {}
            lemma_notes_updated_wf(before, pick.pred(), f);
            assert(self@ =~= before.notes_updated(pick.pred(), f));
            self.lemma_wf_from_contents();
        }
        count
    }

    /// Deletes the selected notes and counts them.
    fn drop_notes(&mut self, pick: &NotePick) -> (count: usize)
        requires
            old(self).wf(),
            pick.ok(),
        ensures
            final(self).wf(),
            final(self)@ == old(self)@.notes_deleted(pick.pred()),
            count == old(self)@.count_notes(pick.pred()),
    {
        let ghost before = self@;
        proof {
            self.lemma_wf();
        }
        let count: usize = delete_notes(&mut self.tables.notes, pick);
        proof {
            lemma_notes_deleted_wf(before, pick.pred());
            assert(self@ =~= before.notes_deleted(pick.pred()));
            self.lemma_wf_from_contents();
        }
        count
    }

    /// Inserts a note and gives the row id that was inserted last: the note's own, unless the
    /// output is known already. Such a note is ignored, though it uses up an id, and the row id
    /// stays what it was before, which is `last_insert_rowid`. The owner's secret is stored
    /// wrapped.
    pub fn insert_note<W: Fn(&[u8]) -> Vec<u8>>(
        &mut self,
        tx_hash: &str,
        output_index: u32,
        value_raw: i64,
        token_id: &str,
        serial_number: &[u8],
        block_height: u32,
        memo: Option<&str>,
        coin_blind: Option<&[u8]>,
        value_blind: Option<&[u8]>,
        token_blind: Option<&[u8]>,
        spend_hook: Option<u8>,
        user_data: Option<&[u8]>,
        leaf_position: Option<u32>,
        commitment: Option<&[u8]>,
        nullifier: Option<&[u8]>,
        owner_secret: Option<&[u8]>,
        last_insert_rowid: i64,
        wrap: W,
    ) -> (id: Result<i64, DbError>)
        requires
            old(self).wf(),
            can_wrap(wrap),
        ensures
            final(self).wf(),
            match id {
                Ok(id) if old(self)@.knows_output(tx_hash@, output_index) => {
                    &&& old(self)@.last_note_id < i64::MAX
                    &&& id == last_insert_rowid
                    &&& final(self)@ == old(self)@.note_id_skipped()
                },
                Ok(id) => {
                    &&& old(self)@.last_note_id < i64::MAX
                    &&& id == old(self)@.last_note_id + 1
                    &&& final(self)@ == old(self)@.note_added(final(self)@.notes.last())
                    &&& final(self)@.notes.last() == (Note {
                        id,
                        tx_hash: tx_hash@,
                        output_index,
                        value_raw,
                        token_id: token_id@,
                        serial_number: serial_number@,
                        nullifier: opt_slice(nullifier),
                        block_height,
                        spent: false,
                        memo: opt_str(memo),
                        coin_blind: opt_slice(coin_blind),
                        value_blind: opt_slice(value_blind),
                        token_blind: opt_slice(token_blind),
                        spend_hook,
                        spend_hook_bytes: None,
                        user_data: opt_slice(user_data),
                        leaf_position,
                        commitment: opt_slice(commitment),
                        owner_secret: final(self)@.notes.last().owner_secret,
                    })
                    &&& match owner_secret {
                        None => final(self)@.notes.last().owner_secret is None,
                        Some(plain) => final(self)@.notes.last().owner_secret matches Some(stored)
                            && wraps_to(wrap, plain@, stored),
                    }
                },
                Err(e) => {
                    &&& e is Full
                    &&& old(self)@.last_note_id == i64::MAX
                    &&& final(self)@ == old(self)@
                },
            },
    {
        let ghost before = self@;
        proof {
            self.lemma_wf();
        }
        let wrapped: Option<Vec<u8>> = match owner_secret {
            Some(plain) => Some(wrap_secret(&wrap, plain)),
            None => None,
        };
        if self.tables.last_note_id == i64::MAX {
            return Err(DbError::Full);
        }
        let id: i64 = self.tables.last_note_id + 1;
        if known_output(&self.tables.notes, tx_hash, output_index) {
            self.tables.last_note_id = id;
            proof {
                assert(self@ =~= before.note_id_skipped());
                self.lemma_wf_from_contents();
            }
            return Ok(last_insert_rowid);
        }
        let row = NoteRow {
            id,
            tx_hash: tx_hash.to_owned(),
            output_index,
            value_raw,
            token_id: token_id.to_owned(),
            serial_number: copy_bytes(serial_number),
            nullifier: own_bytes(nullifier),
            block_height,
            spent: false,
            memo: own_text(memo),
            coin_blind: own_bytes(coin_blind),
            value_blind: own_bytes(value_blind),
            token_blind: own_bytes(token_blind),
            spend_hook,
            spend_hook_bytes: None,
            user_data: own_bytes(user_data),
            leaf_position,
            commitment: own_bytes(commitment),
            owner_secret: wrapped,
        };
        let ghost note = row@;
        self.tables.notes.push(row);
        self.tables.last_note_id = id;
        proof {
            assert(self@.notes =~= before.notes.push(note));
            assert(self@ =~= before.note_added(note));
            let s = self@.notes;
            assert forall|a: int, b: int| 0 <= a < b < s.len() implies (#[trigger] s[a]).id < (
            #[trigger] s[b]).id && !same_output(s[a], s[b]) by {
                assert(s[a] == before.notes[a]);
                if b < before.notes.len() {
                    assert(s[b] == before.notes[b]);
                }
            }
            assert forall|a: int| 0 <= a < s.len() implies (#[trigger] s[a]).id <= id by {
                if a < before.notes.len() {
                    assert(s[a] == before.notes[a]);
                }
            }
            self.lemma_wf_from_contents();
        }
        Ok(id)
    }

    /// Sets the tree position of the unspent notes with this commitment, and counts them.
    pub fn update_leaf_position(&mut self, commitment: &[u8], leaf_position: u32) -> (count: Result<
        usize,
        DbError,
    >)
        requires
            old(self).wf(),
        ensures
            final(self).wf(),
            final(self)@ == old(self)@.notes_updated(
                with_commitment(commitment@),
                set_leaf(leaf_position),
            ),
            count matches Ok(n) && n == old(self)@.count_notes(with_commitment(commitment@)),
    {
        Ok(self.change_notes(&NotePick::Commitment(commitment), &NoteChange::Leaf(leaf_position)))
    }

    /// Overwrites the commitment of an unspent note and forgets its tree position.
    pub fn set_note_commitment(
        &mut self,
        tx_hash: &str,
        output_index: u32,
        commitment: &[u8],
    ) -> (count: Result<usize, DbError>)
        requires
            old(self).wf(),
        ensures
            final(self).wf(),
            final(self)@ == old(self)@.notes_updated(
                at_output(tx_hash@, output_index),
                set_commitment(commitment@),
            ),
            count matches Ok(n) && n == old(self)@.count_notes(at_output(tx_hash@, output_index)),
    {
        Ok(
            self.change_notes(
                &NotePick::Output(tx_hash, output_index),
                &NoteChange::Commitment(commitment),
            ),
        )
    }

    /// Sets the full spend hook of an unspent note.
    pub fn set_spend_hook_bytes(
        &mut self,
        tx_hash: &str,
        output_index: u32,
        spend_hook_bytes: &[u8],
    ) -> (count: Result<usize, DbError>)
        requires
            old(self).wf(),
        ensures
            final(self).wf(),
            final(self)@ == old(self)@.notes_updated(
                at_output(tx_hash@, output_index),
                set_hook_bytes(spend_hook_bytes@),
            ),
            count matches Ok(n) && n == old(self)@.count_notes(at_output(tx_hash@, output_index)),
    {
        Ok(
            self.change_notes(
                &NotePick::Output(tx_hash, output_index),
                &NoteChange::HookBytes(spend_hook_bytes),
            ),
        )
    }

    /// Refreshes the fields a spend needs of an unspent note and forgets its tree position. The
    /// owner's secret is stored wrapped.
    pub fn update_note_spend_fields<W: Fn(&[u8]) -> Vec<u8>>(
        &mut self,
        tx_hash: &str,
        output_index: u32,
        value_raw: i64,
        token_id: &str,
        coin_blind: &[u8],
        value_blind: &[u8],
        token_blind: &[u8],
        spend_hook: u8,
        spend_hook_bytes: &[u8],
        user_data: &[u8],
        commitment: &[u8],
        owner_secret: &[u8],
        wrap: W,
    ) -> (count: Result<usize, DbError>)
        requires
            old(self).wf(),
            can_wrap(wrap),
        ensures
            final(self).wf(),
            count matches Ok(n) && n == old(self)@.count_notes(at_output(tx_hash@, output_index)),
            exists|fields: Note|
                {
                    &&& final(self)@ == #[trigger] old(self)@.notes_updated(
                        at_output(tx_hash@, output_index),
                        set_spend_fields(fields),
                    )
                    &&& fields.value_raw == value_raw
                    &&& fields.token_id == token_id@
                    &&& fields.coin_blind == Some(coin_blind@)
                    &&& fields.value_blind == Some(value_blind@)
                    &&& fields.token_blind == Some(token_blind@)
                    &&& fields.spend_hook == Some(spend_hook)
                    &&& fields.spend_hook_bytes == Some(spend_hook_bytes@)
                    &&& fields.user_data == Some(user_data@)
                    &&& fields.commitment == Some(commitment@)
                    &&& fields.owner_secret matches Some(stored) && wraps_to(
                        wrap,
                        owner_secret@,
                        stored,
                    )
                },
            forall|i: int|
                0 <= i < old(self)@.notes.len() && !old(self)@.notes[i].spent
                    && old(self)@.notes[i].tx_hash == tx_hash@ && old(self)@.notes[i].output_index
                    == output_index ==> {
                    let now = #[trigger] final(self)@.notes[i];
                    &&& now.value_raw == value_raw
                    &&& now.token_id == token_id@
                    &&& now.coin_blind == Some(coin_blind@)
                    &&& now.value_blind == Some(value_blind@)
                    &&& now.token_blind == Some(token_blind@)
                    &&& now.spend_hook == Some(spend_hook)
                    &&& now.spend_hook_bytes == Some(spend_hook_bytes@)
                    &&& now.user_data == Some(user_data@)
                    &&& now.commitment == Some(commitment@)
                    &&& now.owner_secret matches Some(stored) && wraps_to(
                        wrap,
                        owner_secret@,
                        stored,
                    )
                    &&& now.leaf_position is None
                },
    {
        let fields = NoteRow {
            id: 0,
            tx_hash: String::new(),
            output_index: 0,
            value_raw,
            token_id: token_id.to_owned(),
            serial_number: Vec::new(),
            nullifier: None,
            block_height: 0,
            spent: false,
            memo: None,
            coin_blind: Some(copy_bytes(coin_blind)),
            value_blind: Some(copy_bytes(value_blind)),
            token_blind: Some(copy_bytes(token_blind)),
            spend_hook: Some(spend_hook),
            spend_hook_bytes: Some(copy_bytes(spend_hook_bytes)),
            user_data: Some(copy_bytes(user_data)),
            leaf_position: None,
            commitment: Some(copy_bytes(commitment)),
            owner_secret: Some(wrap_secret(&wrap, owner_secret)),
        };
        Ok(
            self.change_notes(
                &NotePick::Output(tx_hash, output_index),
                &NoteChange::SpendFields(&fields),
            ),
        )
    }

    /// Marks as spent the notes whose nullifier appeared on chain, and counts them.
    pub fn mark_note_spent(&mut self, nullifier: &[u8]) -> (count: Result<usize, DbError>)
        requires
            old(self).wf(),
        ensures
            final(self).wf(),
            final(self)@ == old(self)@.notes_updated(with_nullifier(nullifier@), set_spent(true)),
            count matches Ok(n) && n == old(self)@.count_notes(with_nullifier(nullifier@)),
    {
        Ok(self.change_notes(&NotePick::Nullifier(nullifier), &NoteChange::Spent(true)))
    }

    /// Marks as spent the notes with this commitment, and counts them. Done right after a
    /// broadcast, it keeps the next send from publishing the same nullifier again.
    pub fn mark_note_spent_by_commitment(&mut self, commitment: &[u8]) -> (count: Result<
        usize,
        DbError,
    >)
        requires
            old(self).wf(),
        ensures
            final(self).wf(),
            final(self)@ == old(self)@.notes_updated(with_commitment(commitment@), set_spent(true)),
            count matches Ok(n) && n == old(self)@.count_notes(with_commitment(commitment@)),
    {
        Ok(self.change_notes(&NotePick::Commitment(commitment), &NoteChange::Spent(true)))
    }

    /// Marks as spent the notes at this output of a transaction with this hash or hash prefix,
    /// and counts them.
    pub fn mark_note_spent_by_loc(&mut self, tx_hash: &str, output_index: u32) -> (count: Result<
        usize,
        DbError,
    >)
        requires
            old(self).wf(),
        ensures
            final(self).wf(),
            final(self)@ == old(self)@.notes_updated(
                at_locator(tx_hash@, output_index),
                set_spent(true),
            ),
            count matches Ok(n) && n == old(self)@.count_notes(at_locator(tx_hash@, output_index)),
    {
        Ok(
            self.change_notes(
                &NotePick::Locator(tx_hash, output_index),
                &NoteChange::Spent(true),
            ),
        )
    }

    /// The commitments of the unspent notes that have one of `32` bytes, placed in the tree or
    /// not.
    pub fn list_owned_commitments(&self) -> (listed: Result<Vec<Vec<u8>>, DbError>)
        ensures
            listed matches Ok(v) && v@.len() == self@.notes.filter(committed()).len()
                && forall|k: int|
                0 <= k < v@.len() ==> self@.notes.filter(committed())[k].commitment == Some(
                    (#[trigger] v@[k])@,
                ),
    {
        let rows = &self.tables.notes;
        let ghost want = self@.notes.filter(committed());
        let picked = pick_notes(rows, &NotePick::Committed);
        let mut v: Vec<Vec<u8>> = Vec::new();
        let mut k: usize = 0;
        while k < picked.len()
            invariant
                k <= picked.len(),
                v@.len() == k,
                picked@.len() == want.len(),
                want == note_views(rows@).filter(committed()),
                forall|j: int|
                    0 <= j < picked@.len() ==> (#[trigger] picked@[j]) < rows@.len()
                        && rows@[picked@[j] as int]@ == want[j],
                forall|j: int| 0 <= j < k ==> want[j].commitment == Some((#[trigger] v@[j])@),
            decreases picked.len() - k,
        {
            proof {
                crate::db::model::lemma_filter_member(
                    note_views(rows@),
                    committed(),
                    k as int,
                );
            }
            if let Some(c) = &rows[picked[k]].commitment {
                v.push(copy_bytes(c.as_slice()));
            }
            k += 1;
        }
        Ok(v)
    }

    /// Transaction hash, output index and height of the unspent notes, by height.
    pub fn list_unspent_note_locs(&self) -> (listed: Result<Vec<(String, u32, u32)>, DbError>)
        ensures
            listed matches Ok(v) && v@.len() == self@.unspent_notes().len() && forall|k: int|
                0 <= k < v@.len() ==> {
                    let n = self@.unspent_notes()[k];
                    (#[trigger] v@[k]).0@ == n.tx_hash && v@[k].1 == n.output_index && v@[k].2
                        == n.block_height
                },
    {
        let rows = &self.tables.notes;
        let ghost want = self@.unspent_notes();
        let order = list_notes(rows, &NotePick::Unspent);
        let mut v: Vec<(String, u32, u32)> = Vec::new();
        let mut k: usize = 0;
        while k < order.len()
            invariant
                k <= order.len(),
                v@.len() == k,
                order@.len() == want.len(),
                forall|j: int|
                    0 <= j < order@.len() ==> (#[trigger] order@[j]) < rows@.len()
                        && rows@[order@[j] as int]@ == want[j],
                forall|j: int|
                    0 <= j < k ==> (#[trigger] v@[j]).0@ == want[j].tx_hash && v@[j].1
                        == want[j].output_index && v@[j].2 == want[j].block_height,
            decreases order.len() - k,
        {
            let row = &rows[order[k]];
            v.push((row.tx_hash.clone(), row.output_index, row.block_height));
            k += 1;
        }
        Ok(v)
    }

    /// Transaction hash, output index, value and token id of the unspent notes, by height.
    pub fn list_unspent(&self) -> (listed: Result<Vec<(String, u32, i64, String)>, DbError>)
        ensures
            listed matches Ok(v) && v@.len() == self@.unspent_notes().len() && forall|k: int|
                0 <= k < v@.len() ==> {
                    let n = self@.unspent_notes()[k];
                    (#[trigger] v@[k]).0@ == n.tx_hash && v@[k].1 == n.output_index && v@[k].2
                        == n.value_raw && v@[k].3@ == n.token_id
                },
    {
        let rows = &self.tables.notes;
        let ghost want = self@.unspent_notes();
        let order = list_notes(rows, &NotePick::Unspent);
        let mut v: Vec<(String, u32, i64, String)> = Vec::new();
        let mut k: usize = 0;
        while k < order.len()
            invariant
                k <= order.len(),
                v@.len() == k,
                order@.len() == want.len(),
                forall|j: int|
                    0 <= j < order@.len() ==> (#[trigger] order@[j]) < rows@.len()
                        && rows@[order@[j] as int]@ == want[j],
                forall|j: int|
                    0 <= j < k ==> (#[trigger] v@[j]).0@ == want[j].tx_hash && v@[j].1
                        == want[j].output_index && v@[j].2 == want[j].value_raw && v@[j].3@
                        == want[j].token_id,
            decreases order.len() - k,
        {
            let row = &rows[order[k]];
            v.push((row.tx_hash.clone(), row.output_index, row.value_raw, row.token_id.clone()));
            k += 1;
        }
        Ok(v)
    }

    /// The notes that can be spent, by height, with all that a spend needs.
    ///
    /// Rows are read one after the other; the first that lacks a column, or whose owner's secret
    /// does not unwrap, ends the listing with its error.
    pub fn list_unspent_full<U: Fn(&[u8]) -> Result<Vec<u8>, String>>(&self, unwrap: U) -> (listed:
        Result<Vec<UnspentNote>, DbError>)
        requires
            can_unwrap(unwrap),
        ensures
            match listed {
                Ok(v) => {
                    &&& v@.len() == self@.spendable_notes().len()
                    &&& forall|k: int|
                        0 <= k < v@.len() ==> {
                            let n = self@.spendable_notes()[k];
                            null_column(n) is None && shows(#[trigger] v@[k], n) && unwraps_to(
                                unwrap,
                                n.owner_secret->0,
                                v@[k].11@,
                            )
                        }
                },
                Err(DbError::NullColumn(c)) => exists|k: int|
                    {
                        &&& 0 <= k < self@.spendable_notes().len()
                        &&& null_column(#[trigger] self@.spendable_notes()[k]) == Some(c)
                        &&& readable(self@.spendable_notes(), unwrap, k)
                    },
                Err(DbError::Unwrap(m)) => exists|k: int|
                    {
                        &&& 0 <= k < self@.spendable_notes().len()
                        &&& null_column(#[trigger] self@.spendable_notes()[k]) is None
                        &&& unwrap_fails(unwrap, self@.spendable_notes()[k].owner_secret->0, m@)
                        &&& readable(self@.spendable_notes(), unwrap, k)
                    },
                Err(_) => false,
            },
    {
        let rows = &self.tables.notes;
        let ghost want = self@.spendable_notes();
        let order = list_notes(rows, &NotePick::Spendable);
        let mut v: Vec<UnspentNote> = Vec::new();
        let mut k: usize = 0;
        while k < order.len()
            invariant
                k <= order.len(),
                can_unwrap(unwrap),
                v@.len() == k,
                want == self@.spendable_notes(),
                want == by_height(note_views(rows@).filter(spendable())),
                order@.len() == want.len(),
                readable(want, unwrap, k as int),
                forall|j: int|
                    0 <= j < order@.len() ==> (#[trigger] order@[j]) < rows@.len()
                        && rows@[order@[j] as int]@ == want[j],
                forall|j: int|
                    0 <= j < k ==> null_column(want[j]) is None && shows(#[trigger] v@[j], want[j])
                        && unwraps_to(unwrap, want[j].owner_secret->0, v@[j].11@),
            decreases order.len() - k,
        {
            let row = &rows[order[k]];
            let ghost n = want[k as int];
            assert(row@ == n);
            proof {
                lemma_by_height_member(note_views(rows@).filter(spendable()), k as int);
                let f = note_views(rows@).filter(spendable());
                let i = choose|i: int| 0 <= i < f.len() && f[i] == n;
                crate::db::model::lemma_filter_member(note_views(rows@), spendable(), i);
            }
            if row.coin_blind.is_none() {
                return Err(DbError::NullColumn(4));
            }
            if row.value_blind.is_none() {
                return Err(DbError::NullColumn(5));
            }
            if row.token_blind.is_none() {
                return Err(DbError::NullColumn(6));
            }
            if row.user_data.is_none() {
                return Err(DbError::NullColumn(9));
            }
            if let (Some(cb), Some(vb), Some(tb), Some(ud), Some(leaf), Some(commitment), Some(stored)) = (
                &row.coin_blind,
                &row.value_blind,
                &row.token_blind,
                &row.user_data,
                row.leaf_position,
                &row.commitment,
                &row.owner_secret,
            ) {
                match unwrap_secret(&unwrap, stored.as_slice()) {
                    Err(m) => {
                        assert(unwrap_fails(unwrap, n.owner_secret->0, m@));
                        return Err(DbError::Unwrap(m));
                    },
                    Ok(owner) => {
                        assert(unwraps_to(unwrap, n.owner_secret->0, owner@));
                        v.push(
                            (
                                row.tx_hash.clone(),
                                row.output_index,
                                row.value_raw,
                                row.token_id.clone(),
                                copy_bytes(cb.as_slice()),
                                copy_bytes(vb.as_slice()),
                                copy_bytes(tb.as_slice()),
                                full_hook(row.spend_hook, &row.spend_hook_bytes),
                                copy_bytes(ud.as_slice()),
                                leaf,
                                copy_bytes(commitment.as_slice()),
                                owner,
                            ),
                        );
                    },
                }
            }
            k += 1;
        }
        Ok(v)
    }

    /// The confirmed balance of a token. `DRK` in any case stands for the native token, which
    /// counts the notes stored under its id in hex and those stored under the display name.
    pub fn confirmed_balance(&self, token_id: &str) -> (balance: Result<i64, DbError>)
        ensures
            match balance {
                Ok(b) => total_fits(self@.notes_of(token_id@)) && b == self@.balance(token_id@),
                Err(e) => e is IntegerOverflow && !total_fits(self@.notes_of(token_id@)),
            },
    {
        let hex = self.dark_token_id_hex();
        let native = self.is_drk_token(token_id);
        let rows = &self.tables.notes;
        let picked = pick_notes(rows, &NotePick::Token(token_id, hex.as_str(), native));
        let ghost want = self@.notes_of(token_id@);
        let mut sum: i64 = 0;
        let mut k: usize = 0;
        assert(want.take(0) =~= Seq::empty());
        while k < picked.len()
            invariant
                k <= picked.len(),
                want == self@.notes_of(token_id@),
                picked@.len() == want.len(),
                forall|j: int|
                    0 <= j < picked@.len() ==> (#[trigger] picked@[j]) < rows@.len()
                        && rows@[picked@[j] as int]@ == want[j],
                sum == total(want.take(k as int)),
                total_fits(want.take(k as int)),
            decreases picked.len() - k,
        {
            let ghost next = want.take(k as int + 1);
            assert(next.drop_last() =~= want.take(k as int));
            assert(next.last() == want[k as int]);
            let value: i64 = rows[picked[k]].value_raw;
            match sum.checked_add(value) {
                Some(s) => {
                    sum = s;
                },
                None => {
                    proof {
                        lemma_total_fits_prefix(want, k as int + 1);
                    }
                    return Err(DbError::IntegerOverflow);
                },
            }
            k += 1;
        }
        assert(want.take(k as int) =~= want);
        Ok(sum)
    }

    /// Clears notes, history and commitment tree, and sets the sync height: the chain will be
    /// scanned again from there.
    pub fn reset_for_rescan(&mut self, height: u32) -> (done: Result<(), DbError>)
        requires
            old(self).wf(),
        ensures
            final(self).wf(),
            done is Ok,
            final(self)@ == old(self)@.rescanned(height),
    {
        self.tables.notes = Vec::new();
        self.tables.transactions = Vec::new();
        assert(self.tables.ok());
        self.delete_meta(META_TREE_STATE);
        self.delete_meta(META_MERKLE_FROM_GENESIS);
        let done = self.set_sync_height(height);
        assert(self@ =~= old(self)@.rescanned(height));
        done
    }

    /// Drops notes and history above a height after a chain reorganisation, takes the remaining
    /// notes as unspent again, and sets the sync height. Gives the numbers of notes and of
    /// history entries dropped.
    pub fn invalidate_above_height(&mut self, height: u32) -> (dropped: Result<(u32, u32), DbError>)
        requires
            old(self).wf(),
        ensures
            final(self).wf(),
            final(self)@ == old(self)@.rewound(height),
            dropped matches Ok(d) && d.0 == (old(self)@.count_notes(above(height)) as usize) as u32
                && d.1 == (old(self)@.transactions.filter(tx_above(height)).len() as usize) as u32,
    {
        let notes_dropped: usize = self.drop_notes(&NotePick::Above(height));
        let ghost mid = self@;
        proof {
            self.lemma_wf();
            lemma_filter_transactions_ok(mid.transactions, unless(tx_above(height)));
        }
        let txs_dropped: usize = delete_transactions_above(&mut self.tables.transactions, height);
        proof {
            assert(self@ =~= mid.with_transactions(deleted(mid.transactions, tx_above(height))));
            self.lemma_wf_from_contents();
        }
        let _ = self.change_notes(&NotePick::SpentUpto(height), &NoteChange::Spent(false));
        let _ = self.set_sync_height(height);
        Ok((#[verifier::truncate] (notes_dropped as u32), #[verifier::truncate] (txs_dropped as u32)))
    }

    /// Deletes spent notes below a height and counts them.
    pub fn prune_spent_below(&mut self, height: u32) -> (count: Result<usize, DbError>)
        requires
            old(self).wf(),
        ensures
            final(self).wf(),
            final(self)@ == old(self)@.notes_deleted(spent_below(height)),
            count matches Ok(n) && n == old(self)@.count_notes(spent_below(height)),
    {
        Ok(self.drop_notes(&NotePick::SpentBelow(height)))
    }

    /// Makes a restored wallet sync from its birthday instead of from genesis.
    pub fn start_at_birthday(&mut self, height: u32)
        requires
            old(self).wf(),
        ensures
            final(self).wf(),
            final(self)@ == old(self)@.born_at(height).synced_to(before_birthday(height)),
    {
        let _ = self.set_birthday_height(height);
        let _ = self.set_sync_height(height.saturating_sub(1));
    }

    /// Clears what a scan finds and sets the sync height so that the next sync starts at the
    /// wallet's birthday.
    pub fn rescan_from_birthday(&mut self)
        requires
            old(self).wf(),
        ensures
            final(self).wf(),
            final(self)@ == old(self)@.rescanned(before_birthday(old(self)@.birthday_height)),
    {
        let floor: u32 = self.tables.birthday_height.saturating_sub(1);
        let _ = self.reset_for_rescan(floor);
    }
}

/// The height synced to before the block of the birthday.
pub open spec fn before_birthday(birthday: u32) -> u32 {
    if birthday == 0 {
        0
    } else {
        (birthday - 1) as u32
    }
}

/// A sum that runs over stays refused.
proof fn lemma_total_fits_prefix(notes: Seq<Note>, n: int)
    requires
        0 <= n <= notes.len(),
        !total_fits(notes.take(n)),
    ensures
        !total_fits(notes),
    decreases notes.len() - n,
{
    if n == notes.len() {
        assert(notes.take(n) =~= notes);
    } else {
        assert(notes.take(n + 1).drop_last() =~= notes.take(n));
        lemma_total_fits_prefix(notes, n + 1);
    }
}

/// What is listed by height was there.
pub proof fn lemma_by_height_member(notes: Seq<Note>, k: int)
    requires
        0 <= k < notes.len(),
    ensures
        notes.contains(by_height(notes)[k]),
{
    crate::db::order::law_stable_order(crate::db::model::note_heights(notes));
    let order = crate::db::order::stable_order(crate::db::model::note_heights(notes));
    assert(0 <= order[k] < notes.len());
}

} // verus!
