//! The mathematical model of the wallet database, and the rules its operations follow.
use crate::db::order::stable_order;
use crate::db::rows::{Address, Note, TxRecord};
use crate::text::{begins_with, same_ignoring_case};
use vstd::prelude::*;

verus! {

/// The contents of the wallet database.
#[verifier::ext_equal]
pub struct WalletState {
    /// Metadata values by key.
    pub meta: Map<Seq<char>, Seq<u8>>,
    /// Payment addresses, by rising id.
    pub addresses: Seq<Address>,
    /// Notes, by rising id.
    pub notes: Seq<Note>,
    /// Transaction history, in the order of insertion.
    pub transactions: Seq<TxRecord>,
    /// Height up to which the chain has been scanned.
    pub last_synced_height: u32,
    /// Height at which the wallet came into being.
    pub birthday_height: u32,
    /// Id of the native token.
    pub dark_token_id: Seq<u8>,
    /// The greatest id an address ever had.
    pub last_address_id: i64,
    /// The greatest id a note ever had.
    pub last_note_id: i64,
}

/// Ids rise, and no two notes are the same output of the same transaction.
pub open spec fn notes_ok(notes: Seq<Note>) -> bool {
    &&& forall|i: int, j: int|
        0 <= i < j < notes.len() ==> (#[trigger] notes[i]).id < (#[trigger] notes[j]).id
    &&& forall|i: int, j: int|
        0 <= i < j < notes.len() ==> !same_output(#[trigger] notes[i], #[trigger] notes[j])
}

/// Two notes are the same output of the same transaction.
pub open spec fn same_output(a: Note, b: Note) -> bool {
    a.tx_hash == b.tx_hash && a.output_index == b.output_index
}

/// Ids rise, and no two addresses share a public key.
pub open spec fn addresses_ok(addresses: Seq<Address>) -> bool {
    &&& forall|i: int, j: int|
        0 <= i < j < addresses.len() ==> (#[trigger] addresses[i]).id < (#[trigger] addresses[j]).id
    &&& forall|i: int, j: int|
        0 <= i < j < addresses.len() ==> (#[trigger] addresses[i]).public_key != (
        #[trigger] addresses[j]).public_key
}

/// No two history entries share a hash.
pub open spec fn transactions_ok(transactions: Seq<TxRecord>) -> bool {
    forall|i: int, j: int|
        0 <= i < j < transactions.len() ==> (#[trigger] transactions[i]).hash != (
        #[trigger] transactions[j]).hash
}

impl WalletState {
    /// The invariant every operation keeps.
    pub open spec fn wf(self) -> bool {
        &&& notes_ok(self.notes)
        &&& addresses_ok(self.addresses)
        &&& transactions_ok(self.transactions)
        &&& 0 <= self.last_note_id
        &&& 0 <= self.last_address_id
        &&& forall|i: int|
            0 <= i < self.notes.len() ==> (#[trigger] self.notes[i]).id <= self.last_note_id
        &&& forall|i: int|
            0 <= i < self.addresses.len() ==> (#[trigger] self.addresses[i]).id
                <= self.last_address_id
        &&& self.dark_token_id.len() == 32
    }

    /// An empty database.
    pub open spec fn empty(dark_token_id: Seq<u8>) -> WalletState {
        WalletState {
            meta: Map::empty(),
            addresses: Seq::empty(),
            notes: Seq::empty(),
            transactions: Seq::empty(),
            last_synced_height: 0,
            birthday_height: 0,
            dark_token_id,
            last_address_id: 0,
            last_note_id: 0,
        }
    }

    /// The same database with other notes.
    pub open spec fn with_notes(self, notes: Seq<Note>) -> WalletState {
        WalletState { notes, ..self }
    }

    /// The same database with other addresses.
    pub open spec fn with_addresses(self, addresses: Seq<Address>) -> WalletState {
        WalletState { addresses, ..self }
    }

    /// The same database with another history.
    pub open spec fn with_transactions(self, transactions: Seq<TxRecord>) -> WalletState {
        WalletState { transactions, ..self }
    }

    /// The same database with other metadata.
    pub open spec fn with_meta(self, meta: Map<Seq<char>, Seq<u8>>) -> WalletState {
        WalletState { meta, ..self }
    }

    /// The same database synced to another height.
    pub open spec fn synced_to(self, height: u32) -> WalletState {
        WalletState { last_synced_height: height, ..self }
    }

    /// The same database with another birthday.
    pub open spec fn born_at(self, height: u32) -> WalletState {
        WalletState { birthday_height: height, ..self }
    }

    /// The database after every note that `p` selects has been changed by `f`.
    pub open spec fn notes_updated(
        self,
        p: spec_fn(Note) -> bool,
        f: spec_fn(Note) -> Note,
    ) -> WalletState {
        self.with_notes(updated(self.notes, p, f))
    }

    /// The database without the notes that `p` selects.
    pub open spec fn notes_deleted(self, p: spec_fn(Note) -> bool) -> WalletState {
        self.with_notes(deleted(self.notes, p))
    }

    /// How many notes `p` selects.
    pub open spec fn count_notes(self, p: spec_fn(Note) -> bool) -> nat {
        self.notes.filter(p).len()
    }
}

/// `notes` with `f` applied to those that `p` selects.
pub open spec fn updated(
    notes: Seq<Note>,
    p: spec_fn(Note) -> bool,
    f: spec_fn(Note) -> Note,
) -> Seq<Note> {
    Seq::new(
        notes.len(),
        |i: int|
            if p(notes[i]) {
                f(notes[i])
            } else {
                notes[i]
            },
    )
}

/// The predicate that selects what `p` does not.
pub open spec fn unless<A>(p: spec_fn(A) -> bool) -> spec_fn(A) -> bool {
    |a: A| !p(a)
}

/// `rows` without those that `p` selects.
pub open spec fn deleted<A>(rows: Seq<A>, p: spec_fn(A) -> bool) -> Seq<A> {
    rows.filter(unless(p))
}

// Which notes an operation selects.

/// Unspent notes.
pub open spec fn unspent() -> spec_fn(Note) -> bool {
    |n: Note| !n.spent
}

/// The unspent notes with this nullifier.
pub open spec fn with_nullifier(nullifier: Seq<u8>) -> spec_fn(Note) -> bool {
    |n: Note| !n.spent && n.nullifier == Some(nullifier)
}

/// The unspent notes with this commitment.
pub open spec fn with_commitment(commitment: Seq<u8>) -> spec_fn(Note) -> bool {
    |n: Note| !n.spent && n.commitment == Some(commitment)
}

/// The unspent notes at this output of this transaction.
pub open spec fn at_output(tx_hash: Seq<char>, output_index: u32) -> spec_fn(Note) -> bool {
    |n: Note| !n.spent && n.tx_hash == tx_hash && n.output_index == output_index
}

/// The unspent notes at this output of a transaction whose hash begins with `tx_hash`.
pub open spec fn at_locator(tx_hash: Seq<char>, output_index: u32) -> spec_fn(Note) -> bool {
    |n: Note| !n.spent && n.output_index == output_index && begins_with(n.tx_hash, tx_hash)
}

/// The notes of blocks above this height.
pub open spec fn above(height: u32) -> spec_fn(Note) -> bool {
    |n: Note| n.block_height > height
}

/// The history entries of blocks above this height.
pub open spec fn tx_above(height: u32) -> spec_fn(TxRecord) -> bool {
    |t: TxRecord| t.block_height > height
}

/// The spent notes of blocks up to this height.
pub open spec fn spent_upto(height: u32) -> spec_fn(Note) -> bool {
    |n: Note| n.spent && n.block_height <= height
}

/// The spent notes of blocks below this height.
pub open spec fn spent_below(height: u32) -> spec_fn(Note) -> bool {
    |n: Note| n.spent && n.block_height < height
}

/// The unspent notes with a commitment of `32` bytes.
pub open spec fn committed() -> spec_fn(Note) -> bool {
    |n: Note| !n.spent && has32(n.commitment)
}

/// The unspent notes that can be spent: placed in the tree, committed to, and owned.
pub open spec fn spendable() -> spec_fn(Note) -> bool {
    |n: Note|
        !n.spent && n.leaf_position is Some && has32(n.commitment) && n.owner_secret is Some
}

/// A byte string is present and `32` bytes long.
pub open spec fn has32(bytes: Option<Seq<u8>>) -> bool {
    bytes matches Some(b) && b.len() == 32
}

// How an operation changes a note.

/// Sets the spent mark.
pub open spec fn set_spent(spent: bool) -> spec_fn(Note) -> Note {
    |n: Note| Note { spent, ..n }
}

/// Sets the position in the commitment tree.
pub open spec fn set_leaf(leaf_position: u32) -> spec_fn(Note) -> Note {
    |n: Note| Note { leaf_position: Some(leaf_position), ..n }
}

/// Sets the commitment and forgets the position in the tree.
pub open spec fn set_commitment(commitment: Seq<u8>) -> spec_fn(Note) -> Note {
    |n: Note| recommitted(n, commitment)
}

/// A note with another commitment and no position in the tree.
pub open spec fn recommitted(n: Note, commitment: Seq<u8>) -> Note {
    Note { commitment: Some(commitment), leaf_position: None, ..n }
}

/// Sets the full spend hook.
pub open spec fn set_hook_bytes(bytes: Seq<u8>) -> spec_fn(Note) -> Note {
    |n: Note| Note { spend_hook_bytes: Some(bytes), ..n }
}

/// Sets the fields a spend needs and forgets the position in the tree.
pub open spec fn set_spend_fields(fields: Note) -> spec_fn(Note) -> Note {
    |n: Note|
        Note {
            value_raw: fields.value_raw,
            token_id: fields.token_id,
            coin_blind: fields.coin_blind,
            value_blind: fields.value_blind,
            token_blind: fields.token_blind,
            spend_hook: fields.spend_hook,
            spend_hook_bytes: fields.spend_hook_bytes,
            user_data: fields.user_data,
            commitment: fields.commitment,
            owner_secret: fields.owner_secret,
            leaf_position: None,
            ..n
        }
}

// Tokens and balances.

/// `token` names the native token, by its display name or by its id in hex.
pub open spec fn names_native(token: Seq<char>, native_hex: Seq<char>) -> bool {
    same_ignoring_case(token, "DRK"@) || same_ignoring_case(token, native_hex)
}

/// The unspent notes of a token. Native notes are those stored under the token's id in hex, or
/// under the display name in any case.
pub open spec fn of_token(token: Seq<char>, native_hex: Seq<char>) -> spec_fn(Note) -> bool {
    |n: Note|
        !n.spent && if names_native(token, native_hex) {
            n.token_id == native_hex || same_ignoring_case(n.token_id, "drk"@)
        } else {
            n.token_id == token
        }
}

/// The sum of the values of notes.
pub open spec fn total(notes: Seq<Note>) -> int
    decreases notes.len(),
{
    if notes.len() == 0 {
        0
    } else {
        total(notes.drop_last()) + notes.last().value_raw
    }
}

/// Adding the values up one by one never leaves the signed 64-bit range.
pub open spec fn total_fits(notes: Seq<Note>) -> bool
    decreases notes.len(),
{
    notes.len() == 0 || (total_fits(notes.drop_last()) && i64::MIN <= total(notes) <= i64::MAX)
}

// Ordered listings.

/// Notes by rising height, equal heights by id.
pub open spec fn by_height(notes: Seq<Note>) -> Seq<Note> {
    let order = stable_order(note_heights(notes));
    Seq::new(notes.len(), |k: int| notes[order[k]])
}

/// The heights of notes.
pub open spec fn note_heights(notes: Seq<Note>) -> Seq<int> {
    Seq::new(notes.len(), |i: int| notes[i].block_height as int)
}

/// History by falling height, equal heights in the order of insertion.
pub open spec fn newest_first(transactions: Seq<TxRecord>) -> Seq<TxRecord> {
    let order = stable_order(tx_ages(transactions));
    Seq::new(transactions.len(), |k: int| transactions[order[k]])
}

/// The negated heights of history entries.
pub open spec fn tx_ages(transactions: Seq<TxRecord>) -> Seq<int> {
    Seq::new(transactions.len(), |i: int| -(transactions[i].block_height as int))
}

// Lemmas about selecting rows.

pub proof fn lemma_filter_step<A>(s: Seq<A>, i: int, p: spec_fn(A) -> bool)
    requires
        0 <= i < s.len(),
    ensures
        s.take(i + 1).filter(p) == if p(s[i]) {
            s.take(i).filter(p).push(s[i])
        } else {
            s.take(i).filter(p)
        },
        s.take(i).filter(p).len() <= i,
{
    reveal(Seq::filter);
    assert(s.take(i + 1).drop_last() =~= s.take(i));
    assert(s.take(i + 1).last() == s[i]);
    lemma_filter_len(s.take(i), p);
}

pub proof fn lemma_filter_len<A>(s: Seq<A>, p: spec_fn(A) -> bool)
    ensures
        s.filter(p).len() <= s.len(),
    decreases s.len(),
{
    reveal(Seq::filter);
    if s.len() > 0 {
        lemma_filter_len(s.drop_last(), p);
    }
}

/// What is selected was there and satisfies the predicate.
pub proof fn lemma_filter_member<A>(s: Seq<A>, p: spec_fn(A) -> bool, k: int)
    requires
        0 <= k < s.filter(p).len(),
    ensures
        p(s.filter(p)[k]),
        s.contains(s.filter(p)[k]),
    decreases s.len(),
{
    reveal(Seq::filter);
    if s.len() > 0 {
        let t = s.drop_last();
        if k < t.filter(p).len() {
            lemma_filter_member(t, p, k);
            let i = choose|i: int| 0 <= i < t.len() && t[i] == t.filter(p)[k];
            assert(s[i] == t[i]);
        } else {
            assert(s[s.len() - 1] == s.last());
        }
    }
}

/// What is there and satisfies the predicate is selected.
pub proof fn lemma_filter_keeps<A>(s: Seq<A>, p: spec_fn(A) -> bool, i: int)
    requires
        0 <= i < s.len(),
        p(s[i]),
    ensures
        s.filter(p).contains(s[i]),
    decreases s.len(),
{
    reveal(Seq::filter);
    let t = s.drop_last();
    if i < t.len() {
        lemma_filter_keeps(t, p, i);
        let k = choose|k: int| 0 <= k < t.filter(p).len() && t.filter(p)[k] == t[i];
        assert(s.filter(p)[k] == s[i]);
    } else {
        assert(s.filter(p)[s.filter(p).len() - 1] == s[i]);
    }
}

/// Selecting notes keeps the invariant on notes.
pub proof fn lemma_filter_notes_ok(s: Seq<Note>, p: spec_fn(Note) -> bool)
    requires
        notes_ok(s),
    ensures
        notes_ok(s.filter(p)),
    decreases s.len(),
{
    reveal(Seq::filter);
    if s.len() > 0 {
        let t = s.drop_last();
        assert forall|i: int, j: int| 0 <= i < j < t.len() implies (#[trigger] t[i]).id < (
        #[trigger] t[j]).id && !same_output(t[i], t[j]) by {
            assert(s[i] == t[i] && s[j] == t[j]);
        }
        lemma_filter_notes_ok(t, p);
        let f = t.filter(p);
        assert forall|k: int| 0 <= k < f.len() implies (#[trigger] f[k]).id < s.last().id
            && !same_output(f[k], s.last()) by {
            lemma_filter_member(t, p, k);
            let i = choose|i: int| 0 <= i < t.len() && t[i] == f[k];
            assert(s[i] == t[i]);
            assert(s[s.len() - 1] == s.last());
        }
    }
}

/// Selecting history entries keeps the invariant on history.
pub proof fn lemma_filter_transactions_ok(s: Seq<TxRecord>, p: spec_fn(TxRecord) -> bool)
    requires
        transactions_ok(s),
    ensures
        transactions_ok(s.filter(p)),
    decreases s.len(),
{
    reveal(Seq::filter);
    if s.len() > 0 {
        let t = s.drop_last();
        assert forall|i: int, j: int| 0 <= i < j < t.len() implies (#[trigger] t[i]).hash != (
        #[trigger] t[j]).hash by {
            assert(s[i] == t[i] && s[j] == t[j]);
        }
        lemma_filter_transactions_ok(t, p);
        let f = t.filter(p);
        assert forall|k: int| 0 <= k < f.len() implies (#[trigger] f[k]).hash != s.last().hash by {
            lemma_filter_member(t, p, k);
            let i = choose|i: int| 0 <= i < t.len() && t[i] == f[k];
            assert(s[i] == t[i]);
            assert(s[s.len() - 1] == s.last());
        }
    }
}

/// Deleting notes keeps the invariant.
pub proof fn lemma_notes_deleted_wf(state: WalletState, p: spec_fn(Note) -> bool)
    requires
        state.wf(),
    ensures
        state.notes_deleted(p).wf(),
{
    lemma_filter_notes_ok(state.notes, unless(p));
    let f = deleted(state.notes, p);
    assert forall|k: int| 0 <= k < f.len() implies (#[trigger] f[k]).id <= state.last_note_id by {
        lemma_filter_member(state.notes, unless(p), k);
        let i = choose|i: int| 0 <= i < state.notes.len() && state.notes[i] == f[k];
        assert(state.notes[i].id <= state.last_note_id);
    }
}

/// A change that keeps ids and outputs keeps the invariant.
pub proof fn lemma_notes_updated_wf(
    state: WalletState,
    p: spec_fn(Note) -> bool,
    f: spec_fn(Note) -> Note,
)
    requires
        state.wf(),
        forall|n: Note| (#[trigger] f(n)).id == n.id && same_output(f(n), n),
    ensures
        state.notes_updated(p, f).wf(),
{
    let out = updated(state.notes, p, f);
    assert forall|i: int, j: int| 0 <= i < j < out.len() implies (#[trigger] out[i]).id < (
    #[trigger] out[j]).id && !same_output(out[i], out[j]) by {
        let (a, b) = (state.notes[i], state.notes[j]);
        assert(a.id < b.id && !same_output(a, b));
        assert(f(a).id == a.id && f(b).id == b.id);
    }
    assert forall|i: int| 0 <= i < out.len() implies (#[trigger] out[i]).id
        <= state.last_note_id by {
        let a = state.notes[i];
        assert(f(a).id == a.id);
    }
}

} // verus!
