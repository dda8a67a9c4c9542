//! What each operation does to the tables, row by row and field by field.
use crate::db::addresses::first_default;
use crate::db::history::{pending, promoted};
use crate::db::meta::{complete_mark, META_MERKLE_FROM_GENESIS, META_TREE_STATE};
use crate::db::model::{
    above, at_locator, at_output, by_height, committed, deleted, has32, lemma_filter_keeps,
    lemma_filter_member, names_native, newest_first, note_heights, of_token, recommitted,
    same_output, set_commitment, set_hook_bytes, set_leaf, set_spend_fields, set_spent, spendable,
    spent_below, spent_upto, total, total_fits, tx_above, tx_ages, unless, unspent,
    updated, with_commitment, with_nullifier, WalletState,
};
use crate::db::notes::{NoteChange, NotePick};
use crate::db::order::{law_stable_order, stable_order};
use crate::db::rows::{
    address_views, note_views, opt_bytes, opt_slice, opt_str, opt_text, tx_views, Address,
    AddressRow, Note, NoteRow, TransactionRow, TxRecord,
};
use crate::db::spending::{
    before_birthday, hook_of, null_column, readable, short_hook, shows, UnspentNote,
};
use crate::db::{meta_pairs, WalletTables};
use crate::text::same_ignoring_case;
use vstd::prelude::*;

verus! {

// ---- Marking and changing notes ----

/// A nullifier seen on chain marks the notes that have it as spent, and changes nothing else.
pub proof fn law_marking_by_nullifier(state: WalletState, nullifier: Seq<u8>, i: int)
    ensures
        ({
            let after = state.notes_updated(with_nullifier(nullifier), set_spent(true));
            &&& after == (WalletState { notes: after.notes, ..state })
            &&& after.notes.len() == state.notes.len()
            &&& 0 <= i < state.notes.len() ==> after.notes[i] == if state.notes[i].nullifier == Some(
                nullifier,
            ) {
                Note { spent: true, ..state.notes[i] }
            } else {
                state.notes[i]
            }
        }),
{
}

/// A commitment marks the notes that have it as spent, and changes nothing else.
pub proof fn law_marking_by_commitment(state: WalletState, commitment: Seq<u8>, i: int)
    ensures
        ({
            let after = state.notes_updated(with_commitment(commitment), set_spent(true));
            &&& after == (WalletState { notes: after.notes, ..state })
            &&& after.notes.len() == state.notes.len()
            &&& 0 <= i < state.notes.len() ==> after.notes[i] == if state.notes[i].commitment
                == Some(commitment) {
                Note { spent: true, ..state.notes[i] }
            } else {
                state.notes[i]
            }
        }),
{
}

/// A locator marks the notes at its output of the transactions whose hash continues its own as
/// spent, and changes nothing else.
pub proof fn law_marking_by_locator(
    state: WalletState,
    tx_hash: Seq<char>,
    output_index: u32,
    i: int,
    rest: Seq<char>,
)
    ensures
        ({
            let after = state.notes_updated(at_locator(tx_hash, output_index), set_spent(true));
            &&& after == (WalletState { notes: after.notes, ..state })
            &&& after.notes.len() == state.notes.len()
            &&& 0 <= i < state.notes.len() ==> {
                &&& state.notes[i].output_index == output_index && state.notes[i].tx_hash == tx_hash
                    + rest ==> after.notes[i] == (Note { spent: true, ..state.notes[i] })
                &&& after.notes[i] != state.notes[i] ==> {
                    &&& after.notes[i] == (Note { spent: true, ..state.notes[i] })
                    &&& state.notes[i].output_index == output_index
                    &&& tx_hash.len() <= state.notes[i].tx_hash.len()
                    &&& state.notes[i].tx_hash.take(tx_hash.len() as int) == tx_hash
                }
            }
        }),
{
    assert((tx_hash + rest).take(tx_hash.len() as int) =~= tx_hash);
}

/// A tree position is given to the unspent notes of its commitment, and nothing else changes.
pub proof fn law_placing_in_the_tree(
    state: WalletState,
    commitment: Seq<u8>,
    leaf_position: u32,
    i: int,
)
    ensures
        ({
            let after = state.notes_updated(with_commitment(commitment), set_leaf(leaf_position));
            &&& after == (WalletState { notes: after.notes, ..state })
            &&& after.notes.len() == state.notes.len()
            &&& 0 <= i < state.notes.len() ==> {
                let (was, now) = (state.notes[i], after.notes[i]);
                if was.commitment == Some(commitment) && !was.spent {
                    &&& now.leaf_position == Some(leaf_position)
                    &&& (Note { leaf_position: was.leaf_position, ..now }) == was
                } else {
                    now == was
                }
            }
        }),
{
}

/// A new commitment goes to the unspent note at its output, which loses its tree position, and
/// nothing else changes.
pub proof fn law_overwriting_a_commitment(
    state: WalletState,
    tx_hash: Seq<char>,
    output_index: u32,
    commitment: Seq<u8>,
    i: int,
)
    ensures
        ({
            let after = state.notes_updated(
                at_output(tx_hash, output_index),
                set_commitment(commitment),
            );
            &&& after == (WalletState { notes: after.notes, ..state })
            &&& after.notes.len() == state.notes.len()
            &&& 0 <= i < state.notes.len() ==> {
                let (was, now) = (state.notes[i], after.notes[i]);
                if was.tx_hash == tx_hash && was.output_index == output_index && !was.spent {
                    &&& now.commitment == Some(commitment)
                    &&& now.leaf_position is None
                    &&& (Note {
                        commitment: was.commitment,
                        leaf_position: was.leaf_position,
                        ..now
                    }) == was
                } else {
                    now == was
                }
            }
        }),
{
}

/// A note with another commitment has that commitment and no tree position, and is otherwise the
/// note it was.
pub proof fn law_recommitted(n: Note, commitment: Seq<u8>)
    ensures
        recommitted(n, commitment).commitment == Some(commitment),
        recommitted(n, commitment).leaf_position is None,
        (Note {
            commitment: n.commitment,
            leaf_position: n.leaf_position,
            ..recommitted(n, commitment)
        }) == n,
{
}

/// A full spend hook goes to the unspent note at its output, and nothing else changes.
pub proof fn law_setting_the_spend_hook(
    state: WalletState,
    tx_hash: Seq<char>,
    output_index: u32,
    bytes: Seq<u8>,
    i: int,
)
    ensures
        ({
            let after = state.notes_updated(at_output(tx_hash, output_index), set_hook_bytes(bytes));
            &&& after == (WalletState { notes: after.notes, ..state })
            &&& after.notes.len() == state.notes.len()
            &&& 0 <= i < state.notes.len() ==> {
                let (was, now) = (state.notes[i], after.notes[i]);
                if was.tx_hash == tx_hash && was.output_index == output_index && !was.spent {
                    &&& now.spend_hook_bytes == Some(bytes)
                    &&& (Note { spend_hook_bytes: was.spend_hook_bytes, ..now }) == was
                } else {
                    now == was
                }
            }
        }),
{
}

/// Refreshing a note gives the unspent note at its output every field that a spend needs, takes
/// its tree position, and changes nothing else.
pub proof fn law_refreshing_spend_fields(
    state: WalletState,
    tx_hash: Seq<char>,
    output_index: u32,
    fields: Note,
    i: int,
)
    ensures
        ({
            let after = state.notes_updated(
                at_output(tx_hash, output_index),
                set_spend_fields(fields),
            );
            &&& after == (WalletState { notes: after.notes, ..state })
            &&& after.notes.len() == state.notes.len()
            &&& 0 <= i < state.notes.len() ==> {
                let (was, now) = (state.notes[i], after.notes[i]);
                if was.tx_hash == tx_hash && was.output_index == output_index && !was.spent {
                    &&& now.value_raw == fields.value_raw
                    &&& now.token_id == fields.token_id
                    &&& now.coin_blind == fields.coin_blind
                    &&& now.value_blind == fields.value_blind
                    &&& now.token_blind == fields.token_blind
                    &&& now.spend_hook == fields.spend_hook
                    &&& now.spend_hook_bytes == fields.spend_hook_bytes
                    &&& now.user_data == fields.user_data
                    &&& now.commitment == fields.commitment
                    &&& now.owner_secret == fields.owner_secret
                    &&& now.leaf_position is None
                    &&& now.id == was.id
                    &&& now.tx_hash == was.tx_hash
                    &&& now.output_index == was.output_index
                    &&& now.serial_number == was.serial_number
                    &&& now.nullifier == was.nullifier
                    &&& now.block_height == was.block_height
                    &&& now.spent == was.spent
                    &&& now.memo == was.memo
                } else {
                    now == was
                }
            }
        }),
{
}

// ---- Counting and finding notes ----

proof fn lemma_filter_counts<A>(s: Seq<A>, p: spec_fn(A) -> bool)
    ensures
        Set::<int>::new(|i: int| 0 <= i < s.len() && p(s[i])).finite(),
        s.filter(p).len() == Set::<int>::new(|i: int| 0 <= i < s.len() && p(s[i])).len(),
    decreases s.len(),
{
    reveal(Seq::filter);
    let places = Set::<int>::new(|i: int| 0 <= i < s.len() && p(s[i]));
    if s.len() == 0 {
        assert(places =~= Set::empty());
    } else {
        let t = s.drop_last();
        let n = s.len() - 1;
        let rest = Set::<int>::new(|i: int| 0 <= i < t.len() && p(t[i]));
        lemma_filter_counts(t, p);
        if p(s[n]) {
            assert(places =~= rest.insert(n));
        } else {
            assert(places =~= rest);
        }
    }
}

/// The count of selected notes is the number of places at which a selected note stands.
pub proof fn law_counts_are_places(state: WalletState, p: spec_fn(Note) -> bool)
    ensures
        state.count_notes(p) == Set::<int>::new(
            |i: int| 0 <= i < state.notes.len() && p(state.notes[i]),
        ).len(),
{
    lemma_filter_counts(state.notes, p);
}

/// Which notes count under a nullifier, a commitment, an output, a locator, as having a full
/// commitment, as lying above a height or as spent up to or below one.
pub proof fn law_what_is_selected(
    n: Note,
    bytes: Seq<u8>,
    tx_hash: Seq<char>,
    output_index: u32,
    height: u32,
)
    ensures
        with_nullifier(bytes)(n) <==> n.nullifier == Some(bytes) && !n.spent,
        with_commitment(bytes)(n) <==> n.commitment == Some(bytes) && !n.spent,
        at_output(tx_hash, output_index)(n) <==> n.tx_hash == tx_hash && n.output_index
            == output_index && !n.spent,
        at_locator(tx_hash, output_index)(n) <==> n.output_index == output_index && !n.spent
            && exists|rest: Seq<char>| n.tx_hash == tx_hash + rest,
        committed()(n) <==> n.commitment is Some && n.commitment->0.len() == 32 && !n.spent,
        unspent()(n) <==> !n.spent,
        above(height)(n) <==> n.block_height > height,
        spent_upto(height)(n) <==> n.spent && !(n.block_height > height),
        spent_below(height)(n) <==> n.spent && !(n.block_height >= height),
        has32(Some(bytes)) <==> bytes.len() == 32,
        !has32(None),
{
    if exists|rest: Seq<char>| n.tx_hash == tx_hash + rest {
        let rest = choose|rest: Seq<char>| n.tx_hash == tx_hash + rest;
        assert((tx_hash + rest).take(tx_hash.len() as int) =~= tx_hash);
    }
    if at_locator(tx_hash, output_index)(n) {
        let k = tx_hash.len() as int;
        assert(n.tx_hash.take(k) + n.tx_hash.skip(k) =~= n.tx_hash);
        assert(n.tx_hash == tx_hash + n.tx_hash.skip(k));
    }
}

/// History entries lie above a height by their block's height.
pub proof fn law_history_above(t: TxRecord, height: u32)
    ensures
        tx_above(height)(t) <==> t.block_height > height,
{
}

proof fn lemma_listed(notes: Seq<Note>, p: spec_fn(Note) -> bool, i: int)
    requires
        0 <= i < notes.len(),
        p(notes[i]),
    ensures
        by_height(notes.filter(p)).contains(notes[i]),
{
    let f = notes.filter(p);
    lemma_filter_keeps(notes, p, i);
    crate::db::laws::law_listing_by_height(f);
    f.to_multiset_ensures();
    by_height(f).to_multiset_ensures();
    assert(f.contains(notes[i]));
    assert(f.to_multiset().count(notes[i]) > 0);
    assert(by_height(f).to_multiset().count(notes[i]) > 0);
}

/// Every unspent note with a tree position, a full commitment and an owner's secret is offered
/// for spending, whatever else it holds, and no other is.
pub proof fn law_spendable_notes_are_complete(state: WalletState, i: int, k: int)
    ensures
        0 <= i < state.notes.len() && !state.notes[i].spent && state.notes[i].leaf_position is Some
            && state.notes[i].commitment is Some && state.notes[i].commitment->0.len() == 32
            && state.notes[i].owner_secret is Some ==> state.spendable_notes().contains(
            state.notes[i],
        ),
        0 <= k < state.spendable_notes().len() ==> {
            let n = state.spendable_notes()[k];
            &&& state.notes.contains(n)
            &&& !n.spent
            &&& n.leaf_position is Some
            &&& n.commitment is Some
            &&& n.commitment->0.len() == 32
            &&& n.owner_secret is Some
        },
{
    if 0 <= i < state.notes.len() && !state.notes[i].spent && state.notes[i].leaf_position is Some
        && state.notes[i].commitment is Some && state.notes[i].commitment->0.len() == 32
        && state.notes[i].owner_secret is Some {
        lemma_listed(state.notes, spendable(), i);
    }
    if 0 <= k < state.spendable_notes().len() {
        crate::db::laws::law_spendable_notes_are_unspent(state, k);
    }
}

/// Every unspent note is listed, and no other is.
pub proof fn law_unspent_notes_are_complete(state: WalletState, i: int, k: int)
    ensures
        0 <= i < state.notes.len() && !state.notes[i].spent ==> state.unspent_notes().contains(
            state.notes[i],
        ),
        0 <= k < state.unspent_notes().len() ==> state.notes.contains(state.unspent_notes()[k])
            && !state.unspent_notes()[k].spent,
{
    if 0 <= i < state.notes.len() && !state.notes[i].spent {
        lemma_listed(state.notes, unspent(), i);
    }
    if 0 <= k < state.unspent_notes().len() {
        let f = state.notes.filter(unspent());
        crate::db::spending::lemma_by_height_member(f, k);
        let j = choose|j: int| 0 <= j < f.len() && f[j] == state.unspent_notes()[k];
        lemma_filter_member(state.notes, unspent(), j);
    }
}

/// As many notes are listed as unspent, and as many are offered for spending, as there are: none
/// is listed twice.
pub proof fn law_listings_repeat_nothing(state: WalletState)
    ensures
        state.unspent_notes().len() == Set::<int>::new(
            |i: int| 0 <= i < state.notes.len() && !state.notes[i].spent,
        ).len(),
        state.unspent_notes().to_multiset() == state.notes.filter(
            |n: Note| !n.spent,
        ).to_multiset(),
        state.spendable_notes().to_multiset() == state.notes.filter(
            |n: Note|
                !n.spent && n.leaf_position is Some && n.commitment is Some
                    && n.commitment->0.len() == 32 && n.owner_secret is Some,
        ).to_multiset(),
{
    let open = |n: Note| !n.spent;
    let ready = |n: Note|
        !n.spent && n.leaf_position is Some && n.commitment is Some && n.commitment->0.len() == 32
            && n.owner_secret is Some;
    lemma_same_selection(state.notes, unspent(), open);
    lemma_same_selection(state.notes, spendable(), ready);
    crate::db::laws::law_listing_by_height(state.notes.filter(unspent()));
    crate::db::laws::law_listing_by_height(state.notes.filter(spendable()));
    lemma_filter_counts(state.notes, open);
    assert(Set::<int>::new(|i: int| 0 <= i < state.notes.len() && open(state.notes[i])) =~= Set::<
        int,
    >::new(|i: int| 0 <= i < state.notes.len() && !state.notes[i].spent));
}

proof fn lemma_same_selection<A>(s: Seq<A>, p: spec_fn(A) -> bool, q: spec_fn(A) -> bool)
    requires
        forall|a: A| #[trigger] p(a) == q(a),
    ensures
        s.filter(p) == s.filter(q),
    decreases s.len(),
{
    reveal(Seq::filter);
    if s.len() > 0 {
        lemma_same_selection(s.drop_last(), p, q);
        assert(p(s.last()) == q(s.last()));
    }
}

/// Notes of the same height are listed in the order in which they came in.
pub proof fn law_listing_is_stable(notes: Seq<Note>, a: int, b: int)
    requires
        forall|i: int, j: int|
            0 <= i < j < notes.len() ==> (#[trigger] notes[i]).id < (#[trigger] notes[j]).id,
        0 <= a < b < notes.len(),
    ensures
        by_height(notes)[a].block_height < by_height(notes)[b].block_height || (by_height(
            notes,
        )[a].block_height == by_height(notes)[b].block_height && by_height(notes)[a].id < by_height(
            notes,
        )[b].id),
{
    let keys = note_heights(notes);
    law_stable_order(keys);
    let order = stable_order(keys);
    assert(order[a] != order[b]);
    assert(0 <= order[a] < notes.len() && 0 <= order[b] < notes.len());
    assert(by_height(notes)[a] == notes[order[a]]);
    assert(by_height(notes)[b] == notes[order[b]]);
}

/// History of the same height is listed in the order in which it came in, and later blocks come
/// first.
pub proof fn law_history_listing_is_stable(history: Seq<TxRecord>, a: int, b: int)
    requires
        0 <= a < b < history.len(),
    ensures
        exists|i: int, j: int|
            {
                &&& 0 <= i < history.len()
                &&& 0 <= j < history.len()
                &&& newest_first(history)[a] == #[trigger] history[i]
                &&& newest_first(history)[b] == #[trigger] history[j]
                &&& history[i].block_height > history[j].block_height || (history[i].block_height
                    == history[j].block_height && i < j)
            },
{
    let keys = tx_ages(history);
    law_stable_order(keys);
    let order = stable_order(keys);
    let (i, j) = (order[a], order[b]);
    assert(i != j);
    assert(0 <= i < history.len() && 0 <= j < history.len());
    assert(newest_first(history)[a] == history[i]);
    assert(newest_first(history)[b] == history[j]);
}

// ---- Adding and deleting ----

/// A note that comes in stands at the end, its id is the greatest, and nothing else changes; one
/// that is ignored changes nothing but the greatest id.
pub proof fn law_note_comes_in(state: WalletState, note: Note, tx_hash: Seq<char>, output_index: u32)
    ensures
        state.note_added(note) == (WalletState {
            notes: state.notes + seq![note],
            last_note_id: note.id,
            ..state
        }),
        state.last_note_id < i64::MAX ==> state.note_id_skipped().last_note_id
            == state.last_note_id + 1,
        (WalletState { last_note_id: state.last_note_id, ..state.note_id_skipped() }) == state,
        state.knows_output(tx_hash, output_index) <==> exists|n: Note| #[trigger]
            state.notes.contains(n) && n.tx_hash == tx_hash && n.output_index == output_index,
{
    assert(state.notes.push(note) =~= state.notes + seq![note]);
    if state.knows_output(tx_hash, output_index) {
        let i = choose|i: int|
            0 <= i < state.notes.len() && (#[trigger] state.notes[i]).tx_hash == tx_hash
                && state.notes[i].output_index == output_index;
        assert(state.notes.contains(state.notes[i]));
    }
}

/// Two notes are the same output by hash and index alone.
pub proof fn law_same_output(a: Note, b: Note)
    ensures
        same_output(a, b) <==> (a.tx_hash, a.output_index) == (b.tx_hash, b.output_index),
{
}

/// Pruning leaves the notes that are unspent or lie at the height or above it, in their order,
/// and changes nothing else.
pub proof fn law_pruning_leaves(state: WalletState, height: u32)
    ensures
        state.notes_deleted(spent_below(height)) == (WalletState {
            notes: state.notes.filter(|n: Note| !n.spent || n.block_height >= height),
            ..state
        }),
{
    let keep = |n: Note| !n.spent || n.block_height >= height;
    lemma_same_selection(state.notes, unless(spent_below(height)), keep);
}

/// Rewinding leaves the notes and the history up to the height, in their order, with every note
/// unspent, sets the sync height, and changes nothing else.
pub proof fn law_rewinding_leaves(state: WalletState, height: u32)
    ensures
        state.rewound(height) == (WalletState {
            notes: state.notes.filter(|n: Note| n.block_height <= height).map(
                |i: int, n: Note| Note { spent: false, ..n },
            ),
            transactions: state.transactions.filter(|t: TxRecord| t.block_height <= height),
            last_synced_height: height,
            ..state
        }),
{
    let keep = |n: Note| n.block_height <= height;
    let keep_tx = |t: TxRecord| t.block_height <= height;
    lemma_same_selection(state.notes, unless(above(height)), keep);
    lemma_same_selection(state.transactions, unless(tx_above(height)), keep_tx);
    let kept = state.notes.filter(keep);
    let after = state.rewound(height).notes;
    assert forall|i: int| 0 <= i < kept.len() implies after[i] == (Note { spent: false, ..kept[i] }) by {
        lemma_filter_member(state.notes, keep, i);
    }
    assert(after =~= kept.map(|i: int, n: Note| Note { spent: false, ..n }));
}

/// A rescan changes nothing but notes, history, the two tree entries and the sync height.
pub proof fn law_rescanning_leaves(state: WalletState, height: u32, key: Seq<char>)
    ensures
        ({
            let after = state.rescanned(height);
            after == (WalletState {
                notes: Seq::empty(),
                transactions: Seq::empty(),
                meta: after.meta,
                last_synced_height: height,
                ..state
            })
        }),
        state.rescanned(height).meta.contains_key(key) <==> state.meta.contains_key(key) && key
            != "tree_state"@ && key != "merkle_from_genesis"@,
        state.rescanned(height).meta.contains_key(key) ==> state.rescanned(height).meta[key]
            == state.meta[key],
{
}

/// The counts of a rewind are those of the notes and of the history entries above the height.
pub proof fn law_rewinding_counts(state: WalletState, height: u32)
    ensures
        state.count_notes(above(height)) == Set::<int>::new(
            |i: int| 0 <= i < state.notes.len() && state.notes[i].block_height > height,
        ).len(),
        state.transactions.filter(tx_above(height)).len() == Set::<int>::new(
            |i: int| 0 <= i < state.transactions.len() && state.transactions[i].block_height > height,
        ).len(),
        state.count_notes(spent_below(height)) == Set::<int>::new(
            |i: int|
                0 <= i < state.notes.len() && state.notes[i].spent && state.notes[i].block_height
                    < height,
        ).len(),
{
    lemma_filter_counts(state.notes, above(height));
    lemma_filter_counts(state.transactions, tx_above(height));
    lemma_filter_counts(state.notes, spent_below(height));
    assert(Set::<int>::new(
        |i: int| 0 <= i < state.notes.len() && above(height)(state.notes[i]),
    ) =~= Set::<int>::new(
        |i: int| 0 <= i < state.notes.len() && state.notes[i].block_height > height,
    ));
    assert(Set::<int>::new(
        |i: int| 0 <= i < state.transactions.len() && tx_above(height)(state.transactions[i]),
    ) =~= Set::<int>::new(
        |i: int| 0 <= i < state.transactions.len() && state.transactions[i].block_height > height,
    ));
    assert(Set::<int>::new(
        |i: int| 0 <= i < state.notes.len() && spent_below(height)(state.notes[i]),
    ) =~= Set::<int>::new(
        |i: int|
            0 <= i < state.notes.len() && state.notes[i].spent && state.notes[i].block_height
                < height,
    ));
}

/// Setting one part of the database leaves every other part as it was.
pub proof fn law_parts_are_separate(
    state: WalletState,
    notes: Seq<Note>,
    addresses: Seq<Address>,
    transactions: Seq<TxRecord>,
    meta: Map<Seq<char>, Seq<u8>>,
    height: u32,
)
    ensures
        state.with_notes(notes) == (WalletState { notes, ..state }),
        state.with_addresses(addresses) == (WalletState { addresses, ..state }),
        state.with_transactions(transactions) == (WalletState { transactions, ..state }),
        state.with_meta(meta) == (WalletState { meta, ..state }),
        state.synced_to(height) == (WalletState { last_synced_height: height, ..state }),
        state.born_at(height) == (WalletState { birthday_height: height, ..state }),
{
}

/// A fresh database has no rows, no heights and no ids, and the native token it was made for.
pub proof fn law_fresh_database(dark_token_id: Seq<u8>, token: Seq<char>)
    ensures
        ({
            let fresh = WalletState::empty(dark_token_id);
            &&& fresh.meta == Map::<Seq<char>, Seq<u8>>::empty()
            &&& fresh.notes.len() == 0
            &&& fresh.addresses.len() == 0
            &&& fresh.transactions.len() == 0
            &&& fresh.last_synced_height == 0
            &&& fresh.birthday_height == 0
            &&& fresh.last_note_id == 0
            &&& fresh.last_address_id == 0
            &&& fresh.dark_token_id == dark_token_id
            &&& fresh.balance(token) == 0
        }),
{
    reveal(Seq::filter);
}

/// A restored wallet's next block to scan is its birthday's, or the first one.
pub proof fn law_birthday_is_scanned_next(birthday: u32)
    ensures
        birthday > 0 ==> before_birthday(birthday) + 1 == birthday,
        birthday == 0 ==> before_birthday(birthday) == 0,
{
}

// ---- Balances ----

/// The sum of notes is that of their values, note by note, and it is refused exactly where some
/// running sum leaves the signed 64-bit range.
pub proof fn law_sum_of_notes(notes: Seq<Note>, more: Seq<Note>, n: Note)
    ensures
        total(Seq::empty()) == 0,
        total(notes.push(n)) == total(notes) + n.value_raw,
        total(notes + more) == total(notes) + total(more),
        total_fits(notes) <==> forall|k: int|
            0 <= k <= notes.len() ==> i64::MIN <= #[trigger] total(notes.take(k)) <= i64::MAX,
    decreases more.len(),
{
    assert(notes.push(n).drop_last() =~= notes);
    lemma_total_fits(notes);
    if more.len() == 0 {
        assert(notes + more =~= notes);
    } else {
        assert((notes + more).drop_last() =~= notes + more.drop_last());
        law_sum_of_notes(notes, more.drop_last(), n);
    }
}

proof fn lemma_total_fits(notes: Seq<Note>)
    ensures
        total_fits(notes) <==> forall|k: int|
            0 <= k <= notes.len() ==> i64::MIN <= #[trigger] total(notes.take(k)) <= i64::MAX,
    decreases notes.len(),
{
    let n = notes.len() as int;
    assert(notes.take(n) =~= notes);
    if n > 0 {
        let rest = notes.drop_last();
        lemma_total_fits(rest);
        assert forall|k: int| 0 <= k < n implies #[trigger] rest.take(k) == notes.take(k) by {
            assert(rest.take(k) =~= notes.take(k));
        }
        if total_fits(notes) {
            assert forall|k: int| 0 <= k <= n implies i64::MIN <= #[trigger] total(notes.take(k))
                <= i64::MAX by {
                if k < n {
                    assert(rest.take(k) == notes.take(k));
                    assert(i64::MIN <= total(rest.take(k)) <= i64::MAX);
                }
            }
        }
        if forall|k: int|
            0 <= k <= n ==> i64::MIN <= #[trigger] total(notes.take(k)) <= i64::MAX {
            assert forall|k: int| 0 <= k <= rest.len() implies i64::MIN <= #[trigger] total(
                rest.take(k),
            ) <= i64::MAX by {
                assert(rest.take(k) == notes.take(k));
                assert(i64::MIN <= total(notes.take(k)) <= i64::MAX);
            }
            assert(i64::MIN <= total(notes.take(n)) <= i64::MAX);
        }
    } else {
        assert forall|k: int| 0 <= k <= 0 implies i64::MIN <= #[trigger] total(notes.take(k))
            <= i64::MAX by {
            assert(notes.take(k) =~= Seq::empty());
        }
    }
}

/// A balance counts the unspent notes of the token: under any name of the native token those
/// stored under its id in hex or under `drk` in any case, under another name those stored under
/// that very name.
pub proof fn law_balance_of_a_token(state: WalletState, token: Seq<char>, n: Note)
    ensures
        state.balance(token) == total(state.notes.filter(of_token(token, state.native_hex()))),
        names_native(token, state.native_hex()) <==> same_ignoring_case(token, "DRK"@)
            || same_ignoring_case(token, state.native_hex()),
        names_native(token, state.native_hex()) ==> (of_token(token, state.native_hex())(n)
            <==> !n.spent && (n.token_id == state.native_hex() || same_ignoring_case(
            n.token_id,
            "drk"@,
        ))),
        !names_native(token, state.native_hex()) ==> (of_token(token, state.native_hex())(n)
            <==> !n.spent && n.token_id == token),
        state.native_hex() == crate::hexcodec::hex_text(state.dark_token_id),
{
}

/// All names of the native token have the same balance.
pub proof fn law_native_names_share_a_balance(state: WalletState, a: Seq<char>, b: Seq<char>)
    requires
        same_ignoring_case(a, "DRK"@) || same_ignoring_case(a, state.native_hex()),
        same_ignoring_case(b, "DRK"@) || same_ignoring_case(b, state.native_hex()),
    ensures
        state.balance(a) == state.balance(b),
        state.notes_of(a) == state.notes_of(b),
{
    let hex = state.native_hex();
    lemma_same_selection(state.notes, of_token(a, hex), of_token(b, hex));
}

// ---- What listed notes show ----

/// A listed note shows its row's fields, each at its place, with the full form of the spend hook
/// where there is one of `32` bytes and else the one byte before zeros.
pub proof fn law_listed_note_shows_its_row(t: UnspentNote, n: Note, i: int)
    requires
        shows(t, n),
    ensures
        t.0@ == n.tx_hash,
        t.1 == n.output_index,
        t.2 == n.value_raw,
        t.3@ == n.token_id,
        n.coin_blind == Some(t.4@),
        n.value_blind == Some(t.5@),
        n.token_blind == Some(t.6@),
        n.user_data == Some(t.8@),
        n.leaf_position == Some(t.9),
        n.commitment == Some(t.10@),
        t.7@.len() == 32,
        n.spend_hook_bytes is Some && n.spend_hook_bytes->0.len() == 32 ==> t.7@
            == n.spend_hook_bytes->0,
        !(n.spend_hook_bytes is Some && n.spend_hook_bytes->0.len() == 32) ==> {
            &&& t.7@[0] == if n.spend_hook is Some {
                n.spend_hook->0
            } else {
                0
            }
            &&& 0 < i < 32 ==> t.7@[i] == 0
        },
        t.7@ == hook_of(n),
{
    assert(short_hook(n.spend_hook).len() == 32);
}

/// A row that holds what a listed note shows is shown by it.
pub proof fn law_row_is_shown(t: UnspentNote, n: Note)
    requires
        t.0@ == n.tx_hash,
        t.1 == n.output_index,
        t.2 == n.value_raw,
        t.3@ == n.token_id,
        n.coin_blind == Some(t.4@),
        n.value_blind == Some(t.5@),
        n.token_blind == Some(t.6@),
        t.7@ == hook_of(n),
        n.user_data == Some(t.8@),
        n.leaf_position == Some(t.9),
        n.commitment == Some(t.10@),
    ensures
        shows(t, n),
{
}

/// A column is said to be empty exactly where a blind or the user data is missing, and it is the
/// first that is, by its place in the listing.
pub proof fn law_empty_columns(n: Note)
    ensures
        null_column(n) is None <==> n.coin_blind is Some && n.value_blind is Some && n.token_blind
            is Some && n.user_data is Some,
        n.coin_blind is None ==> null_column(n) == Some(4usize),
        n.coin_blind is Some && n.value_blind is None ==> null_column(n) == Some(5usize),
        n.coin_blind is Some && n.value_blind is Some && n.token_blind is None ==> null_column(n)
            == Some(6usize),
        n.coin_blind is Some && n.value_blind is Some && n.token_blind is Some && n.user_data
            is None ==> null_column(n) == Some(9usize),
{
}

/// The notes before one that cannot be read lack nothing, and their owners' secrets unwrap.
pub proof fn law_readable_notes<U: Fn(&[u8]) -> Result<Vec<u8>, String>>(
    rows: Seq<Note>,
    unwrap: U,
    k: int,
    j: int,
)
    requires
        readable(rows, unwrap, k),
        0 <= j < k,
    ensures
        rows[j].coin_blind is Some,
        rows[j].value_blind is Some,
        rows[j].token_blind is Some,
        rows[j].user_data is Some,
        exists|plain: Seq<u8>| #[trigger]
            crate::db::secrets::unwraps_to(unwrap, rows[j].owner_secret->0, plain),
{
    law_empty_columns(rows[j]);
}

// ---- Addresses ----

/// A new address stands at the end, under the next id, with the key and the wrapped secret it was
/// given and without the default mark; nothing else changes.
pub proof fn law_address_comes_in(state: WalletState, public_key: Seq<char>, secret_key: Seq<u8>)
    requires
        state.last_address_id < i64::MAX,
    ensures
        ({
            let after = state.address_added(public_key, secret_key);
            &&& after == (WalletState {
                addresses: after.addresses,
                last_address_id: after.last_address_id,
                ..state
            })
            &&& after.addresses.len() == state.addresses.len() + 1
            &&& after.addresses.drop_last() == state.addresses
            &&& after.last_address_id == state.last_address_id + 1
            &&& after.addresses.last().id == state.last_address_id + 1
            &&& after.addresses.last().public_key == public_key
            &&& after.addresses.last().secret_key == secret_key
            &&& !after.addresses.last().is_default
            &&& after.has_address(public_key)
        }),
{
    let after = state.address_added(public_key, secret_key);
    assert(after.addresses.drop_last() =~= state.addresses);
    let n = state.addresses.len() as int;
    assert(after.addresses[n].public_key == public_key);
}

/// There is an address with a key exactly where one of the addresses has that key.
pub proof fn law_known_addresses(state: WalletState, public_key: Seq<char>)
    ensures
        state.has_address(public_key) <==> exists|a: Address| #[trigger]
            state.addresses.contains(a) && a.public_key == public_key,
{
    if state.has_address(public_key) {
        let i = choose|i: int|
            0 <= i < state.addresses.len() && (#[trigger] state.addresses[i]).public_key
                == public_key;
        assert(state.addresses.contains(state.addresses[i]));
    }
}

/// Choosing a default changes nothing of any address but the mark, and nothing else.
pub proof fn law_choosing_a_default(state: WalletState, public_key: Seq<char>, i: int)
    ensures
        ({
            let after = state.default_set(public_key);
            &&& after == (WalletState { addresses: after.addresses, ..state })
            &&& after.addresses.len() == state.addresses.len()
            &&& 0 <= i < state.addresses.len() ==> {
                let (was, now) = (state.addresses[i], after.addresses[i]);
                &&& now.id == was.id
                &&& now.public_key == was.public_key
                &&& now.secret_key == was.secret_key
                &&& now.is_default <==> was.public_key == public_key
            }
        }),
{
}

/// The default address is the first that bears the mark, and there is none where none does.
pub proof fn law_default_is_the_first_marked(addresses: Seq<Address>, i: int)
    ensures
        0 <= i < addresses.len() && addresses[i].is_default && (forall|j: int|
            0 <= j < i ==> !(#[trigger] addresses[j]).is_default) ==> first_default(addresses)
            == Some(addresses[i].public_key),
        first_default(addresses) is None <==> forall|j: int|
            0 <= j < addresses.len() ==> !(#[trigger] addresses[j]).is_default,
    decreases addresses.len(),
{
    if addresses.len() > 0 {
        let t = addresses.skip(1);
        law_default_is_the_first_marked(t, i - 1);
        if !addresses[0].is_default {
            if 0 < i < addresses.len() && (forall|j: int|
                0 <= j < i ==> !(#[trigger] addresses[j]).is_default) {
                assert forall|j: int| 0 <= j < i - 1 implies !(#[trigger] t[j]).is_default by {
                    assert(!addresses[j + 1].is_default);
                }
            }
            if forall|j: int| 0 <= j < t.len() ==> !(#[trigger] t[j]).is_default {
                assert forall|j: int| 0 <= j < addresses.len() implies !(
                #[trigger] addresses[j]).is_default by {
                    if j > 0 {
                        assert(!t[j - 1].is_default);
                    }
                }
            }
            if forall|j: int| 0 <= j < addresses.len() ==> !(#[trigger] addresses[j]).is_default {
                assert forall|j: int| 0 <= j < t.len() implies !(#[trigger] t[j]).is_default by {
                    assert(!addresses[j + 1].is_default);
                }
            }
        }
    }
}

/// The default address of a database is that of its addresses.
pub proof fn law_default_address_of(state: WalletState)
    ensures
        state.default_address() == first_default(state.addresses),
{
}

// ---- History ----

/// An entry with a new hash is added to the history as it was given, and nothing else changes.
pub proof fn law_new_entry_is_kept(state: WalletState, entry: TxRecord)
    requires
        forall|i: int|
            0 <= i < state.transactions.len() ==> (#[trigger] state.transactions[i]).hash
                != entry.hash,
    ensures
        state.recorded(entry) == (WalletState {
            transactions: state.transactions + seq![entry],
            ..state
        }),
        !state.has_transaction(entry.hash),
{
    assert(state.transactions.push(entry) =~= state.transactions + seq![entry]);
}

/// An entry with a known hash moves the entry that it names from the mempool to its block, where
/// that entry waits there, and changes nothing else.
pub proof fn law_known_entry_moves_once(state: WalletState, entry: TxRecord, i: int, k: int)
    requires
        0 <= k < state.transactions.len(),
        state.transactions[k].hash == entry.hash,
    ensures
        ({
            let after = state.recorded(entry);
            &&& state.has_transaction(entry.hash)
            &&& after == (WalletState { transactions: after.transactions, ..state })
            &&& after.transactions.len() == state.transactions.len()
            &&& 0 <= i < state.transactions.len() ==> after.transactions[i] == if (
            state.transactions[i].hash == entry.hash && state.transactions[i].block_height == 0) {
                TxRecord { block_height: entry.block_height, ..state.transactions[i] }
            } else {
                state.transactions[i]
            }
        }),
{
}

/// Confirming a transaction moves the mempool entry with its hash to the height, and changes
/// nothing else.
pub proof fn law_confirming(state: WalletState, hash: Seq<char>, height: u32, i: int)
    ensures
        ({
            let after = state.confirmed(hash, height);
            &&& after == (WalletState { transactions: after.transactions, ..state })
            &&& after.transactions == promoted(state.transactions, hash, height)
            &&& after.transactions.len() == state.transactions.len()
            &&& 0 <= i < state.transactions.len() ==> {
                let (was, now) = (state.transactions[i], after.transactions[i]);
                &&& pending(was, hash) <==> was.hash == hash && was.block_height == 0
                &&& was.hash == hash && was.block_height == 0 ==> now.block_height == height
                &&& was.hash != hash || was.block_height != 0 ==> now.block_height
                    == was.block_height
                &&& now.hash == was.hash
                &&& now.direction == was.direction
                &&& now.value_raw == was.value_raw
                &&& now.token_id == was.token_id
                &&& now.counterparty == was.counterparty
                &&& now.memo == was.memo
                &&& now.timestamp == was.timestamp
            }
        }),
{
}

// ---- Metadata and rows ----

/// A key has the value that the metadata holds under it, and none where they hold none.
pub proof fn law_metadata_value(state: WalletState, key: Seq<char>)
    ensures
        state.meta.dom().contains(key) ==> state.meta_value(key) == Some(state.meta[key]),
        !state.meta.dom().contains(key) ==> state.meta_value(key) is None,
        state.tree_complete() <==> state.meta.dom().contains("merkle_from_genesis"@)
            && state.meta["merkle_from_genesis"@] == seq![0x31u8],
        META_MERKLE_FROM_GENESIS@ == "merkle_from_genesis"@,
        META_TREE_STATE@ == "tree_state"@,
        complete_mark() == seq![0x31u8],
{
}

/// What optional values hold.
pub proof fn law_optional_values(v: Vec<u8>, b: &[u8], s: String, t: &str)
    ensures
        opt_bytes(Some(v)) == Some(v@),
        opt_bytes(None) is None,
        opt_slice(Some(b)) == Some(b@),
        opt_slice(None) is None,
        opt_text(Some(s)) == Some(s@),
        opt_text(None) is None,
        opt_str(Some(t)) == Some(t@),
        opt_str(None) is None,
{
}

/// A note row holds each of its fields.
pub proof fn law_note_row(row: NoteRow)
    ensures
        row@.id == row.id,
        row@.tx_hash == row.tx_hash@,
        row@.output_index == row.output_index,
        row@.value_raw == row.value_raw,
        row@.token_id == row.token_id@,
        row@.serial_number == row.serial_number@,
        row@.block_height == row.block_height,
        row@.spent == row.spent,
        row@.spend_hook == row.spend_hook,
        row@.leaf_position == row.leaf_position,
        row.nullifier is None <==> row@.nullifier is None,
        row.nullifier is Some ==> row@.nullifier == Some(row.nullifier->0@),
        row.memo is None <==> row@.memo is None,
        row.memo is Some ==> row@.memo == Some(row.memo->0@),
        row.coin_blind is None <==> row@.coin_blind is None,
        row.coin_blind is Some ==> row@.coin_blind == Some(row.coin_blind->0@),
        row.value_blind is None <==> row@.value_blind is None,
        row.value_blind is Some ==> row@.value_blind == Some(row.value_blind->0@),
        row.token_blind is None <==> row@.token_blind is None,
        row.token_blind is Some ==> row@.token_blind == Some(row.token_blind->0@),
        row.spend_hook_bytes is None <==> row@.spend_hook_bytes is None,
        row.spend_hook_bytes is Some ==> row@.spend_hook_bytes == Some(row.spend_hook_bytes->0@),
        row.user_data is None <==> row@.user_data is None,
        row.user_data is Some ==> row@.user_data == Some(row.user_data->0@),
        row.commitment is None <==> row@.commitment is None,
        row.commitment is Some ==> row@.commitment == Some(row.commitment->0@),
        row.owner_secret is None <==> row@.owner_secret is None,
        row.owner_secret is Some ==> row@.owner_secret == Some(row.owner_secret->0@),
{
}

/// An address row and a history row hold each of their fields.
pub proof fn law_address_and_history_rows(a: AddressRow, t: TransactionRow)
    ensures
        a@.id == a.id,
        a@.public_key == a.public_key@,
        a@.secret_key == a.secret_key@,
        a@.is_default == a.is_default,
        t@.hash == t.hash@,
        t@.block_height == t.block_height,
        t@.direction == t.direction@,
        t@.value_raw == t.value_raw,
        t@.token_id == t.token_id@,
        t@.timestamp == t.timestamp@,
        t.counterparty is None <==> t@.counterparty is None,
        t.counterparty is Some ==> t@.counterparty == Some(t.counterparty->0@),
        t.memo is None <==> t@.memo is None,
        t.memo is Some ==> t@.memo == Some(t.memo->0@),
{
}

/// The database over stored tables holds every row, in its order, and every counter.
pub proof fn law_tables_hold_the_state(tables: WalletTables, dark_token_id: Seq<u8>, i: int)
    ensures
        ({
            let s = tables.state(dark_token_id);
            &&& s.notes.len() == tables.notes@.len()
            &&& s.addresses.len() == tables.addresses@.len()
            &&& s.transactions.len() == tables.transactions@.len()
            &&& 0 <= i < s.notes.len() ==> s.notes[i] == tables.notes@[i]@
            &&& 0 <= i < s.addresses.len() ==> s.addresses[i] == tables.addresses@[i]@
            &&& 0 <= i < s.transactions.len() ==> s.transactions[i] == tables.transactions@[i]@
            &&& s.last_synced_height == tables.last_synced_height
            &&& s.birthday_height == tables.birthday_height
            &&& s.last_address_id == tables.last_address_id
            &&& s.last_note_id == tables.last_note_id
            &&& s.dark_token_id == dark_token_id
        }),
{
}

/// The metadata rows are read back by their keys, and no other key has a value.
pub proof fn law_tables_hold_the_metadata(
    tables: WalletTables,
    dark_token_id: Seq<u8>,
    i: int,
    key: Seq<char>,
)
    requires
        forall|a: int, b: int|
            0 <= a < b < tables.meta@.len() ==> (#[trigger] tables.meta@[a]).0@ != (
            #[trigger] tables.meta@[b]).0@,
    ensures
        0 <= i < tables.meta@.len() ==> {
            let s = tables.state(dark_token_id);
            s.meta.contains_key(tables.meta@[i].0@) && s.meta[tables.meta@[i].0@]
                == tables.meta@[i].1@
        },
        tables.state(dark_token_id).meta.contains_key(key) ==> exists|a: int|
            0 <= a < tables.meta@.len() && (#[trigger] tables.meta@[a]).0@ == key,
{
    let pairs = meta_pairs(tables.meta@);
    assert forall|a: int, b: int| 0 <= a < b < pairs.len() implies (#[trigger] pairs[a]).0 != (
    #[trigger] pairs[b]).0 by {
        assert(tables.meta@[a].0@ != tables.meta@[b].0@);
    }
    crate::pairs::lemma_pair_map(pairs);
    if 0 <= i < tables.meta@.len() {
        assert(pairs[i].0 == tables.meta@[i].0@);
    }
    if tables.state(dark_token_id).meta.contains_key(key) {
        let a = choose|a: int| 0 <= a < pairs.len() && (#[trigger] pairs[a]).0 == key;
        assert(tables.meta@[a].0@ == key);
    }
}

/// Tables are accepted exactly where ids and outputs, keys and hashes are unique, ids rise and
/// stay within the counters, and the counters are not negative.
pub proof fn law_accepted_tables(tables: WalletTables)
    ensures
        tables.ok() <==> {
            &&& forall|a: int, b: int|
                0 <= a < b < tables.meta@.len() ==> (#[trigger] tables.meta@[a]).0@ != (
                #[trigger] tables.meta@[b]).0@
            &&& forall|a: int, b: int|
                0 <= a < b < tables.notes@.len() ==> (#[trigger] tables.notes@[a]).id < (
                #[trigger] tables.notes@[b]).id && (tables.notes@[a].tx_hash@
                    != tables.notes@[b].tx_hash@ || tables.notes@[a].output_index
                    != tables.notes@[b].output_index)
            &&& forall|a: int, b: int|
                0 <= a < b < tables.addresses@.len() ==> (#[trigger] tables.addresses@[a]).id < (
                #[trigger] tables.addresses@[b]).id && tables.addresses@[a].public_key@
                    != tables.addresses@[b].public_key@
            &&& forall|a: int, b: int|
                0 <= a < b < tables.transactions@.len() ==> (#[trigger] tables.transactions@[a]).hash@
                    != (#[trigger] tables.transactions@[b]).hash@
            &&& 0 <= tables.last_note_id
            &&& 0 <= tables.last_address_id
            &&& forall|a: int|
                0 <= a < tables.notes@.len() ==> (#[trigger] tables.notes@[a]).id
                    <= tables.last_note_id
            &&& forall|a: int|
                0 <= a < tables.addresses@.len() ==> (#[trigger] tables.addresses@[a]).id
                    <= tables.last_address_id
        },
{
    let pairs = meta_pairs(tables.meta@);
    let notes = note_views(tables.notes@);
    let addresses = address_views(tables.addresses@);
    let txs = tx_views(tables.transactions@);
    if tables.ok() {
        assert forall|a: int, b: int| 0 <= a < b < tables.meta@.len() implies (
        #[trigger] tables.meta@[a]).0@ != (#[trigger] tables.meta@[b]).0@ by {
            assert(pairs[a].0 != pairs[b].0);
        }
        assert forall|a: int, b: int| 0 <= a < b < tables.notes@.len() implies (
        #[trigger] tables.notes@[a]).id < (#[trigger] tables.notes@[b]).id && (
        tables.notes@[a].tx_hash@ != tables.notes@[b].tx_hash@ || tables.notes@[a].output_index
            != tables.notes@[b].output_index) by {
            assert(notes[a].id < notes[b].id && !same_output(notes[a], notes[b]));
        }
        assert forall|a: int, b: int| 0 <= a < b < tables.addresses@.len() implies (
        #[trigger] tables.addresses@[a]).id < (#[trigger] tables.addresses@[b]).id
            && tables.addresses@[a].public_key@ != tables.addresses@[b].public_key@ by {
            assert(addresses[a].id < addresses[b].id);
            assert(addresses[a].public_key != addresses[b].public_key);
        }
        assert forall|a: int, b: int| 0 <= a < b < tables.transactions@.len() implies (
        #[trigger] tables.transactions@[a]).hash@ != (#[trigger] tables.transactions@[b]).hash@ by {
            assert(txs[a].hash != txs[b].hash);
        }
    } else {
        if forall|a: int, b: int|
            0 <= a < b < tables.meta@.len() ==> (#[trigger] tables.meta@[a]).0@ != (
            #[trigger] tables.meta@[b]).0@ {
            assert forall|a: int, b: int| 0 <= a < b < pairs.len() implies (#[trigger] pairs[a]).0
                != (#[trigger] pairs[b]).0 by {
                assert(tables.meta@[a].0@ != tables.meta@[b].0@);
            }
        }
        if forall|a: int, b: int|
            0 <= a < b < tables.notes@.len() ==> (#[trigger] tables.notes@[a]).id < (
            #[trigger] tables.notes@[b]).id && (tables.notes@[a].tx_hash@
                != tables.notes@[b].tx_hash@ || tables.notes@[a].output_index
                != tables.notes@[b].output_index) {
            assert forall|a: int, b: int| 0 <= a < b < notes.len() implies (#[trigger] notes[a]).id
                < (#[trigger] notes[b]).id && !same_output(notes[a], notes[b]) by {
                assert(tables.notes@[a].id < tables.notes@[b].id);
            }
        }
        if forall|a: int, b: int|
            0 <= a < b < tables.addresses@.len() ==> (#[trigger] tables.addresses@[a]).id < (
            #[trigger] tables.addresses@[b]).id && tables.addresses@[a].public_key@
                != tables.addresses@[b].public_key@ {
            assert forall|a: int, b: int| 0 <= a < b < addresses.len() implies (
            #[trigger] addresses[a]).id < (#[trigger] addresses[b]).id && addresses[a].public_key
                != addresses[b].public_key by {
                assert(tables.addresses@[a].id < tables.addresses@[b].id);
            }
        }
        if forall|a: int, b: int|
            0 <= a < b < tables.transactions@.len() ==> (#[trigger] tables.transactions@[a]).hash@
                != (#[trigger] tables.transactions@[b]).hash@ {
            assert forall|a: int, b: int| 0 <= a < b < txs.len() implies (#[trigger] txs[a]).hash
                != (#[trigger] txs[b]).hash by {
                assert(tables.transactions@[a].hash@ != tables.transactions@[b].hash@);
            }
        }
    }
}

/// A valid database: ids rise and stay within those handed out, no two notes are the same output,
/// no two addresses share a key, no two history entries share a hash, and the native token's id
/// has full length.
pub proof fn law_what_a_valid_database_is(state: WalletState)
    ensures
        state.wf() <==> {
            &&& forall|i: int, j: int|
                0 <= i < j < state.notes.len() ==> (#[trigger] state.notes[i]).id < (
                #[trigger] state.notes[j]).id
            &&& forall|i: int, j: int|
                0 <= i < j < state.notes.len() ==> (#[trigger] state.notes[i]).tx_hash != (
                #[trigger] state.notes[j]).tx_hash || state.notes[i].output_index
                    != state.notes[j].output_index
            &&& forall|i: int, j: int|
                0 <= i < j < state.addresses.len() ==> (#[trigger] state.addresses[i]).id < (
                #[trigger] state.addresses[j]).id
            &&& forall|i: int, j: int|
                0 <= i < j < state.addresses.len() ==> (#[trigger] state.addresses[i]).public_key != (
                #[trigger] state.addresses[j]).public_key
            &&& forall|i: int, j: int|
                0 <= i < j < state.transactions.len() ==> (#[trigger] state.transactions[i]).hash != (
                #[trigger] state.transactions[j]).hash
            &&& forall|i: int|
                0 <= i < state.notes.len() ==> (#[trigger] state.notes[i]).id <= state.last_note_id
            &&& forall|i: int|
                0 <= i < state.addresses.len() ==> (#[trigger] state.addresses[i]).id
                    <= state.last_address_id
            &&& 0 <= state.last_note_id
            &&& 0 <= state.last_address_id
            &&& state.dark_token_id.len() == 32
        },
{
    if state.wf() {
        assert forall|i: int, j: int| 0 <= i < j < state.notes.len() implies (
        #[trigger] state.notes[i]).tx_hash != (#[trigger] state.notes[j]).tx_hash
            || state.notes[i].output_index != state.notes[j].output_index by {
            assert(!same_output(state.notes[i], state.notes[j]));
        }
    }
}

/// What each selection of notes asks of a note's fields.
pub proof fn law_what_a_pick_selects(
    n: Note,
    bytes: &[u8],
    hash: &str,
    index: u32,
    token: &str,
    hex: &str,
    native: bool,
    height: u32,
)
    ensures
        (NotePick::Unspent.pred())(n) <==> !n.spent,
        (NotePick::Nullifier(bytes).pred())(n) <==> !n.spent && n.nullifier == Some(bytes@),
        (NotePick::Commitment(bytes).pred())(n) <==> !n.spent && n.commitment == Some(bytes@),
        (NotePick::Output(hash, index).pred())(n) <==> !n.spent && n.tx_hash == hash@
            && n.output_index == index,
        (NotePick::Locator(hash, index).pred())(n) <==> !n.spent && n.output_index == index
            && hash@.is_prefix_of(n.tx_hash),
        (NotePick::Committed.pred())(n) <==> !n.spent && n.commitment is Some
            && n.commitment->0.len() == 32,
        (NotePick::Spendable.pred())(n) <==> !n.spent && n.leaf_position is Some
            && n.commitment is Some && n.commitment->0.len() == 32 && n.owner_secret is Some,
        (NotePick::Token(token, hex, native).pred())(n) <==> !n.spent && if names_native(
            token@,
            hex@,
        ) {
            n.token_id == hex@ || same_ignoring_case(n.token_id, "drk"@)
        } else {
            n.token_id == token@
        },
        (NotePick::Above(height).pred())(n) <==> n.block_height > height,
        (NotePick::SpentUpto(height).pred())(n) <==> n.spent && n.block_height <= height,
        (NotePick::SpentBelow(height).pred())(n) <==> n.spent && n.block_height < height,
{
}

/// What each change sets in a note, all else staying as it was.
pub proof fn law_what_a_change_sets(n: Note, spent: bool, leaf: u32, bytes: &[u8], row: NoteRow)
    ensures
        (NoteChange::Spent(spent).func())(n) == (Note { spent, ..n }),
        (NoteChange::Leaf(leaf).func())(n) == (Note { leaf_position: Some(leaf), ..n }),
        (NoteChange::Commitment(bytes).func())(n) == (Note {
            commitment: Some(bytes@),
            leaf_position: None,
            ..n
        }),
        (NoteChange::HookBytes(bytes).func())(n) == (Note { spend_hook_bytes: Some(bytes@), ..n }),
        ({
            let after = (NoteChange::SpendFields(&row).func())(n);
            &&& after == (Note {
                value_raw: row.value_raw,
                token_id: row.token_id@,
                coin_blind: row@.coin_blind,
                value_blind: row@.value_blind,
                token_blind: row@.token_blind,
                spend_hook: row.spend_hook,
                spend_hook_bytes: row@.spend_hook_bytes,
                user_data: row@.user_data,
                commitment: row@.commitment,
                owner_secret: row@.owner_secret,
                leaf_position: None,
                ..n
            })
        }),
{
}

/// An update changes the selected rows and leaves each where it stands; a deletion leaves the
/// others in their order.
pub proof fn law_rows_that_change(
    notes: Seq<Note>,
    p: spec_fn(Note) -> bool,
    f: spec_fn(Note) -> Note,
    i: int,
)
    ensures
        updated(notes, p, f).len() == notes.len(),
        0 <= i < notes.len() && p(notes[i]) ==> updated(notes, p, f)[i] == f(notes[i]),
        0 <= i < notes.len() && !p(notes[i]) ==> updated(notes, p, f)[i] == notes[i],
        deleted(notes, p) == notes.filter(|n: Note| !p(n)),
{
    lemma_same_selection(notes, unless(p), |n: Note| !p(n));
}

} // verus!
