//! What holds of the wallet database as a whole.
use crate::db::meta::{META_MERKLE_FROM_GENESIS, META_TREE_STATE};
use crate::db::model::{
    above, by_height, deleted, lemma_filter_keeps, lemma_filter_member,
    note_heights, of_token, set_spent, spendable, spent_below, total, tx_above, unless, unspent, updated, with_commitment, with_nullifier, WalletState,
};
use crate::db::order::{arranged, law_ordering_permutes, law_stable_order, stable_order};
use crate::db::rows::Note;
use crate::db::secrets::{inverse, unwrap_fails, unwraps_to, wraps_to};
use vstd::prelude::*;

verus! {

/// A note that came in is known, and one known stays so when another comes in: it cannot come in
/// twice.
pub proof fn law_added_note_is_known(
    state: WalletState,
    note: Note,
    tx_hash: Seq<char>,
    output_index: u32,
)
    ensures
        state.note_added(note).knows_output(note.tx_hash, note.output_index),
        state.knows_output(tx_hash, output_index) ==> state.note_added(note).knows_output(
            tx_hash,
            output_index,
        ),
{
    let after = state.note_added(note);
    assert(after.notes[state.notes.len() as int] == note);
    if state.knows_output(tx_hash, output_index) {
        let i = choose|i: int|
            0 <= i < state.notes.len() && (#[trigger] state.notes[i]).tx_hash == tx_hash
                && state.notes[i].output_index == output_index;
        assert(after.notes[i] == state.notes[i]);
    }
}

/// With a wrapping scheme whose `unwrap` undoes its `wrap`, the owner's secret that a note came
/// in with is read back as it was given, and never refused.
pub proof fn law_owner_secret_reads_back<
    W: Fn(&[u8]) -> Vec<u8>,
    U: Fn(&[u8]) -> Result<Vec<u8>, String>,
>(note: Note, plain: Seq<u8>, wrap: W, unwrap: U, read: Seq<u8>, message: Seq<char>)
    requires
        inverse(wrap, unwrap),
        note.owner_secret matches Some(stored) && wraps_to(wrap, plain, stored),
    ensures
        unwraps_to(unwrap, note.owner_secret->0, read) ==> read == plain,
        !unwrap_fails(unwrap, note.owner_secret->0, message),
{
}

/// A new unspent note adds its value to its token's balance and to no other.
pub proof fn law_added_note_counts(state: WalletState, note: Note, token: Seq<char>)
    ensures
        state.note_added(note).balance(token) == state.balance(token) + if of_token(
            token,
            state.native_hex(),
        )(note) {
            note.value_raw as int
        } else {
            0
        },
{
    reveal(Seq::filter);
    let p = of_token(token, state.native_hex());
    let s = state.notes.push(note);
    assert(s.drop_last() =~= state.notes);
    if p(note) {
        assert(state.notes.filter(p).push(note).drop_last() =~= state.notes.filter(p));
    }
}

/// Marking notes as spent takes their value, and no more, from the balance of their token.
pub proof fn law_spending_leaves_the_rest(
    state: WalletState,
    picked: spec_fn(Note) -> bool,
    token: Seq<char>,
)
    ensures
        state.notes_updated(picked, set_spent(true)).balance(token) == state.balance(token) - total(
            state.notes_of(token).filter(picked),
        ),
{
    lemma_spending(state.notes, picked, token, state.native_hex());
}

proof fn lemma_spending(
    notes: Seq<Note>,
    picked: spec_fn(Note) -> bool,
    token: Seq<char>,
    native_hex: Seq<char>,
)
    ensures
        total(updated(notes, picked, set_spent(true)).filter(of_token(token, native_hex))) == total(
            notes.filter(of_token(token, native_hex)),
        ) - total(notes.filter(of_token(token, native_hex)).filter(picked)),
    decreases notes.len(),
{
    reveal(Seq::filter);
    let p = of_token(token, native_hex);
    if notes.len() > 0 {
        let rest = notes.drop_last();
        let n = notes.last();
        lemma_spending(rest, picked, token, native_hex);
        let out = updated(notes, picked, set_spent(true));
        assert(out.drop_last() =~= updated(rest, picked, set_spent(true)));
        let kept = updated(rest, picked, set_spent(true)).filter(p);
        let had = rest.filter(p);
        if p(n) {
            assert(had.push(n).drop_last() =~= had);
            if picked(n) {
                assert(had.filter(picked).push(n).drop_last() =~= had.filter(picked));
            } else {
                assert(kept.push(n).drop_last() =~= kept);
            }
        }
    }
}

/// Marking unspent notes as spent a second time finds nothing more and changes nothing.
pub proof fn law_spending_twice_is_once(state: WalletState, picked: spec_fn(Note) -> bool)
    requires
        forall|n: Note| #[trigger] picked(n) ==> !n.spent,
    ensures
        ({
            let after = state.notes_updated(picked, set_spent(true));
            &&& after.count_notes(picked) == 0
            &&& after.notes_updated(picked, set_spent(true)) == after
        }),
{
    let after = state.notes_updated(picked, set_spent(true));
    assert forall|i: int| 0 <= i < after.notes.len() implies !picked(#[trigger] after.notes[i]) by {
        if picked(after.notes[i]) {
            assert(!after.notes[i].spent);
        }
    }
    if after.notes.filter(picked).len() > 0 {
        lemma_filter_member(after.notes, picked, 0);
        let i = choose|i: int|
            0 <= i < after.notes.len() && after.notes[i] == after.notes.filter(picked)[0];
        assert(!picked(after.notes[i]));
    }
    assert(after.notes_updated(picked, set_spent(true)).notes =~= after.notes);
}

/// A commitment marked as spent is not offered for spending again.
pub proof fn law_no_double_spend(state: WalletState, commitment: Seq<u8>, k: int)
    requires
        0 <= k < state.notes_updated(
            with_commitment(commitment),
            set_spent(true),
        ).spendable_notes().len(),
    ensures
        state.notes_updated(
            with_commitment(commitment),
            set_spent(true),
        ).spendable_notes()[k].commitment != Some(commitment),
{
    let after = state.notes_updated(with_commitment(commitment), set_spent(true));
    law_spendable_notes_are_unspent(after, k);
    let n = after.spendable_notes()[k];
    let i = choose|i: int| 0 <= i < after.notes.len() && after.notes[i] == n;
    assert(after.notes[i] == n);
}

/// A nullifier seen on chain belongs to no unspent note afterwards.
pub proof fn law_seen_nullifier_is_spent(state: WalletState, nullifier: Seq<u8>, i: int)
    requires
        0 <= i < state.notes.len(),
    ensures
        ({
            let after = state.notes_updated(with_nullifier(nullifier), set_spent(true));
            after.notes[i].nullifier == Some(nullifier) ==> after.notes[i].spent
        }),
{
}

/// Every note offered for spending is an unspent note of the wallet, placed in the tree.
pub proof fn law_spendable_notes_are_unspent(state: WalletState, k: int)
    requires
        0 <= k < state.spendable_notes().len(),
    ensures
        ({
            let n = state.spendable_notes()[k];
            state.notes.contains(n) && spendable()(n)
        }),
{
    let f = state.notes.filter(spendable());
    crate::db::spending::lemma_by_height_member(f, k);
    let j = choose|j: int| 0 <= j < f.len() && f[j] == state.spendable_notes()[k];
    lemma_filter_member(state.notes, spendable(), j);
}

/// Listing notes by height loses and repeats none, and lower blocks come first.
pub proof fn law_listing_by_height(notes: Seq<Note>)
    ensures
        by_height(notes).len() == notes.len(),
        by_height(notes).to_multiset() == notes.to_multiset(),
        forall|i: int, j: int|
            0 <= i < j < notes.len() ==> (#[trigger] by_height(notes)[i]).block_height <= (
            #[trigger] by_height(notes)[j]).block_height,
{
    let keys = note_heights(notes);
    law_stable_order(keys);
    law_ordering_permutes(notes, keys);
    assert(by_height(notes) =~= arranged(notes, stable_order(keys)));
}

/// The balance of a token is the sum of the listed unspent notes of that token.
pub proof fn law_balance_is_what_is_listed(state: WalletState, token: Seq<char>)
    ensures
        state.balance(token) == total(
            state.unspent_notes().filter(of_token(token, state.native_hex())),
        ),
{
    let p = of_token(token, state.native_hex());
    let all = state.notes.filter(unspent());
    lemma_filter_of_filter(state.notes, unspent(), p);
    law_listing_by_height(all);
    lemma_total_filter(all, p);
    lemma_total_filter(by_height(all), p);
    lemma_weight_permutes(all, by_height(all), p);
}

/// The sum of the values of the notes that `p` selects.
spec fn weight(notes: Seq<Note>, p: spec_fn(Note) -> bool) -> int
    decreases notes.len(),
{
    if notes.len() == 0 {
        0
    } else {
        weight(notes.drop_last(), p) + worth(notes.last(), p)
    }
}

/// The value of a note if `p` selects it.
spec fn worth(n: Note, p: spec_fn(Note) -> bool) -> int {
    if p(n) {
        n.value_raw as int
    } else {
        0
    }
}

proof fn lemma_total_filter(notes: Seq<Note>, p: spec_fn(Note) -> bool)
    ensures
        total(notes.filter(p)) == weight(notes, p),
    decreases notes.len(),
{
    reveal(Seq::filter);
    if notes.len() > 0 {
        let rest = notes.drop_last();
        lemma_total_filter(rest, p);
        if p(notes.last()) {
            assert(rest.filter(p).push(notes.last()).drop_last() =~= rest.filter(p));
        }
    }
}

proof fn lemma_weight_remove(notes: Seq<Note>, p: spec_fn(Note) -> bool, i: int)
    requires
        0 <= i < notes.len(),
    ensures
        weight(notes, p) == weight(notes.remove(i), p) + worth(notes[i], p),
    decreases notes.len(),
{
    let rest = notes.drop_last();
    if i == notes.len() - 1 {
        assert(notes.remove(i) =~= rest);
    } else {
        lemma_weight_remove(rest, p, i);
        assert(notes.remove(i).drop_last() =~= rest.remove(i));
        assert(notes.remove(i).last() == notes.last());
        assert(rest[i] == notes[i]);
    }
}

proof fn lemma_weight_permutes(a: Seq<Note>, b: Seq<Note>, p: spec_fn(Note) -> bool)
    requires
        a.to_multiset() == b.to_multiset(),
    ensures
        weight(a, p) == weight(b, p),
    decreases a.len(),
{
    broadcast use vstd::seq_lib::group_to_multiset_ensures;

    a.to_multiset_ensures();
    b.to_multiset_ensures();
    if a.len() > 0 {
        let x = a.last();
        let last = a.len() - 1;
        assert(a[last] == x);
        assert(a.contains(x));
        assert(b.to_multiset().count(x) > 0);
        assert(b.contains(x));
        let i = choose|i: int| 0 <= i < b.len() && b[i] == x;
        assert(a.remove(last) =~= a.drop_last());
        assert(a.drop_last().to_multiset() =~= b.remove(i).to_multiset());
        lemma_weight_permutes(a.drop_last(), b.remove(i), p);
        lemma_weight_remove(b, p, i);
    }
}

proof fn lemma_filter_of_filter(
    notes: Seq<Note>,
    wide: spec_fn(Note) -> bool,
    narrow: spec_fn(Note) -> bool,
)
    requires
        forall|n: Note| #[trigger] narrow(n) ==> wide(n),
    ensures
        notes.filter(wide).filter(narrow) == notes.filter(narrow),
    decreases notes.len(),
{
    reveal(Seq::filter);
    if notes.len() > 0 {
        let rest = notes.drop_last();
        lemma_filter_of_filter(rest, wide, narrow);
        if wide(notes.last()) {
            assert(rest.filter(wide).push(notes.last()).drop_last() =~= rest.filter(wide));
        }
    }
}

/// Pruning takes nothing that counts: what is unspent, what can be spent and every balance stay
/// as they were.
pub proof fn law_pruning_keeps_the_unspent(state: WalletState, height: u32, token: Seq<char>)
    ensures
        ({
            let after = state.notes_deleted(spent_below(height));
            &&& after.unspent_notes() == state.unspent_notes()
            &&& after.spendable_notes() == state.spendable_notes()
            &&& after.balance(token) == state.balance(token)
        }),
{
    let keep = unless(spent_below(height));
    let p = of_token(token, state.native_hex());
    lemma_filter_of_filter(state.notes, keep, unspent());
    lemma_filter_of_filter(state.notes, keep, spendable());
    lemma_filter_of_filter(state.notes, keep, p);
}

/// Pruning takes every spent note below the height and none from it on.
pub proof fn law_pruning_takes_the_spent(state: WalletState, height: u32)
    ensures
        ({
            let after = state.notes_deleted(spent_below(height));
            &&& forall|i: int|
                0 <= i < after.notes.len() ==> !(#[trigger] after.notes[i]).spent
                    || after.notes[i].block_height >= height
            &&& forall|i: int|
                0 <= i < state.notes.len() && (!(#[trigger] state.notes[i]).spent
                    || state.notes[i].block_height >= height) ==> after.notes.contains(
                    state.notes[i],
                )
        }),
{
    let keep = unless(spent_below(height));
    let after = state.notes_deleted(spent_below(height));
    assert forall|i: int| 0 <= i < after.notes.len() implies !(#[trigger] after.notes[i]).spent
        || after.notes[i].block_height >= height by {
        lemma_filter_member(state.notes, keep, i);
    }
    assert forall|i: int|
        0 <= i < state.notes.len() && (!(#[trigger] state.notes[i]).spent
            || state.notes[i].block_height >= height) implies after.notes.contains(
        state.notes[i],
    ) by {
        lemma_filter_keeps(state.notes, keep, i);
    }
}

/// Rewinding leaves no note and no history entry above the height and no note spent, and keeps
/// every note and every history entry up to it.
pub proof fn law_rewinding(state: WalletState, height: u32)
    ensures
        ({
            let after = state.rewound(height);
            &&& after.last_synced_height == height
            &&& forall|i: int|
                0 <= i < after.notes.len() ==> (#[trigger] after.notes[i]).block_height <= height
                    && !after.notes[i].spent
            &&& forall|i: int|
                0 <= i < after.transactions.len() ==> (
                #[trigger] after.transactions[i]).block_height <= height
            &&& forall|i: int|
                0 <= i < state.notes.len() && (#[trigger] state.notes[i]).block_height <= height
                    ==> after.notes.contains((Note { spent: false, ..state.notes[i] }))
            &&& forall|i: int|
                0 <= i < state.transactions.len() && (
                #[trigger] state.transactions[i]).block_height <= height
                    ==> after.transactions.contains(state.transactions[i])
            &&& after.addresses == state.addresses
            &&& after.meta == state.meta
            &&& after.birthday_height == state.birthday_height
        }),
{
    let after = state.rewound(height);
    let keep = unless(above(height));
    let kept = deleted(state.notes, above(height));
    assert forall|i: int| 0 <= i < after.notes.len() implies (
    #[trigger] after.notes[i]).block_height <= height && !after.notes[i].spent by {
        lemma_filter_member(state.notes, keep, i);
    }
    assert forall|i: int| 0 <= i < after.transactions.len() implies (
    #[trigger] after.transactions[i]).block_height <= height by {
        lemma_filter_member(state.transactions, unless(tx_above(height)), i);
    }
    assert forall|i: int|
        0 <= i < state.notes.len() && (#[trigger] state.notes[i]).block_height
            <= height implies after.notes.contains((Note { spent: false, ..state.notes[i] })) by {
        lemma_filter_keeps(state.notes, keep, i);
        let k = choose|k: int| 0 <= k < kept.len() && kept[k] == state.notes[i];
        assert(after.notes[k] == (Note { spent: false, ..state.notes[i] }));
    }
    assert forall|i: int|
        0 <= i < state.transactions.len() && (#[trigger] state.transactions[i]).block_height
            <= height implies after.transactions.contains(state.transactions[i]) by {
        lemma_filter_keeps(state.transactions, unless(tx_above(height)), i);
    }
}

/// A rescan starts from a wallet without notes, history, balance and commitment tree, with all
/// its addresses and all other metadata.
pub proof fn law_rescanning(state: WalletState, height: u32, token: Seq<char>, key: Seq<char>)
    ensures
        ({
            let after = state.rescanned(height);
            &&& after.last_synced_height == height
            &&& after.notes.len() == 0
            &&& after.transactions.len() == 0
            &&& after.balance(token) == 0
            &&& after.unspent_notes().len() == 0
            &&& after.spendable_notes().len() == 0
            &&& !after.meta.contains_key(META_TREE_STATE@)
            &&& !after.meta.contains_key(META_MERKLE_FROM_GENESIS@)
            &&& key != META_TREE_STATE@ && key != META_MERKLE_FROM_GENESIS@ ==> {
                &&& after.meta.contains_key(key) == state.meta.contains_key(key)
                &&& after.meta.contains_key(key) ==> after.meta[key] == state.meta[key]
            }
            &&& after.addresses == state.addresses
            &&& after.birthday_height == state.birthday_height
        }),
{
    reveal(Seq::filter);
}

} // verus!
