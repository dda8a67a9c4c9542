//! Selecting, changing, deleting and listing note rows.
use crate::bytes::copy_bytes;
use crate::db::model::{
    above, at_locator, at_output, by_height, committed, deleted, has32, lemma_filter_step,
    note_heights, of_token, set_commitment, set_hook_bytes, set_leaf, set_spend_fields, set_spent,
    spendable, spent_below, spent_upto, unless, unspent, updated, with_commitment, with_nullifier,
};
use crate::db::order::{as_indices, as_ints, sort_indices};
use crate::db::rows::{is_bytes, note_views, opt_bytes, Note, NoteRow};
use crate::text::{eq_ignore_ascii_case, starts_with, str_eq};
use vstd::prelude::*;

verus! {

/// Which notes an operation selects.
pub enum NotePick<'a> {
    /// Unspent notes.
    Unspent,
    /// Unspent notes with this nullifier.
    Nullifier(&'a [u8]),
    /// Unspent notes with this commitment.
    Commitment(&'a [u8]),
    /// Unspent notes at this output of this transaction.
    Output(&'a str, u32),
    /// Unspent notes at this output of a transaction with this hash or hash prefix.
    Locator(&'a str, u32),
    /// Unspent notes with a commitment of full length.
    Committed,
    /// Unspent notes ready to be spent.
    Spendable,
    /// Unspent notes of a token.
    Token(&'a str, &'a str, bool),
    /// Notes of blocks above a height.
    Above(u32),
    /// Spent notes of blocks up to a height.
    SpentUpto(u32),
    /// Spent notes of blocks below a height.
    SpentBelow(u32),
}

/// How an operation changes a note.
pub enum NoteChange<'a> {
    /// Sets the spent mark.
    Spent(bool),
    /// Sets the position in the tree.
    Leaf(u32),
    /// Sets the commitment and forgets the position.
    Commitment(&'a [u8]),
    /// Sets the full spend hook.
    HookBytes(&'a [u8]),
    /// Sets the fields a spend needs from this row and forgets the position.
    SpendFields(&'a NoteRow),
}

impl<'a> NotePick<'a> {
    /// What the selection means.
    pub open spec fn pred(self) -> spec_fn(Note) -> bool {
        match self {
            NotePick::Unspent => unspent(),
            NotePick::Nullifier(b) => with_nullifier(b@),
            NotePick::Commitment(b) => with_commitment(b@),
            NotePick::Output(tx, i) => at_output(tx@, i),
            NotePick::Locator(tx, i) => at_locator(tx@, i),
            NotePick::Committed => committed(),
            NotePick::Spendable => spendable(),
            NotePick::Token(token, hex, _) => of_token(token@, hex@),
            NotePick::Above(h) => above(h),
            NotePick::SpentUpto(h) => spent_upto(h),
            NotePick::SpentBelow(h) => spent_below(h),
        }
    }

    /// A token selection says truly whether its token is the native one.
    pub open spec fn ok(self) -> bool {
        match self {
            NotePick::Token(token, hex, native) => native == crate::db::model::names_native(
                token@,
                hex@,
            ),
            _ => true,
        }
    }

    /// Whether a row is selected.
    fn picks(&self, row: &NoteRow) -> (hit: bool)
        requires
            self.ok(),
        ensures
            hit == (self.pred())(row@),
    {
        match self {
            NotePick::Unspent => !row.spent,
            NotePick::Nullifier(b) => !row.spent && is_bytes(&row.nullifier, b),
            NotePick::Commitment(b) => !row.spent && is_bytes(&row.commitment, b),
            NotePick::Output(tx, i) => !row.spent && str_eq(row.tx_hash.as_str(), tx)
                && row.output_index == *i,
            NotePick::Locator(tx, i) => !row.spent && row.output_index == *i && starts_with(
                row.tx_hash.as_str(),
                tx,
            ),
            NotePick::Committed => !row.spent && is32(&row.commitment),
            NotePick::Spendable => !row.spent && row.leaf_position.is_some() && is32(
                &row.commitment,
            ) && row.owner_secret.is_some(),
            NotePick::Token(token, hex, native) => !row.spent && if *native {
                str_eq(row.token_id.as_str(), hex) || eq_ignore_ascii_case(
                    row.token_id.as_str(),
                    "drk",
                )
            } else {
                str_eq(row.token_id.as_str(), token)
            },
            NotePick::Above(h) => row.block_height > *h,
            NotePick::SpentUpto(h) => row.spent && row.block_height <= *h,
            NotePick::SpentBelow(h) => row.spent && row.block_height < *h,
        }
    }
}

/// Whether a byte string is present and `32` bytes long.
pub fn is32(bytes: &Option<Vec<u8>>) -> (ok: bool)
    ensures
        ok == has32(opt_bytes(*bytes)),
{
    match bytes {
        Some(b) => b.len() == 32,
        None => false,
    }
}

/// A copy of an optional byte string.
pub fn clone_bytes(bytes: &Option<Vec<u8>>) -> (copy: Option<Vec<u8>>)
    ensures
        opt_bytes(copy) == opt_bytes(*bytes),
{
    match bytes {
        Some(b) => Some(copy_bytes(b.as_slice())),
        None => None,
    }
}

impl<'a> NoteChange<'a> {
    /// What the change means.
    pub open spec fn func(self) -> spec_fn(Note) -> Note {
        match self {
            NoteChange::Spent(spent) => set_spent(spent),
            NoteChange::Leaf(p) => set_leaf(p),
            NoteChange::Commitment(b) => set_commitment(b@),
            NoteChange::HookBytes(b) => set_hook_bytes(b@),
            NoteChange::SpendFields(row) => set_spend_fields(row@),
        }
    }

    /// Changes a row.
    fn apply(&self, row: &mut NoteRow)
        ensures
            final(row)@ == (self.func())(old(row)@),
    {
        match self {
            NoteChange::Spent(spent) => {
                row.spent = *spent;
            },
            NoteChange::Leaf(p) => {
                row.leaf_position = Some(*p);
            },
            NoteChange::Commitment(b) => {
                row.commitment = Some(copy_bytes(b));
                row.leaf_position = None;
            },
            NoteChange::HookBytes(b) => {
                row.spend_hook_bytes = Some(copy_bytes(b));
            },
            NoteChange::SpendFields(fields) => {
                row.value_raw = fields.value_raw;
                row.token_id = fields.token_id.clone();
                row.coin_blind = clone_bytes(&fields.coin_blind);
                row.value_blind = clone_bytes(&fields.value_blind);
                row.token_blind = clone_bytes(&fields.token_blind);
                row.spend_hook = fields.spend_hook;
                row.spend_hook_bytes = clone_bytes(&fields.spend_hook_bytes);
                row.user_data = clone_bytes(&fields.user_data);
                row.commitment = clone_bytes(&fields.commitment);
                row.owner_secret = clone_bytes(&fields.owner_secret);
                row.leaf_position = None;
            },
        }
    }
}

/// Changes every selected row and counts them.
pub fn update_notes(notes: &mut Vec<NoteRow>, pick: &NotePick, change: &NoteChange) -> (count: usize)
    requires
        pick.ok(),
    ensures
        note_views(final(notes)@) == updated(note_views(old(notes)@), pick.pred(), change.func()),
        count == note_views(old(notes)@).filter(pick.pred()).len(),
{
    let ghost before = note_views(notes@);
    let ghost p = pick.pred();
    let ghost f = change.func();
    let mut i: usize = 0;
    let mut count: usize = 0;
    proof {
        reveal(Seq::filter);
        assert(before.take(0) =~= Seq::empty());
    }
    while i < notes.len()
        invariant
            pick.ok(),
            p == pick.pred(),
            f == change.func(),
            i <= notes.len(),
            notes@.len() == before.len(),
            count == before.take(i as int).filter(p).len(),
            count <= i,
            forall|j: int|
                0 <= j < i ==> (#[trigger] notes@[j])@ == if p(before[j]) {
                    f(before[j])
                } else {
                    before[j]
                },
            forall|j: int| i <= j < notes@.len() ==> (#[trigger] notes@[j])@ == before[j],
        decreases notes.len() - i,
    {
        proof {
            lemma_filter_step(before, i as int, p);
        }
        if pick.picks(&notes[i]) {
            change.apply(&mut notes[i]);
            count += 1;
        }
        i += 1;
    }
    assert(before.take(i as int) =~= before);
    assert(note_views(notes@) =~= updated(before, p, f));
    count
}

/// Deletes every selected row and counts them.
pub fn delete_notes(notes: &mut Vec<NoteRow>, pick: &NotePick) -> (count: usize)
    requires
        pick.ok(),
    ensures
        note_views(final(notes)@) == deleted(note_views(old(notes)@), pick.pred()),
        count == note_views(old(notes)@).filter(pick.pred()).len(),
{
    let ghost before = note_views(notes@);
    let ghost p = pick.pred();
    let ghost q = unless(p);
    let total: usize = notes.len();
    let mut seen: usize = 0;
    let mut i: usize = 0;
    let mut count: usize = 0;
    proof {
        reveal(Seq::filter);
        assert(before.take(0) =~= Seq::empty());
        assert(note_views(notes@) =~= before.take(0).filter(q) + before.skip(0));
    }
    while seen < total
        invariant
            pick.ok(),
            p == pick.pred(),
            q == unless(p),
            total == before.len(),
            seen <= total,
            i == before.take(seen as int).filter(q).len(),
            count == before.take(seen as int).filter(p).len(),
            count <= seen,
            note_views(notes@) == before.take(seen as int).filter(q) + before.skip(seen as int),
        decreases total - seen,
    {
        let ghost kept = before.take(seen as int).filter(q);
        proof {
            lemma_filter_step(before, seen as int, p);
            lemma_filter_step(before, seen as int, q);
            assert(note_views(notes@)[i as int] == before[seen as int]);
            assert(note_views(notes@).len() == notes@.len());
        }
        let ghost held = notes@;
        if pick.picks(&notes[i]) {
            notes.remove(i);
            count += 1;
            assert(note_views(notes@) =~= kept + before.skip(seen as int + 1)) by {
                assert forall|k: int| 0 <= k < notes@.len() implies #[trigger] note_views(
                    notes@,
                )[k] == (kept + before.skip(seen as int + 1))[k] by {
                    if k < i {
                        assert(notes@[k] == held[k]);
                        assert(note_views(held)[k] == held[k]@);
                    } else {
                        assert(notes@[k] == held[k + 1]);
                        assert(note_views(held)[k + 1] == held[k + 1]@);
                    }
                }
            }
        } else {
            i += 1;
            assert(note_views(notes@) =~= kept.push(before[seen as int]) + before.skip(
                seen as int + 1,
            ));
        }
        seen += 1;
    }
    assert(before.take(seen as int) =~= before);
    assert(note_views(notes@) =~= deleted(before, p));
    count
}

/// The positions of the selected rows, in the order of the rows.
pub fn pick_notes(notes: &Vec<NoteRow>, pick: &NotePick) -> (picked: Vec<usize>)
    requires
        pick.ok(),
    ensures
        picked@.len() == note_views(notes@).filter(pick.pred()).len(),
        forall|k: int|
            0 <= k < picked@.len() ==> (#[trigger] picked@[k]) < notes@.len()
                && notes@[picked@[k] as int]@ == note_views(notes@).filter(pick.pred())[k],
{
    let ghost views = note_views(notes@);
    let ghost p = pick.pred();
    let mut picked: Vec<usize> = Vec::new();
    let mut i: usize = 0;
    proof {
        reveal(Seq::filter);
        assert(views.take(0) =~= Seq::empty());
    }
    while i < notes.len()
        invariant
            pick.ok(),
            p == pick.pred(),
            i <= notes.len(),
            views == note_views(notes@),
            picked@.len() == views.take(i as int).filter(p).len(),
            forall|k: int|
                0 <= k < picked@.len() ==> (#[trigger] picked@[k]) < notes@.len()
                    && notes@[picked@[k] as int]@ == views.take(i as int).filter(p)[k],
        decreases notes.len() - i,
    {
        proof {
            lemma_filter_step(views, i as int, p);
        }
        if pick.picks(&notes[i]) {
            picked.push(i);
        }
        i += 1;
    }
    assert(views.take(i as int) =~= views);
    picked
}

/// The positions of the selected rows by rising height.
pub fn list_notes(notes: &Vec<NoteRow>, pick: &NotePick) -> (listed: Vec<usize>)
    requires
        pick.ok(),
    ensures
        listed@.len() == by_height(note_views(notes@).filter(pick.pred())).len(),
        forall|k: int|
            0 <= k < listed@.len() ==> (#[trigger] listed@[k]) < notes@.len()
                && notes@[listed@[k] as int]@ == by_height(
                note_views(notes@).filter(pick.pred()),
            )[k],
{
    let picked = pick_notes(notes, pick);
    let ghost rows = note_views(notes@).filter(pick.pred());
    let mut keys: Vec<i64> = Vec::new();
    let mut i: usize = 0;
    while i < picked.len()
        invariant
            i <= picked.len(),
            keys@.len() == i,
            picked@.len() == rows.len(),
            forall|k: int|
                0 <= k < picked@.len() ==> (#[trigger] picked@[k]) < notes@.len()
                    && notes@[picked@[k] as int]@ == rows[k],
            forall|k: int| 0 <= k < i ==> (#[trigger] keys@[k]) == rows[k].block_height,
        decreases picked.len() - i,
    {
        keys.push(notes[picked[i]].block_height as i64);
        i += 1;
    }
    assert(as_ints(keys@) =~= note_heights(rows));
    let order = sort_indices(&keys);
    let ghost ord = as_indices(order@);
    proof {
        crate::db::order::law_stable_order(note_heights(rows));
    }
    let mut listed: Vec<usize> = Vec::new();
    let mut n: usize = 0;
    while n < order.len()
        invariant
            n <= order.len(),
            listed@.len() == n,
            ord == as_indices(order@),
            picked@.len() == rows.len(),
            crate::db::order::is_stable_order(ord, note_heights(rows), rows.len() as int),
            forall|k: int|
                0 <= k < picked@.len() ==> (#[trigger] picked@[k]) < notes@.len()
                    && notes@[picked@[k] as int]@ == rows[k],
            forall|k: int|
                0 <= k < n ==> (#[trigger] listed@[k]) < notes@.len()
                    && notes@[listed@[k] as int]@ == rows[ord[k]],
        decreases order.len() - n,
    {
        assert(ord[n as int] == order@[n as int]);
        listed.push(picked[order[n]]);
        n += 1;
    }
    listed
}

} // verus!
