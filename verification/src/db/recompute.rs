//! Deriving the commitments and nullifiers of owned notes anew.
//!
//! The coin hash and the nullifier hash are functions that the caller supplies; which notes they
//! are asked about, with which inputs, and what becomes of their answers is settled here.
use crate::bytes::{copy_bytes, exactly32, take32};
use crate::db::model::{
    has32, lemma_filter_keeps, recommitted, same_output, set_spent, updated, with_nullifier,
    WalletState,
};
use crate::db::rows::{is_bytes, note_views, Note, NoteRow};
use crate::db::secrets::{can_unwrap, unwrap_fails, unwrap_secret, unwraps_to};
use crate::db::spending::{full_hook, hook_of};
use crate::db::{meta_keys_ok, DbError, WalletDb};
use crate::field::{base_modulus, decodes_as_base, is_base, le_value};
use crate::hexcodec::{hex_bytes, hex_decode, is_hex};
use vstd::prelude::*;

verus! {

/// What a coin commits to, as stored with a note and its owner's secret key.
pub struct CoinInputs {
    pub secret: [u8; 32],
    pub value: u64,
    pub token_id: [u8; 32],
    pub spend_hook: [u8; 32],
    pub user_data: [u8; 32],
    pub coin_blind: [u8; 32],
}

/// What [`CoinInputs`] holds.
#[verifier::ext_equal]
pub struct CoinParts {
    pub secret: Seq<u8>,
    pub value: u64,
    pub token_id: Seq<u8>,
    pub spend_hook: Seq<u8>,
    pub user_data: Seq<u8>,
    pub coin_blind: Seq<u8>,
}

impl View for CoinInputs {
    type V = CoinParts;

    open spec fn view(&self) -> CoinParts {
        CoinParts {
            secret: self.secret@,
            value: self.value,
            token_id: self.token_id@,
            spend_hook: self.spend_hook@,
            user_data: self.user_data@,
            coin_blind: self.coin_blind@,
        }
    }
}

/// The user data of a note, zeros where it has none.
pub open spec fn user_data_of(n: Note) -> Seq<u8> {
    match n.user_data {
        Some(u) => u,
        None => Seq::new(32, |i: int| 0u8),
    }
}

/// What the coin of a note commits to. A note whose fields are not of the form that a coin's
/// have is left out.
pub open spec fn coin_parts(n: Note, owner: Seq<u8>) -> Option<CoinParts> {
    if owner.len() >= 32 && n.coin_blind is Some && is_base(n.coin_blind->0) && is_hex(n.token_id)
        && hex_bytes(n.token_id).len() == 32 && is_base(user_data_of(n)) {
        Some(
            CoinParts {
                secret: owner.take(32),
                value: n.value_raw as u64,
                token_id: hex_bytes(n.token_id),
                spend_hook: hook_of(n),
                user_data: user_data_of(n),
                coin_blind: n.coin_blind->0,
            },
        )
    } else {
        None
    }
}

/// `derive` takes any inputs.
pub open spec fn can_derive<D: Fn(&CoinInputs) -> Option<[u8; 32]>>(derive: D) -> bool {
    forall|c: &CoinInputs| call_requires(derive, (c,))
}

/// `derive` can give this coin, or none, for these inputs.
pub open spec fn derives<D: Fn(&CoinInputs) -> Option<[u8; 32]>>(
    derive: D,
    parts: CoinParts,
    coin: Option<Seq<u8>>,
) -> bool {
    exists|c: &CoinInputs, out: Option<[u8; 32]>|
        c@ == parts && coin == opt_array(out) && #[trigger] call_ensures(derive, (c,), out)
}

/// What an optional array holds.
pub open spec fn opt_array(o: Option<[u8; 32]>) -> Option<Seq<u8>> {
    match o {
        Some(a) => Some(a@),
        None => None,
    }
}

/// The notes whose commitment can be derived anew.
pub open spec fn derivable(n: Note) -> bool {
    !n.spent && n.owner_secret is Some && n.coin_blind is Some
}

/// What became of a note.
pub enum Recomputed {
    /// It was left out.
    Skipped,
    /// This was derived for it.
    Derived(Seq<u8>),
}

/// Deriving the commitment of a note anew can come out like this.
pub open spec fn commitment_comes_to<
    U: Fn(&[u8]) -> Result<Vec<u8>, String>,
    D: Fn(&CoinInputs) -> Option<[u8; 32]>,
>(n: Note, unwrap: U, derive: D, outcome: Recomputed) -> bool {
    if !derivable(n) {
        outcome is Skipped
    } else {
        ||| outcome is Skipped && exists|m: Seq<char>| #[trigger]
            unwrap_fails(unwrap, n.owner_secret->0, m)
        ||| exists|owner: Seq<u8>| #[trigger]
            unwraps_to(unwrap, n.owner_secret->0, owner) && coin_comes_to(n, owner, derive, outcome)
    }
}

/// Deriving the commitment of a note with this owner can come out like this.
pub open spec fn coin_comes_to<D: Fn(&CoinInputs) -> Option<[u8; 32]>>(
    n: Note,
    owner: Seq<u8>,
    derive: D,
    outcome: Recomputed,
) -> bool {
    match coin_parts(n, owner) {
        None => outcome is Skipped,
        Some(parts) => match outcome {
            Recomputed::Skipped => derives(derive, parts, None),
            Recomputed::Derived(coin) => derives(derive, parts, Some(coin)),
        },
    }
}

/// The outcome gives the note another commitment than it has.
pub open spec fn changes_commitment(n: Note, outcome: Recomputed) -> bool {
    outcome matches Recomputed::Derived(coin) && n.commitment != Some(coin)
}

/// A note after its commitment was derived anew.
pub open spec fn with_outcome(n: Note, outcome: Recomputed) -> Note {
    if changes_commitment(n, outcome) {
        recommitted(n, outcome->Derived_0)
    } else {
        n
    }
}

/// How many outcomes of the first `k` derived something.
pub open spec fn derived_upto(outcomes: Seq<Recomputed>, k: int) -> int
    decreases k,
{
    if k <= 0 {
        0
    } else {
        derived_upto(outcomes, k - 1) + if outcomes[k - 1] is Derived {
            1int
        } else {
            0
        }
    }
}

/// How many outcomes of the first `k` give their note another commitment.
pub open spec fn changed_upto(notes: Seq<Note>, outcomes: Seq<Recomputed>, k: int) -> int
    decreases k,
{
    if k <= 0 {
        0
    } else {
        changed_upto(notes, outcomes, k - 1) + if changes_commitment(notes[k - 1], outcomes[k - 1]) {
            1int
        } else {
            0
        }
    }
}

/// With these outcomes, note by note, deriving the commitments of the notes `before` anew checks
/// and changes these numbers of notes and leaves the notes `after`.
pub open spec fn recommits<
    U: Fn(&[u8]) -> Result<Vec<u8>, String>,
    D: Fn(&CoinInputs) -> Option<[u8; 32]>,
>(
    before: Seq<Note>,
    unwrap: U,
    derive: D,
    outcomes: Seq<Recomputed>,
    counts: (u32, u32),
    after: Seq<Note>,
) -> bool {
    &&& outcomes.len() == before.len()
    &&& after.len() == before.len()
    &&& forall|i: int|
        0 <= i < outcomes.len() ==> commitment_comes_to(
            before[i],
            unwrap,
            derive,
            #[trigger] outcomes[i],
        ) && after[i] == with_outcome(before[i], outcomes[i])
    &&& counts.0 == derived_upto(outcomes, outcomes.len() as int)
    &&& counts.1 == changed_upto(before, outcomes, outcomes.len() as int)
}

/// Deriving the commitments of the notes `before` anew can check and change these numbers of
/// notes and leave the notes `after`.
pub open spec fn commitments_come_to<
    U: Fn(&[u8]) -> Result<Vec<u8>, String>,
    D: Fn(&CoinInputs) -> Option<[u8; 32]>,
>(before: Seq<Note>, unwrap: U, derive: D, counts: (u32, u32), after: Seq<Note>) -> bool {
    exists|outcomes: Seq<Recomputed>| recommits(before, unwrap, derive, outcomes, counts, after)
}

/// The coin inputs of a row with this owner.
pub fn coin_inputs(row: &NoteRow, owner: &[u8]) -> (inputs: Option<CoinInputs>)
    ensures
        match inputs {
            Some(c) => coin_parts(row@, owner@) == Some(c@),
            None => coin_parts(row@, owner@) is None,
        },
{
    if owner.len() < 32 {
        return None;
    }
    let coin_blind = match &row.coin_blind {
        Some(b) => match exactly32(b.as_slice()) {
            Some(a) => a,
            None => {
                return None;
            },
        },
        None => {
            return None;
        },
    };
    let token_id = match hex_decode(row.token_id.as_str()) {
        Ok(t) => match exactly32(t.as_slice()) {
            Some(a) => a,
            None => {
                return None;
            },
        },
        Err(_) => {
            return None;
        },
    };
    if !decodes_as_base(&coin_blind) {
        return None;
    }
    let zeros: [u8; 32] = [0u8;32];
    assert(zeros@ =~= Seq::new(32, |i: int| 0u8));
    let user_data = match &row.user_data {
        Some(u) => match exactly32(u.as_slice()) {
            Some(a) => a,
            None => {
                return None;
            },
        },
        None => zeros,
    };
    if !decodes_as_base(&user_data) {
        return None;
    }
    let hook = full_hook(row.spend_hook, &row.spend_hook_bytes);
    let secret = take32(owner, 0);
    let spend_hook = take32(hook.as_slice(), 0);
    assert(secret@ =~= owner@.take(32));
    assert(spend_hook@ =~= hook@);
    Some(
        CoinInputs {
            secret,
            value: #[verifier::truncate] (row.value_raw as u64),
            token_id,
            spend_hook,
            user_data,
            coin_blind,
        },
    )
}

/// The commitment of a row, derived anew.
fn derive_commitment<
    U: Fn(&[u8]) -> Result<Vec<u8>, String>,
    D: Fn(&CoinInputs) -> Option<[u8; 32]>,
>(row: &NoteRow, unwrap: &U, derive: &D) -> (coin: Option<[u8; 32]>)
    requires
        can_unwrap(*unwrap),
        can_derive(*derive),
    ensures
        commitment_comes_to(
            row@,
            *unwrap,
            *derive,
            match coin {
                Some(c) => Recomputed::Derived(c@),
                None => Recomputed::Skipped,
            },
        ),
{
    if row.spent || row.coin_blind.is_none() {
        return None;
    }
    match &row.owner_secret {
        None => None,
        Some(stored) => match unwrap_secret(unwrap, stored.as_slice()) {
            Err(m) => {
                assert(unwrap_fails(*unwrap, row@.owner_secret->0, m@));
                None
            },
            Ok(owner) => {
                assert(unwraps_to(*unwrap, row@.owner_secret->0, owner@));
                match coin_inputs(row, owner.as_slice()) {
                    None => {
                        assert(coin_comes_to(row@, owner@, *derive, Recomputed::Skipped));
                        None
                    },
                    Some(inputs) => {
                        let coin = derive(&inputs);
                        proof {
                            let outcome = match coin {
                                Some(c) => Recomputed::Derived(c@),
                                None => Recomputed::Skipped,
                            };
                            assert(derives(*derive, inputs@, opt_array(coin)));
                            assert(coin_comes_to(row@, owner@, *derive, outcome));
                        }
                        coin
                    },
                }
            },
        },
    }
}

/// The unspent notes with a full commitment and an owner.
pub open spec fn nullifiable(n: Note) -> bool {
    !n.spent && has32(n.commitment) && n.owner_secret is Some
}

/// `nullifier_of` takes any secret and coin.
pub open spec fn can_nullify<N: Fn(&[u8; 32], &[u8; 32]) -> Option<[u8; 32]>>(
    nullifier_of: N,
) -> bool {
    forall|secret: &[u8; 32], coin: &[u8; 32]| call_requires(nullifier_of, (secret, coin))
}

/// `nullifier_of` can give this nullifier, or none, for this secret and coin.
pub open spec fn nullifies<N: Fn(&[u8; 32], &[u8; 32]) -> Option<[u8; 32]>>(
    nullifier_of: N,
    secret: Seq<u8>,
    coin: Seq<u8>,
    nullifier: Option<Seq<u8>>,
) -> bool {
    exists|s: &[u8; 32], c: &[u8; 32], out: Option<[u8; 32]>|
        s@ == secret && c@ == coin && nullifier == opt_array(out) && #[trigger] call_ensures(
            nullifier_of,
            (s, c),
            out,
        )
}

/// Deriving the nullifier of a note anew can come out like this.
pub open spec fn nullifier_comes_to<
    U: Fn(&[u8]) -> Result<Vec<u8>, String>,
    N: Fn(&[u8; 32], &[u8; 32]) -> Option<[u8; 32]>,
>(n: Note, unwrap: U, nullifier_of: N, outcome: Recomputed) -> bool {
    if !nullifiable(n) {
        outcome is Skipped
    } else {
        exists|owner: Seq<u8>| #[trigger]
            unwraps_to(unwrap, n.owner_secret->0, owner) && owner_nullifier_comes_to(
                n,
                owner,
                nullifier_of,
                outcome,
            )
    }
}

/// Deriving the nullifier of a note with this owner can come out like this.
pub open spec fn owner_nullifier_comes_to<N: Fn(&[u8; 32], &[u8; 32]) -> Option<[u8; 32]>>(
    n: Note,
    owner: Seq<u8>,
    nullifier_of: N,
    outcome: Recomputed,
) -> bool {
    if owner.len() < 32 {
        outcome is Skipped
    } else {
        match outcome {
            Recomputed::Skipped => nullifies(
                nullifier_of,
                owner.take(32),
                n.commitment->0,
                None,
            ),
            Recomputed::Derived(nf) => nullifies(
                nullifier_of,
                owner.take(32),
                n.commitment->0,
                Some(nf),
            ),
        }
    }
}

/// A note after its nullifier was derived anew.
pub open spec fn with_nullifier_outcome(n: Note, outcome: Recomputed) -> Note {
    match outcome {
        Recomputed::Skipped => n,
        Recomputed::Derived(nf) => Note { nullifier: Some(nf), ..n },
    }
}

/// With these outcomes, note by note, deriving the nullifiers of the notes `before` anew gives
/// this count, or the error of the first note whose owner's key does not unwrap, and leaves the
/// notes `after`. Notes behind the last outcome are left as they are.
pub open spec fn renullifies<
    U: Fn(&[u8]) -> Result<Vec<u8>, String>,
    N: Fn(&[u8; 32], &[u8; 32]) -> Option<[u8; 32]>,
>(
    before: Seq<Note>,
    unwrap: U,
    nullifier_of: N,
    outcomes: Seq<Recomputed>,
    count: Result<u32, DbError>,
    after: Seq<Note>,
) -> bool {
    &&& outcomes.len() <= before.len()
    &&& after.len() == before.len()
    &&& forall|i: int|
        0 <= i < outcomes.len() ==> nullifier_comes_to(
            before[i],
            unwrap,
            nullifier_of,
            #[trigger] outcomes[i],
        ) && after[i] == with_nullifier_outcome(before[i], outcomes[i])
    &&& forall|i: int|
        outcomes.len() <= i < before.len() ==> #[trigger] after[i] == before[i]
    &&& match count {
        Ok(c) => outcomes.len() == before.len() && c == derived_upto(
            outcomes,
            outcomes.len() as int,
        ),
        Err(DbError::Unwrap(m)) => outcomes.len() < before.len() && nullifiable(
            before[outcomes.len() as int],
        ) && unwrap_fails(unwrap, before[outcomes.len() as int].owner_secret->0, m@),
        Err(_) => false,
    }
}

/// Deriving the nullifiers of the notes `before` anew can give this count or error, and leave
/// the notes `after`.
pub open spec fn nullifiers_come_to<
    U: Fn(&[u8]) -> Result<Vec<u8>, String>,
    N: Fn(&[u8; 32], &[u8; 32]) -> Option<[u8; 32]>,
>(
    before: Seq<Note>,
    unwrap: U,
    nullifier_of: N,
    count: Result<u32, DbError>,
    after: Seq<Note>,
) -> bool {
    exists|outcomes: Seq<Recomputed>|
        renullifies(before, unwrap, nullifier_of, outcomes, count, after)
}

/// The nullifier of a row, derived anew.
fn derive_nullifier<
    U: Fn(&[u8]) -> Result<Vec<u8>, String>,
    N: Fn(&[u8; 32], &[u8; 32]) -> Option<[u8; 32]>,
>(row: &NoteRow, unwrap: &U, nullifier_of: &N) -> (nullifier: Result<Option<[u8; 32]>, String>)
    requires
        can_unwrap(*unwrap),
        can_nullify(*nullifier_of),
    ensures
        match nullifier {
            Err(m) => nullifiable(row@) && unwrap_fails(*unwrap, row@.owner_secret->0, m@),
            Ok(Some(nf)) => nullifier_comes_to(
                row@,
                *unwrap,
                *nullifier_of,
                Recomputed::Derived(nf@),
            ),
            Ok(None) => nullifier_comes_to(row@, *unwrap, *nullifier_of, Recomputed::Skipped),
        },
{
    if row.spent {
        return Ok(None);
    }
    let coin = match &row.commitment {
        None => {
            return Ok(None);
        },
        Some(c) => match exactly32(c.as_slice()) {
            None => {
                return Ok(None);
            },
            Some(a) => a,
        },
    };
    match &row.owner_secret {
        None => Ok(None),
        Some(stored) => match unwrap_secret(unwrap, stored.as_slice()) {
            Err(m) => Err(m),
            Ok(owner) => {
                assert(unwraps_to(*unwrap, row@.owner_secret->0, owner@));
                if owner.len() < 32 {
                    assert(owner_nullifier_comes_to(
                        row@,
                        owner@,
                        *nullifier_of,
                        Recomputed::Skipped,
                    ));
                    return Ok(None);
                }
                let secret = take32(owner.as_slice(), 0);
                assert(secret@ =~= owner@.take(32));
                let nf = nullifier_of(&secret, &coin);
                proof {
                    let outcome = match nf {
                        Some(x) => Recomputed::Derived(x@),
                        None => Recomputed::Skipped,
                    };
                    assert(nullifies(*nullifier_of, secret@, coin@, opt_array(nf)));
                    assert(owner_nullifier_comes_to(row@, owner@, *nullifier_of, outcome));
                }
                Ok(nf)
            },
        },
    }
}

/// Notes with the ids and outputs that they had keep the invariant.
proof fn lemma_same_outputs_wf(before: WalletState, notes: Seq<Note>)
    requires
        before.wf(),
        notes.len() == before.notes.len(),
        forall|i: int|
            0 <= i < notes.len() ==> (#[trigger] notes[i]).id == before.notes[i].id && same_output(
                notes[i],
                before.notes[i],
            ),
    ensures
        before.with_notes(notes).wf(),
{
    assert forall|i: int, j: int| 0 <= i < j < notes.len() implies (#[trigger] notes[i]).id < (
    #[trigger] notes[j]).id && !same_output(notes[i], notes[j]) by {
        assert(before.notes[i].id < before.notes[j].id && !same_output(
            before.notes[i],
            before.notes[j],
        ));
    }
    assert forall|i: int| 0 <= i < notes.len() implies (#[trigger] notes[i]).id
        <= before.last_note_id by {
        assert(before.notes[i].id <= before.last_note_id);
    }
}

impl WalletDb {
    /// Derives the commitment of each unspent note from the note's fields and its owner's key,
    /// and overwrites those that differ. Gives the numbers of notes checked and of notes
    /// changed. A note with fields that no coin can have, or whose owner's key does not unwrap,
    /// is left as it is.
    pub fn recompute_note_commitments<
        U: Fn(&[u8]) -> Result<Vec<u8>, String>,
        D: Fn(&CoinInputs) -> Option<[u8; 32]>,
    >(&mut self, unwrap: U, derive: D) -> (counts: Result<(u32, u32), DbError>)
        requires
            old(self).wf(),
            old(self)@.notes.len() <= u32::MAX,
            can_unwrap(unwrap),
            can_derive(derive),
        ensures
            final(self).wf(),
            final(self)@ == old(self)@.with_notes(final(self)@.notes),
            counts matches Ok(c) && c.1 <= c.0 && commitments_come_to(
                old(self)@.notes,
                unwrap,
                derive,
                c,
                final(self)@.notes,
            ),
    {
        let ghost before = self@;
        proof {
            self.lemma_wf();
        }
        let ghost mut outcomes: Seq<Recomputed> = Seq::empty();
        let mut checked: u32 = 0;
        let mut updated: u32 = 0;
        let mut i: usize = 0;
        while i < self.tables.notes.len()
            invariant
                can_unwrap(unwrap),
                can_derive(derive),
                before.wf(),
                before.notes.len() <= u32::MAX,
                i <= self.tables.notes.len(),
                self.tables.notes@.len() == before.notes.len(),
                outcomes.len() == i,
                self@ == before.with_notes(note_views(self.tables.notes@)),
                meta_keys_ok(self.tables.meta@),
                checked == derived_upto(outcomes, i as int),
                updated == changed_upto(before.notes, outcomes, i as int),
                checked <= i,
                updated <= checked,
                forall|j: int|
                    0 <= j < i ==> commitment_comes_to(
                        before.notes[j],
                        unwrap,
                        derive,
                        #[trigger] outcomes[j],
                    ) && self.tables.notes@[j]@ == with_outcome(before.notes[j], outcomes[j]),
                forall|j: int|
                    i <= j < before.notes.len() ==> (#[trigger] self.tables.notes@[j])@
                        == before.notes[j],
            decreases self.tables.notes.len() - i,
        {
            let ghost n = before.notes[i as int];
            assert(self.tables.notes@[i as int]@ == n);
            let ghost earlier = outcomes;
            let coin = derive_commitment(&self.tables.notes[i], &unwrap, &derive);
            let ghost outcome = match coin {
                Some(c) => Recomputed::Derived(c@),
                None => Recomputed::Skipped,
            };
            proof {
                outcomes = outcomes.push(outcome);
                lemma_counts_keep(before.notes, earlier, outcome);
            }
            if let Some(c) = coin {
                checked += 1;
                if !is_bytes(&self.tables.notes[i].commitment, c.as_slice()) {
                    self.tables.notes[i].commitment = Some(copy_bytes(c.as_slice()));
                    self.tables.notes[i].leaf_position = None;
                    updated += 1;
                }
            }
            assert(self.tables.notes@[i as int]@ == with_outcome(n, outcome));
            i += 1;
        }
        proof {
            assert forall|j: int| 0 <= j < self@.notes.len() implies (
            #[trigger] self@.notes[j]).id == before.notes[j].id && same_output(
                self@.notes[j],
                before.notes[j],
            ) by {
                assert(self@.notes[j] == self.tables.notes@[j]@);
                if j < i {
                    let _ = outcomes[j];
                }
            }
            lemma_same_outputs_wf(before, self@.notes);
            self.lemma_wf_from_contents();
            assert(recommits(
                before.notes,
                unwrap,
                derive,
                outcomes,
                (checked, updated),
                self@.notes,
            ));
        }
        Ok((checked, updated))
    }

    /// Derives the nullifier of each unspent note with a full commitment from its owner's key
    /// and its commitment, and counts the notes rewritten. Where an owner's key does not unwrap,
    /// the notes after it are left as they are.
    pub fn recompute_owned_nullifiers<
        U: Fn(&[u8]) -> Result<Vec<u8>, String>,
        N: Fn(&[u8; 32], &[u8; 32]) -> Option<[u8; 32]>,
    >(&mut self, unwrap: U, nullifier_of: N) -> (count: Result<u32, DbError>)
        requires
            old(self).wf(),
            old(self)@.notes.len() <= u32::MAX,
            can_unwrap(unwrap),
            can_nullify(nullifier_of),
        ensures
            final(self).wf(),
            final(self)@ == old(self)@.with_notes(final(self)@.notes),
            nullifiers_come_to(
                old(self)@.notes,
                unwrap,
                nullifier_of,
                count,
                final(self)@.notes,
            ),
            (forall|i: int, m: Seq<char>|
                0 <= i < old(self)@.notes.len() && nullifiable(old(self)@.notes[i])
                    ==> !#[trigger] unwrap_fails(unwrap, old(self)@.notes[i].owner_secret->0, m))
                ==> count is Ok,
    {
        let ghost before = self@;
        proof {
            self.lemma_wf();
        }
        let ghost mut outcomes: Seq<Recomputed> = Seq::empty();
        let mut count: u32 = 0;
        let mut i: usize = 0;
        while i < self.tables.notes.len()
            invariant
                can_unwrap(unwrap),
                can_nullify(nullifier_of),
                before == old(self)@,
                before.wf(),
                before.notes.len() <= u32::MAX,
                i <= self.tables.notes.len(),
                self.tables.notes@.len() == before.notes.len(),
                outcomes.len() == i,
                self@ == before.with_notes(note_views(self.tables.notes@)),
                meta_keys_ok(self.tables.meta@),
                count == derived_upto(outcomes, i as int),
                count <= i,
                forall|j: int|
                    0 <= j < i ==> nullifier_comes_to(
                        before.notes[j],
                        unwrap,
                        nullifier_of,
                        #[trigger] outcomes[j],
                    ) && self.tables.notes@[j]@ == with_nullifier_outcome(
                        before.notes[j],
                        outcomes[j],
                    ),
                forall|j: int|
                    i <= j < before.notes.len() ==> (#[trigger] self.tables.notes@[j])@
                        == before.notes[j],
            decreases self.tables.notes.len() - i,
        {
            let ghost n = before.notes[i as int];
            assert(self.tables.notes@[i as int]@ == n);
            let ghost earlier = outcomes;
            match derive_nullifier(&self.tables.notes[i], &unwrap, &nullifier_of) {
                Err(m) => {
                    proof {
                        assert forall|j: int| 0 <= j < self@.notes.len() implies (
                        #[trigger] self@.notes[j]).id == before.notes[j].id && same_output(
                            self@.notes[j],
                            before.notes[j],
                        ) by {
                            assert(self@.notes[j] == self.tables.notes@[j]@);
                            if j < i {
                                let _ = outcomes[j];
                            }
                        }
                        lemma_same_outputs_wf(before, self@.notes);
                        self.lemma_wf_from_contents();
                    }
                    let failed: Result<u32, DbError> = Err(DbError::Unwrap(m));
                    assert(renullifies(
                        before.notes,
                        unwrap,
                        nullifier_of,
                        outcomes,
                        failed,
                        self@.notes,
                    ));
                    return failed;
                },
                Ok(nf) => {
                    let ghost outcome = match nf {
                        Some(x) => Recomputed::Derived(x@),
                        None => Recomputed::Skipped,
                    };
                    proof {
                        outcomes = outcomes.push(outcome);
                        lemma_counts_keep(before.notes, earlier, outcome);
                    }
                    if let Some(x) = nf {
                        self.tables.notes[i].nullifier = Some(
                            copy_bytes(x.as_slice()),
                        );
                        count += 1;
                    }
                    assert(self.tables.notes@[i as int]@ == with_nullifier_outcome(n, outcome));
                },
            }
            i += 1;
        }
        proof {
            assert forall|j: int| 0 <= j < self@.notes.len() implies (
            #[trigger] self@.notes[j]).id == before.notes[j].id && same_output(
                self@.notes[j],
                before.notes[j],
            ) by {
                assert(self@.notes[j] == self.tables.notes@[j]@);
                if j < i {
                    let _ = outcomes[j];
                }
            }
            lemma_same_outputs_wf(before, self@.notes);
            self.lemma_wf_from_contents();
            assert(renullifies(
                before.notes,
                unwrap,
                nullifier_of,
                outcomes,
                Ok(count),
                self@.notes,
            ));
        }
        Ok(count)
    }
}

/// Counting outcomes goes on where one more comes in.
proof fn lemma_counts_keep(notes: Seq<Note>, outcomes: Seq<Recomputed>, next: Recomputed)
    requires
        outcomes.len() < notes.len(),
    ensures
        derived_upto(outcomes.push(next), outcomes.len() as int) == derived_upto(
            outcomes,
            outcomes.len() as int,
        ),
        changed_upto(notes, outcomes.push(next), outcomes.len() as int) == changed_upto(
            notes,
            outcomes,
            outcomes.len() as int,
        ),
{
    lemma_counts_prefix(notes, outcomes, next, outcomes.len() as int);
}

proof fn lemma_counts_prefix(notes: Seq<Note>, outcomes: Seq<Recomputed>, next: Recomputed, k: int)
    requires
        0 <= k <= outcomes.len() < notes.len(),
    ensures
        derived_upto(outcomes.push(next), k) == derived_upto(outcomes, k),
        changed_upto(notes, outcomes.push(next), k) == changed_upto(notes, outcomes, k),
    decreases k,
{
    if k > 0 {
        lemma_counts_prefix(notes, outcomes, next, k - 1);
        assert(outcomes.push(next)[k - 1] == outcomes[k - 1]);
    }
}

/// `unwrap` gives one plaintext for each stored secret, or refuses it.
pub open spec fn unwraps_steadily<U: Fn(&[u8]) -> Result<Vec<u8>, String>>(unwrap: U) -> bool {
    &&& forall|stored: Seq<u8>, a: Seq<u8>, b: Seq<u8>| #[trigger]
        unwraps_to(unwrap, stored, a) && #[trigger] unwraps_to(unwrap, stored, b) ==> a == b
    &&& forall|stored: Seq<u8>, a: Seq<u8>, m: Seq<char>| #[trigger]
        unwraps_to(unwrap, stored, a) ==> !#[trigger] unwrap_fails(unwrap, stored, m)
}

/// `derive` gives one answer for the same inputs.
pub open spec fn derives_steadily<D: Fn(&CoinInputs) -> Option<[u8; 32]>>(derive: D) -> bool {
    forall|parts: CoinParts, a: Option<Seq<u8>>, b: Option<Seq<u8>>| #[trigger]
        derives(derive, parts, a) && #[trigger] derives(derive, parts, b) ==> a == b
}

/// `nullifier_of` gives one answer for the same secret and coin.
pub open spec fn nullifies_steadily<N: Fn(&[u8; 32], &[u8; 32]) -> Option<[u8; 32]>>(
    nullifier_of: N,
) -> bool {
    forall|s: Seq<u8>, c: Seq<u8>, a: Option<Seq<u8>>, b: Option<Seq<u8>>| #[trigger]
        nullifies(nullifier_of, s, c, a) && #[trigger] nullifies(nullifier_of, s, c, b) ==> a == b
}

/// At how many of the first `k` places two lists of notes have different commitments.
pub open spec fn commitments_differ_upto(before: Seq<Note>, after: Seq<Note>, k: int) -> int
    decreases k,
{
    if k <= 0 {
        0
    } else {
        let last = k - 1;
        commitments_differ_upto(before, after, last) + if before[last].commitment
            != after[last].commitment {
            1int
        } else {
            0
        }
    }
}

proof fn lemma_changed_is_differing<
    U: Fn(&[u8]) -> Result<Vec<u8>, String>,
    D: Fn(&CoinInputs) -> Option<[u8; 32]>,
>(
    before: Seq<Note>,
    unwrap: U,
    derive: D,
    outcomes: Seq<Recomputed>,
    counts: (u32, u32),
    after: Seq<Note>,
    k: int,
)
    requires
        recommits(before, unwrap, derive, outcomes, counts, after),
        0 <= k <= before.len(),
    ensures
        changed_upto(before, outcomes, k) == commitments_differ_upto(before, after, k),
    decreases k,
{
    if k > 0 {
        lemma_changed_is_differing(before, unwrap, derive, outcomes, counts, after, k - 1);
        let _ = outcomes[k - 1];
    }
}

/// Deriving the commitments anew gives a new commitment to as many notes as it counts as
/// changed, and takes their place in the tree from them; every other note, a spent one above
/// all, stays as it is.
pub proof fn law_recompute_changes_what_it_counts<
    U: Fn(&[u8]) -> Result<Vec<u8>, String>,
    D: Fn(&CoinInputs) -> Option<[u8; 32]>,
>(before: Seq<Note>, unwrap: U, derive: D, counts: (u32, u32), after: Seq<Note>)
    requires
        commitments_come_to(before, unwrap, derive, counts, after),
    ensures
        after.len() == before.len(),
        counts.1 == commitments_differ_upto(before, after, before.len() as int),
        forall|i: int|
            0 <= i < before.len() ==> if before[i].commitment == (#[trigger] after[i]).commitment {
                after[i] == before[i]
            } else {
                !before[i].spent && after[i] == recommitted(before[i], after[i].commitment->0)
            },
{
    let outcomes = choose|outcomes: Seq<Recomputed>|
        recommits(before, unwrap, derive, outcomes, counts, after);
    let n = before.len() as int;
    lemma_changed_is_differing(before, unwrap, derive, outcomes, counts, after, n);
    assert forall|i: int| 0 <= i < before.len() implies if before[i].commitment == (
    #[trigger] after[i]).commitment {
        after[i] == before[i]
    } else {
        !before[i].spent && after[i] == recommitted(before[i], after[i].commitment->0)
    } by {
        let _ = outcomes[i];
    }
}

proof fn lemma_one_commitment<
    U: Fn(&[u8]) -> Result<Vec<u8>, String>,
    D: Fn(&CoinInputs) -> Option<[u8; 32]>,
>(n: Note, m: Note, unwrap: U, derive: D, a: Recomputed, b: Recomputed)
    requires
        unwraps_steadily(unwrap),
        derives_steadily(derive),
        commitment_comes_to(n, unwrap, derive, a),
        commitment_comes_to(m, unwrap, derive, b),
        m == with_outcome(n, a),
    ensures
        a == b,
{
    assert(derivable(n) == derivable(m));
    if derivable(n) {
        let stored = n.owner_secret->0;
        if !(exists|e: Seq<char>| #[trigger] unwrap_fails(unwrap, stored, e)) {
            let owner = choose|owner: Seq<u8>| #[trigger]
                unwraps_to(unwrap, stored, owner) && coin_comes_to(n, owner, derive, a);
            assert(coin_parts(n, owner) == coin_parts(m, owner));
            let other = choose|owner: Seq<u8>| #[trigger]
                unwraps_to(unwrap, stored, owner) && coin_comes_to(m, owner, derive, b);
            assert(owner == other);
        }
    }
}

proof fn lemma_nothing_changed(notes: Seq<Note>, outcomes: Seq<Recomputed>, k: int)
    requires
        0 <= k <= outcomes.len(),
        forall|i: int|
            0 <= i < outcomes.len() ==> !changes_commitment(notes[i], #[trigger] outcomes[i]),
    ensures
        changed_upto(notes, outcomes, k) == 0,
    decreases k,
{
    if k > 0 {
        lemma_nothing_changed(notes, outcomes, k - 1);
        let _ = outcomes[k - 1];
    }
}

/// Deriving the commitments anew a second time checks as many notes and changes none.
pub proof fn law_second_recompute_changes_nothing<
    U: Fn(&[u8]) -> Result<Vec<u8>, String>,
    D: Fn(&CoinInputs) -> Option<[u8; 32]>,
>(
    before: Seq<Note>,
    unwrap: U,
    derive: D,
    first: (u32, u32),
    between: Seq<Note>,
    second: (u32, u32),
    after: Seq<Note>,
)
    requires
        unwraps_steadily(unwrap),
        derives_steadily(derive),
        commitments_come_to(before, unwrap, derive, first, between),
        commitments_come_to(between, unwrap, derive, second, after),
    ensures
        second == (first.0, 0u32),
        after == between,
{
    let a = choose|outcomes: Seq<Recomputed>|
        recommits(before, unwrap, derive, outcomes, first, between);
    let b = choose|outcomes: Seq<Recomputed>|
        recommits(between, unwrap, derive, outcomes, second, after);
    assert forall|i: int| 0 <= i < a.len() implies a[i] == #[trigger] b[i] && !changes_commitment(
        between[i],
        b[i],
    ) by {
        let _ = a[i];
        lemma_one_commitment(before[i], between[i], unwrap, derive, a[i], b[i]);
    }
    assert(a =~= b);
    lemma_nothing_changed(between, b, b.len() as int);
    assert forall|i: int| 0 <= i < after.len() implies after[i] == between[i] by {
        let _ = b[i];
    }
    assert(after =~= between);
}

proof fn lemma_one_nullifier<
    U: Fn(&[u8]) -> Result<Vec<u8>, String>,
    N: Fn(&[u8; 32], &[u8; 32]) -> Option<[u8; 32]>,
>(n: Note, m: Note, unwrap: U, nullifier_of: N, a: Recomputed, b: Recomputed)
    requires
        unwraps_steadily(unwrap),
        nullifies_steadily(nullifier_of),
        nullifier_comes_to(n, unwrap, nullifier_of, a),
        nullifier_comes_to(m, unwrap, nullifier_of, b),
        m == with_nullifier_outcome(n, a),
    ensures
        a == b,
{
    assert(nullifiable(n) == nullifiable(m));
    if nullifiable(n) {
        let stored = n.owner_secret->0;
        let owner = choose|owner: Seq<u8>| #[trigger]
            unwraps_to(unwrap, stored, owner) && owner_nullifier_comes_to(
                n,
                owner,
                nullifier_of,
                a,
            );
        let other = choose|owner: Seq<u8>| #[trigger]
            unwraps_to(unwrap, stored, owner) && owner_nullifier_comes_to(
                m,
                owner,
                nullifier_of,
                b,
            );
        assert(owner == other);
    }
}

/// Deriving the nullifiers anew a second time counts as many notes and changes none.
pub proof fn law_second_renullify_changes_nothing<
    U: Fn(&[u8]) -> Result<Vec<u8>, String>,
    N: Fn(&[u8; 32], &[u8; 32]) -> Option<[u8; 32]>,
>(
    before: Seq<Note>,
    unwrap: U,
    nullifier_of: N,
    first: u32,
    between: Seq<Note>,
    second: Result<u32, DbError>,
    after: Seq<Note>,
)
    requires
        unwraps_steadily(unwrap),
        nullifies_steadily(nullifier_of),
        nullifiers_come_to(before, unwrap, nullifier_of, Ok(first), between),
        nullifiers_come_to(between, unwrap, nullifier_of, second, after),
    ensures
        second matches Ok(n) && n == first,
        after == between,
{
    let a = choose|outcomes: Seq<Recomputed>|
        renullifies(before, unwrap, nullifier_of, outcomes, Ok(first), between);
    let b = choose|outcomes: Seq<Recomputed>|
        renullifies(between, unwrap, nullifier_of, outcomes, second, after);
    if b.len() < before.len() {
        let k = b.len() as int;
        let _ = a[k];
        assert(nullifier_comes_to(before[k], unwrap, nullifier_of, a[k]));
        assert(nullifiable(before[k]));
    }
    assert forall|i: int| 0 <= i < a.len() implies a[i] == #[trigger] b[i] by {
        let _ = a[i];
        lemma_one_nullifier(before[i], between[i], unwrap, nullifier_of, a[i], b[i]);
    }
    assert(a =~= b);
    assert forall|i: int| 0 <= i < after.len() implies after[i] == between[i] by {
        let _ = a[i];
        let _ = b[i];
    }
    assert(after =~= between);
}

/// A note whose nullifier was derived anew is the one that marking that nullifier as spent finds
/// and marks.
pub proof fn law_derived_nullifier_marks_its_note<
    U: Fn(&[u8]) -> Result<Vec<u8>, String>,
    N: Fn(&[u8; 32], &[u8; 32]) -> Option<[u8; 32]>,
>(
    before: Seq<Note>,
    unwrap: U,
    nullifier_of: N,
    count: u32,
    after: Seq<Note>,
    i: int,
    owner: Seq<u8>,
    nf: Seq<u8>,
)
    requires
        unwraps_steadily(unwrap),
        nullifies_steadily(nullifier_of),
        nullifiers_come_to(before, unwrap, nullifier_of, Ok(count), after),
        0 <= i < before.len(),
        nullifiable(before[i]),
        unwraps_to(unwrap, before[i].owner_secret->0, owner),
        owner.len() >= 32,
        nullifies(nullifier_of, owner.take(32), before[i].commitment->0, Some(nf)),
    ensures
        after[i] == (Note { nullifier: Some(nf), ..before[i] }),
        after.filter(with_nullifier(nf)).contains(after[i]),
        updated(after, with_nullifier(nf), set_spent(true))[i] == (Note { spent: true, ..after[i] }),
{
    let outcomes = choose|outcomes: Seq<Recomputed>|
        renullifies(before, unwrap, nullifier_of, outcomes, Ok(count), after);
    assert(nullifier_comes_to(before[i], unwrap, nullifier_of, outcomes[i]));
    let other = choose|o: Seq<u8>| #[trigger]
        unwraps_to(unwrap, before[i].owner_secret->0, o) && owner_nullifier_comes_to(
            before[i],
            o,
            nullifier_of,
            outcomes[i],
        );
    assert(other == owner);
    assert(outcomes[i] == Recomputed::Derived(nf));
    lemma_filter_keeps(after, with_nullifier(nf), i);
}

// ---- What deriving anew promises, over notes and results ----

/// What a coin's inputs hold, each field for itself.
pub proof fn law_coin_inputs_hold(c: CoinInputs, a: [u8; 32])
    ensures
        c@.secret == c.secret@,
        c@.value == c.value,
        c@.token_id == c.token_id@,
        c@.spend_hook == c.spend_hook@,
        c@.user_data == c.user_data@,
        c@.coin_blind == c.coin_blind@,
        opt_array(Some(a)) == Some(a@),
        opt_array(None) is None,
{
}

/// What was derived is what the supplied function was given and gave back.
pub proof fn law_deriving_is_the_callers<
    D: Fn(&CoinInputs) -> Option<[u8; 32]>,
    N: Fn(&[u8; 32], &[u8; 32]) -> Option<[u8; 32]>,
>(
    derive: D,
    nullifier_of: N,
    c: &CoinInputs,
    s: &[u8; 32],
    k: &[u8; 32],
    out: Option<[u8; 32]>,
    parts: CoinParts,
    secret: Seq<u8>,
    coin: Seq<u8>,
    result: Option<Seq<u8>>,
)
    ensures
        call_ensures(derive, (c,), out) ==> derives(derive, c@, opt_array(out)),
        call_ensures(nullifier_of, (s, k), out) ==> nullifies(nullifier_of, s@, k@, opt_array(out)),
        derives(derive, parts, result) ==> exists|x: &CoinInputs, y: Option<[u8; 32]>|
            x@ == parts && result == opt_array(y) && #[trigger] call_ensures(derive, (x,), y),
        nullifies(nullifier_of, secret, coin, result) ==> exists|
            x: &[u8; 32],
            y: &[u8; 32],
            z: Option<[u8; 32]>,
        |
            x@ == secret && y@ == coin && result == opt_array(z) && #[trigger] call_ensures(
                nullifier_of,
                (x, y),
                z,
            ),
{
}

/// A coin commits to its note's value, token, hook, user data (zeros where there is none) and
/// coin blind, under the first bytes of the owner's secret; a note takes part exactly where these
/// have a coin's form.
pub proof fn law_what_a_coin_commits_to(n: Note, owner: Seq<u8>, i: int)
    ensures
        coin_parts(n, owner) is Some <==> {
            &&& owner.len() >= 32
            &&& n.coin_blind is Some
            &&& n.coin_blind->0.len() == 32
            &&& le_value(n.coin_blind->0) < base_modulus()
            &&& is_hex(n.token_id)
            &&& n.token_id.len() == 64
            &&& n.user_data is Some ==> n.user_data->0.len() == 32 && le_value(n.user_data->0)
                < base_modulus()
        },
        coin_parts(n, owner) is Some ==> {
            let c = coin_parts(n, owner)->0;
            &&& c.secret == owner.subrange(0, 32)
            &&& n.value_raw >= 0 ==> c.value == n.value_raw
            &&& c.value == n.value_raw as u64
            &&& c.token_id == hex_bytes(n.token_id)
            &&& c.spend_hook == hook_of(n)
            &&& n.coin_blind == Some(c.coin_blind)
            &&& n.user_data is Some ==> n.user_data == Some(c.user_data)
            &&& n.user_data is None ==> c.user_data.len() == 32 && (0 <= i < 32 ==> c.user_data[i]
                == 0)
        },
{
    let zeros = Seq::new(32, |k: int| 0u8);
    lemma_zeros_are_zero(32);
    if owner.len() >= 32 {
        assert(owner.take(32) =~= owner.subrange(0, 32));
    }
    assert(n.user_data is None ==> user_data_of(n) =~= zeros);
}

proof fn lemma_zeros_are_zero(n: nat)
    ensures
        le_value(Seq::new(n, |k: int| 0u8)) == 0,
    decreases n,
{
    let s = Seq::new(n, |k: int| 0u8);
    if n > 0 {
        lemma_zeros_are_zero((n - 1) as nat);
        assert(s.skip(1) =~= Seq::new((n - 1) as nat, |k: int| 0u8));
    }
}

/// A note whose commitment was derived has that commitment; where it is another than before the
/// note loses its tree position, and nothing else of it changes.
pub proof fn law_derived_commitment_is_stored(n: Note, coin: Seq<u8>)
    ensures
        with_outcome(n, Recomputed::Skipped) == n,
        with_outcome(n, Recomputed::Derived(coin)).commitment == Some(coin),
        n.commitment == Some(coin) ==> with_outcome(n, Recomputed::Derived(coin)) == n,
        n.commitment != Some(coin) ==> with_outcome(n, Recomputed::Derived(coin)).leaf_position
            is None,
        (Note {
            commitment: n.commitment,
            leaf_position: n.leaf_position,
            ..with_outcome(n, Recomputed::Derived(coin))
        }) == n,
        changes_commitment(n, Recomputed::Derived(coin)) <==> n.commitment != Some(coin),
        !changes_commitment(n, Recomputed::Skipped),
{
}

/// A note whose nullifier was derived has that nullifier, and nothing else of it changes.
pub proof fn law_derived_nullifier_is_stored(n: Note, nf: Seq<u8>)
    ensures
        with_nullifier_outcome(n, Recomputed::Skipped) == n,
        with_nullifier_outcome(n, Recomputed::Derived(nf)).nullifier == Some(nf),
        (Note { nullifier: n.nullifier, ..with_nullifier_outcome(n, Recomputed::Derived(nf)) }) == n,
{
}

proof fn lemma_derived_places(outcomes: Seq<Recomputed>, k: int)
    requires
        0 <= k <= outcomes.len(),
    ensures
        Set::<int>::new(|i: int| 0 <= i < k && outcomes[i] is Derived).finite(),
        derived_upto(outcomes, k) == Set::<int>::new(
            |i: int| 0 <= i < k && outcomes[i] is Derived,
        ).len(),
    decreases k,
{
    let places = Set::<int>::new(|i: int| 0 <= i < k && outcomes[i] is Derived);
    if k == 0 {
        assert(places =~= Set::empty());
    } else {
        lemma_derived_places(outcomes, k - 1);
        let rest = Set::<int>::new(|i: int| 0 <= i < k - 1 && outcomes[i] is Derived);
        if outcomes[k - 1] is Derived {
            assert(places =~= rest.insert(k - 1));
        } else {
            assert(places =~= rest);
        }
    }
}

proof fn lemma_differing_places(before: Seq<Note>, after: Seq<Note>, k: int)
    ensures
        k >= 0 ==> Set::<int>::new(
            |i: int| 0 <= i < k && before[i].commitment != after[i].commitment,
        ).finite(),
        k >= 0 ==> commitments_differ_upto(before, after, k) == Set::<int>::new(
            |i: int| 0 <= i < k && before[i].commitment != after[i].commitment,
        ).len(),
    decreases k,
{
    let places = Set::<int>::new(|i: int| 0 <= i < k && before[i].commitment != after[i].commitment);
    if k == 0 {
        assert(places =~= Set::empty());
    } else if k > 0 {
        lemma_differing_places(before, after, k - 1);
        let rest = Set::<int>::new(
            |i: int| 0 <= i < k - 1 && before[i].commitment != after[i].commitment,
        );
        if before[k - 1].commitment != after[k - 1].commitment {
            assert(places =~= rest.insert(k - 1));
        } else {
            assert(places =~= rest);
        }
    }
}

/// A run over the commitments changes as many notes as end up with another commitment.
pub proof fn law_changed_notes_are_counted<
    U: Fn(&[u8]) -> Result<Vec<u8>, String>,
    D: Fn(&CoinInputs) -> Option<[u8; 32]>,
>(before: Seq<Note>, unwrap: U, derive: D, counts: (u32, u32), after: Seq<Note>)
    requires
        commitments_come_to(before, unwrap, derive, counts, after),
    ensures
        after.len() == before.len(),
        counts.1 == Set::<int>::new(
            |i: int| 0 <= i < before.len() && before[i].commitment != after[i].commitment,
        ).len(),
{
    law_recompute_changes_what_it_counts(before, unwrap, derive, counts, after);
    lemma_differing_places(before, after, before.len() as int);
}

/// In a run over the commitments an unspent note with an owner and a coin blind, whose owner's
/// secret unwraps and whose fields make up a coin, gets that coin as its commitment; one whose
/// fields make up none, a spent one, and one without owner, blind or a secret that unwraps stay
/// as they are. The first count is the number of notes for which a coin was made up.
pub proof fn law_commitments_are_derived<
    U: Fn(&[u8]) -> Result<Vec<u8>, String>,
    D: Fn(&CoinInputs) -> Option<[u8; 32]>,
>(
    before: Seq<Note>,
    unwrap: U,
    derive: D,
    counts: (u32, u32),
    after: Seq<Note>,
    i: int,
    owner: Seq<u8>,
    coin: Option<Seq<u8>>,
) -> (outcomes: Seq<Recomputed>)
    requires
        commitments_come_to(before, unwrap, derive, counts, after),
        0 <= i < before.len(),
        forall|stored: Seq<u8>, a: Seq<u8>, b: Seq<u8>| #[trigger]
            unwraps_to(unwrap, stored, a) && #[trigger] unwraps_to(unwrap, stored, b) ==> a == b,
        forall|stored: Seq<u8>, a: Seq<u8>, m: Seq<char>| #[trigger]
            unwraps_to(unwrap, stored, a) ==> !#[trigger] unwrap_fails(unwrap, stored, m),
        forall|parts: CoinParts, a: Option<Seq<u8>>, b: Option<Seq<u8>>| #[trigger]
            derives(derive, parts, a) && #[trigger] derives(derive, parts, b) ==> a == b,
    ensures
        after.len() == before.len(),
        outcomes.len() == before.len(),
        counts.0 == Set::<int>::new(
            |k: int| 0 <= k < before.len() && outcomes[k] is Derived,
        ).len(),
        ({
            let (was, now) = (before[i], after[i]);
            let made_up = !was.spent && was.coin_blind is Some && was.owner_secret is Some
                && unwraps_to(unwrap, was.owner_secret->0, owner) && coin_parts(was, owner) is Some
                && derives(derive, coin_parts(was, owner)->0, coin);
            &&& made_up && coin is Some ==> outcomes[i] == Recomputed::Derived(coin->0)
                && now.commitment == coin && (was.commitment != coin ==> now.leaf_position is None)
                && (was.commitment == coin ==> now == was)
            &&& made_up && coin is None ==> outcomes[i] == Recomputed::Skipped && now == was
            &&& was.spent || was.coin_blind is None || was.owner_secret is None ==> outcomes[i]
                == Recomputed::Skipped && now == was
            &&& was.owner_secret is Some && unwraps_to(unwrap, was.owner_secret->0, owner)
                && coin_parts(was, owner) is None ==> outcomes[i] == Recomputed::Skipped && now
                == was
            &&& was.owner_secret is Some && (forall|plain: Seq<u8>|
                !#[trigger] unwraps_to(unwrap, was.owner_secret->0, plain)) ==> outcomes[i]
                == Recomputed::Skipped && now == was
        }),
{
    let outcomes = choose|outcomes: Seq<Recomputed>|
        recommits(before, unwrap, derive, outcomes, counts, after);
    lemma_derived_places(outcomes, before.len() as int);
    let was = before[i];
    assert(commitment_comes_to(was, unwrap, derive, outcomes[i]));
    if !was.spent && was.coin_blind is Some && was.owner_secret is Some {
        let stored = was.owner_secret->0;
        assert(derivable(was));
        if unwraps_to(unwrap, stored, owner) {
            let other = choose|o: Seq<u8>| #[trigger]
                unwraps_to(unwrap, stored, o) && coin_comes_to(was, o, derive, outcomes[i]);
            assert(other == owner);
        }
    }
    outcomes
}

/// In a run over the nullifiers that ends well, an unspent note with a full commitment, whose
/// owner's secret unwraps to a key's length or more, gets the nullifier of that key and its
/// commitment, where there is one; every other note stays as it is. The count is the number of
/// notes that got one.
pub proof fn law_nullifiers_are_derived<
    U: Fn(&[u8]) -> Result<Vec<u8>, String>,
    N: Fn(&[u8; 32], &[u8; 32]) -> Option<[u8; 32]>,
>(
    before: Seq<Note>,
    unwrap: U,
    nullifier_of: N,
    count: u32,
    after: Seq<Note>,
    i: int,
    owner: Seq<u8>,
    nf: Option<Seq<u8>>,
) -> (outcomes: Seq<Recomputed>)
    requires
        nullifiers_come_to(before, unwrap, nullifier_of, Ok(count), after),
        0 <= i < before.len(),
        forall|stored: Seq<u8>, a: Seq<u8>, b: Seq<u8>| #[trigger]
            unwraps_to(unwrap, stored, a) && #[trigger] unwraps_to(unwrap, stored, b) ==> a == b,
        forall|s: Seq<u8>, c: Seq<u8>, a: Option<Seq<u8>>, b: Option<Seq<u8>>| #[trigger]
            nullifies(nullifier_of, s, c, a) && #[trigger] nullifies(nullifier_of, s, c, b) ==> a
                == b,
    ensures
        after.len() == before.len(),
        outcomes.len() == before.len(),
        count == Set::<int>::new(|k: int| 0 <= k < before.len() && outcomes[k] is Derived).len(),
        ({
            let (was, now) = (before[i], after[i]);
            let asked = !was.spent && was.commitment is Some && was.commitment->0.len() == 32
                && was.owner_secret is Some;
            let given = asked && unwraps_to(unwrap, was.owner_secret->0, owner) && owner.len() >= 32
                && nullifies(nullifier_of, owner.subrange(0, 32), was.commitment->0, nf);
            &&& given && nf is Some ==> outcomes[i] == Recomputed::Derived(nf->0) && now == (Note {
                nullifier: nf,
                ..was
            })
            &&& given && nf is None ==> outcomes[i] == Recomputed::Skipped && now == was
            &&& !asked ==> outcomes[i] == Recomputed::Skipped && now == was
            &&& asked && unwraps_to(unwrap, was.owner_secret->0, owner) && owner.len() < 32
                ==> outcomes[i] == Recomputed::Skipped && now == was
            &&& asked ==> exists|plain: Seq<u8>| #[trigger]
                unwraps_to(unwrap, was.owner_secret->0, plain)
        }),
{
    let outcomes = choose|outcomes: Seq<Recomputed>|
        renullifies(before, unwrap, nullifier_of, outcomes, Ok(count), after);
    lemma_derived_places(outcomes, before.len() as int);
    let was = before[i];
    assert(nullifier_comes_to(was, unwrap, nullifier_of, outcomes[i]));
    if owner.len() >= 32 {
        assert(owner.take(32) =~= owner.subrange(0, 32));
    }
    if !was.spent && was.commitment is Some && was.commitment->0.len() == 32 && was.owner_secret
        is Some {
        assert(nullifiable(was));
        let other = choose|o: Seq<u8>| #[trigger]
            unwraps_to(unwrap, was.owner_secret->0, o) && owner_nullifier_comes_to(
                was,
                o,
                nullifier_of,
                outcomes[i],
            );
        if unwraps_to(unwrap, was.owner_secret->0, owner) {
            assert(other == owner);
        }
    }
    outcomes
}

/// A run over the nullifiers fails only at a note that needs a key whose wrapped form is refused,
/// with the words of the refusal; notes from there on stay as they are.
pub proof fn law_nullifiers_stop_at_a_refusal<
    U: Fn(&[u8]) -> Result<Vec<u8>, String>,
    N: Fn(&[u8; 32], &[u8; 32]) -> Option<[u8; 32]>,
>(
    before: Seq<Note>,
    unwrap: U,
    nullifier_of: N,
    error: DbError,
    after: Seq<Note>,
) -> (k: int)
    requires
        nullifiers_come_to(before, unwrap, nullifier_of, Err(error), after),
    ensures
        0 <= k < before.len(),
        after.len() == before.len(),
        error is Unwrap,
        unwrap_fails(unwrap, before[k].owner_secret->0, error->Unwrap_0@),
        !before[k].spent,
        before[k].owner_secret is Some,
        before[k].commitment is Some,
        before[k].commitment->0.len() == 32,
        forall|i: int| k <= i < before.len() ==> #[trigger] after[i] == before[i],
        forall|i: int|
            0 <= i < k ==> (#[trigger] after[i]) == (Note {
                nullifier: after[i].nullifier,
                ..before[i]
            }),
{
    let outcomes = choose|outcomes: Seq<Recomputed>|
        renullifies(before, unwrap, nullifier_of, outcomes, Err(error), after);
    let k = outcomes.len() as int;
    assert(nullifiable(before[k]));
    assert forall|i: int| 0 <= i < k implies (#[trigger] after[i]) == (Note {
        nullifier: after[i].nullifier,
        ..before[i]
    }) by {
        let _ = outcomes[i];
    }
    k
}

} // verus!
