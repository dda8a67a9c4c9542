//! Wallet metadata: values by key.
use crate::bytes::copy_bytes;
use crate::db::model::WalletState;
use crate::db::{meta_keys_ok, meta_pairs, DbError, WalletDb};
use crate::pairs::{
    lemma_pair_insert, lemma_pair_map, lemma_pair_remove, lemma_pair_update, pair_map,
};
use crate::text::{bytes_eq, str_eq};
use vstd::prelude::*;

verus! {

/// The key set when the coin commitment tree holds every coin from height zero on.
pub const META_MERKLE_FROM_GENESIS: &'static str = "merkle_from_genesis";

/// The key of the serialised coin commitment tree.
pub const META_TREE_STATE: &'static str = "tree_state";

/// The mark of a complete tree: the character `1`.
pub open spec fn complete_mark() -> Seq<u8> {
    seq![0x31u8]
}

impl WalletState {
    /// The metadata value of a key.
    pub open spec fn meta_value(self, key: Seq<char>) -> Option<Seq<u8>> {
        if self.meta.contains_key(key) {
            Some(self.meta[key])
        } else {
            None
        }
    }

    /// The tree is marked as holding every coin from height zero on.
    pub open spec fn tree_complete(self) -> bool {
        self.meta_value(META_MERKLE_FROM_GENESIS@) == Some(complete_mark())
    }
}

/// The position of a key.
fn find_meta(rows: &Vec<(String, Vec<u8>)>, key: &str) -> (found: Option<usize>)
    ensures
        match found {
            Some(i) => i < rows@.len() && meta_pairs(rows@)[i as int].0 == key@,
            None => forall|i: int|
                0 <= i < rows@.len() ==> (#[trigger] meta_pairs(rows@)[i]).0 != key@,
        },
{
    let ghost pairs = meta_pairs(rows@);
    let mut i: usize = 0;
    while i < rows.len()
        invariant
            i <= rows.len(),
            pairs == meta_pairs(rows@),
            forall|j: int| 0 <= j < i ==> (#[trigger] pairs[j]).0 != key@,
        decreases rows.len() - i,
    {
        assert(pairs[i as int].0 == rows@[i as int].0@);
        if str_eq(rows[i].0.as_str(), key) {
            return Some(i);
        }
        i += 1;
    }
    None
}

/// Stores a value under a key, in place of what was there.
fn put_meta(rows: &mut Vec<(String, Vec<u8>)>, key: &str, value: &[u8])
    requires
        meta_keys_ok(old(rows)@),
    ensures
        meta_keys_ok(final(rows)@),
        pair_map(meta_pairs(final(rows)@)) == pair_map(meta_pairs(old(rows)@)).insert(key@, value@),
{
    let ghost pairs = meta_pairs(rows@);
    match find_meta(rows, key) {
        Some(i) => {
            assert(pairs[i as int].0 == key@);
            rows[i].1 = copy_bytes(value);
            proof {
                lemma_pair_update(pairs, i as int, value@);
                assert(meta_pairs(rows@) =~= pairs.update(i as int, (key@, value@)));
            }
        },
        None => {
            rows.push((key.to_owned(), copy_bytes(value)));
            proof {
                lemma_pair_insert(pairs, pairs.len() as int, key@, value@);
                assert(meta_pairs(rows@) =~= pairs.insert(pairs.len() as int, (key@, value@)));
            }
        },
    }
}

/// Removes a key.
fn remove_meta(rows: &mut Vec<(String, Vec<u8>)>, key: &str)
    requires
        meta_keys_ok(old(rows)@),
    ensures
        meta_keys_ok(final(rows)@),
        pair_map(meta_pairs(final(rows)@)) == pair_map(meta_pairs(old(rows)@)).remove(key@),
{
    let ghost pairs = meta_pairs(rows@);
    proof {
        lemma_pair_map(pairs);
    }
    match find_meta(rows, key) {
        Some(i) => {
            assert(pairs[i as int].0 == key@);
            let _ = rows.remove(i);
            proof {
                lemma_pair_remove(pairs, i as int);
                assert(meta_pairs(rows@) =~= pairs.remove(i as int));
            }
        },
        None => {
            assert(pair_map(pairs).remove(key@) =~= pair_map(pairs));
        },
    }
}

impl WalletDb {
    /// Stores a metadata value under a key, in place of what was there.
    pub fn set_meta(&mut self, key: &str, value: &[u8]) -> (done: Result<(), DbError>)
        requires
            old(self).wf(),
        ensures
            final(self).wf(),
            done is Ok,
            final(self)@ == old(self)@.with_meta(old(self)@.meta.insert(key@, value@)),
    {
        put_meta(&mut self.tables.meta, key, value);
        Ok(())
    }

    /// Removes a metadata key.
    pub fn delete_meta(&mut self, key: &str)
        requires
            old(self).wf(),
        ensures
            final(self).wf(),
            final(self)@ == old(self)@.with_meta(old(self)@.meta.remove(key@)),
    {
        remove_meta(&mut self.tables.meta, key);
    }

    /// Retrieves a metadata value by key.
    pub fn get_meta(&self, key: &str) -> (value: Result<Option<Vec<u8>>, DbError>)
        requires
            self.wf(),
        ensures
            value matches Ok(v) && crate::db::rows::opt_bytes(v) == self@.meta_value(key@),
    {
        let rows = &self.tables.meta;
        proof {
            lemma_pair_map(meta_pairs(rows@));
        }
        match find_meta(rows, key) {
            Some(i) => Ok(Some(copy_bytes(rows[i].1.as_slice()))),
            None => Ok(None),
        }
    }

    /// Whether the coin commitment tree is marked as complete from height zero.
    pub fn merkle_from_genesis(&self) -> (complete: bool)
        requires
            self.wf(),
        ensures
            complete == self@.tree_complete(),
    {
        match self.get_meta(META_MERKLE_FROM_GENESIS) {
            Ok(Some(v)) => {
                let mark: [u8; 1] = [0x31];
                assert(mark@ =~= complete_mark());
                bytes_eq(v.as_slice(), mark.as_slice())
            },
            _ => false,
        }
    }

    /// Marks the coin commitment tree as complete from height zero, or removes the mark.
    pub fn set_merkle_from_genesis(&mut self, complete: bool) -> (done: Result<(), DbError>)
        requires
            old(self).wf(),
        ensures
            final(self).wf(),
            done is Ok,
            final(self)@ == old(self)@.with_meta(
                if complete {
                    old(self)@.meta.insert(META_MERKLE_FROM_GENESIS@, complete_mark())
                } else {
                    old(self)@.meta.remove(META_MERKLE_FROM_GENESIS@)
                },
            ),
    {
        if complete {
            let mark: [u8; 1] = [0x31];
            assert(mark@ =~= complete_mark());
            self.set_meta(META_MERKLE_FROM_GENESIS, mark.as_slice())
        } else {
            self.delete_meta(META_MERKLE_FROM_GENESIS);
            Ok(())
        }
    }
}

/// A stored value is read back, and storing it leaves every other key alone.
pub proof fn law_meta_reads_back(state: WalletState, key: Seq<char>, value: Seq<u8>, other: Seq<char>)
    ensures
        ({
            let after = state.with_meta(state.meta.insert(key, value));
            &&& after.meta_value(key) == Some(value)
            &&& other != key ==> after.meta_value(other) == state.meta_value(other)
        }),
{
}

/// The completeness mark reads back as it was last set.
pub proof fn law_tree_mark_reads_back(state: WalletState)
    ensures
        state.with_meta(
            state.meta.insert(META_MERKLE_FROM_GENESIS@, complete_mark()),
        ).tree_complete(),
        !state.with_meta(state.meta.remove(META_MERKLE_FROM_GENESIS@)).tree_complete(),
{
}

} // verus!
