//! The transaction history.
use crate::db::model::{newest_first, transactions_ok, tx_ages, WalletState};
use crate::db::order::{
    arranged, as_indices, as_ints, is_stable_order, law_ordering_permutes, law_stable_order,
    sort_indices, stable_order,
};
use crate::db::rows::{clone_transaction, opt_str, own_text, tx_views, TransactionRow, TxRecord};
use crate::db::{DbError, WalletDb};
use crate::text::str_eq;
use vstd::prelude::*;

verus! {

impl WalletState {
    /// The history has an entry with this hash.
    pub open spec fn has_transaction(self, hash: Seq<char>) -> bool {
        exists|i: int|
            0 <= i < self.transactions.len() && (#[trigger] self.transactions[i]).hash == hash
    }

    /// The database after the mempool entry with this hash, if there is one, moved to a block.
    pub open spec fn confirmed(self, hash: Seq<char>, height: u32) -> WalletState {
        self.with_transactions(promoted(self.transactions, hash, height))
    }

    /// The database after a history entry came in: a new hash is added at the end, a known one
    /// only moves its entry from the mempool to the block.
    pub open spec fn recorded(self, entry: TxRecord) -> WalletState {
        if self.has_transaction(entry.hash) {
            self.confirmed(entry.hash, entry.block_height)
        } else {
            self.with_transactions(self.transactions.push(entry))
        }
    }
}

/// An entry with this hash that waits in the mempool.
pub open spec fn pending(t: TxRecord, hash: Seq<char>) -> bool {
    t.hash == hash && t.block_height == 0
}

/// A history in which the mempool entry with this hash has moved to a block.
pub open spec fn promoted(history: Seq<TxRecord>, hash: Seq<char>, height: u32) -> Seq<TxRecord> {
    Seq::new(
        history.len(),
        |i: int|
            if pending(history[i], hash) {
                TxRecord { block_height: height, ..history[i] }
            } else {
                history[i]
            },
    )
}

/// The position of the entry with this hash, or the length.
fn find(rows: &Vec<TransactionRow>, hash: &str) -> (i: usize)
    ensures
        i <= rows@.len(),
        i < rows@.len() ==> tx_views(rows@)[i as int].hash == hash@,
        i == rows@.len() ==> forall|j: int|
            0 <= j < rows@.len() ==> (#[trigger] tx_views(rows@)[j]).hash != hash@,
{
    let ghost views = tx_views(rows@);
    let mut i: usize = 0;
    while i < rows.len()
        invariant
            i <= rows.len(),
            views == tx_views(rows@),
            forall|j: int| 0 <= j < i ==> (#[trigger] views[j]).hash != hash@,
        decreases rows.len() - i,
    {
        assert(views[i as int] == rows@[i as int]@);
        if str_eq(rows[i].hash.as_str(), hash) {
            return i;
        }
        i += 1;
    }
    i
}

impl WalletDb {
    /// Moves the mempool entry with this hash, if there is one, to a block, and gives the number
    /// of entries moved. Height `0` is the mempool's and moves nothing.
    pub fn confirm_transaction(&mut self, hash: &str, height: u32) -> (count: Result<
        usize,
        DbError,
    >)
        requires
            old(self).wf(),
        ensures
            final(self).wf(),
            final(self)@ == old(self)@.confirmed(hash@, height),
            count matches Ok(n) && n == if height != 0 && exists|i: int|
                0 <= i < old(self)@.transactions.len() && pending(
                    #[trigger] old(self)@.transactions[i],
                    hash@,
                ) {
                1int
            } else {
                0
            },
    {
        let ghost before = self@;
        proof {
            self.lemma_wf();
        }
        let ghost views = tx_views(self.tables.transactions@);
        if height == 0 {
            assert(promoted(views, hash@, height) =~= views);
            assert(self@ =~= before.confirmed(hash@, height));
            return Ok(0);
        }
        let i: usize = find(&self.tables.transactions, hash);
        if i < self.tables.transactions.len() && self.tables.transactions[i].block_height == 0 {
            self.tables.transactions[i].block_height = height;
            proof {
                let after = tx_views(self.tables.transactions@);
                assert(after =~= promoted(views, hash@, height));
                assert(transactions_ok(after));
                assert(self@ =~= before.confirmed(hash@, height));
                self.lemma_wf_from_contents();
                assert(pending(before.transactions[i as int], hash@));
            }
            Ok(1)
        } else {
            proof {
                assert(promoted(views, hash@, height) =~= views);
                assert(self@ =~= before.confirmed(hash@, height));
            }
            Ok(0)
        }
    }

    /// Records a transaction. An entry that is known already is kept, except that it moves from
    /// the mempool (height `0`) to its block.
    pub fn insert_transaction(
        &mut self,
        hash: &str,
        block_height: u32,
        direction: &str,
        value_raw: i64,
        token_id: &str,
        counterparty: Option<&str>,
        memo: Option<&str>,
        timestamp: &str,
    ) -> (done: Result<(), DbError>)
        requires
            old(self).wf(),
        ensures
            final(self).wf(),
            done is Ok,
            final(self)@ == old(self)@.recorded(
                (TxRecord {
                    hash: hash@,
                    block_height,
                    direction: direction@,
                    value_raw,
                    token_id: token_id@,
                    counterparty: opt_str(counterparty),
                    memo: opt_str(memo),
                    timestamp: timestamp@,
                }),
            ),
    {
        let ghost before = self@;
        proof {
            self.lemma_wf();
        }
        let ghost views = tx_views(self.tables.transactions@);
        let i: usize = find(&self.tables.transactions, hash);
        if i < self.tables.transactions.len() {
            assert(before.transactions[i as int].hash == hash@);
            let _ = self.confirm_transaction(hash, block_height);
            return Ok(());
        }
        let row = TransactionRow {
            hash: hash.to_owned(),
            block_height,
            direction: direction.to_owned(),
            value_raw,
            token_id: token_id.to_owned(),
            counterparty: own_text(counterparty),
            memo: own_text(memo),
            timestamp: timestamp.to_owned(),
        };
        let ghost entry = row@;
        self.tables.transactions.push(row);
        proof {
            let after = tx_views(self.tables.transactions@);
            assert(after =~= views.push(entry));
            assert(transactions_ok(after));
            assert(!before.has_transaction(hash@));
            assert(self@ =~= before.recorded(entry));
            self.lemma_wf_from_contents();
        }
        Ok(())
    }

    /// The history, most recent first, at most `limit` entries of it.
    pub fn list_transactions(&self, limit: u32) -> (listed: Result<Vec<TransactionRow>, DbError>)
        ensures
            listed matches Ok(v) && tx_views(v@) == if limit < self@.transactions.len() {
                newest_first(self@.transactions).take(limit as int)
            } else {
                newest_first(self@.transactions)
            },
    {
        let rows = &self.tables.transactions;
        let ghost views = tx_views(rows@);
        let mut keys: Vec<i64> = Vec::new();
        let mut i: usize = 0;
        while i < rows.len()
            invariant
                i <= rows.len(),
                keys@.len() == i,
                views == tx_views(rows@),
                forall|k: int| 0 <= k < i ==> (#[trigger] keys@[k]) == -(views[k].block_height),
            decreases rows.len() - i,
        {
            keys.push(-(rows[i].block_height as i64));
            i += 1;
        }
        assert(as_ints(keys@) =~= tx_ages(views));
        let order = sort_indices(&keys);
        let ghost ord = as_indices(order@);
        proof {
            law_stable_order(tx_ages(views));
        }
        let mut v: Vec<TransactionRow> = Vec::new();
        let mut n: usize = 0;
        while n < order.len() && (n as u64) < limit as u64
            invariant
                n <= order.len(),
                n <= limit,
                v@.len() == n,
                views == tx_views(rows@),
                ord == as_indices(order@),
                is_stable_order(ord, tx_ages(views), views.len() as int),
                forall|k: int| 0 <= k < n ==> (#[trigger] v@[k])@ == views[ord[k]],
            decreases order.len() - n,
        {
            assert(ord[n as int] == order@[n as int]);
            v.push(clone_transaction(&rows[order[n]]));
            n += 1;
        }
        assert(tx_views(v@) =~= newest_first(views).take(n as int));
        assert(newest_first(views).take(views.len() as int) =~= newest_first(views));
        Ok(v)
    }

    /// The history entry with this hash.
    pub fn get_transaction(&self, hash: &str) -> (found: Result<Option<TransactionRow>, DbError>)
        ensures
            match found {
                Ok(Some(row)) => row@.hash == hash@ && self@.transactions.contains(row@),
                Ok(None) => !self@.has_transaction(hash@),
                Err(_) => false,
            },
    {
        let i: usize = find(&self.tables.transactions, hash);
        if i < self.tables.transactions.len() {
            let row = clone_transaction(&self.tables.transactions[i]);
            assert(self@.transactions[i as int] == row@);
            Ok(Some(row))
        } else {
            Ok(None)
        }
    }
}

/// The height of a history entry moves once at most, out of the mempool; nothing else of an
/// entry ever changes, and no entry leaves.
pub proof fn law_history_keeps_entries(state: WalletState, entry: TxRecord, i: int)
    requires
        0 <= i < state.transactions.len(),
    ensures
        ({
            let was = state.transactions[i];
            let now = state.recorded(entry).transactions[i];
            &&& i < state.recorded(entry).transactions.len()
            &&& now == (TxRecord { block_height: now.block_height, ..was })
            &&& was.block_height != 0 ==> now == was
            &&& was.hash != entry.hash ==> now == was
        }),
{
}

/// A recorded transaction is in the history afterwards, and out of the mempool if it was
/// recorded with a block.
pub proof fn law_recorded_is_found(state: WalletState, entry: TxRecord)
    requires
        state.wf(),
    ensures
        state.recorded(entry).wf(),
        state.recorded(entry).has_transaction(entry.hash),
        entry.block_height != 0 ==> forall|i: int|
            0 <= i < state.recorded(entry).transactions.len() ==> !pending(
                #[trigger] state.recorded(entry).transactions[i],
                entry.hash,
            ),
{
    let after = state.recorded(entry);
    if state.has_transaction(entry.hash) {
        let i = choose|i: int|
            0 <= i < state.transactions.len() && (#[trigger] state.transactions[i]).hash
                == entry.hash;
        assert(after.transactions[i].hash == entry.hash);
    } else {
        let n = state.transactions.len() as int;
        assert(after.transactions[n] == entry);
    }
}

/// Listing the history puts later blocks first and the mempool last, and lists every entry.
pub proof fn law_listing_is_newest_first(history: Seq<TxRecord>)
    ensures
        newest_first(history).len() == history.len(),
        forall|i: int, j: int|
            0 <= i < j < history.len() ==> (#[trigger] newest_first(history)[i]).block_height >= (
            #[trigger] newest_first(history)[j]).block_height,
        newest_first(history).to_multiset() == history.to_multiset(),
{
    let keys = tx_ages(history);
    law_stable_order(keys);
    law_ordering_permutes(history, keys);
    assert(newest_first(history) =~= arranged(history, stable_order(keys)));
}

} // verus!
