//! Pruning of spent notes.
//!
//! A light wallet keeps as little as it can: a note spent longer ago than the retention window
//! is dropped. Reclaiming the disk space is left to the storage.
use crate::db::model::spent_below;
use crate::db::{DbError, WalletDb};
use vstd::prelude::*;

verus! {

/// For how many blocks below the sync height spent notes are kept.
pub const DEFAULT_RETENTION_BLOCKS: u32 = 1000;

/// Result of a pruning operation.
#[derive(Debug)]
pub struct PruneResult {
    pub notes_pruned: u32,
}

/// The height below which spent notes are pruned, once enough blocks are synced.
pub open spec fn cutoff(sync_height: u32) -> Option<u32> {
    if sync_height <= DEFAULT_RETENTION_BLOCKS {
        None
    } else {
        Some((sync_height - DEFAULT_RETENTION_BLOCKS) as u32)
    }
}

/// The height below which spent notes are pruned, once enough blocks are synced.
pub fn prune_cutoff(sync_height: u32) -> (height: Option<u32>)
    ensures
        height == cutoff(sync_height),
{
    if sync_height <= DEFAULT_RETENTION_BLOCKS {
        None
    } else {
        Some(sync_height - DEFAULT_RETENTION_BLOCKS)
    }
}

/// Prunes the notes spent before the retention window.
pub fn prune_wallet(db: &mut WalletDb) -> (result: Result<PruneResult, DbError>)
    requires
        old(db).wf(),
    ensures
        final(db).wf(),
        match cutoff(old(db)@.last_synced_height) {
            None => final(db)@ == old(db)@ && (result matches Ok(r) && r.notes_pruned == 0),
            Some(h) => final(db)@ == old(db)@.notes_deleted(spent_below(h)) && (result matches Ok(
                r,
            ) && r.notes_pruned == (old(db)@.count_notes(spent_below(h)) as usize) as u32),
        },
{
    let (sync_height, _) = match db.get_sync_state() {
        Ok(heights) => heights,
        Err(e) => {
            return Err(e);
        },
    };
    match prune_cutoff(sync_height) {
        None => Ok(PruneResult { notes_pruned: 0 }),
        Some(height) => match db.prune_spent_below(height) {
            Ok(pruned) => Ok(
                PruneResult { notes_pruned: #[verifier::truncate] (pruned as u32) },
            ),
            Err(e) => Err(e),
        },
    }
}

/// Nothing spent within the retention window is pruned.
pub proof fn law_window_is_kept(sync_height: u32, block_height: u32)
    requires
        block_height + DEFAULT_RETENTION_BLOCKS >= sync_height,
    ensures
        cutoff(sync_height) matches Some(h) ==> block_height >= h,
{
}

/// Everything spent before the retention window is pruned, and the window is a thousand blocks.
pub proof fn law_window_is_no_longer(sync_height: u32, block_height: u32)
    ensures
        block_height + 1000 < sync_height ==> (cutoff(sync_height) is Some && block_height < cutoff(
            sync_height,
        )->0),
        cutoff(sync_height) is Some && block_height < cutoff(sync_height)->0 ==> block_height + 1000
            < sync_height,
        cutoff(sync_height) is None <==> sync_height <= 1000,
{
}

} // verus!
