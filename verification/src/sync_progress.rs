//! How a sync runs: its mode, and its progress over the passes.
use vstd::prelude::*;

verus! {

/// How a sync finds the wallet's notes.
#[derive(Debug, Clone, Copy, PartialEq, Eq, Structural)]
pub enum SyncMode {
    /// By trial decryption alone.
    ForceTrial,
    /// By the server's detection alone: where it fails, the sync does not advance.
    Strict,
    /// By the server's detection, with trial decryption where it fails.
    AllowTrial,
}

/// The mode that the command's switches ask for. Strict is the default.
pub fn sync_mode(force_trial: bool, allow_trial: bool) -> (mode: SyncMode)
    ensures
        mode == if force_trial {
            SyncMode::ForceTrial
        } else if allow_trial {
            SyncMode::AllowTrial
        } else {
            SyncMode::Strict
        },
{
    if force_trial {
        SyncMode::ForceTrial
    } else if allow_trial {
        SyncMode::AllowTrial
    } else {
        SyncMode::Strict
    }
}

impl SyncMode {
    /// Whether a failing detection ends the sync.
    pub fn strict(&self) -> (strict: bool)
        ensures
            strict == (*self == SyncMode::Strict),
    {
        *self == SyncMode::Strict
    }
}

/// What one pass of a sync did.
#[derive(Debug, Clone, Copy)]
pub struct SyncPass {
    pub blocks_scanned: u32,
    pub notes_found: u32,
    pub notes_spent: u32,
    /// The height of the chain's tip.
    pub tip_height: u32,
}

/// What the passes of a sync did together.
#[derive(Debug, Clone, Copy)]
pub struct SyncTotals {
    pub scanned: u64,
    pub found: u32,
    pub spent: u32,
}

/// The blocks scanned in passes.
pub open spec fn scanned_in(passes: Seq<SyncPass>) -> nat
    decreases passes.len(),
{
    if passes.len() == 0 {
        0
    } else {
        scanned_in(passes.drop_last()) + passes.last().blocks_scanned as nat
    }
}

/// The notes found in passes.
pub open spec fn found_in(passes: Seq<SyncPass>) -> nat
    decreases passes.len(),
{
    if passes.len() == 0 {
        0
    } else {
        found_in(passes.drop_last()) + passes.last().notes_found as nat
    }
}

/// The notes spent in passes.
pub open spec fn spent_in(passes: Seq<SyncPass>) -> nat
    decreases passes.len(),
{
    if passes.len() == 0 {
        0
    } else {
        spent_in(passes.drop_last()) + passes.last().notes_spent as nat
    }
}

impl SyncTotals {
    /// The totals of these passes.
    pub open spec fn sums(self, passes: Seq<SyncPass>) -> bool {
        &&& self.scanned == scanned_in(passes)
        &&& self.found == found_in(passes)
        &&& self.spent == spent_in(passes)
    }

    /// Before any pass.
    pub fn new() -> (totals: SyncTotals)
        ensures
            totals.sums(Seq::empty()),
    {
        SyncTotals { scanned: 0, found: 0, spent: 0 }
    }

    /// The totals take in another pass.
    pub open spec fn takes(self, pass: SyncPass) -> bool {
        &&& self.scanned + pass.blocks_scanned <= u64::MAX
        &&& self.found + pass.notes_found <= u32::MAX
        &&& self.spent + pass.notes_spent <= u32::MAX
    }

    /// Whether the totals can take in another pass.
    pub fn can_add(&self, pass: &SyncPass) -> (can: bool)
        ensures
            can == self.takes(*pass),
    {
        self.scanned <= u64::MAX - pass.blocks_scanned as u64 && self.found <= u32::MAX
            - pass.notes_found && self.spent <= u32::MAX - pass.notes_spent
    }

    /// Adds a pass, and says whether the sync is complete: nothing was scanned, or the wallet has
    /// reached the tip. `last_synced` is the height the wallet has got to, if it can be read.
    pub fn add_pass(&mut self, pass: &SyncPass, last_synced: Option<u32>) -> (complete: bool)
        requires
            old(self).takes(*pass),
        ensures
            final(self).scanned == old(self).scanned + pass.blocks_scanned,
            final(self).found == old(self).found + pass.notes_found,
            final(self).spent == old(self).spent + pass.notes_spent,
            forall|passes: Seq<SyncPass>| #[trigger]
                old(self).sums(passes) ==> final(self).sums(passes.push(*pass)),
            complete == (pass.blocks_scanned == 0 || match last_synced {
                Some(h) => h >= pass.tip_height,
                None => true,
            }),
    {
        let ghost before = *self;
        self.scanned = self.scanned + pass.blocks_scanned as u64;
        self.found = self.found + pass.notes_found;
        self.spent = self.spent + pass.notes_spent;
        proof {
            assert forall|passes: Seq<SyncPass>| #[trigger] before.sums(passes) implies self.sums(
                passes.push(*pass),
            ) by {
                assert(passes.push(*pass).drop_last() =~= passes);
            }
        }
        pass.blocks_scanned == 0 || match last_synced {
            Some(h) => h >= pass.tip_height,
            None => true,
        }
    }
}

/// Totals count each pass with the blocks it scanned and the notes it found and saw spent.
pub proof fn law_totals_of_passes(totals: SyncTotals, passes: Seq<SyncPass>, pass: SyncPass)
    ensures
        scanned_in(Seq::empty()) == 0,
        found_in(Seq::empty()) == 0,
        spent_in(Seq::empty()) == 0,
        scanned_in(passes.push(pass)) == scanned_in(passes) + pass.blocks_scanned,
        found_in(passes.push(pass)) == found_in(passes) + pass.notes_found,
        spent_in(passes.push(pass)) == spent_in(passes) + pass.notes_spent,
        totals.sums(passes) <==> totals.scanned == scanned_in(passes) && totals.found == found_in(
            passes,
        ) && totals.spent == spent_in(passes),
        totals.takes(pass) <==> totals.scanned + pass.blocks_scanned < 0x1_0000_0000_0000_0000
            && totals.found + pass.notes_found < 0x1_0000_0000 && totals.spent + pass.notes_spent
            < 0x1_0000_0000,
{
    assert(passes.push(pass).drop_last() =~= passes);
}

} // verus!
