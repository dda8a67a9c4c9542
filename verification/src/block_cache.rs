//! Local cache of compact blocks for trial decryption.
//!
//! When detection by the server is unavailable or fails, the wallet scans all compact blocks
//! itself. The cache keeps serialised blocks by height so that they need not be downloaded
//! again, and drops them once the wallet has synced past a retention window. It also keeps
//! detection keys, which take long to build, under an opaque id.
use crate::bytes::copy_bytes;
use crate::db::rows::opt_bytes;
use crate::db::DbError;
use crate::pairs::{
    distinct_keys, lemma_pair_insert, lemma_pair_map, lemma_pair_update, lemma_same_pairs, pair_map,
};
use crate::text::bytes_eq;
use vstd::prelude::*;

verus! {

/// How many blocks below the sync height are kept.
pub const DEFAULT_BLOCK_RETENTION: u32 = 2000;

/// Cache of compact blocks and detection keys.
pub struct BlockCache {
    /// Blocks by strictly rising height.
    blocks: Vec<(u32, Vec<u8>)>,
    /// Detection keys by id.
    detection_keys: Vec<(Vec<u8>, Vec<u8>)>,
}

/// What a [`BlockCache`] holds.
#[verifier::ext_equal]
pub struct CacheState {
    /// Serialised blocks by height.
    pub blocks: Map<u32, Seq<u8>>,
    /// Detection keys by id.
    pub detection_keys: Map<Seq<u8>, Seq<u8>>,
}

/// Heights rise strictly.
pub open spec fn rising(rows: Seq<(u32, Vec<u8>)>) -> bool {
    forall|i: int, j: int|
        0 <= i < j < rows.len() ==> (#[trigger] rows[i]).0 < (#[trigger] rows[j]).0
}

/// The heights and contents of block rows, in the order of the rows.
pub open spec fn block_pairs(rows: Seq<(u32, Vec<u8>)>) -> Seq<(u32, Seq<u8>)> {
    Seq::new(rows.len(), |i: int| (rows[i].0, rows[i].1@))
}

/// The ids and contents of detection key rows, in the order of the rows.
pub open spec fn key_pairs(rows: Seq<(Vec<u8>, Vec<u8>)>) -> Seq<(Seq<u8>, Seq<u8>)> {
    Seq::new(rows.len(), |i: int| (rows[i].0@, rows[i].1@))
}

/// The blocks from this height on.
pub open spec fn blocks_from(blocks: Map<u32, Seq<u8>>, height: u32) -> Map<u32, Seq<u8>> {
    blocks.restrict(Set::new(|h: u32| h >= height))
}

/// Every height from `start` to `end` is cached.
pub open spec fn all_cached(blocks: Map<u32, Seq<u8>>, start: u32, end: u32) -> bool {
    forall|h: u32| start <= h <= end ==> #[trigger] blocks.contains_key(h)
}

/// The rows are the cached blocks from `start` to `end`, each once, by rising height.
pub open spec fn is_range_of(
    rows: Seq<(u32, Vec<u8>)>,
    blocks: Map<u32, Seq<u8>>,
    start: u32,
    end: u32,
) -> bool {
    &&& rising(rows)
    &&& forall|i: int|
        0 <= i < rows.len() ==> start <= (#[trigger] rows[i]).0 <= end && blocks.contains_key(
            rows[i].0,
        ) && rows[i].1@ == blocks[rows[i].0]
    &&& forall|h: u32|
        start <= h <= end && #[trigger] blocks.contains_key(h) ==> exists|i: int|
            0 <= i < rows.len() && (#[trigger] rows[i]).0 == h
}

/// The summed lengths of the first `n` blocks.
pub open spec fn size_upto(rows: Seq<(u32, Vec<u8>)>, n: int) -> int
    decreases n,
{
    if n <= 0 {
        0
    } else {
        size_upto(rows, n - 1) + rows[n - 1].1@.len()
    }
}

/// The summed lengths of cached blocks.
pub open spec fn total_size(blocks: Map<u32, Seq<u8>>) -> int
    decreases blocks.dom().len(),
    when blocks.dom().finite()
{
    if blocks.dom().len() == 0 {
        0
    } else {
        let h = blocks.dom().choose();
        total_size(blocks.remove(h)) + blocks[h].len()
    }
}

/// A block adds its length to the size.
proof fn lemma_size_remove(blocks: Map<u32, Seq<u8>>, h: u32)
    requires
        blocks.dom().finite(),
        blocks.contains_key(h),
    ensures
        total_size(blocks) == total_size(blocks.remove(h)) + blocks[h].len(),
    decreases blocks.dom().len(),
{
    let c = blocks.dom().choose();
    assert(blocks.dom().contains(c));
    if c != h {
        lemma_size_remove(blocks.remove(c), h);
        assert(blocks.remove(c).remove(h) =~= blocks.remove(h).remove(c));
        lemma_size_remove(blocks.remove(h), c);
    }
}

/// The rows add up to the size of what they hold.
proof fn lemma_size_of_rows(rows: Seq<(u32, Vec<u8>)>, n: int)
    requires
        rising(rows),
        0 <= n <= rows.len(),
    ensures
        size_upto(rows, n) == total_size(pair_map(block_pairs(rows.take(n)))),
        pair_map(block_pairs(rows.take(n))).dom().finite(),
    decreases n,
{
    let pairs = block_pairs(rows.take(n));
    lemma_rising_distinct(rows.take(n));
    lemma_pair_map(pairs);
    if n > 0 {
        lemma_size_of_rows(rows, n - 1);
        let before = block_pairs(rows.take(n - 1));
        lemma_rising_distinct(rows.take(n - 1));
        lemma_pair_map(before);
        assert(pairs.drop_last() =~= before);
        let h = rows[n - 1].0;
        assert(!pair_map(before).contains_key(h)) by {
            if pair_map(before).contains_key(h) {
                let i = choose|i: int| 0 <= i < before.len() && (#[trigger] before[i]).0 == h;
                assert(rows[i].0 < rows[n - 1].0);
            }
        }
        lemma_size_remove(pair_map(pairs), h);
        assert(pair_map(pairs).remove(h) =~= pair_map(before));
    } else {
        assert(pair_map(pairs).dom().len() == 0);
    }
}

proof fn lemma_rising_distinct(rows: Seq<(u32, Vec<u8>)>)
    requires
        rising(rows),
    ensures
        distinct_keys(block_pairs(rows)),
{
    let pairs = block_pairs(rows);
    assert forall|i: int, j: int| 0 <= i < j < pairs.len() implies (#[trigger] pairs[i]).0 != (
    #[trigger] pairs[j]).0 by {
        assert(rows[i].0 < rows[j].0);
    }
}

/// What the map of rising rows holds.
proof fn lemma_blocks(rows: Seq<(u32, Vec<u8>)>)
    requires
        rising(rows),
    ensures
        distinct_keys(block_pairs(rows)),
        forall|i: int|
            0 <= i < rows.len() ==> pair_map(block_pairs(rows)).contains_key((#[trigger] rows[i]).0)
                && pair_map(block_pairs(rows))[rows[i].0] == rows[i].1@,
        forall|h: u32| #[trigger]
            pair_map(block_pairs(rows)).contains_key(h) ==> exists|i: int|
                0 <= i < rows.len() && (#[trigger] rows[i]).0 == h,
        pair_map(block_pairs(rows)).dom().finite(),
        pair_map(block_pairs(rows)).len() == rows.len(),
{
    let pairs = block_pairs(rows);
    lemma_rising_distinct(rows);
    lemma_pair_map(pairs);
    assert forall|i: int| 0 <= i < rows.len() implies pair_map(pairs).contains_key(
        (#[trigger] rows[i]).0,
    ) && pair_map(pairs)[rows[i].0] == rows[i].1@ by {
        assert(pairs[i].0 == rows[i].0);
    }
    assert forall|h: u32| #[trigger] pair_map(pairs).contains_key(h) implies exists|i: int|
        0 <= i < rows.len() && (#[trigger] rows[i]).0 == h by {
        let i = choose|i: int| 0 <= i < pairs.len() && (#[trigger] pairs[i]).0 == h;
        assert(rows[i].0 == h);
    }
}

/// The number of rows below a height.
fn lower_bound(rows: &Vec<(u32, Vec<u8>)>, height: u32) -> (at: usize)
    requires
        rising(rows@),
    ensures
        at <= rows@.len(),
        forall|i: int| 0 <= i < at ==> (#[trigger] rows@[i]).0 < height,
        forall|i: int| at <= i < rows@.len() ==> (#[trigger] rows@[i]).0 >= height,
{
    let mut lo: usize = 0;
    let mut hi: usize = rows.len();
    while lo < hi
        invariant
            rising(rows@),
            lo <= hi <= rows@.len(),
            forall|i: int| 0 <= i < lo ==> (#[trigger] rows@[i]).0 < height,
            forall|i: int| hi <= i < rows@.len() ==> (#[trigger] rows@[i]).0 >= height,
        decreases hi - lo,
    {
        let mid: usize = lo + (hi - lo) / 2;
        if rows[mid].0 < height {
            assert forall|i: int| 0 <= i < mid + 1 implies (#[trigger] rows@[i]).0 < height by {
                if i < mid {
                    assert(rows@[i].0 < rows@[mid as int].0);
                }
            }
            lo = mid + 1;
        } else {
            assert forall|i: int| mid <= i < rows@.len() implies (#[trigger] rows@[i]).0
                >= height by {
                if mid < i {
                    assert(rows@[mid as int].0 < rows@[i].0);
                }
            }
            hi = mid;
        }
    }
    lo
}

/// The number of rows up to a height.
fn upper_bound(rows: &Vec<(u32, Vec<u8>)>, height: u32) -> (at: usize)
    requires
        rising(rows@),
    ensures
        at <= rows@.len(),
        forall|i: int| 0 <= i < at ==> (#[trigger] rows@[i]).0 <= height,
        forall|i: int| at <= i < rows@.len() ==> (#[trigger] rows@[i]).0 > height,
{
    if height == u32::MAX {
        rows.len()
    } else {
        lower_bound(rows, height + 1)
    }
}

/// Whether heights rise strictly.
fn check_rising(rows: &Vec<(u32, Vec<u8>)>) -> (ok: bool)
    ensures
        ok == rising(rows@),
{
    let mut i: usize = 0;
    while i < rows.len()
        invariant
            i <= rows.len(),
            rising(rows@.take(i as int)),
        decreases rows.len() - i,
    {
        let ghost next = rows@.take(i as int + 1);
        if i > 0 && rows[i - 1].0 >= rows[i].0 {
            assert(!rising(rows@)) by {
                assert(rows@[i as int - 1].0 >= rows@[i as int].0);
            }
            return false;
        }
        assert forall|a: int, b: int| 0 <= a < b < next.len() implies (#[trigger] next[a]).0 < (
        #[trigger] next[b]).0 by {
            let was = rows@.take(i as int);
            assert(next[a] == was[a]);
            if b < i {
                assert(next[b] == was[b]);
            } else if a < i - 1 {
                assert(was[a].0 < was[i as int - 1].0);
            }
        }
        i += 1;
    }
    assert(rows@.take(i as int) =~= rows@);
    true
}

/// The position of a detection key.
fn find_key(rows: &Vec<(Vec<u8>, Vec<u8>)>, key_id: &[u8]) -> (found: Option<usize>)
    ensures
        match found {
            Some(i) => i < rows@.len() && key_pairs(rows@)[i as int].0 == key_id@,
            None => forall|i: int|
                0 <= i < rows@.len() ==> (#[trigger] key_pairs(rows@)[i]).0 != key_id@,
        },
{
    let ghost pairs = key_pairs(rows@);
    let mut i: usize = 0;
    while i < rows.len()
        invariant
            i <= rows.len(),
            pairs == key_pairs(rows@),
            forall|j: int| 0 <= j < i ==> (#[trigger] pairs[j]).0 != key_id@,
        decreases rows.len() - i,
    {
        assert(pairs[i as int].0 == rows@[i as int].0@);
        if bytes_eq(rows[i].0.as_slice(), key_id) {
            return Some(i);
        }
        i += 1;
    }
    None
}

/// Whether detection key ids are distinct.
fn check_keys(rows: &Vec<(Vec<u8>, Vec<u8>)>) -> (ok: bool)
    ensures
        ok == distinct_keys(key_pairs(rows@)),
{
    let ghost pairs = key_pairs(rows@);
    let mut j: usize = 0;
    while j < rows.len()
        invariant
            j <= rows.len(),
            pairs == key_pairs(rows@),
            forall|a: int, b: int|
                0 <= a < b < j ==> (#[trigger] pairs[a]).0 != (#[trigger] pairs[b]).0,
        decreases rows.len() - j,
    {
        let mut i: usize = 0;
        while i < j
            invariant
                i <= j < rows.len(),
                pairs == key_pairs(rows@),
                forall|a: int| 0 <= a < i ==> (#[trigger] pairs[a]).0 != pairs[j as int].0,
            decreases j - i,
        {
            assert(pairs[i as int].0 == rows@[i as int].0@);
            assert(pairs[j as int].0 == rows@[j as int].0@);
            if bytes_eq(rows[i].0.as_slice(), rows[j].0.as_slice()) {
                return false;
            }
            i += 1;
        }
        j += 1;
    }
    true
}

impl View for BlockCache {
    type V = CacheState;

    closed spec fn view(&self) -> CacheState {
        CacheState {
            blocks: pair_map(block_pairs(self.blocks@)),
            detection_keys: pair_map(key_pairs(self.detection_keys@)),
        }
    }
}

impl BlockCache {
    /// The invariant of the cache.
    pub closed spec fn wf(&self) -> bool {
        rising(self.blocks@) && distinct_keys(key_pairs(self.detection_keys@))
    }

    /// An empty cache.
    pub fn in_memory() -> (cache: Result<BlockCache, DbError>)
        ensures
            cache matches Ok(c) && c.wf() && c@ == (CacheState {
                blocks: Map::empty(),
                detection_keys: Map::empty(),
            }),
    {
        Ok(BlockCache { blocks: Vec::new(), detection_keys: Vec::new() })
    }

    /// A cache over stored rows. Blocks that do not rise by height, and detection keys that
    /// share an id, are refused.
    pub fn open(blocks: Vec<(u32, Vec<u8>)>, detection_keys: Vec<(Vec<u8>, Vec<u8>)>) -> (cache:
        Result<BlockCache, DbError>)
        ensures
            match cache {
                Ok(c) => {
                    &&& rising(blocks@)
                    &&& distinct_keys(key_pairs(detection_keys@))
                    &&& c.wf()
                    &&& c@ == (CacheState {
                        blocks: pair_map(block_pairs(blocks@)),
                        detection_keys: pair_map(key_pairs(detection_keys@)),
                    })
                },
                Err(e) => {
                    &&& e is Corrupt
                    &&& !(rising(blocks@) && distinct_keys(key_pairs(detection_keys@)))
                },
            },
    {
        if check_rising(&blocks) && check_keys(&detection_keys) {
            Ok(BlockCache { blocks, detection_keys })
        } else {
            Err(DbError::Corrupt)
        }
    }

    /// The blocks and the detection keys, to be stored.
    pub fn rows(&self) -> (rows: (&Vec<(u32, Vec<u8>)>, &Vec<(Vec<u8>, Vec<u8>)>))
        requires
            self.wf(),
        ensures
            rising(rows.0@),
            distinct_keys(key_pairs(rows.1@)),
            pair_map(block_pairs(rows.0@)) == self@.blocks,
            pair_map(key_pairs(rows.1@)) == self@.detection_keys,
    {
        (&self.blocks, &self.detection_keys)
    }

    /// Caches a block, in place of what was cached at its height.
    pub fn insert_block(&mut self, height: u32, data: &[u8]) -> (done: Result<(), DbError>)
        requires
            old(self).wf(),
        ensures
            final(self).wf(),
            done is Ok,
            final(self)@ == (CacheState {
                blocks: old(self)@.blocks.insert(height, data@),
                ..old(self)@
            }),
    {
        let ghost before = self.blocks@;
        let ghost pairs = block_pairs(before);
        proof {
            lemma_rising_distinct(before);
        }
        let at: usize = lower_bound(&self.blocks, height);
        if at < self.blocks.len() && self.blocks[at].0 == height {
            self.blocks[at].1 = copy_bytes(data);
            proof {
                lemma_pair_update(pairs, at as int, data@);
                assert(block_pairs(self.blocks@) =~= pairs.update(at as int, (height, data@)));
                let rows = self.blocks@;
                assert forall|a: int, b: int| 0 <= a < b < rows.len() implies (#[trigger] rows[a]).0
                    < (#[trigger] rows[b]).0 by {
                    assert(before[a].0 < before[b].0);
                }
            }
        } else {
            self.blocks.insert(at, (height, copy_bytes(data)));
            proof {
                let rows = self.blocks@;
                assert forall|j: int| 0 <= j < pairs.len() implies (#[trigger] pairs[j]).0
                    != height by {
                    if at < j {
                        assert(before[at as int].0 < before[j].0);
                    } else {
                        assert(before[j].0 == pairs[j].0);
                    }
                }
                lemma_pair_insert(pairs, at as int, height, data@);
                assert(block_pairs(rows) =~= pairs.insert(at as int, (height, data@)));
                assert forall|a: int, b: int| 0 <= a < b < rows.len() implies (#[trigger] rows[a]).0
                    < (#[trigger] rows[b]).0 by {
                    let x = if a < at {
                        a
                    } else {
                        a - 1
                    };
                    let y = if b < at {
                        b
                    } else {
                        b - 1
                    };
                    if a == at {
                        assert(rows[b] == before[y]);
                        assert(pairs[y].0 != height);
                    } else if b == at {
                        assert(rows[a] == before[x]);
                    } else {
                        assert(rows[a] == before[x] && rows[b] == before[y]);
                    }
                }
            }
        }
        Ok(())
    }

    /// The block cached at a height.
    pub fn get_block(&self, height: u32) -> (data: Result<Option<Vec<u8>>, DbError>)
        requires
            self.wf(),
        ensures
            data matches Ok(d) && opt_bytes(d) == if self@.blocks.contains_key(height) {
                Some(self@.blocks[height])
            } else {
                None
            },
    {
        proof {
            lemma_blocks(self.blocks@);
        }
        let at: usize = lower_bound(&self.blocks, height);
        if at < self.blocks.len() && self.blocks[at].0 == height {
            Ok(Some(copy_bytes(self.blocks[at].1.as_slice())))
        } else {
            proof {
                if self@.blocks.contains_key(height) {
                    let i = choose|i: int|
                        0 <= i < self.blocks@.len() && (#[trigger] self.blocks@[i]).0 == height;
                    assert(self.blocks@[at as int].0 < self.blocks@[i].0);
                }
            }
            Ok(None)
        }
    }

    /// The blocks cached from `start` to `end`, by rising height.
    pub fn get_range(&self, start: u32, end: u32) -> (rows: Result<Vec<(u32, Vec<u8>)>, DbError>)
        requires
            self.wf(),
        ensures
            rows matches Ok(r) && is_range_of(r@, self@.blocks, start, end),
    {
        let ghost all = self.blocks@;
        proof {
            lemma_blocks(all);
        }
        let lo: usize = lower_bound(&self.blocks, start);
        let hi: usize = upper_bound(&self.blocks, end);
        let mut out: Vec<(u32, Vec<u8>)> = Vec::new();
        let mut i: usize = lo;
        while i < hi
            invariant
                all == self.blocks@,
                rising(all),
                hi <= all.len(),
                lo <= i,
                lo <= hi ==> i <= hi,
                lo > hi ==> i == lo,
                out@.len() == i - lo,
                forall|k: int|
                    0 <= k < out@.len() ==> (#[trigger] out@[k]).0 == all[lo + k].0 && out@[k].1@
                        == all[lo + k].1@,
            decreases hi - i,
        {
            out.push((self.blocks[i].0, copy_bytes(self.blocks[i].1.as_slice())));
            i += 1;
        }
        proof {
            let r = out@;
            assert forall|a: int, b: int| 0 <= a < b < r.len() implies (#[trigger] r[a]).0 < (
            #[trigger] r[b]).0 by {
                assert(all[lo + a].0 < all[lo + b].0);
            }
            assert forall|k: int| 0 <= k < r.len() implies start <= (#[trigger] r[k]).0 <= end
                && self@.blocks.contains_key(r[k].0) && r[k].1@ == self@.blocks[r[k].0] by {
                assert(r[k].0 == all[lo + k].0);
            }
            assert forall|h: u32|
                start <= h <= end && #[trigger] self@.blocks.contains_key(h) implies exists|k: int|
                0 <= k < r.len() && (#[trigger] r[k]).0 == h by {
                let j = choose|j: int| 0 <= j < all.len() && (#[trigger] all[j]).0 == h;
                assert(lo <= j < hi);
                assert(r[j - lo].0 == h);
            }
        }
        Ok(out)
    }

    /// The greatest cached height, or `0` where nothing is cached.
    pub fn highest_cached(&self) -> (height: Result<u32, DbError>)
        requires
            self.wf(),
        ensures
            height matches Ok(h) && if self@.blocks.dom().is_empty() {
                h == 0
            } else {
                self@.blocks.contains_key(h) && forall|x: u32| #[trigger]
                    self@.blocks.contains_key(x) ==> x <= h
            },
    {
        let ghost all = self.blocks@;
        proof {
            lemma_blocks(all);
        }
        let n: usize = self.blocks.len();
        if n == 0 {
            assert(self@.blocks.dom() =~= Set::empty());
            return Ok(0);
        }
        let h: u32 = self.blocks[n - 1].0;
        proof {
            assert(self@.blocks.dom().contains(h));
            assert forall|x: u32| #[trigger] self@.blocks.contains_key(x) implies x <= h by {
                let i = choose|i: int| 0 <= i < all.len() && (#[trigger] all[i]).0 == x;
                if i < n - 1 {
                    assert(all[i].0 < all[n - 1].0);
                }
            }
        }
        Ok(h)
    }

    /// The least cached height.
    pub fn lowest_cached(&self) -> (height: Result<Option<u32>, DbError>)
        requires
            self.wf(),
        ensures
            match height {
                Ok(None) => self@.blocks.dom().is_empty(),
                Ok(Some(h)) => self@.blocks.contains_key(h) && forall|x: u32| #[trigger]
                    self@.blocks.contains_key(x) ==> h <= x,
                Err(_) => false,
            },
    {
        let ghost all = self.blocks@;
        proof {
            lemma_blocks(all);
        }
        if self.blocks.len() == 0 {
            assert(self@.blocks.dom() =~= Set::empty());
            return Ok(None);
        }
        let h: u32 = self.blocks[0].0;
        proof {
            assert forall|x: u32| #[trigger] self@.blocks.contains_key(x) implies h <= x by {
                let i = choose|i: int| 0 <= i < all.len() && (#[trigger] all[i]).0 == x;
                if i > 0 {
                    assert(all[0].0 < all[i].0);
                }
            }
        }
        Ok(Some(h))
    }

    /// The number of cached blocks.
    pub fn count(&self) -> (count: Result<u32, DbError>)
        requires
            self.wf(),
        ensures
            self@.blocks.dom().finite(),
            match count {
                Ok(n) => n == self@.blocks.len(),
                Err(e) => e is IntegerOverflow && self@.blocks.len() > u32::MAX,
            },
    {
        proof {
            lemma_blocks(self.blocks@);
        }
        let n: usize = self.blocks.len();
        if n as u64 <= u32::MAX as u64 {
            Ok(n as u32)
        } else {
            Err(DbError::IntegerOverflow)
        }
    }

    /// The summed lengths of the cached blocks.
    pub fn size_bytes(&self) -> (size: Result<i64, DbError>)
        requires
            self.wf(),
        ensures
            self@.blocks.dom().finite(),
            match size {
                Ok(n) => n == total_size(self@.blocks),
                Err(e) => e is IntegerOverflow && total_size(self@.blocks) > i64::MAX,
            },
    {
        let ghost all = self.blocks@;
        proof {
            lemma_blocks(all);
            lemma_size_of_rows(all, all.len() as int);
            assert(all.take(all.len() as int) =~= all);
        }
        let mut size: i64 = 0;
        let mut i: usize = 0;
        while i < self.blocks.len()
            invariant
                self.wf(),
                all == self.blocks@,
                self@.blocks.dom().finite(),
                i <= self.blocks.len(),
                0 <= size == size_upto(all, i as int),
                size_upto(all, all.len() as int) == total_size(self@.blocks),
            decreases self.blocks.len() - i,
        {
            let n: usize = self.blocks[i].1.len();
            proof {
                lemma_size_rises(all, i as int + 1, all.len() as int);
            }
            if n as u64 > (i64::MAX - size) as u64 {
                return Err(DbError::IntegerOverflow);
            }
            size = size + n as i64;
            i += 1;
        }
        Ok(size)
    }

    /// Drops the blocks below a height and counts them.
    pub fn prune_below(&mut self, height: u32) -> (count: Result<usize, DbError>)
        requires
            old(self).wf(),
        ensures
            final(self).wf(),
            old(self)@.blocks.dom().finite(),
            final(self)@ == (CacheState {
                blocks: blocks_from(old(self)@.blocks, height),
                ..old(self)@
            }),
            count matches Ok(n) && n == old(self)@.blocks.len() - final(self)@.blocks.len(),
    {
        let ghost before = self.blocks@;
        let ghost was = self@;
        proof {
            lemma_blocks(before);
        }
        let at: usize = lower_bound(&self.blocks, height);
        let kept = self.blocks.split_off(at);
        self.blocks = kept;
        proof {
            let rows = self.blocks@;
            assert forall|i: int| 0 <= i < rows.len() implies #[trigger] rows[i] == before[at
                + i] by {}
            assert(rising(rows));
            lemma_blocks(rows);
            let m = blocks_from(was.blocks, height);
            let pairs = block_pairs(rows);
            assert forall|i: int| 0 <= i < pairs.len() implies m.contains_key(
                (#[trigger] pairs[i]).0,
            ) && m[pairs[i].0] == pairs[i].1 by {
                assert(rows[i] == before[at + i]);
            }
            assert forall|h: u32| #[trigger] m.contains_key(h) implies exists|i: int|
                0 <= i < pairs.len() && (#[trigger] pairs[i]).0 == h by {
                assert(was.blocks.contains_key(h));
                let j = choose|j: int| 0 <= j < before.len() && (#[trigger] before[j]).0 == h;
                assert(j >= at);
                assert(rows[j - at] == before[j]);
                assert(pairs[j - at].0 == h);
            }
            lemma_same_pairs(pairs, m);
        }
        Ok(at)
    }

    /// Drops the blocks that lie further below the sync height than the retention window, and
    /// counts them.
    pub fn prune_for_sync_height(&mut self, sync_height: u32) -> (count: Result<usize, DbError>)
        requires
            old(self).wf(),
        ensures
            final(self).wf(),
            old(self)@.blocks.dom().finite(),
            final(self)@ == (CacheState {
                blocks: blocks_from(old(self)@.blocks, retained_from(sync_height)),
                ..old(self)@
            }),
            count matches Ok(n) && n == old(self)@.blocks.len() - final(self)@.blocks.len(),
    {
        if sync_height <= DEFAULT_BLOCK_RETENTION {
            proof {
                lemma_blocks(self.blocks@);
                assert(blocks_from(self@.blocks, 0) =~= self@.blocks);
            }
            return Ok(0);
        }
        self.prune_below(sync_height - DEFAULT_BLOCK_RETENTION)
    }

    /// Whether every height from `start` to `end` is cached.
    pub fn is_range_cached(&self, start: u32, end: u32) -> (cached: Result<bool, DbError>)
        requires
            self.wf(),
            start <= end,
            end - start < u32::MAX,
        ensures
            cached matches Ok(c) && c == all_cached(self@.blocks, start, end),
    {
        let ghost all = self.blocks@;
        proof {
            lemma_blocks(all);
        }
        let expected: u32 = end - start + 1;
        let lo: usize = lower_bound(&self.blocks, start);
        let hi: usize = upper_bound(&self.blocks, end);
        proof {
            if lo > hi {
                assert(all[hi as int].0 > end);
            }
            lemma_range_count(all, lo as int, hi as int, start, end);
        }
        let actual: usize = hi - lo;
        Ok(actual as u64 == expected as u64)
    }

    /// The detection key stored under an id.
    pub fn get_detection_key(&self, key_id: &[u8]) -> (key: Result<Option<Vec<u8>>, DbError>)
        requires
            self.wf(),
        ensures
            key matches Ok(k) && opt_bytes(k) == if self@.detection_keys.contains_key(key_id@) {
                Some(self@.detection_keys[key_id@])
            } else {
                None
            },
    {
        proof {
            lemma_pair_map(key_pairs(self.detection_keys@));
        }
        match find_key(&self.detection_keys, key_id) {
            Some(i) => Ok(Some(copy_bytes(self.detection_keys[i].1.as_slice()))),
            None => Ok(None),
        }
    }

    /// Stores a detection key under an id, in place of what was there.
    pub fn put_detection_key(&mut self, key_id: &[u8], det_key: &[u8]) -> (done: Result<
        (),
        DbError,
    >)
        requires
            old(self).wf(),
        ensures
            final(self).wf(),
            done is Ok,
            final(self)@ == (CacheState {
                detection_keys: old(self)@.detection_keys.insert(key_id@, det_key@),
                ..old(self)@
            }),
    {
        let ghost pairs = key_pairs(self.detection_keys@);
        match find_key(&self.detection_keys, key_id) {
            Some(i) => {
                self.detection_keys[i].1 = copy_bytes(det_key);
                proof {
                    lemma_pair_update(pairs, i as int, det_key@);
                    assert(key_pairs(self.detection_keys@) =~= pairs.update(
                        i as int,
                        (key_id@, det_key@),
                    ));
                }
            },
            None => {
                self.detection_keys.push((copy_bytes(key_id), copy_bytes(det_key)));
                proof {
                    let n = pairs.len() as int;
                    lemma_pair_insert(pairs, n, key_id@, det_key@);
                    assert(key_pairs(self.detection_keys@) =~= pairs.insert(
                        n,
                        (key_id@, det_key@),
                    ));
                }
            },
        }
        Ok(())
    }
}

/// The least height that the retention window keeps.
pub open spec fn retained_from(sync_height: u32) -> u32 {
    if sync_height <= DEFAULT_BLOCK_RETENTION {
        0
    } else {
        (sync_height - DEFAULT_BLOCK_RETENTION) as u32
    }
}

proof fn lemma_size_rises(rows: Seq<(u32, Vec<u8>)>, a: int, b: int)
    requires
        0 <= a <= b <= rows.len(),
    ensures
        size_upto(rows, a) <= size_upto(rows, b),
    decreases b - a,
{
    if a < b {
        lemma_size_rises(rows, a, b - 1);
    }
}

/// Rows that rise strictly fill an interval exactly if there are as many as it has heights.
proof fn lemma_range_count(rows: Seq<(u32, Vec<u8>)>, lo: int, hi: int, start: u32, end: u32)
    requires
        rising(rows),
        0 <= lo <= hi <= rows.len(),
        start <= end,
        forall|i: int| 0 <= i < lo ==> (#[trigger] rows[i]).0 < start,
        forall|i: int| lo <= i < rows.len() ==> (#[trigger] rows[i]).0 >= start,
        forall|i: int| 0 <= i < hi ==> (#[trigger] rows[i]).0 <= end,
        forall|i: int| hi <= i < rows.len() ==> (#[trigger] rows[i]).0 > end,
    ensures
        (hi - lo == end - start + 1) == all_cached(pair_map(block_pairs(rows)), start, end),
{
    let m = pair_map(block_pairs(rows));
    lemma_blocks(rows);
    if hi - lo == end - start + 1 {
        assert forall|h: u32| start <= h <= end implies #[trigger] m.contains_key(h) by {
            let i = lo + (h - start);
            lemma_climbs(rows, lo, i);
            lemma_climbs(rows, i, hi - 1);
            assert(rows[i].0 == h);
        }
    }
    if all_cached(m, start, end) {
        lemma_filled(rows, lo, start, end, end - start);
        let j = choose|j: int| 0 <= j < rows.len() && (#[trigger] rows[j]).0 == end;
        assert(m.contains_key(end));
        assert(j < hi);
        if hi > lo {
            lemma_climbs(rows, lo, hi - 1);
        }
    }
}

/// Strictly rising heights rise by one at least at each step.
proof fn lemma_climbs(rows: Seq<(u32, Vec<u8>)>, a: int, b: int)
    requires
        rising(rows),
        0 <= a <= b < rows.len(),
    ensures
        rows[b].0 - rows[a].0 >= b - a,
    decreases b - a,
{
    if a < b {
        lemma_climbs(rows, a, b - 1);
        assert(rows[b - 1].0 < rows[b].0);
    }
}

/// Where all heights of an interval are there, the one `k` above its start is `k` rows behind
/// the first of them at least.
proof fn lemma_filled(rows: Seq<(u32, Vec<u8>)>, lo: int, start: u32, end: u32, k: int)
    requires
        rising(rows),
        0 <= lo <= rows.len(),
        forall|i: int| 0 <= i < lo ==> (#[trigger] rows[i]).0 < start,
        all_cached(pair_map(block_pairs(rows)), start, end),
        0 <= k <= end - start,
    ensures
        forall|j: int|
            0 <= j < rows.len() && (#[trigger] rows[j]).0 == start + k ==> j >= lo + k,
    decreases k,
{
    lemma_blocks(rows);
    if k > 0 {
        lemma_filled(rows, lo, start, end, k - 1);
        let h = (start + k - 1) as u32;
        assert(pair_map(block_pairs(rows)).contains_key(h));
        let i = choose|i: int| 0 <= i < rows.len() && (#[trigger] rows[i]).0 == h;
        assert forall|j: int| 0 <= j < rows.len() && (#[trigger] rows[j]).0 == start
            + k implies j >= lo + k by {
            if j <= i {
                if j < i {
                    assert(rows[j].0 < rows[i].0);
                }
            }
        }
    }
}

/// A cached block is read back, and caching it leaves every other height alone.
pub proof fn law_block_reads_back(
    blocks: Map<u32, Seq<u8>>,
    height: u32,
    data: Seq<u8>,
    other: u32,
)
    ensures
        blocks.insert(height, data).contains_key(height),
        blocks.insert(height, data)[height] == data,
        other != height ==> blocks.insert(height, data).contains_key(other) == blocks.contains_key(
            other,
        ) && blocks.insert(height, data)[other] == blocks[other],
{
}

/// A stored detection key is read back, and storing it leaves every other id alone.
pub proof fn law_detection_key_reads_back(
    keys: Map<Seq<u8>, Seq<u8>>,
    key_id: Seq<u8>,
    det_key: Seq<u8>,
    other: Seq<u8>,
)
    ensures
        keys.insert(key_id, det_key).contains_key(key_id),
        keys.insert(key_id, det_key)[key_id] == det_key,
        other != key_id ==> keys.insert(key_id, det_key).contains_key(other) == keys.contains_key(
            other,
        ) && keys.insert(key_id, det_key)[other] == keys[other],
{
}

/// Pruning for a sync height keeps the blocks of the retention window and none below it.
pub proof fn law_retention_window(blocks: Map<u32, Seq<u8>>, sync_height: u32, h: u32)
    ensures
        blocks_from(blocks, retained_from(sync_height)).contains_key(h) == (blocks.contains_key(h)
            && h + DEFAULT_BLOCK_RETENTION >= sync_height),
        blocks_from(blocks, retained_from(sync_height)).contains_key(h) ==> blocks_from(
            blocks,
            retained_from(sync_height),
        )[h] == blocks[h],
{
}

/// Pruning below a height leaves the blocks from it on as they were, and no other.
pub proof fn law_pruned_blocks(blocks: Map<u32, Seq<u8>>, height: u32, h: u32)
    ensures
        blocks_from(blocks, height).contains_key(h) <==> blocks.contains_key(h) && !(h < height),
        blocks_from(blocks, height).contains_key(h) ==> blocks_from(blocks, height)[h] == blocks[h],
{
}

/// The retention window reaches two thousand blocks below the sync height.
pub proof fn law_retained_heights(sync_height: u32)
    ensures
        sync_height >= 2000 ==> retained_from(sync_height) + 2000 == sync_height,
        sync_height < 2000 ==> retained_from(sync_height) == 0,
{
}

/// A range is cached exactly where none of its heights is missing.
pub proof fn law_cached_ranges(blocks: Map<u32, Seq<u8>>, start: u32, end: u32)
    ensures
        all_cached(blocks, start, end) <==> !exists|h: u32|
            start <= h <= end && !#[trigger] blocks.contains_key(h),
{
}

/// The rows of a range are the blocks cached in it, each once and by rising height.
pub proof fn law_rows_of_a_range(
    rows: Seq<(u32, Vec<u8>)>,
    blocks: Map<u32, Seq<u8>>,
    start: u32,
    end: u32,
    h: u32,
    i: int,
    j: int,
)
    requires
        is_range_of(rows, blocks, start, end),
    ensures
        0 <= i < j < rows.len() ==> rows[i].0 < rows[j].0,
        0 <= i < rows.len() ==> start <= rows[i].0 <= end && blocks.contains_key(rows[i].0)
            && rows[i].1@ == blocks[rows[i].0],
        start <= h <= end && blocks.contains_key(h) ==> exists|k: int|
            0 <= k < rows.len() && (#[trigger] rows[k]).0 == h && rows[k].1@ == blocks[h],
{
    if start <= h <= end && blocks.contains_key(h) {
        let k = choose|k: int| 0 <= k < rows.len() && (#[trigger] rows[k]).0 == h;
        assert(rows[k].1@ == blocks[h]);
    }
}

/// The size of the cache is the sum of the blocks' lengths: nothing for none, and each block adds
/// its own.
pub proof fn law_cache_size(blocks: Map<u32, Seq<u8>>, h: u32, data: Seq<u8>)
    requires
        blocks.dom().finite(),
    ensures
        total_size(Map::empty()) == 0,
        !blocks.contains_key(h) ==> total_size(blocks.insert(h, data)) == total_size(blocks)
            + data.len(),
        blocks.contains_key(h) ==> total_size(blocks.insert(h, data)) == total_size(blocks)
            - blocks[h].len() + data.len(),
{
    let more = blocks.insert(h, data);
    lemma_size_remove(more, h);
    if blocks.contains_key(h) {
        lemma_size_remove(blocks, h);
        assert(more.remove(h) =~= blocks.remove(h));
    } else {
        assert(more.remove(h) =~= blocks);
    }
    assert(Map::<u32, Seq<u8>>::empty().dom() =~= Set::<u32>::empty());
}

/// Stored rows are accepted by their heights and ids, and hold what stands in them.
pub proof fn law_stored_rows(
    blocks: Seq<(u32, Vec<u8>)>,
    keys: Seq<(Vec<u8>, Vec<u8>)>,
    i: int,
)
    ensures
        rising(blocks) <==> forall|a: int, b: int|
            0 <= a < b < blocks.len() ==> (#[trigger] blocks[a]).0 < (#[trigger] blocks[b]).0,
        distinct_keys(key_pairs(keys)) <==> forall|a: int, b: int|
            0 <= a < b < keys.len() ==> (#[trigger] keys[a]).0@ != (#[trigger] keys[b]).0@,
        rising(blocks) && 0 <= i < blocks.len() ==> pair_map(block_pairs(blocks)).contains_key(
            blocks[i].0,
        ) && pair_map(block_pairs(blocks))[blocks[i].0] == blocks[i].1@,
        distinct_keys(key_pairs(keys)) && 0 <= i < keys.len() ==> pair_map(
            key_pairs(keys),
        ).contains_key(keys[i].0@) && pair_map(key_pairs(keys))[keys[i].0@] == keys[i].1@,
{
    let kp = key_pairs(keys);
    if distinct_keys(kp) {
        assert forall|a: int, b: int| 0 <= a < b < keys.len() implies (#[trigger] keys[a]).0@ != (
        #[trigger] keys[b]).0@ by {
            assert(kp[a].0 != kp[b].0);
        }
        lemma_pair_map(kp);
        if 0 <= i < keys.len() {
            assert(kp[i].0 == keys[i].0@);
        }
    }
    if forall|a: int, b: int|
        0 <= a < b < keys.len() ==> (#[trigger] keys[a]).0@ != (#[trigger] keys[b]).0@ {
        assert forall|a: int, b: int| 0 <= a < b < kp.len() implies (#[trigger] kp[a]).0 != (
        #[trigger] kp[b]).0 by {
            assert(keys[a].0@ != keys[b].0@);
        }
    }
    if rising(blocks) {
        let bp = block_pairs(blocks);
        lemma_rising_distinct(blocks);
        lemma_pair_map(bp);
        if 0 <= i < blocks.len() {
            assert(bp[i].0 == blocks[i].0);
        }
    }
}

/// Rows that stand for no height or id give none.
pub proof fn law_nothing_but_the_rows(
    blocks: Seq<(u32, Vec<u8>)>,
    keys: Seq<(Vec<u8>, Vec<u8>)>,
    h: u32,
    id: Seq<u8>,
)
    requires
        rising(blocks),
        distinct_keys(key_pairs(keys)),
    ensures
        pair_map(block_pairs(blocks)).contains_key(h) ==> exists|i: int|
            0 <= i < blocks.len() && (#[trigger] blocks[i]).0 == h,
        pair_map(key_pairs(keys)).contains_key(id) ==> exists|i: int|
            0 <= i < keys.len() && (#[trigger] keys[i]).0@ == id,
{
    let bp = block_pairs(blocks);
    let kp = key_pairs(keys);
    lemma_rising_distinct(blocks);
    lemma_pair_map(bp);
    lemma_pair_map(kp);
    if pair_map(bp).contains_key(h) {
        let i = choose|i: int| 0 <= i < bp.len() && (#[trigger] bp[i]).0 == h;
        assert(blocks[i].0 == h);
    }
    if pair_map(kp).contains_key(id) {
        let i = choose|i: int| 0 <= i < kp.len() && (#[trigger] kp[i]).0 == id;
        assert(keys[i].0@ == id);
    }
}

} // verus!
