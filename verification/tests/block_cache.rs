use moonshine::block_cache::{BlockCache, DEFAULT_BLOCK_RETENTION};
use moonshine::db::DbError;

#[test]
fn test_insert_and_get() {
    let mut cache = BlockCache::in_memory().unwrap();
    cache.insert_block(100, b"block100").unwrap();
    cache.insert_block(101, b"block101").unwrap();

    assert_eq!(cache.get_block(100).unwrap(), Some(b"block100".to_vec()));
    assert_eq!(cache.get_block(101).unwrap(), Some(b"block101".to_vec()));
    assert_eq!(cache.get_block(102).unwrap(), None);
}

#[test]
fn test_get_range() {
    let mut cache = BlockCache::in_memory().unwrap();
    for h in 100..110 {
        cache.insert_block(h, format!("b{}", h).as_bytes()).unwrap();
    }
    let range = cache.get_range(102, 105).unwrap();
    assert_eq!(range.len(), 4);
    assert_eq!(range[0].0, 102);
    assert_eq!(range[3].0, 105);
}

#[test]
fn test_prune() {
    let mut cache = BlockCache::in_memory().unwrap();
    for h in 100..200 {
        cache.insert_block(h, b"data").unwrap();
    }
    assert_eq!(cache.count().unwrap(), 100);

    let pruned = cache.prune_below(150).unwrap();
    assert_eq!(pruned, 50);
    assert_eq!(cache.count().unwrap(), 50);
    assert_eq!(cache.lowest_cached().unwrap(), Some(150));
}

#[test]
fn test_is_range_cached() {
    let mut cache = BlockCache::in_memory().unwrap();
    for h in 100..110 {
        cache.insert_block(h, b"data").unwrap();
    }
    assert!(cache.is_range_cached(100, 109).unwrap());
    assert!(!cache.is_range_cached(100, 110).unwrap()); // 110 missing
}

#[test]
fn test_highest_cached() {
    let mut cache = BlockCache::in_memory().unwrap();
    assert_eq!(cache.highest_cached().unwrap(), 0);
    cache.insert_block(42, b"data").unwrap();
    assert_eq!(cache.highest_cached().unwrap(), 42);
}

#[test]
fn test_size_bytes() {
    let mut cache = BlockCache::in_memory().unwrap();
    cache.insert_block(1, &[0u8; 100]).unwrap();
    cache.insert_block(2, &[0u8; 200]).unwrap();
    assert_eq!(cache.size_bytes().unwrap(), 300);
}

#[test]
fn a_block_is_replaced_in_place() {
    let mut cache = BlockCache::in_memory().unwrap();
    cache.insert_block(7, b"old").unwrap();
    cache.insert_block(5, b"five").unwrap();
    cache.insert_block(7, b"new").unwrap();
    assert_eq!(cache.get_block(7).unwrap(), Some(b"new".to_vec()));
    assert_eq!(cache.count().unwrap(), 2);
    assert_eq!(
        cache.get_range(0, u32::MAX).unwrap(),
        vec![(5, b"five".to_vec()), (7, b"new".to_vec())]
    );
    assert!(cache.get_range(8, 3).unwrap().is_empty());
}

#[test]
fn retention_counts_from_the_sync_height() {
    let mut cache = BlockCache::in_memory().unwrap();
    for h in [0, 499, 500, 501, 2500] {
        cache.insert_block(h, b"x").unwrap();
    }
    assert_eq!(
        cache.prune_for_sync_height(DEFAULT_BLOCK_RETENTION).unwrap(),
        0
    );
    assert_eq!(cache.prune_for_sync_height(2500).unwrap(), 2);
    assert_eq!(cache.lowest_cached().unwrap(), Some(500));
    assert_eq!(cache.prune_for_sync_height(u32::MAX).unwrap(), 3);
    assert_eq!(cache.lowest_cached().unwrap(), None);
}

#[test]
fn detection_keys_read_back() {
    let mut cache = BlockCache::in_memory().unwrap();
    assert_eq!(cache.get_detection_key(b"id").unwrap(), None);
    cache.put_detection_key(b"id", b"one").unwrap();
    cache.put_detection_key(b"other", b"two").unwrap();
    cache.put_detection_key(b"id", b"three").unwrap();
    assert_eq!(cache.get_detection_key(b"id").unwrap(), Some(b"three".to_vec()));
    assert_eq!(cache.get_detection_key(b"other").unwrap(), Some(b"two".to_vec()));
    assert_eq!(cache.rows().1.len(), 2);
}

#[test]
fn stored_rows_are_checked() {
    let blocks = vec![(3, b"a".to_vec()), (9, b"b".to_vec())];
    let keys = vec![(b"k".to_vec(), b"v".to_vec())];
    let cache = BlockCache::open(blocks.clone(), keys.clone()).unwrap();
    assert_eq!(cache.get_block(9).unwrap(), Some(b"b".to_vec()));
    assert_eq!(cache.rows(), (&blocks, &keys));

    let falling = vec![(9, b"b".to_vec()), (3, b"a".to_vec())];
    assert!(matches!(
        BlockCache::open(falling, vec![]),
        Err(DbError::Corrupt)
    ));
    let twice = vec![(b"k".to_vec(), vec![]), (b"k".to_vec(), vec![1])];
    assert!(matches!(
        BlockCache::open(vec![], twice),
        Err(DbError::Corrupt)
    ));
}
