use eyros::storage::{MemoryStorage, Storage};
use eyros::write_cache::WriteCache;
use eyros::{overlaps, Coord};

fn cache() -> WriteCache<MemoryStorage> {
    WriteCache::open(MemoryStorage::new()).unwrap()
}

#[test]
fn intervals_touching_overlap() {
    assert!(overlaps((0, 2), (2, 5)));
    assert!(overlaps((3, 4), (0, 9)));
    assert!(!overlaps((0, 1), (2, 3)));
    assert!(!overlaps((5, 6), (0, 4)));
}

#[test]
fn coord_holds_points_and_ranges() {
    let c = Coord::Range(1u32, 4u32);
    assert!(matches!(c, Coord::Range(1, 4)));
    assert!(matches!(Coord::Point(7u32), Coord::Point(7)));
}

#[test]
fn read_sees_writes_before_commit() {
    let mut c = cache();
    c.write(2, &vec![1, 2, 3]).unwrap();
    assert_eq!(c.read(0, 6).unwrap(), vec![0, 0, 1, 2, 3, 0]);
    assert_eq!(c.len().unwrap(), 5);
    assert_eq!(c.into_store().to_bytes(), Vec::<u8>::new());
}

#[test]
fn later_write_wins_in_overlap() {
    let mut c = cache();
    c.write(0, &vec![1, 1, 1, 1]).unwrap();
    c.write(2, &vec![9, 9, 9]).unwrap();
    assert_eq!(c.read(0, 6).unwrap(), vec![1, 1, 9, 9, 9, 0]);
    c.write(0, &vec![4]).unwrap();
    assert_eq!(c.read(0, 5).unwrap(), vec![4, 1, 9, 9, 9]);
}

#[test]
fn write_bridging_ranges_merges_them() {
    let mut c = cache();
    c.write(0, &vec![1]).unwrap();
    c.write(5, &vec![2]).unwrap();
    assert_eq!(c.read(0, 6).unwrap(), vec![1, 0, 0, 0, 0, 2]);
    c.write(1, &vec![3, 3, 3, 3]).unwrap();
    assert_eq!(c.read(0, 7).unwrap(), vec![1, 3, 3, 3, 3, 2, 0]);
    c.write(9, &vec![8]).unwrap();
    c.write(7, &vec![6]).unwrap();
    assert_eq!(c.read(4, 7).unwrap(), vec![3, 2, 0, 6, 0, 8, 0]);
}

#[test]
fn pending_writes_lay_over_store() {
    let mut c = WriteCache::open(MemoryStorage::from_bytes(vec![5; 8])).unwrap();
    c.write(2, &vec![1]).unwrap();
    c.write(7, &vec![2, 2]).unwrap();
    assert_eq!(c.read(0, 10).unwrap(), vec![5, 5, 1, 5, 5, 5, 5, 2, 2, 0]);
    assert_eq!(c.len().unwrap(), 9);
    assert_eq!(c.into_store().to_bytes(), vec![5; 8]);
}

#[test]
fn commit_flushes_and_second_commit_changes_nothing() {
    let mut c = cache();
    c.write(3, &vec![1, 2]).unwrap();
    c.write(0, &vec![7]).unwrap();
    c.commit().unwrap();
    let after_first = c.read(0, 6).unwrap();
    assert_eq!(after_first, vec![7, 0, 0, 1, 2, 0]);
    c.commit().unwrap();
    assert_eq!(c.read(0, 6).unwrap(), after_first);
    assert_eq!(c.into_store().to_bytes(), vec![7, 0, 0, 1, 2]);
}

#[test]
fn truncate_trims_pending_ranges() {
    let mut c = cache();
    c.write(0, &vec![1, 2]).unwrap();
    c.write(3, &vec![3, 4, 5]).unwrap();
    c.write(8, &vec![6]).unwrap();
    c.truncate(4).unwrap();
    assert_eq!(c.len().unwrap(), 4);
    assert_eq!(c.read(0, 9).unwrap(), vec![1, 2, 0, 3, 0, 0, 0, 0, 0]);
    c.commit().unwrap();
    assert_eq!(c.into_store().to_bytes(), vec![1, 2, 0, 3]);
}

#[test]
fn truncate_grows_with_zeros() {
    let mut c = WriteCache::open(MemoryStorage::from_bytes(vec![7, 7])).unwrap();
    c.truncate(4).unwrap();
    assert_eq!(c.read(0, 4).unwrap(), vec![7, 7, 0, 0]);
    assert!(!c.is_empty().unwrap());
    c.truncate(0).unwrap();
    assert!(c.is_empty().unwrap());
}

#[test]
fn disabled_cache_goes_straight_to_store() {
    let mut c = WriteCache::open_with(MemoryStorage::new(), false).unwrap();
    c.write(1, &vec![4, 5]).unwrap();
    assert_eq!(c.len().unwrap(), 3);
    assert_eq!(c.read(0, 3).unwrap(), vec![0, 4, 5]);
    assert!(c.read(0, 4).is_err());
    assert_eq!(c.into_store().to_bytes(), vec![0, 4, 5]);
}

#[test]
fn delete_hint_keeps_bytes() {
    let mut c = WriteCache::open(MemoryStorage::from_bytes(vec![1, 2, 3])).unwrap();
    c.del(0, 2).unwrap();
    assert_eq!(c.read(0, 3).unwrap(), vec![1, 2, 3]);
}

#[test]
fn memory_store_reads_blocks() {
    let mut m = MemoryStorage::from_bytes(vec![9, 0, 0, 0, 6, 1, 2, 0, 0, 0, 5]);
    assert_eq!(m.read_block(1).unwrap(), vec![1, 2]);
    assert!(m.read_block(5).is_err());
    assert_eq!(m.len().unwrap(), 11);
}

#[test]
fn truncate_cuts_store_and_keeps_prefix_of_pending() {
    let mut c = WriteCache::open(MemoryStorage::from_bytes(vec![1, 2, 3, 4])).unwrap();
    c.write(1, &vec![9, 9, 9]).unwrap();
    c.truncate(2).unwrap();
    assert_eq!(c.read(0, 3).unwrap(), vec![1, 9, 0]);
    c.commit().unwrap();
    assert_eq!(c.into_store().to_bytes(), vec![1, 9]);
}

#[test]
fn truncate_without_pending_cuts_store() {
    let mut c = WriteCache::open(MemoryStorage::from_bytes(vec![1, 2, 3, 4])).unwrap();
    c.truncate(1).unwrap();
    assert_eq!(c.into_store().to_bytes(), vec![1]);
}
