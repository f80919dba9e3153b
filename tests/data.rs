use eyros::data::DataStore;
use eyros::storage::MemoryStorage;
use eyros::{Bounds, Error, Point};

#[test]
fn block_round_trip() {
    let mut d = DataStore::open(MemoryStorage::new()).unwrap();
    let p = Point { x: 3, y: 4 };
    let o = d.batch(&vec![(p, 5)]).unwrap();
    assert_eq!(o, 0);
    assert_eq!(d.list(o).unwrap(), vec![(p, 5)]);
    let inside = Bounds { min_x: 0, min_y: 0, max_x: 3, max_y: 4 };
    let outside = Bounds { min_x: 4, min_y: 0, max_x: 9, max_y: 9 };
    assert_eq!(d.query(o, &inside).unwrap(), vec![(p, 5)]);
    assert_eq!(d.query(o, &outside).unwrap(), vec![]);
}

#[test]
fn block_layout_and_offsets() {
    let mut d = DataStore::open(MemoryStorage::new()).unwrap();
    let o1 = d.batch(&vec![(Point { x: 1, y: 2 }, 3)]).unwrap();
    let o2 = d.batch(&vec![]).unwrap();
    let o3 = d
        .batch(&vec![(Point { x: 7, y: 7 }, 1), (Point { x: 0, y: 1 }, 2)])
        .unwrap();
    assert_eq!((o1, o2, o3), (0, 16, 20));
    assert_eq!(d.len().unwrap(), 48);
    assert_eq!(d.list(o2).unwrap(), vec![]);
    assert_eq!(
        d.list(o3).unwrap(),
        vec![(Point { x: 7, y: 7 }, 1), (Point { x: 0, y: 1 }, 2)]
    );
    let b = Bounds { min_x: 0, min_y: 0, max_x: 1, max_y: 1 };
    assert_eq!(d.query(o3, &b).unwrap(), vec![(Point { x: 0, y: 1 }, 2)]);
    let bytes = d.into_store().to_bytes();
    assert_eq!(&bytes[0..16], &[0, 0, 0, 16, 1, 0, 0, 0, 2, 0, 0, 0, 3, 0, 0, 0]);
    assert_eq!(&bytes[16..20], &[0, 0, 0, 4]);
}

#[test]
fn parse_decodes_records() {
    let buf = vec![1, 0, 0, 0, 2, 0, 0, 0, 3, 0, 0, 0, 255, 255, 255, 255, 0, 1, 0, 0, 0, 0, 0, 1];
    let rows = DataStore::<MemoryStorage>::parse(&buf).unwrap();
    assert_eq!(
        rows,
        vec![(Point { x: 1, y: 2 }, 3), (Point { x: u32::MAX, y: 256 }, 1 << 24)]
    );
}

#[test]
fn read_returns_payload() {
    let mut d = DataStore::open(MemoryStorage::new()).unwrap();
    d.batch(&vec![(Point { x: 1, y: 0 }, 0)]).unwrap();
    assert_eq!(d.read(0).unwrap(), vec![1, 0, 0, 0, 0, 0, 0, 0, 0, 0, 0, 0]);
}

#[test]
fn list_fails_without_block() {
    let mut d = DataStore::open(MemoryStorage::new()).unwrap();
    assert!(matches!(d.list(0), Err(Error::Io(_))));
}

#[test]
fn list_rejects_misaligned_payload() {
    let mut d = DataStore::open(MemoryStorage::from_bytes(vec![0, 0, 0, 6, 1, 2])).unwrap();
    assert!(matches!(d.list(0), Err(Error::Decode)));
    assert!(matches!(d.query(0, &Bounds { min_x: 0, min_y: 0, max_x: 0, max_y: 0 }), Err(Error::Decode)));
}
