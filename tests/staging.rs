use eyros::staging::Staging;
use eyros::storage::MemoryStorage;
use eyros::{Bounds, Error, Point, Row};

fn pt(x: u32, y: u32) -> Point {
    Point { x, y }
}

fn all(b: &Bounds, s: &Staging<MemoryStorage>) -> Vec<(Point, u32)> {
    let mut it = s.query(b);
    let mut out = vec![];
    while let Some(pv) = it.next() {
        out.push(pv);
    }
    out
}

#[test]
fn staging_round_trip_through_store() {
    let mut s = Staging::open(MemoryStorage::new()).unwrap();
    let rows = vec![
        Row::Insert(pt(1, 2), 3),
        Row::Delete(pt(4, 5), 6),
        Row::Insert(pt(u32::MAX, 0), 70000),
    ];
    s.batch(&rows).unwrap();
    s.commit().unwrap();
    let again = Staging::open(s.into_store()).unwrap();
    assert_eq!(again.rows, rows);
    assert_eq!(again.rows(), &rows);
}

#[test]
fn uncommitted_rows_are_not_stored() {
    let mut s = Staging::open(MemoryStorage::new()).unwrap();
    s.batch(&vec![Row::Insert(pt(1, 1), 1)]).unwrap();
    assert_eq!(s.len().unwrap(), 1);
    assert_eq!(s.into_store().to_bytes(), Vec::<u8>::new());
}

#[test]
fn record_layout_is_tag_point_value() {
    let mut s = Staging::open(MemoryStorage::new()).unwrap();
    s.batch(&vec![Row::Insert(pt(1, 2), 3), Row::Delete(pt(256, 0), 0x01020304)]).unwrap();
    s.commit().unwrap();
    assert_eq!(
        s.into_store().to_bytes(),
        vec![
            0, 1, 0, 0, 0, 2, 0, 0, 0, 3, 0, 0, 0, //
            1, 0, 1, 0, 0, 0, 0, 0, 0, 4, 3, 2, 1,
        ]
    );
}

#[test]
fn query_yields_inserts_in_bounds() {
    let mut s = Staging::open(MemoryStorage::new()).unwrap();
    s.batch(&vec![
        Row::Insert(pt(1, 1), 10),
        Row::Delete(pt(2, 2), 20),
        Row::Insert(pt(3, 3), 30),
        Row::Insert(pt(9, 9), 90),
    ])
    .unwrap();
    let b = Bounds { min_x: 0, min_y: 0, max_x: 5, max_y: 5 };
    assert_eq!(all(&b, &s), vec![(pt(1, 1), 10), (pt(3, 3), 30)]);
    assert_eq!(all(&b, &s), vec![(pt(1, 1), 10), (pt(3, 3), 30)]);
    let edge = Bounds { min_x: 9, min_y: 9, max_x: 9, max_y: 9 };
    assert_eq!(all(&edge, &s), vec![(pt(9, 9), 90)]);
    let none = Bounds { min_x: 2, min_y: 2, max_x: 2, max_y: 2 };
    assert_eq!(all(&none, &s), vec![]);
}

#[test]
fn clear_resets_state() {
    let mut s = Staging::open(MemoryStorage::new()).unwrap();
    s.batch(&vec![Row::Insert(pt(1, 1), 1), Row::Delete(pt(1, 1), 1)]).unwrap();
    s.commit().unwrap();
    assert_eq!(s.len().unwrap(), 2);
    assert_eq!(s.bytes().unwrap(), 26);
    s.clear().unwrap();
    assert_eq!(s.len().unwrap(), 0);
    assert!(s.rows().is_empty());
    assert_eq!(s.bytes().unwrap(), 0);
    assert!(s.rows.is_empty());
    s.batch(&vec![Row::Insert(pt(5, 6), 7)]).unwrap();
    s.commit().unwrap();
    assert_eq!(s.rows, vec![Row::Insert(pt(5, 6), 7)]);
    let again = Staging::open(s.into_store()).unwrap();
    assert_eq!(again.rows, vec![Row::Insert(pt(5, 6), 7)]);
}

#[test]
fn open_rejects_unknown_tag() {
    let mut bytes = vec![0u8; 13];
    bytes[0] = 2;
    let r = Staging::open(MemoryStorage::from_bytes(bytes));
    assert!(matches!(r, Err(Error::Decode)));
}

#[test]
fn open_rejects_partial_record() {
    let r = Staging::open(MemoryStorage::from_bytes(vec![0u8; 14]));
    assert!(matches!(r, Err(Error::Decode)));
}

#[test]
fn open_replays_stored_records() {
    let bytes = vec![1, 9, 0, 0, 0, 8, 0, 0, 0, 7, 0, 0, 0];
    let s = Staging::open(MemoryStorage::from_bytes(bytes)).unwrap();
    assert_eq!(s.rows, vec![Row::Delete(pt(9, 8), 7)]);
    assert_eq!(s.len().unwrap(), 1);
}
