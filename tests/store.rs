use nockapp::{cue, jam, CheckpointStore, Noun, StoreError, SCHEMA_VERSION};

fn state(v: u64) -> Noun {
    Noun::cell(Noun::from_u64(v), Noun::from_u64(v + 1))
}

#[test]
fn empty_store_loads_nothing() {
    let s = CheckpointStore::new(2);
    assert!(s.load_latest().unwrap().is_none());
    assert_eq!(s.committed_sequence(), None);
}

#[test]
fn save_writes_header_and_payload() {
    let mut s = CheckpointStore::new(2);
    let img = s.save(&Noun::from_u64(5), 3).unwrap();
    let payload = jam(&Noun::from_u64(5));
    let mut expected = SCHEMA_VERSION.to_le_bytes().to_vec();
    expected.extend_from_slice(&3u64.to_le_bytes());
    expected.extend_from_slice(&(payload.len() as u64).to_le_bytes());
    expected.extend_from_slice(&payload);
    assert_eq!(img, expected);
}

#[test]
fn stale_sequence_is_rejected() {
    let mut s = CheckpointStore::new(2);
    s.save(&state(1), 5).unwrap();
    assert_eq!(s.save(&state(2), 5).err(), Some(StoreError::Stale));
    assert_eq!(s.save(&state(2), 4).err(), Some(StoreError::Stale));
    assert_eq!(s.committed_sequence(), Some(5));
    assert!(s.save(&state(2), 6).is_ok());
}

#[test]
fn load_latest_returns_highest_sequence() {
    let mut s = CheckpointStore::new(3);
    for seq in 1..=4u64 {
        s.save(&state(seq * 10), seq).unwrap();
    }
    assert_eq!(s.len(), 3);
    let cp = s.load_latest().unwrap().unwrap();
    assert_eq!(cp.sequence, 4);
    assert!(!cp.fell_back);
    assert!(cue(&cp.state).unwrap().equals(&state(40)));
}

#[test]
fn corrupt_latest_falls_back() {
    let mut s = CheckpointStore::new(2);
    let a = s.save(&state(1), 1).unwrap();
    let mut b = s.save(&state(2), 2).unwrap();
    b.pop();
    let reopened = CheckpointStore::open(vec![a, b], 2);
    assert_eq!(reopened.committed_sequence(), Some(1));
    let cp = reopened.load_latest().unwrap().unwrap();
    assert_eq!(cp.sequence, 1);
    assert!(cp.fell_back);
    assert!(cue(&cp.state).unwrap().equals(&state(1)));
}

#[test]
fn all_corrupt_is_corrupt() {
    let s = CheckpointStore::open(vec![vec![1, 2, 3]], 2);
    assert_eq!(s.load_latest().err(), Some(StoreError::Corrupt));
}

#[test]
fn wrong_schema_is_skipped() {
    let mut s = CheckpointStore::new(2);
    let mut img = s.save(&state(1), 1).unwrap();
    img[0] = 9;
    let reopened = CheckpointStore::open(vec![img], 2);
    assert_eq!(reopened.load_latest().err(), Some(StoreError::Corrupt));
    assert_eq!(reopened.committed_sequence(), None);
}
