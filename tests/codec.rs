use nockapp::{cue, cue_with_limit, jam, DecodeError, Noun};

fn atom(v: u64) -> Noun {
    Noun::from_u64(v)
}

fn cell(h: Noun, t: Noun) -> Noun {
    Noun::cell(h, t)
}

fn sample() -> Noun {
    cell(atom(1), cell(Noun::atom(b"log".to_vec()), cell(atom(0), atom(300))))
}

#[test]
fn round_trip_atoms() {
    for v in [0u64, 1, 255, 256, 65535, u64::MAX] {
        let n = atom(v);
        let back = cue(&jam(&n)).unwrap();
        assert!(back.equals(&n));
    }
}

#[test]
fn round_trip_nested_cells() {
    let n = sample();
    let back = cue(&jam(&n)).unwrap();
    assert!(back.equals(&n));
    assert!(!back.equals(&atom(1)));
}

#[test]
fn jam_is_deterministic() {
    let a = sample();
    let b = sample();
    assert_eq!(jam(&a), jam(&a));
    assert_eq!(jam(&a), jam(&b));
}

#[test]
fn jam_exact_bytes() {
    assert_eq!(jam(&atom(0)), vec![0, 0, 0, 0, 0, 0, 0, 0, 0]);
    assert_eq!(jam(&atom(5)), vec![0, 1, 0, 0, 0, 0, 0, 0, 0, 5]);
    assert_eq!(
        jam(&cell(atom(1), atom(0))),
        vec![1, 0, 1, 0, 0, 0, 0, 0, 0, 0, 1, 0, 0, 0, 0, 0, 0, 0, 0, 0]
    );
}

#[test]
fn atom_trims_trailing_zero_bytes() {
    let a = Noun::atom(vec![7, 0, 0]);
    assert_eq!(a.atom_bytes().unwrap(), &vec![7u8]);
    assert!(Noun::atom(vec![0, 0]).equals(&atom(0)));
}

#[test]
fn cue_empty_is_truncated() {
    assert_eq!(cue(&[]).err(), Some(DecodeError::Truncated));
}

#[test]
fn cue_short_atom_is_truncated() {
    assert_eq!(cue(&[0, 3, 0, 0, 0, 0, 0, 0, 0, 1]).err(), Some(DecodeError::Truncated));
    assert_eq!(cue(&[0, 1, 0]).err(), Some(DecodeError::Truncated));
    assert_eq!(cue(&[1, 0, 0, 0, 0, 0, 0, 0, 0, 0]).err(), Some(DecodeError::Truncated));
}

#[test]
fn cue_unknown_tag_is_malformed() {
    assert_eq!(cue(&[9]).err(), Some(DecodeError::Malformed));
}

#[test]
fn cue_non_canonical_atom_is_malformed() {
    assert_eq!(cue(&[0, 1, 0, 0, 0, 0, 0, 0, 0, 0]).err(), Some(DecodeError::Malformed));
}

#[test]
fn cue_trailing_bytes_is_malformed() {
    assert_eq!(cue(&[0, 0, 0, 0, 0, 0, 0, 0, 0, 7]).err(), Some(DecodeError::Malformed));
}

#[test]
fn cue_bad_backref_is_malformed() {
    // A cell whose tail refers to position 5, where no noun starts.
    let mut b = vec![1, 0, 1, 0, 0, 0, 0, 0, 0, 0, 4];
    b.extend_from_slice(&[2, 5, 0, 0, 0, 0, 0, 0, 0]);
    assert_eq!(cue(&b).err(), Some(DecodeError::Malformed));
}

#[test]
fn cue_follows_backref() {
    // [4 4] with the tail a reference to the head at position 1.
    let mut b = vec![1, 0, 1, 0, 0, 0, 0, 0, 0, 0, 4];
    b.extend_from_slice(&[2, 1, 0, 0, 0, 0, 0, 0, 0]);
    let n = cue(&b).unwrap();
    assert!(n.equals(&cell(atom(4), atom(4))));
}

#[test]
fn cue_too_deep_is_too_large() {
    let n = cell(cell(atom(1), atom(2)), atom(3));
    let b = jam(&n);
    assert_eq!(cue_with_limit(&b, 1).err(), Some(DecodeError::TooLarge));
    assert!(cue_with_limit(&b, 2).unwrap().equals(&n));
}

#[test]
fn noun_accessors() {
    let n = sample();
    assert!(!n.is_atom());
    assert!(n.head().unwrap().equals(&atom(1)));
    assert!(n.tail().unwrap().head().unwrap().equals(&Noun::atom(b"log".to_vec())));
    assert!(atom(3).head().is_none());
    assert!(n.duplicate().equals(&n));
}
