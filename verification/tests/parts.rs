use libstk1::lz::{matching_len, Matches};
use libstk1::var_slice::VarSlice;

#[test]
fn matching_len_counts_repeats() {
    let data = b"abcabcabx";
    assert_eq!(matching_len(data, 3, 3, 100), 5);
    assert_eq!(matching_len(data, 3, 3, 4), 4);
    assert_eq!(matching_len(data, 3, 3, 0), 0);
    assert_eq!(matching_len(data, 3, 1, 100), 0);
    assert_eq!(matching_len(data, 8, 3, 100), 0);
}

#[test]
fn matching_len_stops_at_the_end() {
    let data = [7u8; 10];
    assert_eq!(matching_len(&data, 1, 1, 100), 9);
    assert_eq!(matching_len(&data, 9, 9, 100), 1);
    assert_eq!(matching_len(&data, 4, 2, 3), 3);
}

#[test]
fn matching_len_of_other_elements() {
    let data = [1u32, 2, 1, 2, 1, 3];
    assert_eq!(matching_len(&data, 2, 2, 10), 3);
}

#[test]
fn matches_zero() {
    assert!(Matches::zero().is_zero());
    assert!(Matches::default().is_zero());
    assert_eq!(Matches::default(), Matches { len: 0, distance: 0 });
    assert!(!Matches { len: 2, distance: 1 }.is_zero());
    assert!(Matches { len: 0, distance: 5 }.is_zero());
}

#[test]
fn var_slice_grows() {
    let data = b"0123456789";
    let mut run = VarSlice::new(data, 2);
    assert_eq!(run.len(), 1);
    run.expand(1);
    run.expand(3);
    assert_eq!(run.len(), 5);
    assert_eq!(run.into_slice(), b"23456");
    let run = VarSlice::new(data, 9);
    assert_eq!(run.into_slice(), b"9");
}
