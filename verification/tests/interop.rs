use lilbitset::LilBitSet;
use std::collections::BTreeSet;
use std::collections::HashSet;

#[test]
fn to_hashset_and_back() {
    let start = vec![
        1, 3, 5, 6, 7, 10, 12, 17, 18, 19, 26, 33, 35, 36, 39, 40, 50, 52, 54, 54, 56, 57, 60, 63,
    ];
    // a LilBitSet can be constructed from any sequence of values
    let lilbitset: LilBitSet = LilBitSet::from_sequence(&start);

    // conversions to and from HashSet<u8> are implemented
    let there: HashSet<u8> = lilbitset.to_hash_set();
    let back_again: LilBitSet = LilBitSet::from_hash_set(&there);

    assert_eq!(lilbitset, back_again);
}

#[test]
fn to_btreeset_and_back() {
    let lilbitset = LilBitSet::from_sequence(&[9, 0, 32, 63, 9]);
    let there: BTreeSet<u8> = lilbitset.to_btree_set();
    assert_eq!(there.iter().copied().collect::<Vec<u8>>(), vec![0, 9, 32, 63]);
    let back_again = LilBitSet::from_btree_set(&there);
    assert_eq!(lilbitset, back_again);
}

#[test]
fn raw_round_trip() {
    let lilbitset = LilBitSet::from_sequence(&[1, 3, 44]);
    let word = lilbitset.into_raw();
    assert_eq!(LilBitSet::new_from_raw(word), lilbitset);
    assert_eq!(LilBitSet::new_from_raw(word).into_raw(), word);

    // '...1010' binary represents the set {1, 3}
    let from_word = LilBitSet::new_from_raw(0b1010);
    assert_eq!(from_word.to_vec(), vec![1, 3]);
    assert_eq!(from_word.into_raw(), 0b1010);
}

#[test]
fn sequence_round_trip() {
    let values = vec![5u8, 1, 5, 60, 23, 1];
    let lilbitset = LilBitSet::from_sequence(&values);
    let ordered = lilbitset.to_vec();
    assert_eq!(ordered, vec![1, 5, 23, 60]);
    assert_eq!(LilBitSet::from_sequence(&ordered), lilbitset);
}
