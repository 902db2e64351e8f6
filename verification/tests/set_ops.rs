use lilbitset::LilBitSet;

fn some_vec() -> Vec<u8> {
    vec![
        1, 3, 5, 6, 7, 10, 12, 17, 18, 19, 26, 33, 35, 36, 39, 40, 50, 52, 54, 54, 56, 57, 60, 63,
    ]
}

#[test]
fn inserting_removing() {
    let mut v = vec![1, 4, 8, 5, 3, 44, 23];
    v.sort();
    v.dedup();

    let mut lilbitset = LilBitSet::new();
    for x in v.iter() {
        lilbitset.insert(*x);
    }
    let mut v2: Vec<u8> = lilbitset.to_vec();
    v2.sort();

    assert_eq!(&v, &v2);
    for x in v.iter() {
        assert!(lilbitset.remove(*x));
    }

    v.clear();
    assert_eq!(&v, &lilbitset.to_vec());
}

#[test]
fn custom_macro() {
    let lilbitset1: LilBitSet = LilBitSet::from_sequence(&[1, 2, 3, 7, 5, 46, 3, 3, 3]);
    let mut lilbitset2 = LilBitSet::new();
    for x in vec![1, 2, 3, 7, 5, 46, 3, 3, 3].iter() {
        lilbitset2.insert(*x);
    }
    assert_eq!(lilbitset1, lilbitset2);
}

#[test]
fn super_fast() {
    let libset_const = LilBitSet::from_sequence(&[1, 5, 7]);
    let mut lilbitset: LilBitSet = LilBitSet::from_sequence(&some_vec());
    for i in 0u32..1_000_000u32 {
        // performs some bogus computation; notice the loop dependency
        lilbitset = lilbitset.clone().union(libset_const);
        lilbitset.remove(((i + 6) % 64) as u8);
        lilbitset.insert((i % 64) as u8);
    }
    // if this test finishes in reasonable time, it passes
}

#[test]
fn try_insert() {
    let mut lilbitset = LilBitSet::new();
    let largest_allowed = LilBitSet::largest_allowed();
    for x in 0u16..10_000u16 {
        // `try_insert` returns true IFF it successfully inserted the value
        match lilbitset.try_insert(x) {
            true => assert!(x <= largest_allowed as u16),
            false => assert!(x > largest_allowed as u16),
        }
    }
}

#[test]
fn boundary_values() {
    let mut lilbitset = LilBitSet::new();
    assert_eq!(LilBitSet::largest_allowed(), 63);
    assert!(lilbitset.insert(63));
    assert!(lilbitset.contains(63));

    let before = lilbitset;
    assert!(!lilbitset.try_insert(64));
    assert_eq!(before, lilbitset);
    assert!(!lilbitset.try_insert(255));
    assert_eq!(before, lilbitset);
}

#[test]
fn insert_is_idempotent() {
    let mut lilbitset = LilBitSet::from_sequence(&[2, 9]);
    assert!(lilbitset.insert(30));
    let after_first = lilbitset;
    assert!(!lilbitset.insert(30));
    assert_eq!(after_first, lilbitset);
}

#[test]
fn ascending_iteration_and_removal() {
    let mut lilbitset = LilBitSet::new();
    for x in [1u8, 4, 8, 5, 3, 44, 23].iter() {
        lilbitset.insert(*x);
    }
    assert_eq!(lilbitset.to_vec(), vec![1, 3, 4, 5, 8, 23, 44]);
    assert_eq!(lilbitset.len(), 7);

    let mut it = lilbitset.into_iter();
    let mut seen = Vec::new();
    while let Some(element) = it.next() {
        seen.push(element);
    }
    assert_eq!(seen, vec![1, 3, 4, 5, 8, 23, 44]);

    for x in [1u8, 4, 8, 5, 3, 44, 23].iter() {
        assert!(lilbitset.remove(*x));
    }
    assert!(lilbitset.is_empty());
    assert_eq!(lilbitset.len(), 0);
    let mut drained = lilbitset.into_iter();
    assert_eq!(drained.next(), None);
}

#[test]
fn algebra_laws_on_values() {
    let a = LilBitSet::from_sequence(&[0, 7, 21, 63]);
    let b = LilBitSet::from_sequence(&[3, 7, 40]);
    let c = LilBitSet::from_sequence(&[7, 40, 62]);

    assert_eq!(a.union(b), b.union(a));
    assert_eq!(a.union(b).union(c), a.union(b.union(c)));
    assert_eq!(a.itersection(b), b.itersection(a));
    assert_eq!(a.itersection(b).itersection(c), a.itersection(b.itersection(c)));

    assert_eq!(a.complement().complement(), a);
    assert_eq!(a.union(a.complement()), LilBitSet::universe());
    assert_eq!(a.itersection(a.complement()), LilBitSet::new());

    assert_eq!(a.union(b).to_vec(), vec![0, 3, 7, 21, 40, 63]);
    assert_eq!(a.itersection(b).to_vec(), vec![7]);
    assert_eq!(a.symmetric_difference(b).to_vec(), vec![0, 3, 21, 40, 63]);
}

#[test]
fn membership_queries() {
    let lilbitset = LilBitSet::from_sequence(&[0, 2, 63]);
    assert!(lilbitset.contains(0));
    assert!(!lilbitset.contains(1));
    assert_eq!(lilbitset.get(2), Some(2));
    assert_eq!(lilbitset.get(3), None);
    assert!(!lilbitset.is_empty());
    assert!(LilBitSet::new().is_empty());
    assert_eq!(LilBitSet::universe().len(), 64);
    assert!(LilBitSet::universe().contains(63));
}

#[test]
fn debug_rendering() {
    let lilbitset = LilBitSet::from_sequence(&[1, 3, 5]);
    assert_eq!(lilbitset.to_debug_string(), "{1,3,5}");
    assert_eq!(LilBitSet::new().to_debug_string(), "{}");
    assert_eq!(LilBitSet::from_sequence(&[44]).to_debug_string(), "{44}");
    assert_eq!(LilBitSet::from_sequence(&[0, 10, 63]).to_debug_string(), "{0,10,63}");
}

#[test]
fn independent_copies_agree() {
    let lilbitset = LilBitSet::from_sequence(&[1, 2, 5, 3, 55, 9, 62, 33]);
    // every reader holds its own copy of the value; all observe the same
    // membership
    let copies: Vec<LilBitSet> = (0..20).map(|_| lilbitset).collect();
    for (i, copy) in copies.iter().enumerate() {
        assert_eq!(copy.contains((i % 64) as u8), lilbitset.contains((i % 64) as u8));
        assert_eq!(*copy, lilbitset);
    }
}
