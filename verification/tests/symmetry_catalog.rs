use std::collections::HashSet;
use dovecount::catalog::gather_canonical_arrangements;
use dovecount::symmetry::{canonicalize, count_equivalents, gather_equivalents};

#[test]
fn test_canonicalize() {
    assert_eq!(canonicalize(0), 0);
    assert_eq!(canonicalize(0b10), 0b1);
    assert_eq!(canonicalize(0b0010_0001), canonicalize(0b0001_0010));
    assert_eq!(canonicalize(0b1000_0100), canonicalize(0b0001_0010));
    assert_eq!(canonicalize(0b1000_0100_0000), canonicalize(0b0001_0010));
}

#[test]
fn test_gather_equivalents() {
    let bits = 0x6666;
    let equivalents = gather_equivalents(bits);
    let eq_set: HashSet<u16> = equivalents.into_iter().collect();
    let expect: HashSet<u16> = [0x3333, 0xff].into_iter().collect();
    assert_eq!(eq_set, expect);
}

#[test]
fn lib_test_gather_canonical_arrangements() {
    let canonicals = gather_canonical_arrangements();
    assert_eq!(canonicals.len(), 5171);
}

#[test]
fn canonicalize_is_idempotent() {
    // Re-canonicalizing a canonical form changes nothing, over every mask.
    for bits in 0..=u16::MAX {
        let c = canonicalize(bits);
        assert_eq!(canonicalize(c), c);
    }
}

#[test]
fn distinct_classes_get_distinct_representatives() {
    // A pair and a gapped pair are not related by any symmetry.
    assert_ne!(canonicalize(0b11), canonicalize(0b101));
    // A translated and rotated L stays in its class.
    assert_eq!(canonicalize(0b0001_0011), canonicalize(0b0010_0011_0000));
}

#[test]
fn orbit_sizes_are_plausible() {
    // A fully symmetric 2x2 block has a single-element orbit.
    assert_eq!(count_equivalents(0b0011_0011), 1);
    // The 1x2 domino has two images: one per orientation of its rectangle.
    assert_eq!(count_equivalents(0b11), 2);
    // A corner triple keeps its reflection symmetry: 4 images.
    assert_eq!(count_equivalents(0b0001_0011), 4);
    // A chiral tetromino has the full 8-element orbit.
    assert_eq!(count_equivalents(0b0001_0111), 8);
}

#[test]
fn catalog_entries_are_sorted_canonical_and_bounded() {
    let canonicals = gather_canonical_arrangements();
    let mut prev: Option<u16> = None;
    for &c in canonicals.iter() {
        if let Some(p) = prev {
            assert!(p < c);
        }
        assert_eq!(canonicalize(c), c);
        let n = c.count_ones();
        assert!((2..=12).contains(&n));
        prev = Some(c);
    }
}

#[test]
fn orbit_sizes_divide_the_group_order() {
    // Every orbit of the 8 symmetries has 1, 2, 4 or 8 members.
    for bits in 0..=u16::MAX {
        let n = count_equivalents(bits);
        assert!(n == 1 || n == 2 || n == 4 || n == 8);
    }
}
