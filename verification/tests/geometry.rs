use dovecount::bitgrid::{
    calc_liberty, count_bits, extract_surrounded, find_minimal_rectangle, is_isolated, HotBitIter,
};

#[test]
fn test_extract_surrounded() {
    assert_eq!(extract_surrounded(0), 0);
    assert_eq!(extract_surrounded(0b10), 0);
    assert_eq!(extract_surrounded(0x111f), 0x0001);
    assert_eq!(extract_surrounded(0x011f), 0x0000);
}

#[test]
fn test_calc_liberty() {
    let piece_bit = 0b0010_0000_0000;
    let all_bits = 0b0011_0100_1101;
    let liberty = calc_liberty(piece_bit, all_bits);
    assert_eq!(liberty, 3);
}

#[test]
fn liberty_stays_in_range_and_never_grows() {
    // Adding pieces to the occupancy never increases a piece's liberty.
    let piece = 0b10_0000u16; // cell 5, in the middle of the grid
    let mut previous = calc_liberty(piece, piece);
    assert_eq!(previous, 4);
    let additions = [0b0000_0000_0000_0010u16, 0b0001_0000_0000u16, 0b0100_0000u16, 0b1_0000u16];
    let mut all = piece;
    for add in additions {
        all |= add;
        let now = calc_liberty(piece, all);
        assert!(now <= previous);
        assert!(now <= 4);
        previous = now;
    }
    assert_eq!(previous, 1);
}

#[test]
fn isolation_of_small_masks() {
    // A single piece has no neighbour at all, so it counts as isolated.
    assert!(is_isolated(0b1));
    // Two orthogonally adjacent pieces are not isolated.
    assert!(!is_isolated(0b11));
    // Two diagonally adjacent pieces are not isolated either.
    assert!(!is_isolated(0b10_0001));
    // Two pieces a knight's move apart are isolated.
    assert!(is_isolated(0b100_0001));
    // The empty mask has no isolated piece.
    assert!(!is_isolated(0));
}

#[test]
fn bounding_rectangle_of_masks() {
    assert!(find_minimal_rectangle(0).is_none());
    let r = find_minimal_rectangle(0b1).unwrap();
    assert_eq!((r.vmin, r.vmax, r.hmin, r.hmax), (0, 0, 0, 0));
    let r = find_minimal_rectangle(0x6600).unwrap();
    assert_eq!((r.vmin, r.vmax, r.hmin, r.hmax), (2, 3, 1, 2));
}

#[test]
fn hot_bits_come_lowest_first() {
    let mut iter = HotBitIter::new(0b1010);
    assert_eq!(iter.next_bit(), Some(0b10));
    assert_eq!(iter.next_bit(), Some(0b1000));
    assert_eq!(iter.next_bit(), None);
    assert_eq!(HotBitIter::new(0).next_bit(), None);
}

#[test]
fn count_bits_matches_examples() {
    assert_eq!(count_bits(0), 0);
    assert_eq!(count_bits(0xffff), 16);
    assert_eq!(count_bits(0x6600), 4);
}
