use dovecount::counting::{count_positions, count_positions_from_arrangements, is_on_line, perm};

#[test]
fn test_count_positions() {
    let count = count_positions(true, true, true);
    assert_eq!(count[2], 2);
    assert_eq!(count[3], 180);
    assert_eq!(count[4], 28620);
}

#[test]
fn main_test_gather_canonical_arrangements() {
    let canonicals = dovecount::catalog::gather_canonical_arrangements();
    assert_eq!(canonicals.len(), 5171);
}

#[test]
fn falling_factorials() {
    assert_eq!(perm(10, 0), 1);
    assert_eq!(perm(5, 2), 20);
    assert_eq!(perm(10, 10), 3628800);
    assert_eq!(perm(16, 16), 20922789888000);
}

#[test]
fn lines_of_the_grid() {
    // The empty mask trivially lies on a line.
    assert!(is_on_line(0));
    // A full row, a full column, and both diagonals.
    assert!(is_on_line(0x000f));
    assert!(is_on_line(0x2222));
    assert!(is_on_line(0x8421));
    assert!(is_on_line(0x1248));
    // A shifted partial diagonal.
    assert!(is_on_line(0x0842));
    // An L-shaped corner does not lie on any line.
    assert!(!is_on_line(0b0001_0011));
    // Cells on parallel rows do not lie on one line.
    assert!(!is_on_line(0x000f | 0x8000));
}

#[test]
fn count_positions_respects_its_flags() {
    // With every case switched off nothing is counted.
    let none = count_positions(false, false, false);
    for n in 0..13 {
        assert_eq!(none[n], 0);
    }
    // Before the final division, the three cases add up to the full tally.
    let cat = dovecount::catalog::gather_canonical_arrangements();
    let full = count_positions_from_arrangements(&cat, true, true, true);
    let free = count_positions_from_arrangements(&cat, true, false, false);
    let one = count_positions_from_arrangements(&cat, false, true, false);
    let both = count_positions_from_arrangements(&cat, false, false, true);
    for n in 0..13 {
        assert_eq!(free[n] + one[n] + both[n], full[n]);
    }
}
