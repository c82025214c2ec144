use dovecount::aggregate::{count_win1_from_arrangements, partition_catalog};
use dovecount::prune::{make_space_if_possible, may_be_checkmate, may_be_win1};
use dovecount::search::{gather_checkmates, gather_win1};

#[test]
fn test_make_space_if_possible() {
    let (piece_bit, all_bits) = make_space_if_possible(0b01, 0b11);
    assert_eq!(piece_bit, 0b0010_0000);
    assert_eq!(all_bits, 0b0110_0000);
}

#[test]
fn normalization_moves_an_edge_pattern_inward() {
    // A piece against an edge with the opposite edge free moves one step
    // away; with the opposite edge occupied it stays.
    let (p, a) = make_space_if_possible(0b1, 0b1);
    assert_eq!((p, a), (0b10_0000, 0b10_0000));
    let (p, a) = make_space_if_possible(0b1, 0b0001_0000_0000_0001);
    assert_eq!((p, a), (0b10, 0b0010_0000_0000_0010));
    // A piece in the middle with no wall contact stays put.
    let (p, a) = make_space_if_possible(0b10_0000, 0b11_0110_0000);
    assert_eq!((p, a), (0b10_0000, 0b11_0110_0000));
}

#[test]
fn filters_accept_and_reject() {
    // A key piece shut in a corner of a closed pattern may be a checkmate.
    // 0x0033 is a 2x2 block; each piece has two occupied neighbours.
    assert!(may_be_checkmate(0b1, 0x0033 | 0b1));
    // A lone pair in the open is no checkmate candidate: the piece can step
    // away to liberty 3 or more.
    assert!(!may_be_checkmate(0b10_0000, 0b11_0000_0000 | 0b10_0000));
    // Liberty 1 admits a one-ply win: a centre piece boxed on three sides.
    assert!(may_be_win1(0b10_0000, 0b0111_0010));
    // Liberty 4 does not.
    assert!(!may_be_win1(0b10_0000, 0b10_0000));
}

#[test]
fn merged_win1_tallies_do_not_depend_on_the_worker_count() {
    // A handful of small arrangements, swept as one share and as three.
    let arrs: Vec<u16> = vec![0x0033, 0x0011, 0x0312, 0x0036];
    let whole = count_win1_from_arrangements(&arrs);
    let mut merged: Vec<u128> = vec![0; 13];
    for th in 0..3usize {
        let part = partition_catalog(&arrs, 3, th);
        let partial = count_win1_from_arrangements(&part);
        for n in 0..13 {
            merged[n] += partial[n];
        }
    }
    assert_eq!(whole, merged);
}

#[test]
fn search_results_are_reproducible_sets() {
    // The searched key sets are functions of their inputs, and merging a
    // set with an equal one adds nothing.
    let a = gather_win1(0b10_0000, 0b0100_0111_0010);
    let b = gather_win1(0b10_0000, 0b0100_0111_0010);
    let la = a.len();
    assert_eq!(la, b.len());
    let mut merged = a;
    merged.absorb(b);
    assert_eq!(merged.len(), la);
    assert_eq!(la, 1368);
    let c = gather_checkmates(0b10_0000, 0b0111_0010);
    let d = gather_checkmates(0b10_0000, 0b0111_0010);
    assert_eq!(c.len(), d.len());
}
