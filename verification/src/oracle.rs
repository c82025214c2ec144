//! The trusted boundary to the game library and to the permutation
//! enumerator.
//!
//! A candidate position is handed over as 12 piece bitboards: slots 0..6
//! hold one side's key piece and its five ordinary pieces, slots 6..12 the
//! other side's.  The game library assembles the board, decides whether its
//! value equals a fixed target (loses in exactly 2 plies, or wins in exactly
//! 1 ply), and hashes the position to an opaque 64-bit key used only for
//! deduplication.  All three results are functions of the 12 bitboards
//! alone, so they are named here by uninterpreted spec functions; nothing in
//! this crate claims what they are on given values.

use vstd::prelude::*;
use itertools::Itertools;
use tokyodoves::collections::BoardSet;
use crate::bitgrid::one_bit;

verus! {

#[verifier::external_type_specification]
#[verifier::external_body]
pub struct ExBoardSet(BoardSet);

/// The keys stored in a board set.
pub uninterp spec fn board_set_contents(s: BoardSet) -> Set<u64>;

/// Whether the position assembled from the 12 piece bitboards has the value
/// "the side to move loses in exactly 2 plies".
pub uninterp spec fn lose2_verdict(positions: Seq<u16>) -> bool;

/// Whether the position assembled from the 12 piece bitboards has the value
/// "the side to move wins in exactly 1 ply".
pub uninterp spec fn win1_verdict(positions: Seq<u16>) -> bool;

/// The opaque 64-bit key identifying the position assembled from the 12
/// piece bitboards, up to the game's own equivalence.
pub uninterp spec fn invariant_key_of(positions: Seq<u16>) -> u64;

/// Relies on `BoardSet::new`: creates an empty set.
#[verifier::external_body]
pub(crate) fn bs_new() -> (r: BoardSet)
    ensures
        board_set_contents(r) == Set::<u64>::empty(),
{
    BoardSet::new()
}

/// Relies on `RawBoardSet::insert`, reached through `BoardSet::raw_mut`:
/// adds one key to the set; adding a present key changes nothing.
#[verifier::external_body]
pub(crate) fn bs_insert(s: &mut BoardSet, key: u64)
    ensures
        board_set_contents(*final(s)) == board_set_contents(*old(s)).insert(key),
{
    s.raw_mut().insert(key);
}

/// Relies on `BoardSet::len`: the number of stored keys.
#[verifier::external_body]
pub(crate) fn bs_len(s: &BoardSet) -> (r: usize)
    ensures
        r == board_set_contents(*s).len(),
{
    s.len()
}

/// Relies on `BoardSet::absorb`: moves every key of `other` into `s`.
#[verifier::external_body]
pub(crate) fn bs_absorb(s: &mut BoardSet, other: BoardSet)
    ensures
        board_set_contents(*final(s)) == board_set_contents(*old(s)).union(
            board_set_contents(other),
        ),
{
    s.absorb(other);
}

/// Relies on `BoardBuilder::from_u16_bits`, `BoardBuilder::build_unchecked`
/// and `compare_board_value` with `BoardValue::lose(2)` under the standard
/// rule: whether the assembled position's value equals "loses in exactly 2
/// plies".  Board analysis is pure, so the verdict depends on the 12
/// bitboards alone.  The game library works on boards of single-cell
/// pieces: its argument validation reads both key pieces' liberties, which
/// demands both on the field, and its board walks assume each piece mask
/// holds at most one bit, so only such masks are admitted.
#[verifier::external_body]
pub(crate) fn oracle_matches_lose2(positions: &Vec<u16>) -> (r: bool)
    requires
        positions@.len() == 12,
        positions@[0] != 0,
        positions@[6] != 0,
        forall|k: int| 0 <= k < 12 ==> positions@[k] == 0 || one_bit(#[trigger] positions@[k]),
    ensures
        r == lose2_verdict(positions@),
{
    let p = positions;
    let bits = [[p[0], p[1], p[2], p[3], p[4], p[5]], [p[6], p[7], p[8], p[9], p[10], p[11]]];
    let board = tokyodoves::BoardBuilder::from_u16_bits(bits).build_unchecked();
    let rule = tokyodoves::game::GameRule::new(true);
    let value = tokyodoves::analysis::BoardValue::lose(2).unwrap();
    matches!(
        tokyodoves::analysis::compare_board_value(board, value, tokyodoves::Color::Red, rule),
        Ok(std::cmp::Ordering::Equal)
    )
}

/// Relies on the same assembly with `BoardValue::win(1)`: whether the
/// position's value equals "wins in exactly 1 ply".  As above, the pieces
/// must be single cells and the key pieces on the field.
#[verifier::external_body]
pub(crate) fn oracle_matches_win1(positions: &Vec<u16>) -> (r: bool)
    requires
        positions@.len() == 12,
        positions@[0] != 0,
        positions@[6] != 0,
        forall|k: int| 0 <= k < 12 ==> positions@[k] == 0 || one_bit(#[trigger] positions@[k]),
    ensures
        r == win1_verdict(positions@),
{
    let p = positions;
    let bits = [[p[0], p[1], p[2], p[3], p[4], p[5]], [p[6], p[7], p[8], p[9], p[10], p[11]]];
    let board = tokyodoves::BoardBuilder::from_u16_bits(bits).build_unchecked();
    let rule = tokyodoves::game::GameRule::new(true);
    let value = tokyodoves::analysis::BoardValue::win(1).unwrap();
    matches!(
        tokyodoves::analysis::compare_board_value(board, value, tokyodoves::Color::Red, rule),
        Ok(std::cmp::Ordering::Equal)
    )
}

/// Relies on `Board::to_invariant_u64` with the Red perspective: the opaque
/// key of the assembled position, a function of the 12 bitboards alone.
/// The hash shifts each piece's cell index against the board's bounding
/// rectangle, so every piece must be a single cell inside that rectangle
/// and the key pieces on the field; a multi-cell mask would put a piece's
/// nominal index below the rectangle's corner and underflow.
#[verifier::external_body]
pub(crate) fn position_key(positions: &Vec<u16>) -> (r: u64)
    requires
        positions@.len() == 12,
        positions@[0] != 0,
        positions@[6] != 0,
        forall|k: int| 0 <= k < 12 ==> positions@[k] == 0 || one_bit(#[trigger] positions@[k]),
    ensures
        r == invariant_key_of(positions@),
{
    let p = positions;
    let bits = [[p[0], p[1], p[2], p[3], p[4], p[5]], [p[6], p[7], p[8], p[9], p[10], p[11]]];
    let board = tokyodoves::BoardBuilder::from_u16_bits(bits).build_unchecked();
    board.to_invariant_u64(tokyodoves::Color::Red)
}

/// Relies on itertools' `Itertools::permutations`: all ordered selections of
/// `k` distinct elements of `labels` (none when `k` exceeds the number of
/// elements).  With pairwise-distinct labels, every selection drawing
/// distinct labels appears.
#[verifier::external_body]
pub(crate) fn label_permutations(labels: &Vec<(u8, u8)>, k: usize) -> (r: Vec<Vec<(u8, u8)>>)
    requires
        labels@.no_duplicates(),
    ensures
        forall|t: int| 0 <= t < r@.len() ==> (#[trigger] r@[t])@.len() == k,
        forall|t: int| 0 <= t < r@.len() ==> (#[trigger] r@[t])@.no_duplicates(),
        forall|t: int, x: int|
            0 <= t < r@.len() && 0 <= x < r@[t]@.len() ==> labels@.contains(#[trigger] r@[t]@[x]),
        forall|s: Seq<(u8, u8)>|
            #![trigger s.no_duplicates()]
            s.len() == k && s.no_duplicates() && (forall|x: int|
                0 <= x < s.len() ==> labels@.contains(#[trigger] s[x])) ==> exists|t: int|
                0 <= t < r@.len() && (#[trigger] r@[t])@ == s,
{
    labels.iter().cloned().permutations(k).collect()
}

} // verus!
