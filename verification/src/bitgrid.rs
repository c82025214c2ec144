//! Geometry of occupancy masks on the 4x4 grid.
//!
//! A mask is a `u16`; bit `i` stands for the cell in row `i / 4`, column
//! `i % 4`.  Row 3 is the U edge, row 0 the D edge, column 3 the L edge and
//! column 0 the R edge.  The true board is unbounded: a wall only constrains
//! movement when the pattern under examination spans both opposite edges of
//! the grid, and the shift primitives below inject synthetic wall bits in
//! exactly that case.

use vstd::prelude::*;
use vstd::arithmetic::div_mod::lemma_fundamental_div_mod;
use vstd::std_specs::bits::{axiom_u16_trailing_zeros, u16_trailing_zeros};

verus! {

/// Cells of the U edge (row 3).
pub const U_WALL: u16 = 0xf000;

/// Cells of the D edge (row 0).
pub const D_WALL: u16 = 0x000f;

/// Cells of the L edge (column 3).
pub const L_WALL: u16 = 0x8888;

/// Cells of the R edge (column 0).
pub const R_WALL: u16 = 0x1111;

/// Cell `i` of mask `m` is occupied (false for any `i` outside the grid).
pub open spec fn occ(m: u16, i: u16) -> bool {
    i < 16 && (m >> i) & 1 == 1
}

/// Occupancy by row `v` and column `h` (false outside the grid).
pub open spec fn occ_vh(m: u16, v: int, h: int) -> bool {
    0 <= v < 4 && 0 <= h < 4 && occ(m, (4 * v + h) as u16)
}

/// The pattern spans both the U and the D edge, so those edges act as walls.
pub open spec fn ud_walls(m: u16) -> bool {
    m & U_WALL != 0 && m & D_WALL != 0
}

/// The pattern spans both the L and the R edge, so those edges act as walls.
pub open spec fn lr_walls(m: u16) -> bool {
    m & L_WALL != 0 && m & R_WALL != 0
}

/// The neighbour slot of cell `i` one row toward the D edge counts as
/// occupied: the cell below exists and is occupied, or `i` sits on the D edge
/// while both vertical edges act as walls.
pub open spec fn nbr_vminus(m: u16, i: u16) -> bool {
    if i >= 4 {
        occ(m, (i - 4) as u16)
    } else {
        i < 16 && ud_walls(m)
    }
}

/// The neighbour slot of cell `i` one row toward the U edge counts as occupied.
pub open spec fn nbr_vplus(m: u16, i: u16) -> bool {
    if i < 12 {
        occ(m, (i + 4) as u16)
    } else {
        i < 16 && ud_walls(m)
    }
}

/// The neighbour slot of cell `i` one column toward the R edge counts as
/// occupied.
pub open spec fn nbr_hminus(m: u16, i: u16) -> bool {
    if i % 4 >= 1 {
        occ(m, (i - 1) as u16)
    } else {
        i < 16 && lr_walls(m)
    }
}

/// The neighbour slot of cell `i` one column toward the L edge counts as
/// occupied.
pub open spec fn nbr_hplus(m: u16, i: u16) -> bool {
    if i % 4 <= 2 {
        occ(m, (i + 1) as u16)
    } else {
        i < 16 && lr_walls(m)
    }
}

/// Cell `i` is occupied and each of its four orthogonal neighbour slots is
/// occupied as well (a bounding wall counting as occupied).
pub open spec fn surrounded_at(m: u16, i: u16) -> bool {
    occ(m, i) && nbr_vminus(m, i) && nbr_vplus(m, i) && nbr_hminus(m, i) && nbr_hplus(m, i)
}

/// `s` holds exactly the surrounded cells of `m`.
pub open spec fn is_surrounded_mask(m: u16, s: u16) -> bool {
    forall|i: u16| i < 16 ==> #[trigger] occ(s, i) == surrounded_at(m, i)
}

/// The unique mask holding exactly the surrounded cells of `m`.
pub open spec fn surrounded_mask(m: u16) -> u16 {
    choose|s: u16| is_surrounded_mask(m, s)
}

/// Some occupied cell of `m` has no occupied cell among its 8 king-move
/// neighbours.  A single-bit mask is isolated under this definition.
pub open spec fn is_isolated_spec(m: u16) -> bool {
    exists|i: u16| i < 16 && occ(m, i) && !nbr8_occ(m, i)
}

/// Some king-move neighbour of cell `i` (the 8 cells around it, walls never
/// counting) is occupied.
pub open spec fn nbr8_occ(m: u16, i: u16) -> bool {
    ||| (i >= 4 && occ(m, (i - 4) as u16))
    ||| occ(m, (i + 4) as u16)
    ||| (i % 4 >= 1 && occ(m, (i - 1) as u16))
    ||| (i % 4 <= 2 && occ(m, (i + 1) as u16))
    ||| (i % 4 >= 1 && i >= 5 && occ(m, (i - 5) as u16))
    ||| (i % 4 <= 2 && i >= 3 && occ(m, (i - 3) as u16))
    ||| (i % 4 >= 1 && occ(m, (i + 3) as u16))
    ||| (i % 4 <= 2 && occ(m, (i + 5) as u16))
}

/// Cells `(v1, h1)` and `(v2, h2)` are distinct king-move neighbours.
pub open spec fn king_adj_vh(v1: int, h1: int, v2: int, h2: int) -> bool {
    -1 <= v1 - v2 <= 1 && -1 <= h1 - h2 <= 1 && !(v1 == v2 && h1 == h2)
}

/// Coordinate reading of isolation: some occupied cell has no occupied
/// king-move neighbour.
pub open spec fn isolated_vh(m: u16) -> bool {
    exists|v: int, h: int|
        #[trigger] occ_vh(m, v, h) && (forall|v2: int, h2: int|
            #[trigger] occ_vh(m, v2, h2) ==> !king_adj_vh(v, h, v2, h2))
}

/// The index-wise and the coordinate readings of isolation agree.
#[verifier::rlimit(100)]
pub proof fn lemma_isolated_coords(m: u16)
    ensures
        is_isolated_spec(m) == isolated_vh(m),
{
    if is_isolated_spec(m) {
        let i = choose|i: u16| i < 16 && occ(m, i) && !nbr8_occ(m, i);
        lemma_fundamental_div_mod(i as int, 4);
        let v = (i as int) / 4;
        let h = (i as int) % 4;
        assert(occ_vh(m, v, h));
        assert forall|v2: int, h2: int| #[trigger] occ_vh(m, v2, h2) implies !king_adj_vh(
            v,
            h,
            v2,
            h2,
        ) by {
            if king_adj_vh(v, h, v2, h2) {
                let j = (4 * v2 + h2) as u16;
                assert(occ(m, j));
                // Each of the eight neighbour offsets realizes one disjunct
                // of the index-wise neighbourhood.
                if v2 == v - 1 && h2 == h {
                    assert(j == i - 4 && i >= 4);
                } else if v2 == v + 1 && h2 == h {
                    assert(j == i + 4);
                } else if v2 == v && h2 == h - 1 {
                    assert(j == i - 1 && i % 4 >= 1);
                } else if v2 == v && h2 == h + 1 {
                    assert(j == i + 1 && i % 4 <= 2);
                } else if v2 == v - 1 && h2 == h - 1 {
                    assert(j == i - 5 && i % 4 >= 1 && i >= 5);
                } else if v2 == v - 1 && h2 == h + 1 {
                    assert(j == i - 3 && i % 4 <= 2 && i >= 3);
                } else if v2 == v + 1 && h2 == h - 1 {
                    assert(j == i + 3 && i % 4 >= 1);
                } else {
                    assert(v2 == v + 1 && h2 == h + 1);
                    assert(j == i + 5 && i % 4 <= 2);
                }
                assert(nbr8_occ(m, i));
                assert(false);
            }
        }
        assert(isolated_vh(m));
    }
    if isolated_vh(m) {
        let (v, h) = choose|v: int, h: int|
            #[trigger] occ_vh(m, v, h) && (forall|v2: int, h2: int|
                #[trigger] occ_vh(m, v2, h2) ==> !king_adj_vh(v, h, v2, h2));
        let i = (4 * v + h) as u16;
        assert(occ(m, i));
        lemma_fundamental_div_mod(i as int, 4);
        assert(!nbr8_occ(m, i)) by {
            if nbr8_occ(m, i) {
                if i >= 4 && occ(m, (i - 4) as u16) {
                    let j = (i - 4) as u16;
                    assert(j == 4 * (v - 1) + h);
                    lemma_fundamental_div_mod(j as int, 4);
                    assert(occ_vh(m, v - 1, h));
                    assert(king_adj_vh(v, h, v - 1, h));
                } else if occ(m, (i + 4) as u16) {
                    let j = (i + 4) as u16;
                    assert(j == 4 * (v + 1) + h && v + 1 < 4);
                    lemma_fundamental_div_mod(j as int, 4);
                    assert(occ_vh(m, v + 1, h));
                    assert(king_adj_vh(v, h, v + 1, h));
                } else if i % 4 >= 1 && occ(m, (i - 1) as u16) {
                    let j = (i - 1) as u16;
                    assert(j == 4 * v + (h - 1));
                    lemma_fundamental_div_mod(j as int, 4);
                    assert(occ_vh(m, v, h - 1));
                    assert(king_adj_vh(v, h, v, h - 1));
                } else if i % 4 <= 2 && occ(m, (i + 1) as u16) {
                    let j = (i + 1) as u16;
                    assert(j == 4 * v + (h + 1));
                    lemma_fundamental_div_mod(j as int, 4);
                    assert(occ_vh(m, v, h + 1));
                    assert(king_adj_vh(v, h, v, h + 1));
                } else if i % 4 >= 1 && i >= 5 && occ(m, (i - 5) as u16) {
                    let j = (i - 5) as u16;
                    assert(j == 4 * (v - 1) + (h - 1) && v >= 1);
                    lemma_fundamental_div_mod(j as int, 4);
                    assert(occ_vh(m, v - 1, h - 1));
                    assert(king_adj_vh(v, h, v - 1, h - 1));
                } else if i % 4 <= 2 && i >= 3 && occ(m, (i - 3) as u16) {
                    let j = (i - 3) as u16;
                    assert(j == 4 * (v - 1) + (h + 1) && v >= 1);
                    lemma_fundamental_div_mod(j as int, 4);
                    assert(occ_vh(m, v - 1, h + 1));
                    assert(king_adj_vh(v, h, v - 1, h + 1));
                } else if i % 4 >= 1 && occ(m, (i + 3) as u16) {
                    let j = (i + 3) as u16;
                    assert(j == 4 * (v + 1) + (h - 1) && v + 1 < 4);
                    lemma_fundamental_div_mod(j as int, 4);
                    assert(occ_vh(m, v + 1, h - 1));
                    assert(king_adj_vh(v, h, v + 1, h - 1));
                } else {
                    assert(i % 4 <= 2 && occ(m, (i + 5) as u16));
                    let j = (i + 5) as u16;
                    assert(j == 4 * (v + 1) + (h + 1) && v + 1 < 4);
                    lemma_fundamental_div_mod(j as int, 4);
                    assert(occ_vh(m, v + 1, h + 1));
                    assert(king_adj_vh(v, h, v + 1, h + 1));
                }
                assert(false);
            }
        }
        assert(is_isolated_spec(m));
    }
}

/// Number of occupied cells among cells `0 .. n` of `m`.
pub open spec fn popcount_upto(m: u16, n: int) -> int
    decreases n,
{
    if n <= 0 {
        0
    } else {
        popcount_upto(m, n - 1) + if occ(m, (n - 1) as u16) {
            1int
        } else {
            0int
        }
    }
}

/// Number of occupied cells of `m`.
pub open spec fn popcount(m: u16) -> int {
    popcount_upto(m, 16)
}

/// `m` has exactly one occupied cell.
pub open spec fn one_bit(m: u16) -> bool {
    exists|i: u16| i < 16 && m == (1u16 << i)
}

/// Cell-level readings of the bitwise operators.
pub proof fn lemma_cell_ops()
    by (bit_vector)
    ensures
        forall|a: u16, b: u16, i: u16|
            i < 16 ==> #[trigger] occ(a & b, i) == (occ(a, i) && occ(b, i)),
        forall|a: u16, b: u16, i: u16|
            i < 16 ==> #[trigger] occ(a | b, i) == (occ(a, i) || occ(b, i)),
        forall|a: u16, i: u16| i < 16 ==> #[trigger] occ(!a, i) == !occ(a, i),
        forall|i: u16| i < 16 ==> !occ(0u16, i),
        forall|k: u16, i: u16| i < 16 && k < 16 ==> #[trigger] occ(1u16 << k, i) == (i == k),
{
}

/// Cell-level reading of the four wall masks.
pub proof fn lemma_wall_cells()
    by (bit_vector)
    ensures
        forall|i: u16| i < 16 ==> #[trigger] occ(0xf000u16, i) == (i / 4 == 3),
        forall|i: u16| i < 16 ==> #[trigger] occ(0x000fu16, i) == (i / 4 == 0),
        forall|i: u16| i < 16 ==> #[trigger] occ(0x8888u16, i) == (i % 4 == 3),
        forall|i: u16| i < 16 ==> #[trigger] occ(0x1111u16, i) == (i % 4 == 0),
{
}

/// Two masks equal on every cell are equal.
pub proof fn lemma_mask_ext(a: u16, b: u16)
    requires
        forall|i: u16| i < 16 ==> occ(a, i) == occ(b, i),
    ensures
        a == b,
{
    assert forall|i: u16| i < 16 implies ((a >> i) & 1 == 1) == ((b >> i) & 1 == 1) by {
        assert(occ(a, i) == occ(b, i));
    }
    assert(a == b) by (bit_vector)
        requires
            ((a >> 0u16) & 1 == 1) == ((b >> 0u16) & 1 == 1),
            ((a >> 1u16) & 1 == 1) == ((b >> 1u16) & 1 == 1),
            ((a >> 2u16) & 1 == 1) == ((b >> 2u16) & 1 == 1),
            ((a >> 3u16) & 1 == 1) == ((b >> 3u16) & 1 == 1),
            ((a >> 4u16) & 1 == 1) == ((b >> 4u16) & 1 == 1),
            ((a >> 5u16) & 1 == 1) == ((b >> 5u16) & 1 == 1),
            ((a >> 6u16) & 1 == 1) == ((b >> 6u16) & 1 == 1),
            ((a >> 7u16) & 1 == 1) == ((b >> 7u16) & 1 == 1),
            ((a >> 8u16) & 1 == 1) == ((b >> 8u16) & 1 == 1),
            ((a >> 9u16) & 1 == 1) == ((b >> 9u16) & 1 == 1),
            ((a >> 10u16) & 1 == 1) == ((b >> 10u16) & 1 == 1),
            ((a >> 11u16) & 1 == 1) == ((b >> 11u16) & 1 == 1),
            ((a >> 12u16) & 1 == 1) == ((b >> 12u16) & 1 == 1),
            ((a >> 13u16) & 1 == 1) == ((b >> 13u16) & 1 == 1),
            ((a >> 14u16) & 1 == 1) == ((b >> 14u16) & 1 == 1),
            ((a >> 15u16) & 1 == 1) == ((b >> 15u16) & 1 == 1),
    ;
}

/// A non-zero mask has an occupied cell.
pub proof fn lemma_nonzero_has_bit(a: u16)
    requires
        a != 0,
    ensures
        exists|i: u16| i < 16 && occ(a, i),
{
    axiom_u16_trailing_zeros(a);
    let tz = u16_trailing_zeros(a) as u16;
    assert(tz < 16);
    assert(occ(a, tz));
}

/// `a & b == 0` says exactly that `a` and `b` share no occupied cell.
pub proof fn lemma_and_zero(a: u16, b: u16)
    ensures
        (a & b == 0) <==> (forall|i: u16| i < 16 ==> !(#[trigger] occ(a, i) && occ(b, i))),
{
    lemma_cell_ops();
    if a & b == 0 {
        assert forall|i: u16| i < 16 implies !(occ(a, i) && occ(b, i)) by {
            assert(occ(a & b, i) == (occ(a, i) && occ(b, i)));
        }
    } else {
        lemma_nonzero_has_bit(a & b);
    }
}

/// `a & b == a` says exactly that every occupied cell of `a` is one of `b`.
pub proof fn lemma_and_absorb(a: u16, b: u16)
    ensures
        (a & b == a) <==> (forall|i: u16| i < 16 && #[trigger] occ(a, i) ==> occ(b, i)),
{
    lemma_cell_ops();
    if forall|i: u16| i < 16 && #[trigger] occ(a, i) ==> occ(b, i) {
        assert forall|i: u16| i < 16 implies occ(a & b, i) == occ(a, i) by {
            assert(occ(a & b, i) == (occ(a, i) && occ(b, i)));
        }
        lemma_mask_ext(a & b, a);
    } else {
        if a & b == a {
            assert forall|i: u16| i < 16 && #[trigger] occ(a, i) implies occ(b, i) by {
                assert(occ(a & b, i) == (occ(a, i) && occ(b, i)));
            }
        }
    }
}

/// Cell-level reading of the four wall-aware shifted masks.
proof fn lemma_shifted_cells(bits: u16, u_s: u16, d_s: u16, l_s: u16, r_s: u16)
    by (bit_vector)
    requires
        u_s == (bits << 4) | (if ud_walls(bits) { D_WALL } else { 0u16 }),
        d_s == (bits >> 4) | (if ud_walls(bits) { U_WALL } else { 0u16 }),
        l_s == ((bits & 0x7777) << 1) | (if lr_walls(bits) { R_WALL } else { 0u16 }),
        r_s == ((bits & 0xeeee) >> 1) | (if lr_walls(bits) { L_WALL } else { 0u16 }),
    ensures
        forall|i: u16| i < 16 ==> #[trigger] occ(u_s, i) == nbr_vminus(bits, i),
        forall|i: u16| i < 16 ==> #[trigger] occ(d_s, i) == nbr_vplus(bits, i),
        forall|i: u16| i < 16 ==> #[trigger] occ(l_s, i) == nbr_hminus(bits, i),
        forall|i: u16| i < 16 ==> #[trigger] occ(r_s, i) == nbr_hplus(bits, i),
{
}

/// The four one-step shifts of `bits`, each OR-ed with the opposite wall
/// pattern when the pattern spans both edges of that axis.  Cell `i` of each
/// result reads as wall-aware occupancy of the corresponding neighbour slot.
pub fn shift_udlr(bits: u16) -> (r: (u16, u16, u16, u16))
    ensures
        forall|i: u16| i < 16 ==> #[trigger] occ(r.0, i) == nbr_vminus(bits, i),
        forall|i: u16| i < 16 ==> #[trigger] occ(r.1, i) == nbr_vplus(bits, i),
        forall|i: u16| i < 16 ==> #[trigger] occ(r.2, i) == nbr_hminus(bits, i),
        forall|i: u16| i < 16 ==> #[trigger] occ(r.3, i) == nbr_hplus(bits, i),
{
    let walls_ud: bool = (bits & U_WALL != 0) && (bits & D_WALL != 0);
    let walls_lr: bool = (bits & L_WALL != 0) && (bits & R_WALL != 0);
    let u_wall: u16 = if walls_ud { U_WALL } else { 0 };
    let d_wall: u16 = if walls_ud { D_WALL } else { 0 };
    let l_wall: u16 = if walls_lr { L_WALL } else { 0 };
    let r_wall: u16 = if walls_lr { R_WALL } else { 0 };

    let u_shifted: u16 = (bits << 4u16) | d_wall;
    let d_shifted: u16 = (bits >> 4u16) | u_wall;
    let l_shifted: u16 = ((bits & 0x7777) << 1u16) | r_wall;
    let r_shifted: u16 = ((bits & 0xeeee) >> 1u16) | l_wall;
    proof {
        lemma_shifted_cells(bits, u_shifted, d_shifted, l_shifted, r_shifted);
    }
    (u_shifted, d_shifted, l_shifted, r_shifted)
}

/// The cells of `bits` all four of whose neighbour slots are occupied, a
/// bounding wall counting as occupied.
pub fn extract_surrounded(bits: u16) -> (r: u16)
    ensures
        forall|i: u16| i < 16 ==> #[trigger] occ(r, i) == surrounded_at(bits, i),
        r & bits == r,
        r == surrounded_mask(bits),
{
    let (u_shifted, d_shifted, l_shifted, r_shifted) = shift_udlr(bits);
    let res: u16 = bits & u_shifted & d_shifted & l_shifted & r_shifted;
    proof {
        lemma_cell_ops();
        assert forall|i: u16| i < 16 implies #[trigger] occ(res, i) == surrounded_at(bits, i) by {
            assert(occ(bits & u_shifted, i) == (occ(bits, i) && occ(u_shifted, i)));
            assert(occ(bits & u_shifted & d_shifted, i) == (occ(bits & u_shifted, i) && occ(
                d_shifted,
                i,
            )));
            assert(occ(bits & u_shifted & d_shifted & l_shifted, i) == (occ(
                bits & u_shifted & d_shifted,
                i,
            ) && occ(l_shifted, i)));
            assert(occ(res, i) == (occ(bits & u_shifted & d_shifted & l_shifted, i) && occ(
                r_shifted,
                i,
            )));
        }
        lemma_and_absorb(res, bits);
        assert forall|i: u16| i < 16 && #[trigger] occ(res, i) implies occ(bits, i) by {
            assert(surrounded_at(bits, i));
        }
        assert(is_surrounded_mask(bits, res));
        assert(exists|s: u16| is_surrounded_mask(bits, s));
        let s = surrounded_mask(bits);
        assert(is_surrounded_mask(bits, s));
        assert forall|i: u16| i < 16 implies occ(res, i) == occ(s, i) by {}
        lemma_mask_ext(res, s);
    }
    res
}

/// A mask contained in another has no more occupied cells.
pub proof fn lemma_popcount_subset(a: u16, b: u16)
    requires
        a & b == a,
    ensures
        popcount(a) <= popcount(b),
{
    lemma_popcount_subset_upto(a, b, 16);
}

proof fn lemma_popcount_subset_upto(a: u16, b: u16, n: int)
    requires
        a & b == a,
        0 <= n <= 16,
    ensures
        popcount_upto(a, n) <= popcount_upto(b, n),
    decreases n,
{
    lemma_and_absorb(a, b);
    if n > 0 {
        lemma_popcount_subset_upto(a, b, n - 1);
    }
}

/// No occupied cell of `piece` has its neighbour slot toward the D edge
/// occupied in `all` (wall-aware).
pub open spec fn avoids_vminus(piece: u16, all: u16) -> bool {
    forall|i: u16| i < 16 && #[trigger] occ(piece, i) ==> !nbr_vminus(all, i)
}

/// As `avoids_vminus`, toward the U edge.
pub open spec fn avoids_vplus(piece: u16, all: u16) -> bool {
    forall|i: u16| i < 16 && #[trigger] occ(piece, i) ==> !nbr_vplus(all, i)
}

/// As `avoids_vminus`, toward the R edge.
pub open spec fn avoids_hminus(piece: u16, all: u16) -> bool {
    forall|i: u16| i < 16 && #[trigger] occ(piece, i) ==> !nbr_hminus(all, i)
}

/// As `avoids_vminus`, toward the L edge.
pub open spec fn avoids_hplus(piece: u16, all: u16) -> bool {
    forall|i: u16| i < 16 && #[trigger] occ(piece, i) ==> !nbr_hplus(all, i)
}

/// Number of orthogonal directions along which `piece` has an open neighbour
/// slot in the occupancy `all`: its liberty, between 0 and 4.
pub open spec fn liberty_of(piece: u16, all: u16) -> int {
    (if avoids_vminus(piece, all) {
        1int
    } else {
        0int
    }) + (if avoids_vplus(piece, all) {
        1int
    } else {
        0int
    }) + (if avoids_hminus(piece, all) {
        1int
    } else {
        0int
    }) + (if avoids_hplus(piece, all) {
        1int
    } else {
        0int
    })
}

/// Counts the orthogonal directions along which the wall-aware shift of
/// `all_bits` misses `piece_bit` entirely: the piece's liberty.
pub fn calc_liberty(piece_bit: u16, all_bits: u16) -> (r: usize)
    ensures
        r == liberty_of(piece_bit, all_bits),
        r <= 4,
{
    let (u_shifted, d_shifted, l_shifted, r_shifted) = shift_udlr(all_bits);
    proof {
        lemma_and_zero(piece_bit, u_shifted);
        lemma_and_zero(piece_bit, d_shifted);
        lemma_and_zero(piece_bit, l_shifted);
        lemma_and_zero(piece_bit, r_shifted);
    }
    let mut r: usize = 0;
    if piece_bit & u_shifted == 0 {
        r += 1;
    }
    assert((piece_bit & u_shifted == 0) == avoids_vminus(piece_bit, all_bits));
    if piece_bit & d_shifted == 0 {
        r += 1;
    }
    if piece_bit & l_shifted == 0 {
        r += 1;
    }
    if piece_bit & r_shifted == 0 {
        r += 1;
    }
    r
}

/// A mask contained in a larger one reaches no new cells and raises no new
/// walls, so every wall-aware neighbour slot occupied under the smaller mask
/// is occupied under the larger one.
pub proof fn lemma_nbr_monotone(all1: u16, all2: u16)
    requires
        all1 & all2 == all1,
    ensures
        forall|i: u16| i < 16 && #[trigger] nbr_vminus(all1, i) ==> nbr_vminus(all2, i),
        forall|i: u16| i < 16 && #[trigger] nbr_vplus(all1, i) ==> nbr_vplus(all2, i),
        forall|i: u16| i < 16 && #[trigger] nbr_hminus(all1, i) ==> nbr_hminus(all2, i),
        forall|i: u16| i < 16 && #[trigger] nbr_hplus(all1, i) ==> nbr_hplus(all2, i),
{
    lemma_and_absorb(all1, all2);
    lemma_cell_ops();
    assert(ud_walls(all1) ==> ud_walls(all2)) by {
        if ud_walls(all1) {
            lemma_subset_keeps_overlap(all1, all2, U_WALL);
            lemma_subset_keeps_overlap(all1, all2, D_WALL);
        }
    }
    assert(lr_walls(all1) ==> lr_walls(all2)) by {
        if lr_walls(all1) {
            lemma_subset_keeps_overlap(all1, all2, L_WALL);
            lemma_subset_keeps_overlap(all1, all2, R_WALL);
        }
    }
}

/// A mask overlapping `w` keeps overlapping it from inside any larger mask.
pub proof fn lemma_subset_keeps_overlap(a: u16, b: u16, w: u16)
    requires
        a & b == a,
        a & w != 0,
    ensures
        b & w != 0,
{
    lemma_and_absorb(a, b);
    lemma_and_zero(a, w);
    lemma_and_zero(b, w);
    let i = choose|i: u16| i < 16 && #[trigger] occ(a, i) && occ(w, i);
    assert(occ(b, i) && occ(w, i));
}

/// Adding pieces to the occupancy never increases the liberty of a fixed
/// piece.
pub proof fn lemma_liberty_monotone(piece: u16, all1: u16, all2: u16)
    requires
        all1 & all2 == all1,
    ensures
        liberty_of(piece, all2) <= liberty_of(piece, all1),
{
    lemma_nbr_monotone(all1, all2);
    assert(avoids_vminus(piece, all2) ==> avoids_vminus(piece, all1));
    assert(avoids_vplus(piece, all2) ==> avoids_vplus(piece, all1));
    assert(avoids_hminus(piece, all2) ==> avoids_hminus(piece, all1));
    assert(avoids_hplus(piece, all2) ==> avoids_hplus(piece, all1));
}

/// Counts the occupied cells of `m`.
pub fn count_bits(m: u16) -> (r: usize)
    ensures
        r == popcount(m),
        r <= 16,
{
    let mut r: usize = 0;
    let mut i: u16 = 0;
    while i < 16
        invariant
            i <= 16,
            r == popcount_upto(m, i as int),
            r <= i,
        decreases 16 - i,
    {
        if (m >> i) & 1 == 1 {
            r += 1;
        }
        assert(popcount_upto(m, i + 1) == popcount_upto(m, i as int) + if occ(m, i) {
            1int
        } else {
            0int
        });
        i += 1;
    }
    r
}

/// A mask with an occupied cell is non-zero.
pub proof fn lemma_popcount_pos_nonzero(m: u16)
    requires
        popcount(m) > 0,
    ensures
        m != 0,
{
    if m == 0 {
        lemma_cell_ops();
        lemma_popcount_upto_zero(m, 16);
    }
}

/// A mask with no occupied cell below `n` counts zero cells there.
proof fn lemma_popcount_upto_zero(m: u16, n: int)
    requires
        n <= 16,
        forall|i: u16| i < 16 ==> !occ(m, i),
    ensures
        popcount_upto(m, n) == 0,
    decreases n,
{
    if n > 0 {
        lemma_popcount_upto_zero(m, n - 1);
    }
}

/// A mask with no occupied cell below `s` counts zero cells there.
pub proof fn lemma_popcount_low_zero(m: u16, s: int)
    requires
        s <= 16,
        forall|i: u16| i < s ==> !occ(m, i),
    ensures
        popcount_upto(m, s) == 0,
    decreases s,
{
    if s > 0 {
        lemma_popcount_low_zero(m, s - 1);
    }
}

/// Setting one fresh cell raises the count of cells below `n` by one when the
/// cell lies below `n`.
pub proof fn lemma_popcount_upto_or_new_bit(r: u16, j: u16, n: int)
    requires
        j < 16,
        !occ(r, j),
        0 <= n <= 16,
    ensures
        popcount_upto(r | (1u16 << j), n) == popcount_upto(r, n) + if j < n {
            1int
        } else {
            0int
        },
    decreases n,
{
    lemma_cell_ops();
    if n > 0 {
        lemma_popcount_upto_or_new_bit(r, j, n - 1);
        assert(occ(r | (1u16 << j), (n - 1) as u16) == (occ(r, (n - 1) as u16) || (n - 1) == j));
    }
}

/// Setting one fresh cell raises the cell count by one.
pub proof fn lemma_popcount_or_new_bit(r: u16, j: u16)
    requires
        j < 16,
        !occ(r, j),
    ensures
        popcount(r | (1u16 << j)) == popcount(r) + 1,
{
    lemma_popcount_upto_or_new_bit(r, j, 16);
}

/// A single-bit mask is non-zero.
pub proof fn lemma_single_bit_nonzero(j: u16)
    requires
        j < 16,
    ensures
        (1u16 << j) != 0,
{
    lemma_cell_ops();
    assert(occ(1u16 << j, j));
    if (1u16 << j) == 0 {
        assert(!occ(0u16, j));
    }
}

/// A mask with exactly one occupied cell is non-zero.
pub proof fn lemma_one_bit_nonzero(b: u16)
    requires
        one_bit(b),
    ensures
        b != 0,
{
    let j = choose|i: u16| i < 16 && b == (1u16 << i);
    lemma_single_bit_nonzero(j);
}

/// The lowest occupied cell of `m`, as a single-bit mask.
pub open spec fn lowest_bit(m: u16) -> u16 {
    1u16 << (u16_trailing_zeros(m) as u16)
}

/// Yields the occupied cells of a mask one at a time, lowest first, as
/// single-bit masks.
pub struct HotBitIter {
    bits: u16,
}

impl HotBitIter {
    /// The cells not yet yielded.
    pub closed spec fn remaining(&self) -> u16 {
        self.bits
    }

    pub fn new(bits: u16) -> (r: Self)
        ensures
            r.remaining() == bits,
    {
        Self { bits }
    }

    /// The lowest remaining occupied cell, removed from the iterator, or
    /// `None` once no cell remains.
    pub fn next_bit(&mut self) -> (r: Option<u16>)
        ensures
            old(self).remaining() == 0 ==> r is None && final(self).remaining() == 0,
            old(self).remaining() != 0 ==> {
                let b = lowest_bit(old(self).remaining());
                &&& r == Some(b)
                &&& one_bit(b)
                &&& b & old(self).remaining() == b
                &&& final(self).remaining() == old(self).remaining() & !b
            },
    {
        if self.bits == 0 {
            return None;
        }
        proof {
            axiom_u16_trailing_zeros(self.bits);
        }
        let tz: u32 = self.bits.trailing_zeros();
        let bit: u16 = 1u16 << (tz as u16);
        proof {
            let m = self.bits;
            let t = u16_trailing_zeros(m) as u16;
            assert(t < 16);
            lemma_cell_ops();
            assert(occ(m, t));
            assert(occ(bit, t));
            assert forall|i: u16| i < 16 && #[trigger] occ(bit, i) implies occ(m, i) by {
                assert(i == t);
            }
            lemma_and_absorb(bit, m);
        }
        self.bits = self.bits & !bit;
        Some(bit)
    }
}

/// The bounding rectangle of a non-empty mask: least and greatest occupied
/// row and column.
pub struct Rect {
    pub vmin: usize,
    pub vmax: usize,
    pub hmin: usize,
    pub hmax: usize,
}

impl Rect {
    /// Rows spanned by the rectangle.
    pub open spec fn vsize(&self) -> int {
        self.vmax - self.vmin + 1
    }

    /// Columns spanned by the rectangle.
    pub open spec fn hsize(&self) -> int {
        self.hmax - self.hmin + 1
    }
}

/// `r` is the bounding rectangle of `m`: it contains every occupied cell and
/// attains all four extremes.
pub open spec fn rect_ok(m: u16, r: Rect) -> bool {
    &&& forall|i: u16|
        i < 16 && #[trigger] occ(m, i) ==> r.vmin <= i / 4 <= r.vmax && r.hmin <= i % 4 <= r.hmax
    &&& exists|i: u16| i < 16 && #[trigger] occ(m, i) && i / 4 == r.vmin
    &&& exists|i: u16| i < 16 && #[trigger] occ(m, i) && i / 4 == r.vmax
    &&& exists|i: u16| i < 16 && #[trigger] occ(m, i) && i % 4 == r.hmin
    &&& exists|i: u16| i < 16 && #[trigger] occ(m, i) && i % 4 == r.hmax
}

/// The bounding rectangle of the occupied cells, or `None` for the empty
/// mask.
pub fn find_minimal_rectangle(bits: u16) -> (r: Option<Rect>)
    ensures
        r is None <==> bits == 0,
        r is Some ==> rect_ok(bits, r->0) && r->0.vmin <= r->0.vmax <= 3 && r->0.hmin <= r->0.hmax
            <= 3,
{
    if bits == 0 {
        proof {
            lemma_cell_ops();
        }
        return None;
    }
    let mut found: bool = false;
    let mut vmin: usize = 3;
    let mut vmax: usize = 0;
    let mut hmin: usize = 3;
    let mut hmax: usize = 0;
    let mut i: u16 = 0;
    while i < 16
        invariant
            i <= 16,
            vmin <= 3 && vmax <= 3 && hmin <= 3 && hmax <= 3,
            found ==> vmin <= vmax && hmin <= hmax,
            found <==> exists|j: u16| j < i && #[trigger] occ(bits, j),
            forall|j: u16|
                j < i && #[trigger] occ(bits, j) ==> vmin <= j / 4 <= vmax && hmin <= j % 4
                    <= hmax,
            found ==> exists|j: u16| j < i && #[trigger] occ(bits, j) && j / 4 == vmin,
            found ==> exists|j: u16| j < i && #[trigger] occ(bits, j) && j / 4 == vmax,
            found ==> exists|j: u16| j < i && #[trigger] occ(bits, j) && j % 4 == hmin,
            found ==> exists|j: u16| j < i && #[trigger] occ(bits, j) && j % 4 == hmax,
        decreases 16 - i,
    {
        if (bits >> i) & 1 == 1 {
            assert(occ(bits, i));
            let v: usize = (i / 4) as usize;
            let h: usize = (i % 4) as usize;
            if !found {
                vmin = v;
                vmax = v;
                hmin = h;
                hmax = h;
                found = true;
            } else {
                if v < vmin {
                    vmin = v;
                }
                if v > vmax {
                    vmax = v;
                }
                if h < hmin {
                    hmin = h;
                }
                if h > hmax {
                    hmax = h;
                }
            }
        }
        i += 1;
    }
    proof {
        if !found {
            assert(forall|j: u16| j < 16 ==> !occ(bits, j));
            lemma_nonzero_has_bit(bits);
            assert(false);
        }
    }
    Some(Rect { vmin, vmax, hmin, hmax })
}

/// Cell-level reading of the king-neighbourhood mask computed by
/// `is_isolated`.
proof fn lemma_adj_cells(m: u16, adj: u16)
    by (bit_vector)
    requires
        adj == ((((m << 4) | m | (m >> 4)) & 0x7777) << 1) | (m << 4) | (m >> 4) | ((((m << 4) | m
            | (m >> 4)) & 0xeeee) >> 1),
    ensures
        forall|i: u16| i < 16 ==> #[trigger] occ(adj, i) == nbr8_occ(m, i),
{
}

/// True iff some occupied cell of `bits` has no occupied cell among its 8
/// king-move neighbours.
pub fn is_isolated(bits: u16) -> (r: bool)
    ensures
        r == is_isolated_spec(bits),
{
    let u: u16 = bits << 4u16;
    let d: u16 = bits >> 4u16;
    let u_c_d: u16 = u | bits | d;
    let l_lu_ld: u16 = (u_c_d & 0x7777) << 1u16;
    let r_ru_rd: u16 = (u_c_d & 0xeeee) >> 1u16;
    let adj: u16 = l_lu_ld | u | d | r_ru_rd;
    let res: bool = bits & adj != bits;
    proof {
        lemma_adj_cells(bits, adj);
        lemma_and_absorb(bits, adj);
        if res {
            assert(!(forall|i: u16| i < 16 && #[trigger] occ(bits, i) ==> occ(adj, i)));
            let w = choose|i: u16| i < 16 && #[trigger] occ(bits, i) && !occ(adj, i);
            assert(occ(bits, w) && !nbr8_occ(bits, w));
        } else {
            assert forall|i: u16| i < 16 && occ(bits, i) implies nbr8_occ(bits, i) by {
                assert(occ(adj, i));
            }
        }
    }
    res
}

} // verus!
