//! Edge normalization and the cheap necessary-condition filters applied to a
//! candidate arrangement before any oracle work.
//!
//! The true board is borderless, so a key piece flush against a grid edge
//! whose opposite edge is free is first translated one step away from that
//! edge; the checkmate filter then demands that every legal single-step
//! destination of the key piece leaves it with liberty below 2, and the
//! one-ply-win filter demands liberty exactly 1, or liberty 2 inside a 3x3
//! bounding rectangle.

use vstd::prelude::*;
use vstd::arithmetic::div_mod::lemma_fundamental_div_mod;
use crate::bitgrid::{
    calc_liberty, find_minimal_rectangle, is_isolated, is_isolated_spec, lemma_and_zero,
    lemma_cell_ops, lemma_mask_ext, lemma_wall_cells, liberty_of, occ, occ_vh, one_bit, rect_ok,
    Rect, D_WALL, L_WALL, R_WALL, U_WALL,
};
use crate::symmetry::{lemma_rect_unique, lemma_shl_cells, lemma_shr_cells, rect_hs, rect_vs, the_rect};

verus! {

/// `new_m` is `old_m` translated by `dv` rows and `dh` columns, with no cell
/// pushed off the grid.
pub open spec fn translated(old_m: u16, new_m: u16, dv: int, dh: int) -> bool {
    &&& forall|v: int, h: int|
        0 <= v < 4 && 0 <= h < 4 ==> #[trigger] occ_vh(new_m, v, h) == occ_vh(
            old_m,
            v - dv,
            h - dh,
        )
    &&& forall|v: int, h: int| #[trigger] occ_vh(old_m, v, h) ==> 0 <= v + dv < 4 && 0 <= h + dh < 4
}

/// The row the normalization moves a pattern by: away from the U edge when
/// the piece sits on it and the D edge is free, away from the D edge in the
/// mirrored case, else nowhere.
pub open spec fn space_dv(piece: u16, all0: u16) -> int {
    if piece & U_WALL != 0 && all0 & D_WALL == 0 {
        -1
    } else if piece & D_WALL != 0 && all0 & U_WALL == 0 {
        1
    } else {
        0
    }
}

/// The column counterpart of `space_dv`.
pub open spec fn space_dh(piece: u16, all0: u16) -> int {
    if piece & L_WALL != 0 && all0 & R_WALL == 0 {
        -1
    } else if piece & R_WALL != 0 && all0 & L_WALL == 0 {
        1
    } else {
        0
    }
}

/// The mask translated by one normalization step in each axis: a shift by 4
/// for a row, by 1 for a column.
pub open spec fn shift_by(m: u16, dv: int, dh: int) -> u16 {
    let m1 = if dv == -1 {
        m >> 4
    } else if dv == 1 {
        (m << 4) as u16
    } else {
        m
    };
    if dh == -1 {
        m1 >> 1
    } else if dh == 1 {
        (m1 << 1) as u16
    } else {
        m1
    }
}

/// A translation carries a single-bit mask to a single-bit mask.
pub proof fn lemma_translated_one_bit(b: u16, b2: u16, dv: int, dh: int)
    requires
        one_bit(b),
        translated(b, b2, dv, dh),
    ensures
        one_bit(b2),
{
    lemma_cell_ops();
    let i = choose|i: u16| i < 16 && b == (1u16 << i);
    lemma_fundamental_div_mod(i as int, 4);
    let v0 = (i as int) / 4;
    let h0 = (i as int) % 4;
    assert(occ(b, i));
    assert(occ_vh(b, v0, h0));
    assert(0 <= v0 + dv < 4 && 0 <= h0 + dh < 4);
    let j = (4 * (v0 + dv) + (h0 + dh)) as u16;
    assert(j < 16);
    lemma_fundamental_div_mod(j as int, 4);
    assert forall|x: u16| x < 16 implies occ(b2, x) == occ(1u16 << j, x) by {
        lemma_fundamental_div_mod(x as int, 4);
        let v = (x as int) / 4;
        let h = (x as int) % 4;
        assert(occ(b2, x) == occ_vh(b2, v, h));
        assert(occ_vh(b2, v, h) == occ_vh(b, v - dv, h - dh));
        if occ_vh(b, v - dv, h - dh) {
            let y = (4 * (v - dv) + (h - dh)) as u16;
            assert(occ(b, y));
            assert(y == i);
            lemma_fundamental_div_mod(y as int, 4);
            assert(v - dv == v0 && h - dh == h0);
            assert(x == j);
        }
        if x == j {
            assert(v == v0 + dv && h == h0 + dh);
            assert(occ_vh(b, v - dv, h - dh) == occ_vh(b, v0, h0));
        }
    }
    lemma_mask_ext(b2, 1u16 << j);
    assert(b2 == (1u16 << j));
}

/// Translation by nothing relates a mask to itself.
proof fn lemma_translate_refl(m: u16)
    ensures
        translated(m, m, 0, 0),
{
}

/// Two translations compose by adding their offsets.
proof fn lemma_translate_compose(a: u16, b: u16, c: u16, d1v: int, d1h: int, d2v: int, d2h: int)
    requires
        translated(a, b, d1v, d1h),
        translated(b, c, d2v, d2h),
    ensures
        translated(a, c, d1v + d2v, d1h + d2h),
{
    assert forall|v: int, h: int| 0 <= v < 4 && 0 <= h < 4 implies #[trigger] occ_vh(c, v, h)
        == occ_vh(a, v - d1v - d2v, h - d1h - d2h) by {
        assert(occ_vh(c, v, h) == occ_vh(b, v - d2v, h - d2h));
        if 0 <= v - d2v < 4 && 0 <= h - d2h < 4 {
            assert(occ_vh(b, v - d2v, h - d2h) == occ_vh(a, v - d2v - d1v, h - d2h - d1h));
        } else {
            assert(!occ_vh(b, v - d2v, h - d2h));
            if occ_vh(a, v - d1v - d2v, h - d1h - d2h) {
                let x = v - d1v - d2v;
                let y = h - d1h - d2h;
                assert(0 <= x + d1v < 4 && 0 <= y + d1h < 4);
                assert(occ_vh(b, x + d1v, y + d1h) == occ_vh(a, x, y));
                assert(false);
            }
        }
    }
    assert forall|v: int, h: int| #[trigger] occ_vh(a, v, h) implies 0 <= v + d1v + d2v < 4 && 0
        <= h + d1h + d2h < 4 by {
        assert(0 <= v + d1v < 4 && 0 <= h + d1h < 4);
        assert(occ_vh(b, v + d1v, h + d1h) == occ_vh(a, v, h));
        assert(occ_vh(b, v + d1v, h + d1h));
    }
}

/// A mask without cells on the D edge shifts down one row without loss.
proof fn lemma_translate_shr4(m: u16)
    requires
        m & D_WALL == 0,
    ensures
        translated(m, m >> 4, -1, 0),
{
    lemma_shr_cells(m, 4);
    lemma_wall_cells();
    lemma_and_zero(m, D_WALL);
    let m2 = m >> 4;
    assert forall|v: int, h: int| 0 <= v < 4 && 0 <= h < 4 implies #[trigger] occ_vh(m2, v, h)
        == occ_vh(m, v + 1, h) by {
        let i = (4 * v + h) as u16;
        assert(occ_vh(m2, v, h) == occ(m2, i));
        assert(occ(m2, i) == (i + 4 < 16 && occ(m, (i + 4) as u16)));
        if v <= 2 {
            assert(i + 4 == 4 * (v + 1) + h);
        } else {
            assert(i + 4 >= 16);
            assert(!occ_vh(m, v + 1, h));
        }
    }
    assert forall|v: int, h: int| #[trigger] occ_vh(m, v, h) implies 0 <= v + (-1) < 4 && 0 <= h
        + 0 < 4 by {
        let i = (4 * v + h) as u16;
        assert(occ(m, i));
        if v == 0 {
            lemma_fundamental_div_mod(i as int, 4);
            assert(i / 4 == 0);
            assert(occ(0x000fu16, i));
            assert(false);
        }
    }
}

/// A mask without cells on the U edge shifts up one row without loss.
proof fn lemma_translate_shl4(m: u16)
    requires
        m & U_WALL == 0,
    ensures
        translated(m, (m << 4) as u16, 1, 0),
{
    lemma_shl_cells(m, 4);
    lemma_wall_cells();
    lemma_and_zero(m, U_WALL);
    let m2 = (m << 4) as u16;
    assert forall|v: int, h: int| 0 <= v < 4 && 0 <= h < 4 implies #[trigger] occ_vh(m2, v, h)
        == occ_vh(m, v - 1, h) by {
        let i = (4 * v + h) as u16;
        assert(occ_vh(m2, v, h) == occ(m2, i));
        assert(occ(m2, i) == (i >= 4 && occ(m, (i - 4) as u16)));
        if v >= 1 {
            assert(i - 4 == 4 * (v - 1) + h);
        } else {
            assert(i < 4);
            assert(!occ_vh(m, v - 1, h));
        }
    }
    assert forall|v: int, h: int| #[trigger] occ_vh(m, v, h) implies 0 <= v + 1 < 4 && 0 <= h + 0
        < 4 by {
        let i = (4 * v + h) as u16;
        assert(occ(m, i));
        if v == 3 {
            lemma_fundamental_div_mod(i as int, 4);
            assert(i / 4 == 3);
            assert(occ(0xf000u16, i));
            assert(false);
        }
    }
}

/// A mask without cells on the R edge shifts one column toward it without
/// loss.
proof fn lemma_translate_shr1(m: u16)
    requires
        m & R_WALL == 0,
    ensures
        translated(m, m >> 1, 0, -1),
{
    lemma_shr_cells(m, 1);
    lemma_wall_cells();
    lemma_and_zero(m, R_WALL);
    let m2 = m >> 1;
    assert forall|v: int, h: int| 0 <= v < 4 && 0 <= h < 4 implies #[trigger] occ_vh(m2, v, h)
        == occ_vh(m, v, h + 1) by {
        let i = (4 * v + h) as u16;
        assert(occ_vh(m2, v, h) == occ(m2, i));
        assert(occ(m2, i) == (i + 1 < 16 && occ(m, (i + 1) as u16)));
        if h <= 2 {
            assert(i + 1 == 4 * v + (h + 1));
        } else {
            // The next index starts the row above; its cell sits on the R
            // edge, which is empty.
            assert(!occ_vh(m, v, h + 1));
            if i + 1 < 16 && occ(m, (i + 1) as u16) {
                let j = (i + 1) as u16;
                assert(j == 4 * (v + 1));
                lemma_fundamental_div_mod(j as int, 4);
                assert(j % 4 == 0);
                assert(occ(0x1111u16, j));
                assert(false);
            }
        }
    }
    assert forall|v: int, h: int| #[trigger] occ_vh(m, v, h) implies 0 <= v + 0 < 4 && 0 <= h + (-1)
        < 4 by {
        let i = (4 * v + h) as u16;
        assert(occ(m, i));
        if h == 0 {
            lemma_fundamental_div_mod(i as int, 4);
            assert(i % 4 == 0);
            assert(occ(0x1111u16, i));
            assert(false);
        }
    }
}

/// A mask without cells on the L edge shifts one column toward it without
/// loss.
proof fn lemma_translate_shl1(m: u16)
    requires
        m & L_WALL == 0,
    ensures
        translated(m, (m << 1) as u16, 0, 1),
{
    lemma_shl_cells(m, 1);
    lemma_wall_cells();
    lemma_and_zero(m, L_WALL);
    let m2 = (m << 1) as u16;
    assert forall|v: int, h: int| 0 <= v < 4 && 0 <= h < 4 implies #[trigger] occ_vh(m2, v, h)
        == occ_vh(m, v, h - 1) by {
        let i = (4 * v + h) as u16;
        assert(occ_vh(m2, v, h) == occ(m2, i));
        assert(occ(m2, i) == (i >= 1 && occ(m, (i - 1) as u16)));
        if h >= 1 {
            assert(i - 1 == 4 * v + (h - 1));
        } else {
            assert(!occ_vh(m, v, h - 1));
            if i >= 1 && occ(m, (i - 1) as u16) {
                let j = (i - 1) as u16;
                assert(j == 4 * (v - 1) + 3);
                lemma_fundamental_div_mod(j as int, 4);
                assert(j % 4 == 3);
                assert(occ(0x8888u16, j));
                assert(false);
            }
        }
    }
    assert forall|v: int, h: int| #[trigger] occ_vh(m, v, h) implies 0 <= v + 0 < 4 && 0 <= h + 1
        < 4 by {
        let i = (4 * v + h) as u16;
        assert(occ(m, i));
        if h == 3 {
            lemma_fundamental_div_mod(i as int, 4);
            assert(i % 4 == 3);
            assert(occ(0x8888u16, i));
            assert(false);
        }
    }
}

/// Overlap with a wall mask is a property of the cells' rows and columns, so
/// a pure row translation keeps the column walls and vice versa.
proof fn lemma_translate_keeps_col_walls(m: u16, m2: u16, dv: int)
    requires
        translated(m, m2, dv, 0),
    ensures
        (m & L_WALL != 0) == (m2 & L_WALL != 0),
        (m & R_WALL != 0) == (m2 & R_WALL != 0),
{
    lemma_wall_cells();
    lemma_and_zero(m, L_WALL);
    lemma_and_zero(m2, L_WALL);
    lemma_and_zero(m, R_WALL);
    lemma_and_zero(m2, R_WALL);
    lemma_translate_walls_core(m, m2, dv, 0);
    lemma_translate_walls_core_rev(m, m2, dv, 0);
}

/// A pure column translation keeps the row walls.
proof fn lemma_translate_keeps_row_walls(m: u16, m2: u16, dh: int)
    requires
        translated(m, m2, 0, dh),
    ensures
        (m & U_WALL != 0) == (m2 & U_WALL != 0),
        (m & D_WALL != 0) == (m2 & D_WALL != 0),
{
    lemma_wall_cells();
    lemma_and_zero(m, U_WALL);
    lemma_and_zero(m2, U_WALL);
    lemma_and_zero(m, D_WALL);
    lemma_and_zero(m2, D_WALL);
    lemma_translate_walls_core(m, m2, 0, dh);
    lemma_translate_walls_core_rev(m, m2, 0, dh);
}

/// Every occupied cell of the translated mask comes from an occupied cell of
/// the original with the same column (for a row translation) or row (for a
/// column translation), and conversely.
proof fn lemma_translate_walls_core(m: u16, m2: u16, dv: int, dh: int)
    requires
        translated(m, m2, dv, dh),
    ensures
        forall|i: u16|
            i < 16 && #[trigger] occ(m, i) ==> exists|j: u16|
                j < 16 && #[trigger] occ(m2, j) && (j / 4) == (i / 4) + dv && (j % 4) == (i % 4)
                    + dh,
{
    assert forall|i: u16| i < 16 && #[trigger] occ(m, i) implies exists|j: u16|
        j < 16 && #[trigger] occ(m2, j) && (j / 4) == (i / 4) + dv && (j % 4) == (i % 4) + dh by {
        lemma_fundamental_div_mod(i as int, 4);
        let v = (i as int) / 4;
        let h = (i as int) % 4;
        assert(occ_vh(m, v, h));
        assert(0 <= v + dv < 4 && 0 <= h + dh < 4);
        assert(occ_vh(m2, v + dv, h + dh) == occ_vh(m, v, h));
        let j = (4 * (v + dv) + (h + dh)) as u16;
        assert(occ(m2, j));
        lemma_fundamental_div_mod(j as int, 4);
        assert(j / 4 == v + dv && j % 4 == h + dh);
    }
}

/// The converse of `lemma_translate_walls_core`.
proof fn lemma_translate_walls_core_rev(m: u16, m2: u16, dv: int, dh: int)
    requires
        translated(m, m2, dv, dh),
    ensures
        forall|j: u16|
            j < 16 && #[trigger] occ(m2, j) ==> exists|i: u16|
                i < 16 && #[trigger] occ(m, i) && (j / 4) == (i / 4) + dv && (j % 4) == (i % 4)
                    + dh,
{
    assert forall|j: u16| j < 16 && #[trigger] occ(m2, j) implies exists|i: u16|
        i < 16 && #[trigger] occ(m, i) && (j / 4) == (i / 4) + dv && (j % 4) == (i % 4) + dh by {
        lemma_fundamental_div_mod(j as int, 4);
        let v2 = (j as int) / 4;
        let h2 = (j as int) % 4;
        assert(occ_vh(m2, v2, h2));
        assert(occ_vh(m2, v2, h2) == occ_vh(m, v2 - dv, h2 - dh));
        let i = (4 * (v2 - dv) + (h2 - dh)) as u16;
        assert(occ_vh(m, v2 - dv, h2 - dh));
        assert(occ(m, i));
        lemma_fundamental_div_mod(i as int, 4);
        assert(i / 4 == v2 - dv && i % 4 == h2 - dh);
    }
}

/// A translation by a common offset keeps one mask's containment in
/// another.
proof fn lemma_translate_subset(a0: u16, a1: u16, b0: u16, b1: u16, dv: int, dh: int)
    requires
        translated(a0, a1, dv, dh),
        translated(b0, b1, dv, dh),
        forall|i: u16| i < 16 && #[trigger] occ(a0, i) ==> occ(b0, i),
    ensures
        forall|i: u16| i < 16 && #[trigger] occ(a1, i) ==> occ(b1, i),
{
    assert forall|i: u16| i < 16 && #[trigger] occ(a1, i) implies occ(b1, i) by {
        lemma_fundamental_div_mod(i as int, 4);
        let v = (i as int) / 4;
        let h = (i as int) % 4;
        assert(occ_vh(a1, v, h));
        assert(occ_vh(a0, v - dv, h - dh));
        let j = (4 * (v - dv) + (h - dh)) as u16;
        assert(occ(a0, j));
        assert(occ(b0, j));
        assert(occ_vh(b0, v - dv, h - dh));
        assert(occ_vh(b1, v, h) == occ_vh(b0, v - dv, h - dh));
        assert(occ(b1, i));
    }
}

/// A mask that avoids a wall cell-wise has an empty overlap with it.
proof fn lemma_avoids_wall(a: u16, b: u16, w: u16)
    requires
        forall|i: u16| i < 16 && #[trigger] occ(a, i) ==> occ(b, i),
        b & w == 0,
    ensures
        a & w == 0,
{
    lemma_and_zero(a, w);
    lemma_and_zero(b, w);
}

/// Moves the pattern one step away from each grid edge that the piece sits
/// flush against, whenever the opposite edge is free of pieces; the piece
/// bits are carried along with the whole pattern (the piece is first folded
/// into it).  Both results are the inputs translated by the same offset,
/// one row and one column at most.
pub fn make_space_if_possible(piece_bit: u16, all_bits: u16) -> (r: (u16, u16))
    ensures
        ({
            let all0 = all_bits | piece_bit;
            let dv = space_dv(piece_bit, all0);
            let dh = space_dh(piece_bit, all0);
            translated(piece_bit, r.0, dv, dh) && translated(all0, r.1, dv, dh) && r.0
                == shift_by(piece_bit, dv, dh) && r.1 == shift_by(all0, dv, dh)
        }),
{
    let all0v: u16 = all_bits | piece_bit;
    let mut piece: u16 = piece_bit;
    let mut all: u16 = all0v;
    let ghost dv0 = space_dv(piece_bit, all0v);
    let ghost dh0 = space_dh(piece_bit, all0v);
    proof {
        lemma_cell_ops();
        assert(forall|i: u16| i < 16 && #[trigger] occ(piece_bit, i) ==> occ(all0v, i));
    }
    if piece & U_WALL != 0 && all & D_WALL == 0 {
        proof {
            assert(dv0 == -1);
            lemma_avoids_wall(piece, all, D_WALL);
            lemma_translate_shr4(all);
            lemma_translate_shr4(piece);
        }
        piece = piece >> 4;
        all = all >> 4;
    } else if piece & D_WALL != 0 && all & U_WALL == 0 {
        proof {
            assert(dv0 == 1);
            lemma_avoids_wall(piece, all, U_WALL);
            lemma_translate_shl4(all);
            lemma_translate_shl4(piece);
        }
        piece = piece << 4;
        all = all << 4;
    } else {
        proof {
            assert(dv0 == 0);
            lemma_translate_refl(piece);
            lemma_translate_refl(all);
        }
    }
    proof {
        assert(translated(piece_bit, piece, dv0, 0));
        assert(translated(all0v, all, dv0, 0));
        lemma_translate_keeps_col_walls(piece_bit, piece, dv0);
        lemma_translate_keeps_col_walls(all0v, all, dv0);
        lemma_translate_subset(piece_bit, piece, all0v, all, dv0, 0);
    }
    let ghost piece_mid = piece;
    let ghost all_mid = all;
    if piece & L_WALL != 0 && all & R_WALL == 0 {
        proof {
            assert(dh0 == -1);
            lemma_avoids_wall(piece, all, R_WALL);
            lemma_translate_shr1(all);
            lemma_translate_shr1(piece);
        }
        piece = piece >> 1;
        all = all >> 1;
        proof {
            lemma_translate_compose(piece_bit, piece_mid, piece, dv0, 0, 0, -1);
            lemma_translate_compose(all0v, all_mid, all, dv0, 0, 0, -1);
        }
    } else if piece & R_WALL != 0 && all & L_WALL == 0 {
        proof {
            assert(dh0 == 1);
            lemma_avoids_wall(piece, all, L_WALL);
            lemma_translate_shl1(all);
            lemma_translate_shl1(piece);
        }
        piece = piece << 1;
        all = all << 1;
        proof {
            lemma_translate_compose(piece_bit, piece_mid, piece, dv0, 0, 0, 1);
            lemma_translate_compose(all0v, all_mid, all, dv0, 0, 0, 1);
        }
    } else {
        proof {
            assert(dh0 == 0);
        }
    }
    proof {
        assert(translated(piece_bit, piece, dv0, dh0));
        assert(translated(all0v, all, dv0, dh0));
        assert(piece == shift_by(piece_bit, dv0, dh0));
        assert(all == shift_by(all0v, dv0, dh0));
    }
    (piece, all)
}

/// The exact condition of the one-ply-win filter: the opposing key piece has
/// liberty 1, or liberty 2 while the whole pattern fills a 3x3 bounding
/// rectangle (the corner-trap geometry).
pub open spec fn may_be_win1_spec(other_boss_bit: u16, all_bits: u16) -> bool {
    let all = all_bits | other_boss_bit;
    ||| liberty_of(other_boss_bit, all) == 1
    ||| (liberty_of(other_boss_bit, all) == 2 && all != 0 && rect_vs(all) == 3 && rect_hs(all)
        == 3)
}

/// The one-ply-win filter: a necessary condition for the arrangement to
/// admit a win in one ply against the given opposing key piece.
pub fn may_be_win1(other_boss_bit: u16, all_bits: u16) -> (r: bool)
    ensures
        r == may_be_win1_spec(other_boss_bit, all_bits),
{
    let all: u16 = all_bits | other_boss_bit;
    let liberty = calc_liberty(other_boss_bit, all);
    if liberty == 1 {
        return true;
    }
    if liberty != 2 {
        return false;
    }
    let rect_opt = find_minimal_rectangle(all);
    match rect_opt {
        None => false,
        Some(rect) => {
            proof {
                assert(rect_ok(all, rect));
                assert(exists|rr: Rect| rect_ok(all, rr));
                lemma_rect_unique(all, rect, the_rect(all));
            }
            let vsize: usize = rect.vmax - rect.vmin + 1;
            let hsize: usize = rect.hmax - rect.hmin + 1;
            vsize == 3 && hsize == 3
        },
    }
}

/// `j` is a single-step destination of a piece standing on cell `i`: one of
/// its 8 king-move neighbours, as far as they exist on the grid.
pub open spec fn king_dest(i: u16, j: u16) -> bool {
    ||| (i < 12 && j == i + 4)
    ||| (i >= 4 && j == i - 4)
    ||| (i % 4 <= 2 && j == i + 1)
    ||| (i % 4 >= 1 && j == i - 1)
    ||| (i % 4 <= 2 && i + 5 < 16 && j == i + 5)
    ||| (i % 4 >= 1 && i + 3 < 16 && j == i + 3)
    ||| (i % 4 <= 2 && i >= 3 && j == i - 3)
    ||| (i % 4 >= 1 && i >= 5 && j == i - 5)
}

/// Moving the key piece to cell `j` leaves it with liberty below 2 among the
/// remaining pieces.
pub open spec fn escape_leaves_low_liberty(others: u16, j: u16) -> bool {
    liberty_of(1u16 << j, (1u16 << j) | others) < 2
}

/// The cell a single-bit mask stands on.
pub open spec fn bit_index(b: u16) -> u16 {
    choose|i: u16| i < 16 && b == (1u16 << i)
}

/// The exact condition of the checkmate filter: every legal single-step
/// destination of the key piece (non-empty, unoccupied, not leaving the
/// pattern isolated) still has liberty below 2.
pub open spec fn may_be_checkmate_spec(i: u16, others: u16) -> bool {
    forall|j: u16|
        #[trigger] king_dest(i, j) && j < 16 && !occ(others, j) && !is_isolated_spec(
            (1u16 << j) | others,
        ) ==> escape_leaves_low_liberty(others, j)
}

/// The 8 single-step move masks of a single-bit piece, as shift formulas.
proof fn lemma_moves_of_bit(i: u16, boss: u16)
    by (bit_vector)
    requires
        i < 16,
        boss == (1u16 << i),
    ensures
        ((boss << 4) as u16) == (if i < 12 {
            (1u16 << (i + 4) as u16)
        } else {
            0u16
        }),
        (boss >> 4) == (if i >= 4 {
            (1u16 << (i - 4) as u16)
        } else {
            0u16
        }),
        (((boss & 0x7777) << 1) as u16) == (if i % 4 <= 2 {
            (1u16 << (i + 1) as u16)
        } else {
            0u16
        }),
        (((boss & 0xeeee) >> 1) as u16) == (if i % 4 >= 1 {
            (1u16 << (i - 1) as u16)
        } else {
            0u16
        }),
        ((((boss & 0x7777) << 1) << 4) as u16) == (if i % 4 <= 2 && i + 5 < 16 {
            (1u16 << (i + 5) as u16)
        } else {
            0u16
        }),
        ((((boss & 0xeeee) >> 1) << 4) as u16) == (if i % 4 >= 1 && i + 3 < 16 {
            (1u16 << (i + 3) as u16)
        } else {
            0u16
        }),
        ((((boss & 0x7777) << 1) >> 4) as u16) == (if i % 4 <= 2 && i >= 3 {
            (1u16 << (i - 3) as u16)
        } else {
            0u16
        }),
        ((((boss & 0xeeee) >> 1) >> 4) as u16) == (if i % 4 >= 1 && i >= 5 {
            (1u16 << (i - 5) as u16)
        } else {
            0u16
        }),
{
}

/// A single-bit mask misses `others` exactly when its cell is unoccupied
/// there.
proof fn lemma_single_bit_and(j: u16, others: u16)
    requires
        j < 16,
    ensures
        ((1u16 << j) & others == 0) == !occ(others, j),
        (1u16 << j) != 0,
{
    lemma_cell_ops();
    lemma_and_zero(1u16 << j, others);
    assert(occ(1u16 << j, j));
    if !occ(others, j) {
        assert forall|k: u16| k < 16 implies !(occ(1u16 << j, k) && occ(others, k)) by {
            if occ(1u16 << j, k) {
                assert(k == j);
            }
        }
    }
}

/// Checks one destination: a legal move must leave the piece with liberty
/// below 2.
fn dest_ok(b: u16, others: u16) -> (r: bool)
    ensures
        r == ((b != 0 && b & others == 0 && !is_isolated_spec(b | others)) ==> liberty_of(
            b,
            b | others,
        ) < 2),
{
    if b != 0 && b & others == 0 {
        if !is_isolated(b | others) {
            calc_liberty(b, b | others) < 2
        } else {
            true
        }
    } else {
        true
    }
}

/// The checkmate filter: a necessary condition for the arrangement to be a
/// checkmate against the given key piece.  Every legal single-step
/// destination of the piece must still have liberty below 2.
pub fn may_be_checkmate(boss_bit: u16, all_bits: u16) -> (r: bool)
    requires
        one_bit(boss_bit),
    ensures
        r == may_be_checkmate_spec(bit_index(boss_bit), all_bits & !boss_bit),
{
    let others: u16 = all_bits & !boss_bit;
    let ghost i = bit_index(boss_bit);
    proof {
        assert(exists|k: u16| k < 16 && boss_bit == (1u16 << k));
        assert(i < 16 && boss_bit == (1u16 << i));
        lemma_moves_of_bit(i, boss_bit);
    }
    let u: u16 = boss_bit << 4u16;
    let d: u16 = boss_bit >> 4u16;
    let l: u16 = (boss_bit & 0x7777) << 1u16;
    let rr: u16 = (boss_bit & 0xeeee) >> 1u16;
    let lu: u16 = l << 4u16;
    let ru: u16 = rr << 4u16;
    let ld: u16 = l >> 4u16;
    let rd: u16 = rr >> 4u16;
    let o1 = dest_ok(u, others);
    let o2 = dest_ok(d, others);
    let o3 = dest_ok(l, others);
    let o4 = dest_ok(rr, others);
    let o5 = dest_ok(lu, others);
    let o6 = dest_ok(ru, others);
    let o7 = dest_ok(ld, others);
    let o8 = dest_ok(rd, others);
    let ok = o1 && o2 && o3 && o4 && o5 && o6 && o7 && o8;
    proof {
        lemma_cell_ops();
        if ok {
            assert forall|j: u16|
                #[trigger] king_dest(i, j) && j < 16 && !occ(others, j) && !is_isolated_spec(
                    (1u16 << j) | others,
                ) implies escape_leaves_low_liberty(others, j) by {
                lemma_single_bit_and(j, others);
                if i < 12 && j == i + 4 {
                    assert(u == (1u16 << j));
                } else if i >= 4 && j == i - 4 {
                    assert(d == (1u16 << j));
                } else if i % 4 <= 2 && j == i + 1 {
                    assert(l == (1u16 << j));
                } else if i % 4 >= 1 && j == i - 1 {
                    assert(rr == (1u16 << j));
                } else if i % 4 <= 2 && i + 5 < 16 && j == i + 5 {
                    assert(lu == (1u16 << j));
                } else if i % 4 >= 1 && i + 3 < 16 && j == i + 3 {
                    assert(ru == (1u16 << j));
                } else if i % 4 <= 2 && i >= 3 && j == i - 3 {
                    assert(ld == (1u16 << j));
                } else {
                    assert(i % 4 >= 1 && i >= 5 && j == i - 5);
                    assert(rd == (1u16 << j));
                }
            }
        } else {
            if !o1 {
                assert(u != 0);
                assert(i < 12 && u == (1u16 << ((i + 4) as u16)));
                lemma_single_bit_and((i + 4) as u16, others);
                assert(king_dest(i, (i + 4) as u16));
                assert(!may_be_checkmate_spec(i, others));
            } else if !o2 {
                assert(d != 0);
                assert(i >= 4 && d == (1u16 << ((i - 4) as u16)));
                lemma_single_bit_and((i - 4) as u16, others);
                assert(king_dest(i, (i - 4) as u16));
                assert(!may_be_checkmate_spec(i, others));
            } else if !o3 {
                assert(l != 0);
                assert(i % 4 <= 2 && l == (1u16 << ((i + 1) as u16)));
                lemma_single_bit_and((i + 1) as u16, others);
                assert(king_dest(i, (i + 1) as u16));
                assert(!may_be_checkmate_spec(i, others));
            } else if !o4 {
                assert(rr != 0);
                assert(i % 4 >= 1 && rr == (1u16 << ((i - 1) as u16)));
                lemma_single_bit_and((i - 1) as u16, others);
                assert(king_dest(i, (i - 1) as u16));
                assert(!may_be_checkmate_spec(i, others));
            } else if !o5 {
                assert(lu != 0);
                assert(i % 4 <= 2 && i + 5 < 16 && lu == (1u16 << ((i + 5) as u16)));
                lemma_single_bit_and((i + 5) as u16, others);
                assert(king_dest(i, (i + 5) as u16));
                assert(!may_be_checkmate_spec(i, others));
            } else if !o6 {
                assert(ru != 0);
                assert(i % 4 >= 1 && i + 3 < 16 && ru == (1u16 << ((i + 3) as u16)));
                lemma_single_bit_and((i + 3) as u16, others);
                assert(king_dest(i, (i + 3) as u16));
                assert(!may_be_checkmate_spec(i, others));
            } else if !o7 {
                assert(ld != 0);
                assert(i % 4 <= 2 && i >= 3 && ld == (1u16 << ((i - 3) as u16)));
                lemma_single_bit_and((i - 3) as u16, others);
                assert(king_dest(i, (i - 3) as u16));
                assert(!may_be_checkmate_spec(i, others));
            } else {
                assert(!o8);
                assert(rd != 0);
                assert(i % 4 >= 1 && i >= 5 && rd == (1u16 << ((i - 5) as u16)));
                lemma_single_bit_and((i - 5) as u16, others);
                assert(king_dest(i, (i - 5) as u16));
                assert(!may_be_checkmate_spec(i, others));
            }
        }
    }
    ok
}

} // verus!
