//! Reduction of occupancy masks by the 8 symmetries of a rectangle.
//!
//! A pattern is first translated so that the minimum corner of its bounding
//! rectangle sits at the origin, then each of the 8 dihedral transforms
//! (identity, three rotations, four reflections) is applied.  A rotation that
//! is not 180 degrees swaps the rectangle's extents, so images are computed
//! against the transformed rectangle's own dimensions.  The canonical form of
//! a pattern is the numerically smallest of the 8 images.

use vstd::prelude::*;
use vstd::arithmetic::div_mod::lemma_fundamental_div_mod;
use crate::bitgrid::{
    occ, occ_vh, lemma_cell_ops, lemma_mask_ext, lemma_nonzero_has_bit, rect_ok, Rect,
    find_minimal_rectangle, popcount, popcount_upto, lemma_popcount_low_zero,
    lemma_popcount_or_new_bit, is_isolated_spec, isolated_vh, king_adj_vh, lemma_isolated_coords,
};

verus! {

/// Row of the image of cell `(v, h)` of a `vs x hs` rectangle under dihedral
/// transform `t` (0 identity, 1..3 rotations, 4..7 reflections).
pub open spec fn tf_v(t: int, v: int, h: int, vs: int, hs: int) -> int {
    if t == 0 {
        v
    } else if t == 1 {
        h
    } else if t == 2 {
        vs - 1 - v
    } else if t == 3 {
        hs - 1 - h
    } else if t == 4 {
        v
    } else if t == 5 {
        h
    } else if t == 6 {
        vs - 1 - v
    } else {
        hs - 1 - h
    }
}

/// Column of the image of cell `(v, h)` under transform `t`.
pub open spec fn tf_h(t: int, v: int, h: int, vs: int, hs: int) -> int {
    if t == 0 {
        h
    } else if t == 1 {
        vs - 1 - v
    } else if t == 2 {
        hs - 1 - h
    } else if t == 3 {
        v
    } else if t == 4 {
        hs - 1 - h
    } else if t == 5 {
        v
    } else if t == 6 {
        h
    } else {
        vs - 1 - v
    }
}

/// Transform `t` swaps the rectangle's extents exactly when it is an odd
/// rotation or a diagonal reflection.
pub open spec fn tf_swaps(t: int) -> bool {
    t == 1 || t == 3 || t == 5 || t == 7
}

/// Rows of the image rectangle under transform `t`.
pub open spec fn tf_vs(t: int, vs: int, hs: int) -> int {
    if tf_swaps(t) {
        hs
    } else {
        vs
    }
}

/// Columns of the image rectangle under transform `t`.
pub open spec fn tf_hs(t: int, vs: int, hs: int) -> int {
    if tf_swaps(t) {
        vs
    } else {
        hs
    }
}

/// Every occupied cell of `m` lies in the `vs x hs` rectangle at the origin.
pub open spec fn confined(m: u16, vs: int, hs: int) -> bool {
    forall|v: int, h: int| #[trigger] occ_vh(m, v, h) ==> v < vs && h < hs
}

/// `r` is the image of `m` (confined to a `vs x hs` rectangle at the origin)
/// under dihedral transform `t`, re-expressed against the transformed
/// rectangle's own dimensions.
pub open spec fn is_transform_of(r: u16, t: int, m: u16, vs: int, hs: int) -> bool {
    &&& forall|v: int, h: int|
        0 <= v < vs && 0 <= h < hs ==> #[trigger] occ_vh(
            r,
            tf_v(t, v, h, vs, hs),
            tf_h(t, v, h, vs, hs),
        ) == occ_vh(m, v, h)
    &&& confined(r, tf_vs(t, vs, hs), tf_hs(t, vs, hs))
}

/// The bounding rectangle of `m`, as a spec value.
pub open spec fn the_rect(m: u16) -> Rect {
    choose|r: Rect| rect_ok(m, r)
}

/// Rows of the bounding rectangle of `m`.
pub open spec fn rect_vs(m: u16) -> int {
    the_rect(m).vsize()
}

/// Columns of the bounding rectangle of `m`.
pub open spec fn rect_hs(m: u16) -> int {
    the_rect(m).hsize()
}

/// `m` translated so that the minimum corner of its bounding rectangle sits
/// at the origin.
pub open spec fn anchored(m: u16) -> u16 {
    m >> ((4 * the_rect(m).vmin + the_rect(m).hmin) as u16)
}

/// `c` is one of the 8 dihedral images of the anchored form of `m`.
pub open spec fn eq_class_of(m: u16, c: u16) -> bool {
    exists|t: int|
        0 <= t < 8 && is_transform_of(c, t, anchored(m), rect_vs(m), rect_hs(m))
}

/// The size of the symmetry orbit of a non-empty mask: the number of
/// distinct masks equivalent to it.
pub open spec fn orbit_count(m: u16) -> int {
    Set::new(|c: u16| eq_class_of(m, c)).len() as int
}

/// `c` is the canonical representative of the symmetry class of `m`: a
/// member of the orbit no larger than any other member.
pub open spec fn is_canonical_form(m: u16, c: u16) -> bool {
    eq_class_of(m, c) && forall|d: u16| eq_class_of(m, d) ==> c <= d
}

/// The canonical representative of the symmetry class of a non-empty mask.
pub open spec fn canonical_of(m: u16) -> u16 {
    choose|c: u16| is_canonical_form(m, c)
}

/// Two masks satisfying `rect_ok` for the same mask have the same bounds.
pub proof fn lemma_rect_unique(m: u16, r1: Rect, r2: Rect)
    requires
        rect_ok(m, r1),
        rect_ok(m, r2),
    ensures
        r1.vmin == r2.vmin && r1.vmax == r2.vmax && r1.hmin == r2.hmin && r1.hmax == r2.hmax,
{
    let a = choose|i: u16| i < 16 && #[trigger] occ(m, i) && i / 4 == r1.vmin;
    let b = choose|i: u16| i < 16 && #[trigger] occ(m, i) && i / 4 == r2.vmin;
    assert(r2.vmin <= a / 4 && r1.vmin <= b / 4);
    let c = choose|i: u16| i < 16 && #[trigger] occ(m, i) && i / 4 == r1.vmax;
    let d = choose|i: u16| i < 16 && #[trigger] occ(m, i) && i / 4 == r2.vmax;
    assert(c / 4 <= r2.vmax && d / 4 <= r1.vmax);
    let e = choose|i: u16| i < 16 && #[trigger] occ(m, i) && i % 4 == r1.hmin;
    let f = choose|i: u16| i < 16 && #[trigger] occ(m, i) && i % 4 == r2.hmin;
    assert(r2.hmin <= e % 4 && r1.hmin <= f % 4);
    let g = choose|i: u16| i < 16 && #[trigger] occ(m, i) && i % 4 == r1.hmax;
    let k = choose|i: u16| i < 16 && #[trigger] occ(m, i) && i % 4 == r2.hmax;
    assert(g % 4 <= r2.hmax && k % 4 <= r1.hmax);
}

/// Cell-level reading of a right shift: the anchored form reads the original
/// mask `s` positions higher.
pub proof fn lemma_shr_cells(m: u16, s: u16)
    by (bit_vector)
    requires
        s < 16,
    ensures
        forall|i: u16|
            i < 16 ==> #[trigger] occ(m >> s, i) == (i + s < 16 && occ(m, (i + s) as u16)),
{
}

/// Cell-level reading of a left shift.
pub proof fn lemma_shl_cells(m: u16, s: u16)
    by (bit_vector)
    requires
        s < 16,
    ensures
        forall|i: u16|
            i < 16 ==> #[trigger] occ((m << s) as u16, i) == (i >= s && occ(m, (i - s) as u16)),
{
}

/// For a non-empty mask with bounding rectangle `r`, the anchored form holds
/// cell `(v, h)` exactly when the original holds `(v + vmin, h + hmin)`; in
/// particular the anchored form is confined to the rectangle's extents.
#[verifier::spinoff_prover]
pub proof fn lemma_anchor_cells(m: u16, r: Rect)
    requires
        m != 0,
        rect_ok(m, r),
        r.vmin <= r.vmax <= 3,
        r.hmin <= r.hmax <= 3,
    ensures
        forall|v: int, h: int|
            #![trigger occ_vh(m >> ((4 * r.vmin + r.hmin) as u16), v, h)]
            0 <= v < 4 && 0 <= h < 4 ==> occ_vh(m >> ((4 * r.vmin + r.hmin) as u16), v, h)
                == occ_vh(m, v + r.vmin, h + r.hmin),
        confined(
            m >> ((4 * r.vmin + r.hmin) as u16),
            r.vmax - r.vmin + 1,
            r.hmax - r.hmin + 1,
        ),
{
    let s = (4 * r.vmin + r.hmin) as u16;
    let a = m >> s;
    lemma_shr_cells(m, s);
    assert forall|v: int, h: int| 0 <= v < 4 && 0 <= h < 4 implies #[trigger] occ_vh(a, v, h)
        == occ_vh(m, v + r.vmin, h + r.hmin) by {
        let i = (4 * v + h) as u16;
        assert(occ_vh(a, v, h) == occ(a, i));
        assert(occ(a, i) == (i + s < 16 && occ(m, (i + s) as u16)));
        if i + s < 16 {
            let j = (i + s) as u16;
            assert(j == 4 * (v + r.vmin) + (h + r.hmin));
            if h + r.hmin < 4 {
                if v + r.vmin < 4 {
                    assert(j / 4 == v + r.vmin && j % 4 == h + r.hmin) by {
                        lemma_fundamental_div_mod(j as int, 4);
                    }
                    assert(occ(m, j) == occ_vh(m, v + r.vmin, h + r.hmin));
                }
            } else {
                // The raw index slips into the next row; any occupied cell
                // there would lie left of the rectangle's hmin.
                assert(j == 4 * (v + r.vmin + 1) + (h + r.hmin - 4));
                if v + r.vmin + 1 < 4 {
                    assert(j / 4 == v + r.vmin + 1 && j % 4 == h + r.hmin - 4) by {
                        lemma_fundamental_div_mod(j as int, 4);
                    }
                    if occ(m, j) {
                        assert(r.hmin <= j % 4);
                        assert(false);
                    }
                } else {
                    assert(j >= 16);
                }
                assert(!occ_vh(m, v + r.vmin, h + r.hmin));
            }
        } else {
            assert(!occ(a, i));
            if 0 <= v + r.vmin < 4 && 0 <= h + r.hmin < 4 {
                assert(4 * (v + r.vmin) + (h + r.hmin) <= 15);
                assert(i + s >= 16);
                assert(false);
            }
            assert(!occ_vh(m, v + r.vmin, h + r.hmin));
        }
    }
    assert forall|v: int, h: int| #[trigger] occ_vh(a, v, h) implies v < r.vmax - r.vmin + 1 && h
        < r.hmax - r.hmin + 1 by {
        assert(occ_vh(m, v + r.vmin, h + r.hmin));
        let j = (4 * (v + r.vmin) + (h + r.hmin)) as u16;
        assert(occ(m, j));
        assert(j / 4 == v + r.vmin && j % 4 == h + r.hmin) by {
            lemma_fundamental_div_mod(j as int, 4);
        }
    }
}

/// Shifting away `s` unoccupied low cells keeps the cell count.
pub proof fn lemma_popcount_shr(m: u16, s: u16)
    requires
        s < 16,
        forall|i: u16| i < s ==> !occ(m, i),
    ensures
        popcount(m >> s) == popcount(m),
{
    lemma_shr_cells(m, s);
    lemma_popcount_low_zero(m, s as int);
    lemma_popcount_shr_upto(m, s, 16);
}

proof fn lemma_popcount_shr_upto(m: u16, s: u16, n: int)
    requires
        s < 16,
        0 <= n <= 16,
        popcount_upto(m, s as int) == 0,
        forall|i: u16|
            i < 16 ==> #[trigger] occ(m >> s, i) == (i + s < 16 && occ(m, (i + s) as u16)),
    ensures
        popcount_upto(m >> s, n) == popcount_upto(
            m,
            if n + s <= 16 {
                n + s
            } else {
                16
            },
        ) - popcount_upto(m, s as int),
    decreases n,
{
    if n > 0 {
        lemma_popcount_shr_upto(m, s, n - 1);
        assert(occ(m >> s, (n - 1) as u16) == ((n - 1) + s < 16 && occ(m, ((n - 1) + s) as u16)));
    }
}

/// Some cell of row `v` is occupied.
pub open spec fn row_occ(m: u16, v: int) -> bool {
    exists|h: int| occ_vh(m, v, h)
}

/// Some cell of column `h` is occupied.
pub open spec fn col_occ(m: u16, h: int) -> bool {
    exists|v: int| occ_vh(m, v, h)
}

/// A non-empty mask has a bounding rectangle, so the chosen one satisfies
/// its characterization.
#[verifier::rlimit(100)]
#[verifier::spinoff_prover]
pub proof fn lemma_rect_exists(m: u16)
    requires
        m != 0,
    ensures
        rect_ok(m, the_rect(m)),
{
    lemma_nonzero_has_bit(m);
    let i0 = choose|i: u16| i < 16 && occ(m, i);
    lemma_fundamental_div_mod(i0 as int, 4);
    assert(occ_vh(m, (i0 as int) / 4, (i0 as int) % 4));
    let vmin: usize = if row_occ(m, 0) {
        0
    } else if row_occ(m, 1) {
        1
    } else if row_occ(m, 2) {
        2
    } else {
        3
    };
    let vmax: usize = if row_occ(m, 3) {
        3
    } else if row_occ(m, 2) {
        2
    } else if row_occ(m, 1) {
        1
    } else {
        0
    };
    let hmin: usize = if col_occ(m, 0) {
        0
    } else if col_occ(m, 1) {
        1
    } else if col_occ(m, 2) {
        2
    } else {
        3
    };
    let hmax: usize = if col_occ(m, 3) {
        3
    } else if col_occ(m, 2) {
        2
    } else if col_occ(m, 1) {
        1
    } else {
        0
    };
    let r = Rect { vmin, vmax, hmin, hmax };
    assert(rect_ok(m, r)) by {
        assert forall|i: u16| i < 16 && #[trigger] occ(m, i) implies r.vmin <= i / 4 <= r.vmax
            && r.hmin <= i % 4 <= r.hmax by {
            lemma_fundamental_div_mod(i as int, 4);
            let v = (i as int) / 4;
            let h = (i as int) % 4;
            assert(occ_vh(m, v, h));
            assert(row_occ(m, v) && col_occ(m, h));
        }
        assert(row_occ(m, (i0 as int) / 4));
        assert(row_occ(m, vmin as int));
        let hh = choose|h: int| occ_vh(m, vmin as int, h);
        let iv = (4 * (vmin as int) + hh) as u16;
        assert(occ(m, iv));
        assert(iv / 4 == vmin) by {
            lemma_fundamental_div_mod(iv as int, 4);
        }
        assert(row_occ(m, vmax as int));
        let hh2 = choose|h: int| occ_vh(m, vmax as int, h);
        let iv2 = (4 * (vmax as int) + hh2) as u16;
        assert(occ(m, iv2));
        assert(iv2 / 4 == vmax) by {
            lemma_fundamental_div_mod(iv2 as int, 4);
        }
        assert(col_occ(m, hmin as int));
        let vv = choose|v: int| occ_vh(m, v, hmin as int);
        let ih = (4 * vv + hmin) as u16;
        assert(occ(m, ih));
        assert(ih % 4 == hmin) by {
            lemma_fundamental_div_mod(ih as int, 4);
        }
        assert(col_occ(m, hmax as int));
        let vv2 = choose|v: int| occ_vh(m, v, hmax as int);
        let ih2 = (4 * vv2 + hmax) as u16;
        assert(occ(m, ih2));
        assert(ih2 % 4 == hmax) by {
            lemma_fundamental_div_mod(ih2 as int, 4);
        }
    }
    assert(exists|rr: Rect| rect_ok(m, rr));
}

/// `m` fills the `vs x hs` rectangle at the origin tightly: every occupied
/// cell lies in it, and all four of its edges are met.
pub open spec fn tight(m: u16, vs: int, hs: int) -> bool {
    &&& confined(m, vs, hs)
    &&& exists|v: int, h: int| #[trigger] occ_vh(m, v, h) && v == 0
    &&& exists|v: int, h: int| #[trigger] occ_vh(m, v, h) && h == 0
    &&& exists|v: int, h: int| #[trigger] occ_vh(m, v, h) && v == vs - 1
    &&& exists|v: int, h: int| #[trigger] occ_vh(m, v, h) && h == hs - 1
}

/// The anchored form of a non-empty mask is tight for its bounding
/// rectangle's extents.
#[verifier::spinoff_prover]
pub proof fn lemma_anchored_tight(m: u16)
    requires
        m != 0,
    ensures
        tight(anchored(m), rect_vs(m), rect_hs(m)),
        1 <= rect_vs(m) <= 4,
        1 <= rect_hs(m) <= 4,
        anchored(m) != 0,
{
    lemma_rect_exists(m);
    let r = the_rect(m);
    lemma_rect_bounds(m, r);
    lemma_anchor_cells(m, r);
    let a = anchored(m);
    let w1 = choose|i: u16| i < 16 && #[trigger] occ(m, i) && i / 4 == r.vmin;
    let w2 = choose|i: u16| i < 16 && #[trigger] occ(m, i) && i / 4 == r.vmax;
    let w3 = choose|i: u16| i < 16 && #[trigger] occ(m, i) && i % 4 == r.hmin;
    let w4 = choose|i: u16| i < 16 && #[trigger] occ(m, i) && i % 4 == r.hmax;
    lemma_fundamental_div_mod(w1 as int, 4);
    lemma_fundamental_div_mod(w2 as int, 4);
    lemma_fundamental_div_mod(w3 as int, 4);
    lemma_fundamental_div_mod(w4 as int, 4);
    assert(occ_vh(m, r.vmin as int, (w1 as int) % 4));
    assert(occ_vh(a, 0, (w1 as int) % 4 - r.hmin));
    assert(occ_vh(m, r.vmax as int, (w2 as int) % 4));
    assert(occ_vh(a, r.vmax - r.vmin, (w2 as int) % 4 - r.hmin));
    assert(occ_vh(m, (w3 as int) / 4, r.hmin as int));
    assert(occ_vh(a, (w3 as int) / 4 - r.vmin, 0));
    assert(occ_vh(m, (w4 as int) / 4, r.hmax as int));
    assert(occ_vh(a, (w4 as int) / 4 - r.vmin, r.hmax - r.hmin));
    assert(a != 0) by {
        if a == 0 {
            lemma_cell_ops();
            assert(!occ(a, ((w1 as int) % 4 - r.hmin) as u16));
        }
    }
}

/// The bounds of a bounding rectangle are grid coordinates.
pub proof fn lemma_rect_bounds(m: u16, r: Rect)
    requires
        rect_ok(m, r),
    ensures
        r.vmin <= r.vmax <= 3,
        r.hmin <= r.hmax <= 3,
{
    let a = choose|i: u16| i < 16 && #[trigger] occ(m, i) && i / 4 == r.vmin;
    let b = choose|i: u16| i < 16 && #[trigger] occ(m, i) && i / 4 == r.vmax;
    assert(r.vmin <= b / 4 && b / 4 <= 3);
    let c = choose|i: u16| i < 16 && #[trigger] occ(m, i) && i % 4 == r.hmin;
    let d = choose|i: u16| i < 16 && #[trigger] occ(m, i) && i % 4 == r.hmax;
    assert(r.hmin <= d % 4 && d % 4 <= 3);
}

/// A tight mask is its own anchored form, and its bounding rectangle has
/// exactly the tight extents.
#[verifier::spinoff_prover]
pub proof fn lemma_tight_anchor(c: u16, vs: int, hs: int)
    requires
        tight(c, vs, hs),
        1 <= vs <= 4,
        1 <= hs <= 4,
    ensures
        c != 0,
        anchored(c) == c,
        rect_vs(c) == vs,
        rect_hs(c) == hs,
{
    let w = choose|v: int, h: int| #[trigger] occ_vh(c, v, h) && v == 0;
    assert(c != 0) by {
        if c == 0 {
            lemma_cell_ops();
            let (wv, wh) = choose|v: int, h: int| #[trigger] occ_vh(c, v, h) && v == 0;
            assert(occ(c, (4 * wv + wh) as u16));
        }
    }
    let r = Rect { vmin: 0, vmax: (vs - 1) as usize, hmin: 0, hmax: (hs - 1) as usize };
    assert(rect_ok(c, r)) by {
        assert forall|i: u16| i < 16 && #[trigger] occ(c, i) implies r.vmin <= i / 4 <= r.vmax
            && r.hmin <= i % 4 <= r.hmax by {
            lemma_fundamental_div_mod(i as int, 4);
            assert(occ_vh(c, (i as int) / 4, (i as int) % 4));
        }
        let (v1, h1) = choose|v: int, h: int| #[trigger] occ_vh(c, v, h) && v == 0;
        let i1 = (4 * v1 + h1) as u16;
        assert(occ(c, i1));
        assert(i1 / 4 == 0) by {
            lemma_fundamental_div_mod(i1 as int, 4);
        }
        let (v2, h2) = choose|v: int, h: int| #[trigger] occ_vh(c, v, h) && v == vs - 1;
        let i2 = (4 * v2 + h2) as u16;
        assert(occ(c, i2));
        assert(i2 / 4 == vs - 1) by {
            lemma_fundamental_div_mod(i2 as int, 4);
        }
        let (v3, h3) = choose|v: int, h: int| #[trigger] occ_vh(c, v, h) && h == 0;
        let i3 = (4 * v3 + h3) as u16;
        assert(occ(c, i3));
        assert(i3 % 4 == 0) by {
            lemma_fundamental_div_mod(i3 as int, 4);
        }
        let (v4, h4) = choose|v: int, h: int| #[trigger] occ_vh(c, v, h) && h == hs - 1;
        let i4 = (4 * v4 + h4) as u16;
        assert(occ(c, i4));
        assert(i4 % 4 == hs - 1) by {
            lemma_fundamental_div_mod(i4 as int, 4);
        }
    }
    assert(exists|rr: Rect| rect_ok(c, rr));
    lemma_rect_unique(c, r, the_rect(c));
    assert(rect_vs(c) == vs && rect_hs(c) == hs);
    assert(anchored(c) == c >> 0u16);
    assert(c >> 0u16 == c) by (bit_vector);
}

/// A transform's image of a cell of the `vs x hs` rectangle lies in the
/// transformed rectangle.
pub proof fn lemma_tf_range(t: int, v: int, h: int, vs: int, hs: int)
    requires
        0 <= t < 8,
        0 <= v < vs,
        0 <= h < hs,
    ensures
        0 <= tf_v(t, v, h, vs, hs) < tf_vs(t, vs, hs),
        0 <= tf_h(t, v, h, vs, hs) < tf_hs(t, vs, hs),
{
}

/// A transform maps distinct cells of the rectangle to distinct cells.
pub proof fn lemma_tf_inj(t: int, vs: int, hs: int, v1: int, h1: int, v2: int, h2: int)
    requires
        0 <= t < 8,
        0 <= v1 < vs,
        0 <= h1 < hs,
        0 <= v2 < vs,
        0 <= h2 < hs,
        tf_v(t, v1, h1, vs, hs) == tf_v(t, v2, h2, vs, hs),
        tf_h(t, v1, h1, vs, hs) == tf_h(t, v2, h2, vs, hs),
    ensures
        v1 == v2 && h1 == h2,
{
}

/// Every cell of the transformed rectangle is the image of a cell of the
/// original rectangle.
#[verifier::spinoff_prover]
pub proof fn lemma_tf_surj(t: int, vs: int, hs: int, v2: int, h2: int)
    requires
        0 <= t < 8,
        0 <= v2 < tf_vs(t, vs, hs),
        0 <= h2 < tf_hs(t, vs, hs),
    ensures
        exists|v: int, h: int|
            0 <= v < vs && 0 <= h < hs && tf_v(t, v, h, vs, hs) == v2 && #[trigger] tf_h(
                t,
                v,
                h,
                vs,
                hs,
            ) == h2,
{
    if t == 0 {
        assert(tf_v(t, v2, h2, vs, hs) == v2 && tf_h(t, v2, h2, vs, hs) == h2);
    } else if t == 1 {
        assert(tf_v(t, vs - 1 - h2, v2, vs, hs) == v2 && tf_h(t, vs - 1 - h2, v2, vs, hs) == h2);
    } else if t == 2 {
        assert(tf_v(t, vs - 1 - v2, hs - 1 - h2, vs, hs) == v2 && tf_h(
            t,
            vs - 1 - v2,
            hs - 1 - h2,
            vs,
            hs,
        ) == h2);
    } else if t == 3 {
        assert(tf_v(t, h2, hs - 1 - v2, vs, hs) == v2 && tf_h(t, h2, hs - 1 - v2, vs, hs) == h2);
    } else if t == 4 {
        assert(tf_v(t, v2, hs - 1 - h2, vs, hs) == v2 && tf_h(t, v2, hs - 1 - h2, vs, hs) == h2);
    } else if t == 5 {
        assert(tf_v(t, h2, v2, vs, hs) == v2 && tf_h(t, h2, v2, vs, hs) == h2);
    } else if t == 6 {
        assert(tf_v(t, vs - 1 - v2, h2, vs, hs) == v2 && tf_h(t, vs - 1 - v2, h2, vs, hs) == h2);
    } else {
        assert(tf_v(t, vs - 1 - h2, hs - 1 - v2, vs, hs) == v2 && tf_h(
            t,
            vs - 1 - h2,
            hs - 1 - v2,
            vs,
            hs,
        ) == h2);
    }
}

/// The rotation count of a transform (reflections carry the rotation
/// applied after the base reflection).
pub open spec fn tf_rot(t: int) -> int {
    if t < 4 {
        t
    } else {
        (4 - (t - 4)) % 4
    }
}

/// Whether a transform reflects.
pub open spec fn tf_refl(t: int) -> bool {
    t >= 4
}

/// The transform with the given rotation count and reflection flag.
pub open spec fn tf_make(a: int, e: bool) -> int {
    if e {
        4 + ((4 - a) % 4)
    } else {
        a
    }
}

/// The transform equal to applying `t1` and then `t2`.
pub open spec fn tf_comp(t1: int, t2: int) -> int {
    let a1 = tf_rot(t1);
    let a2 = tf_rot(t2);
    if !tf_refl(t2) {
        tf_make((a1 + a2) % 4, tf_refl(t1))
    } else {
        tf_make((a2 + 4 - a1) % 4, !tf_refl(t1))
    }
}

/// The transform undoing `t`.
pub open spec fn tf_inv(t: int) -> int {
    if t < 4 {
        (4 - t) % 4
    } else {
        t
    }
}

/// The composite of two transforms is a transform, and the inverse is one.
pub proof fn lemma_tf_comp_range(t1: int, t2: int)
    requires
        0 <= t1 < 8,
        0 <= t2 < 8,
    ensures
        0 <= tf_comp(t1, t2) < 8,
        0 <= tf_inv(t1) < 8,
{
}

/// The image dimensions of a composite agree with composing the image
/// dimensions.
pub proof fn lemma_tf_comp_dims(t1: int, t2: int, vs: int, hs: int)
    requires
        0 <= t1 < 8,
        0 <= t2 < 8,
    ensures
        tf_vs(t2, tf_vs(t1, vs, hs), tf_hs(t1, vs, hs)) == tf_vs(tf_comp(t1, t2), vs, hs),
        tf_hs(t2, tf_vs(t1, vs, hs), tf_hs(t1, vs, hs)) == tf_hs(tf_comp(t1, t2), vs, hs),
{
}

/// Applying `t1` and then `t2` to a cell is applying their composite.
#[verifier::rlimit(100)]
#[verifier::spinoff_prover]
pub proof fn lemma_tf_comp_cells(t1: int, t2: int, v: int, h: int, vs: int, hs: int)
    requires
        0 <= t1 < 8,
        0 <= t2 < 8,
        0 <= v < vs,
        0 <= h < hs,
    ensures
        tf_v(
            t2,
            tf_v(t1, v, h, vs, hs),
            tf_h(t1, v, h, vs, hs),
            tf_vs(t1, vs, hs),
            tf_hs(t1, vs, hs),
        ) == tf_v(tf_comp(t1, t2), v, h, vs, hs),
        tf_h(
            t2,
            tf_v(t1, v, h, vs, hs),
            tf_h(t1, v, h, vs, hs),
            tf_vs(t1, vs, hs),
            tf_hs(t1, vs, hs),
        ) == tf_h(tf_comp(t1, t2), v, h, vs, hs),
{
}

/// A transform followed by its inverse returns every cell.
#[verifier::rlimit(100)]
#[verifier::spinoff_prover]
pub proof fn lemma_tf_inv_cells(t: int, v: int, h: int, vs: int, hs: int)
    requires
        0 <= t < 8,
        0 <= v < vs,
        0 <= h < hs,
    ensures
        tf_comp(t, tf_inv(t)) == 0,
        tf_v(
            tf_inv(t),
            tf_v(t, v, h, vs, hs),
            tf_h(t, v, h, vs, hs),
            tf_vs(t, vs, hs),
            tf_hs(t, vs, hs),
        ) == v,
        tf_h(
            tf_inv(t),
            tf_v(t, v, h, vs, hs),
            tf_h(t, v, h, vs, hs),
            tf_vs(t, vs, hs),
            tf_hs(t, vs, hs),
        ) == h,
{
    lemma_tf_comp_cells(t, tf_inv(t), v, h, vs, hs);
}

/// Undoing a transform before a composite leaves the second factor.
#[verifier::rlimit(100)]
#[verifier::spinoff_prover]
pub proof fn lemma_tf_cancel(a: int, s: int)
    requires
        0 <= a < 8,
        0 <= s < 8,
    ensures
        tf_comp(tf_inv(a), tf_comp(a, s)) == s,
{
}

/// Equal orbit members stay equal after a further transform: the orbit
/// array respects the group's composition.
#[verifier::rlimit(100)]
#[verifier::spinoff_prover]
proof fn lemma_orbit_congruence(m: u16, eq: Seq<u16>, a: int, b: int, s: int)
    requires
        m != 0,
        eq.len() == 8,
        forall|t: int|
            0 <= t < 8 ==> is_transform_of(
                #[trigger] eq[t],
                t,
                anchored(m),
                rect_vs(m),
                rect_hs(m),
            ),
        0 <= a < 8,
        0 <= b < 8,
        0 <= s < 8,
        eq[a] == eq[b],
    ensures
        eq[tf_comp(a, s)] == eq[tf_comp(b, s)],
{
    lemma_anchored_tight(m);
    let ax = anchored(m);
    let vs = rect_vs(m);
    let hs = rect_hs(m);
    lemma_tf_comp_range(a, s);
    lemma_tf_comp_range(b, s);
    lemma_transform_tight(eq[a], a, ax, vs, hs);
    lemma_transform_tight(eq[b], b, ax, vs, hs);
    lemma_tight_anchor(eq[a], tf_vs(a, vs, hs), tf_hs(a, vs, hs));
    lemma_tight_anchor(eq[b], tf_vs(b, vs, hs), tf_hs(b, vs, hs));
    let da_vs = tf_vs(a, vs, hs);
    let da_hs = tf_hs(a, vs, hs);
    assert(tf_vs(b, vs, hs) == da_vs && tf_hs(b, vs, hs) == da_hs) by {
        assert(rect_vs(eq[a]) == rect_vs(eq[b]) && rect_hs(eq[a]) == rect_hs(eq[b]));
    }
    lemma_transform_inverse(ax, eq[a], a, vs, hs);
    lemma_transform_inverse(ax, eq[b], b, vs, hs);
    assert(tf_vs(tf_inv(a), da_vs, da_hs) == vs && tf_hs(tf_inv(a), da_vs, da_hs) == hs);
    lemma_transform_compose(eq[a], ax, eq[tf_comp(a, s)], tf_inv(a), tf_comp(a, s), da_vs, da_hs);
    lemma_transform_compose(eq[b], ax, eq[tf_comp(b, s)], tf_inv(b), tf_comp(b, s), da_vs, da_hs);
    lemma_tf_cancel(a, s);
    lemma_tf_cancel(b, s);
    assert(is_transform_of(eq[tf_comp(a, s)], s, eq[a], da_vs, da_hs));
    assert(is_transform_of(eq[tf_comp(b, s)], s, eq[b], da_vs, da_hs));
    lemma_transform_unique(eq[tf_comp(a, s)], eq[tf_comp(b, s)], s, eq[a], da_vs, da_hs);
}

/// Every mask confined to the rectangle is its own image under the identity
/// transform.
pub proof fn lemma_transform_identity(c: u16, vs: int, hs: int)
    requires
        confined(c, vs, hs),
    ensures
        is_transform_of(c, 0, c, vs, hs),
{
}

/// Transforms compose: the image of an image is the image under the
/// composite transform.
pub proof fn lemma_transform_compose(
    a: u16,
    b: u16,
    c: u16,
    t1: int,
    t2: int,
    vs: int,
    hs: int,
)
    requires
        0 <= t1 < 8,
        0 <= t2 < 8,
        1 <= vs <= 4,
        1 <= hs <= 4,
        confined(a, vs, hs),
        is_transform_of(b, t1, a, vs, hs),
        is_transform_of(c, t2, b, tf_vs(t1, vs, hs), tf_hs(t1, vs, hs)),
    ensures
        is_transform_of(c, tf_comp(t1, t2), a, vs, hs),
{
    let tc = tf_comp(t1, t2);
    lemma_tf_comp_range(t1, t2);
    lemma_tf_comp_dims(t1, t2, vs, hs);
    assert forall|v: int, h: int| 0 <= v < vs && 0 <= h < hs implies #[trigger] occ_vh(
        c,
        tf_v(tc, v, h, vs, hs),
        tf_h(tc, v, h, vs, hs),
    ) == occ_vh(a, v, h) by {
        lemma_tf_range(t1, v, h, vs, hs);
        let v1 = tf_v(t1, v, h, vs, hs);
        let h1 = tf_h(t1, v, h, vs, hs);
        assert(occ_vh(b, v1, h1) == occ_vh(a, v, h));
        assert(occ_vh(c, tf_v(t2, v1, h1, tf_vs(t1, vs, hs), tf_hs(t1, vs, hs)), tf_h(
            t2,
            v1,
            h1,
            tf_vs(t1, vs, hs),
            tf_hs(t1, vs, hs),
        )) == occ_vh(b, v1, h1));
        lemma_tf_comp_cells(t1, t2, v, h, vs, hs);
    }
    assert forall|v2: int, h2: int| #[trigger] occ_vh(c, v2, h2) implies v2 < tf_vs(tc, vs, hs)
        && h2 < tf_hs(tc, vs, hs) by {
        assert(v2 < tf_vs(t2, tf_vs(t1, vs, hs), tf_hs(t1, vs, hs)));
        assert(h2 < tf_hs(t2, tf_vs(t1, vs, hs), tf_hs(t1, vs, hs)));
    }
}

/// Transforms invert: the original is the image of its image under the
/// inverse transform.
pub proof fn lemma_transform_inverse(a: u16, b: u16, t: int, vs: int, hs: int)
    requires
        0 <= t < 8,
        1 <= vs <= 4,
        1 <= hs <= 4,
        confined(a, vs, hs),
        is_transform_of(b, t, a, vs, hs),
    ensures
        is_transform_of(a, tf_inv(t), b, tf_vs(t, vs, hs), tf_hs(t, vs, hs)),
{
    let vs1 = tf_vs(t, vs, hs);
    let hs1 = tf_hs(t, vs, hs);
    let ti = tf_inv(t);
    assert(0 <= ti < 8);
    assert forall|v1: int, h1: int| 0 <= v1 < vs1 && 0 <= h1 < hs1 implies #[trigger] occ_vh(
        a,
        tf_v(ti, v1, h1, vs1, hs1),
        tf_h(ti, v1, h1, vs1, hs1),
    ) == occ_vh(b, v1, h1) by {
        lemma_tf_surj(t, vs, hs, v1, h1);
        let (v, h) = choose|v: int, h: int|
            0 <= v < vs && 0 <= h < hs && tf_v(t, v, h, vs, hs) == v1 && #[trigger] tf_h(
                t,
                v,
                h,
                vs,
                hs,
            ) == h1;
        lemma_tf_inv_cells(t, v, h, vs, hs);
        assert(tf_v(ti, v1, h1, vs1, hs1) == v && tf_h(ti, v1, h1, vs1, hs1) == h);
        assert(occ_vh(b, v1, h1) == occ_vh(a, v, h));
    }
    assert forall|v: int, h: int| #[trigger] occ_vh(a, v, h) implies v < tf_vs(ti, vs1, hs1) && h
        < tf_hs(ti, vs1, hs1) by {
        assert(tf_vs(ti, vs1, hs1) == vs && tf_hs(ti, vs1, hs1) == hs);
    }
}

/// A transform of a tight mask is tight for the transformed extents.
#[verifier::rlimit(100)]
#[verifier::spinoff_prover]
pub proof fn lemma_transform_tight(r: u16, t: int, m: u16, vs: int, hs: int)
    requires
        0 <= t < 8,
        1 <= vs <= 4,
        1 <= hs <= 4,
        tight(m, vs, hs),
        is_transform_of(r, t, m, vs, hs),
    ensures
        tight(r, tf_vs(t, vs, hs), tf_hs(t, vs, hs)),
{
    let vs1 = tf_vs(t, vs, hs);
    let hs1 = tf_hs(t, vs, hs);
    let (av, ah) = choose|v: int, h: int| #[trigger] occ_vh(m, v, h) && v == 0;
    let (bv, bh) = choose|v: int, h: int| #[trigger] occ_vh(m, v, h) && h == 0;
    let (cv, ch) = choose|v: int, h: int| #[trigger] occ_vh(m, v, h) && v == vs - 1;
    let (dv, dh) = choose|v: int, h: int| #[trigger] occ_vh(m, v, h) && h == hs - 1;
    assert(occ_vh(r, tf_v(t, av, ah, vs, hs), tf_h(t, av, ah, vs, hs)));
    assert(occ_vh(r, tf_v(t, bv, bh, vs, hs), tf_h(t, bv, bh, vs, hs)));
    assert(occ_vh(r, tf_v(t, cv, ch, vs, hs), tf_h(t, cv, ch, vs, hs)));
    assert(occ_vh(r, tf_v(t, dv, dh, vs, hs), tf_h(t, dv, dh, vs, hs)));
    // Among the four boundary witnesses, each edge of the image rectangle
    // is met: which witness serves depends on the transform.
    assert(exists|v: int, h: int| #[trigger] occ_vh(r, v, h) && v == 0);
    assert(exists|v: int, h: int| #[trigger] occ_vh(r, v, h) && h == 0);
    assert(exists|v: int, h: int| #[trigger] occ_vh(r, v, h) && v == vs1 - 1);
    assert(exists|v: int, h: int| #[trigger] occ_vh(r, v, h) && h == hs1 - 1);
}

/// A transform moves cells rigidly: two cells of the rectangle are
/// king-move neighbours exactly when their images are.
proof fn lemma_tf_adj(t: int, v1: int, h1: int, v2: int, h2: int, vs: int, hs: int)
    requires
        0 <= t < 8,
        0 <= v1 < vs,
        0 <= h1 < hs,
        0 <= v2 < vs,
        0 <= h2 < hs,
    ensures
        king_adj_vh(
            tf_v(t, v1, h1, vs, hs),
            tf_h(t, v1, h1, vs, hs),
            tf_v(t, v2, h2, vs, hs),
            tf_h(t, v2, h2, vs, hs),
        ) == king_adj_vh(v1, h1, v2, h2),
{
}

/// A transform of a confined mask has an isolated piece exactly when the
/// mask has one.
#[verifier::spinoff_prover]
proof fn lemma_transform_isolated(r: u16, t: int, m: u16, vs: int, hs: int)
    requires
        0 <= t < 8,
        1 <= vs <= 4,
        1 <= hs <= 4,
        confined(m, vs, hs),
        is_transform_of(r, t, m, vs, hs),
    ensures
        isolated_vh(r) == isolated_vh(m),
{
    let vs1 = tf_vs(t, vs, hs);
    let hs1 = tf_hs(t, vs, hs);
    if isolated_vh(m) {
        let (v, h) = choose|v: int, h: int|
            #[trigger] occ_vh(m, v, h) && (forall|v2: int, h2: int|
                #[trigger] occ_vh(m, v2, h2) ==> !king_adj_vh(v, h, v2, h2));
        let iv = tf_v(t, v, h, vs, hs);
        let ih = tf_h(t, v, h, vs, hs);
        assert(occ_vh(r, iv, ih));
        assert forall|v2: int, h2: int| #[trigger] occ_vh(r, v2, h2) implies !king_adj_vh(
            iv,
            ih,
            v2,
            h2,
        ) by {
            lemma_tf_surj(t, vs, hs, v2, h2);
            let (pv, ph) = choose|pv: int, ph: int|
                0 <= pv < vs && 0 <= ph < hs && tf_v(t, pv, ph, vs, hs) == v2 && #[trigger] tf_h(
                    t,
                    pv,
                    ph,
                    vs,
                    hs,
                ) == h2;
            assert(occ_vh(m, pv, ph) == occ_vh(r, v2, h2));
            lemma_tf_adj(t, v, h, pv, ph, vs, hs);
            assert(!king_adj_vh(v, h, pv, ph));
        }
        assert(isolated_vh(r));
    }
    if isolated_vh(r) {
        let (v1, h1) = choose|v: int, h: int|
            #[trigger] occ_vh(r, v, h) && (forall|v2: int, h2: int|
                #[trigger] occ_vh(r, v2, h2) ==> !king_adj_vh(v, h, v2, h2));
        lemma_tf_surj(t, vs, hs, v1, h1);
        let (pv, ph) = choose|pv: int, ph: int|
            0 <= pv < vs && 0 <= ph < hs && tf_v(t, pv, ph, vs, hs) == v1 && #[trigger] tf_h(
                t,
                pv,
                ph,
                vs,
                hs,
            ) == h1;
        assert(occ_vh(m, pv, ph));
        assert forall|v2: int, h2: int| #[trigger] occ_vh(m, v2, h2) implies !king_adj_vh(
            pv,
            ph,
            v2,
            h2,
        ) by {
            assert(occ_vh(r, tf_v(t, v2, h2, vs, hs), tf_h(t, v2, h2, vs, hs)));
            lemma_tf_adj(t, pv, ph, v2, h2, vs, hs);
            assert(!king_adj_vh(v1, h1, tf_v(t, v2, h2, vs, hs), tf_h(t, v2, h2, vs, hs)));
        }
        assert(isolated_vh(m));
    }
}

/// Anchoring translates cells rigidly, so it keeps isolation.
#[verifier::rlimit(100)]
#[verifier::spinoff_prover]
proof fn lemma_anchor_isolated(m: u16)
    requires
        m != 0,
    ensures
        isolated_vh(anchored(m)) == isolated_vh(m),
{
    lemma_rect_exists(m);
    let r = the_rect(m);
    lemma_rect_bounds(m, r);
    lemma_anchor_cells(m, r);
    let a = anchored(m);
    assert forall|v: int, h: int| #[trigger] occ_vh(m, v, h) implies r.vmin <= v && r.hmin
        <= h by {
        let i = (4 * v + h) as u16;
        assert(occ(m, i));
        lemma_fundamental_div_mod(i as int, 4);
    }
    if isolated_vh(m) {
        let (v, h) = choose|v: int, h: int|
            #[trigger] occ_vh(m, v, h) && (forall|v2: int, h2: int|
                #[trigger] occ_vh(m, v2, h2) ==> !king_adj_vh(v, h, v2, h2));
        assert(occ_vh(a, v - r.vmin, h - r.hmin));
        assert forall|v2: int, h2: int| #[trigger] occ_vh(a, v2, h2) implies !king_adj_vh(
            v - r.vmin,
            h - r.hmin,
            v2,
            h2,
        ) by {
            assert(occ_vh(m, v2 + r.vmin, h2 + r.hmin));
            assert(!king_adj_vh(v, h, v2 + r.vmin, h2 + r.hmin));
        }
        assert(isolated_vh(a));
    }
    if isolated_vh(a) {
        let (v, h) = choose|v: int, h: int|
            #[trigger] occ_vh(a, v, h) && (forall|v2: int, h2: int|
                #[trigger] occ_vh(a, v2, h2) ==> !king_adj_vh(v, h, v2, h2));
        assert(occ_vh(m, v + r.vmin, h + r.hmin));
        assert forall|v2: int, h2: int| #[trigger] occ_vh(m, v2, h2) implies !king_adj_vh(
            v + r.vmin,
            h + r.hmin,
            v2,
            h2,
        ) by {
            assert(occ_vh(a, v2 - r.vmin, h2 - r.hmin) == occ_vh(m, v2, h2));
            assert(!king_adj_vh(v, h, v2 - r.vmin, h2 - r.hmin));
        }
        assert(isolated_vh(m));
    }
}

/// Isolation is a symmetry invariant: the canonical representative has an
/// isolated piece exactly when the mask it stands for has one.
pub proof fn lemma_canonical_isolation(m: u16)
    requires
        m != 0,
    ensures
        is_isolated_spec(canonical_of(m)) == is_isolated_spec(m),
{
    lemma_canonical_exists(m);
    lemma_anchored_tight(m);
    let c = canonical_of(m);
    let t = choose|t: int|
        0 <= t < 8 && is_transform_of(c, t, anchored(m), rect_vs(m), rect_hs(m));
    lemma_transform_isolated(c, t, anchored(m), rect_vs(m), rect_hs(m));
    lemma_anchor_isolated(m);
    lemma_isolated_coords(m);
    lemma_isolated_coords(c);
}

/// A transform of a confined mask is determined by the transform, the mask
/// and the extents.
#[verifier::spinoff_prover]
pub proof fn lemma_transform_unique(r1: u16, r2: u16, t: int, m: u16, vs: int, hs: int)
    requires
        0 <= t < 8,
        1 <= vs <= 4,
        1 <= hs <= 4,
        is_transform_of(r1, t, m, vs, hs),
        is_transform_of(r2, t, m, vs, hs),
    ensures
        r1 == r2,
{
    assert forall|i: u16| i < 16 implies occ(r1, i) == occ(r2, i) by {
        lemma_fundamental_div_mod(i as int, 4);
        let v2 = (i as int) / 4;
        let h2 = (i as int) % 4;
        assert(occ(r1, i) == occ_vh(r1, v2 as int, h2 as int));
        assert(occ(r2, i) == occ_vh(r2, v2 as int, h2 as int));
        if v2 < tf_vs(t, vs, hs) && h2 < tf_hs(t, vs, hs) {
            lemma_tf_surj(t, vs, hs, v2 as int, h2 as int);
            let (v, h) = choose|v: int, h: int|
                0 <= v < vs && 0 <= h < hs && tf_v(t, v, h, vs, hs) == v2 && #[trigger] tf_h(
                    t,
                    v,
                    h,
                    vs,
                    hs,
                ) == h2;
            assert(occ_vh(r1, v2 as int, h2 as int) == occ_vh(m, v, h));
            assert(occ_vh(r2, v2 as int, h2 as int) == occ_vh(m, v, h));
        } else {
            assert(!occ_vh(r1, v2 as int, h2 as int));
            assert(!occ_vh(r2, v2 as int, h2 as int));
        }
    }
    lemma_mask_ext(r1, r2);
}

/// Computes the image of a confined mask under dihedral transform `t`.
#[verifier::rlimit(100)]
#[verifier::spinoff_prover]
fn transform_mask(m: u16, t: usize, vs: usize, hs: usize) -> (r: u16)
    requires
        t < 8,
        1 <= vs <= 4,
        1 <= hs <= 4,
        confined(m, vs as int, hs as int),
    ensures
        is_transform_of(r, t as int, m, vs as int, hs as int),
        popcount(r) == popcount(m),
{
    let mut r: u16 = 0;
    let mut i: u16 = 0;
    proof {
        lemma_cell_ops();
        lemma_popcount_low_zero(r, 16);
    }
    while i < 16
        invariant
            i <= 16,
            t < 8,
            1 <= vs <= 4,
            1 <= hs <= 4,
            confined(m, vs as int, hs as int),
            popcount(r) == popcount_upto(m, i as int),
            forall|j: u16|
                j < 16 ==> (#[trigger] occ(r, j) <==> exists|v: int, h: int|
                    {
                        &&& 0 <= v && 0 <= h && 4 * v + h < i
                        &&& #[trigger] occ_vh(m, v, h)
                        &&& 4 * tf_v(t as int, v, h, vs as int, hs as int) + tf_h(
                            t as int,
                            v,
                            h,
                            vs as int,
                            hs as int,
                        ) == j
                    }),
        decreases 16 - i,
    {
        let ghost old_r = r;
        if (m >> i) & 1 == 1 {
            assert(occ(m, i));
            proof {
                lemma_fundamental_div_mod(i as int, 4);
            }
            let v: usize = (i / 4) as usize;
            let h: usize = (i % 4) as usize;
            assert(occ_vh(m, v as int, h as int));
            assert(v < vs && h < hs);
            let v2: usize;
            let h2: usize;
            if t == 0 {
                v2 = v;
                h2 = h;
            } else if t == 1 {
                v2 = h;
                h2 = vs - 1 - v;
            } else if t == 2 {
                v2 = vs - 1 - v;
                h2 = hs - 1 - h;
            } else if t == 3 {
                v2 = hs - 1 - h;
                h2 = v;
            } else if t == 4 {
                v2 = v;
                h2 = hs - 1 - h;
            } else if t == 5 {
                v2 = h;
                h2 = v;
            } else if t == 6 {
                v2 = vs - 1 - v;
                h2 = h;
            } else {
                v2 = hs - 1 - h;
                h2 = vs - 1 - v;
            }
            assert(v2 == tf_v(t as int, v as int, h as int, vs as int, hs as int));
            assert(h2 == tf_h(t as int, v as int, h as int, vs as int, hs as int));
            assert(v2 <= 3 && h2 <= 3);
            let j: u16 = (4 * v2 + h2) as u16;
            r = r | (1u16 << j);
            proof {
                lemma_cell_ops();
            }
            assert forall|j2: u16| j2 < 16 implies (occ(r, j2) <==> exists|vv: int, hh: int|
                {
                    &&& 0 <= vv && 0 <= hh && 4 * vv + hh < i + 1
                    &&& #[trigger] occ_vh(m, vv, hh)
                    &&& 4 * tf_v(t as int, vv, hh, vs as int, hs as int) + tf_h(
                        t as int,
                        vv,
                        hh,
                        vs as int,
                        hs as int,
                    ) == j2
                }) by {
                assert(occ(r, j2) == (occ(old_r, j2) || j2 == j));
                if occ(old_r, j2) {
                    // the old witness still serves
                } else if j2 == j {
                    assert(occ_vh(m, v as int, h as int) && 4 * tf_v(
                        t as int,
                        v as int,
                        h as int,
                        vs as int,
                        hs as int,
                    ) + tf_h(t as int, v as int, h as int, vs as int, hs as int) == j2);
                } else {
                    if exists|vv: int, hh: int|
                        {
                            &&& 0 <= vv && 0 <= hh && 4 * vv + hh < i + 1
                            &&& #[trigger] occ_vh(m, vv, hh)
                            &&& 4 * tf_v(t as int, vv, hh, vs as int, hs as int) + tf_h(
                                t as int,
                                vv,
                                hh,
                                vs as int,
                                hs as int,
                            ) == j2
                        } {
                        let (vv, hh) = choose|vv: int, hh: int|
                            {
                                &&& 0 <= vv && 0 <= hh && 4 * vv + hh < i + 1
                                &&& #[trigger] occ_vh(m, vv, hh)
                                &&& 4 * tf_v(t as int, vv, hh, vs as int, hs as int) + tf_h(
                                    t as int,
                                    vv,
                                    hh,
                                    vs as int,
                                    hs as int,
                                ) == j2
                            };
                        if 4 * vv + hh == i {
                            assert(vv == v && hh == h);
                            assert(j2 == j);
                            assert(false);
                        }
                        assert(occ(old_r, j2));
                        assert(false);
                    }
                }
            }
            proof {
                if occ(old_r, j) {
                    let (vv, hh) = choose|vv: int, hh: int|
                        {
                            &&& 0 <= vv && 0 <= hh && 4 * vv + hh < i
                            &&& #[trigger] occ_vh(m, vv, hh)
                            &&& 4 * tf_v(t as int, vv, hh, vs as int, hs as int) + tf_h(
                                t as int,
                                vv,
                                hh,
                                vs as int,
                                hs as int,
                            ) == j
                        };
                    lemma_tf_range(t as int, vv, hh, vs as int, hs as int);
                    assert(tf_v(t as int, vv, hh, vs as int, hs as int) == v2 as int && tf_h(
                        t as int,
                        vv,
                        hh,
                        vs as int,
                        hs as int,
                    ) == h2 as int);
                    lemma_tf_inj(t as int, vs as int, hs as int, vv, hh, v as int, h as int);
                    assert(false);
                }
                lemma_popcount_or_new_bit(old_r, j);
                assert(popcount_upto(m, i + 1) == popcount_upto(m, i as int) + 1);
            }
        } else {
            assert(!occ(m, i));
            proof {
                lemma_fundamental_div_mod(i as int, 4);
            }
            assert forall|j2: u16| j2 < 16 implies (occ(r, j2) <==> exists|vv: int, hh: int|
                {
                    &&& 0 <= vv && 0 <= hh && 4 * vv + hh < i + 1
                    &&& #[trigger] occ_vh(m, vv, hh)
                    &&& 4 * tf_v(t as int, vv, hh, vs as int, hs as int) + tf_h(
                        t as int,
                        vv,
                        hh,
                        vs as int,
                        hs as int,
                    ) == j2
                }) by {
                if exists|vv: int, hh: int|
                    {
                        &&& 0 <= vv && 0 <= hh && 4 * vv + hh < i + 1
                        &&& #[trigger] occ_vh(m, vv, hh)
                        &&& 4 * tf_v(t as int, vv, hh, vs as int, hs as int) + tf_h(
                            t as int,
                            vv,
                            hh,
                            vs as int,
                            hs as int,
                        ) == j2
                    } {
                    let (vv, hh) = choose|vv: int, hh: int|
                        {
                            &&& 0 <= vv && 0 <= hh && 4 * vv + hh < i + 1
                            &&& #[trigger] occ_vh(m, vv, hh)
                            &&& 4 * tf_v(t as int, vv, hh, vs as int, hs as int) + tf_h(
                                t as int,
                                vv,
                                hh,
                                vs as int,
                                hs as int,
                            ) == j2
                        };
                    if 4 * vv + hh == i {
                        assert(occ_vh(m, vv, hh));
                        assert(vv == i / 4 && hh == i % 4);
                        assert(!occ(m, i));
                        assert(false);
                    }
                    assert(occ(r, j2));
                }
            }
        }
        i += 1;
    }
    proof {
        assert forall|v: int, h: int| 0 <= v < vs && 0 <= h < hs implies #[trigger] occ_vh(
            r,
            tf_v(t as int, v, h, vs as int, hs as int),
            tf_h(t as int, v, h, vs as int, hs as int),
        ) == occ_vh(m, v, h) by {
            lemma_tf_range(t as int, v, h, vs as int, hs as int);
            let v2 = tf_v(t as int, v, h, vs as int, hs as int);
            let h2 = tf_h(t as int, v, h, vs as int, hs as int);
            let j = (4 * v2 + h2) as u16;
            assert(occ_vh(r, v2, h2) == occ(r, j));
            if occ_vh(m, v, h) {
                assert(4 * v + h < 16);
                assert(occ(r, j));
            } else {
                if occ(r, j) {
                    let (vv, hh) = choose|vv: int, hh: int|
                        {
                            &&& 0 <= vv && 0 <= hh && 4 * vv + hh < 16
                            &&& #[trigger] occ_vh(m, vv, hh)
                            &&& 4 * tf_v(t as int, vv, hh, vs as int, hs as int) + tf_h(
                                t as int,
                                vv,
                                hh,
                                vs as int,
                                hs as int,
                            ) == j
                        };
                    lemma_tf_range(t as int, vv, hh, vs as int, hs as int);
                    assert(tf_v(t as int, vv, hh, vs as int, hs as int) == v2 && tf_h(
                        t as int,
                        vv,
                        hh,
                        vs as int,
                        hs as int,
                    ) == h2);
                    lemma_tf_inj(t as int, vs as int, hs as int, vv, hh, v, h);
                    assert(false);
                }
            }
        }
        assert forall|v2: int, h2: int| #[trigger] occ_vh(r, v2, h2) implies v2 < tf_vs(
            t as int,
            vs as int,
            hs as int,
        ) && h2 < tf_hs(t as int, vs as int, hs as int) by {
            let j = (4 * v2 + h2) as u16;
            assert(occ(r, j));
            let (vv, hh) = choose|vv: int, hh: int|
                {
                    &&& 0 <= vv && 0 <= hh && 4 * vv + hh < 16
                    &&& #[trigger] occ_vh(m, vv, hh)
                    &&& 4 * tf_v(t as int, vv, hh, vs as int, hs as int) + tf_h(
                        t as int,
                        vv,
                        hh,
                        vs as int,
                        hs as int,
                    ) == j
                };
            lemma_tf_range(t as int, vv, hh, vs as int, hs as int);
            assert(4 * tf_v(t as int, vv, hh, vs as int, hs as int) + tf_h(
                t as int,
                vv,
                hh,
                vs as int,
                hs as int,
            ) == 4 * v2 + h2);
            assert(tf_v(t as int, vv, hh, vs as int, hs as int) == v2 && tf_h(
                t as int,
                vv,
                hh,
                vs as int,
                hs as int,
            ) == h2);
        }
    }
    r
}

/// A non-empty collection of masks has a least element.
proof fn lemma_u16_min_below(p: spec_fn(u16) -> bool, w: u16)
    requires
        p(w),
    ensures
        exists|n: u16| #[trigger] p(n) && forall|k: u16| #[trigger] p(k) ==> n <= k,
    decreases w,
{
    if exists|k: u16| k < w && #[trigger] p(k) {
        let k = choose|k: u16| k < w && #[trigger] p(k);
        lemma_u16_min_below(p, k);
    } else {
        assert(p(w) && forall|k: u16| #[trigger] p(k) ==> w <= k);
    }
}

/// Every non-empty mask has a canonical representative: the least member of
/// its symmetry orbit.
pub proof fn lemma_canonical_exists(m: u16)
    requires
        m != 0,
    ensures
        is_canonical_form(m, canonical_of(m)),
        eq_class_of(m, canonical_of(m)),
{
    lemma_anchored_tight(m);
    lemma_transform_identity(anchored(m), rect_vs(m), rect_hs(m));
    assert(is_transform_of(anchored(m), 0, anchored(m), rect_vs(m), rect_hs(m)));
    assert(eq_class_of(m, anchored(m)));
    let p = |c: u16| eq_class_of(m, c);
    assert(p(anchored(m)));
    lemma_u16_min_below(p, anchored(m));
    let n = choose|n: u16| #[trigger] p(n) && forall|k: u16| #[trigger] p(k) ==> n <= k;
    assert(eq_class_of(m, n));
    assert forall|d: u16| eq_class_of(m, d) implies n <= d by {
        assert(p(d));
    }
    assert(is_canonical_form(m, n));
    assert(exists|c: u16| is_canonical_form(m, c));
    let c = canonical_of(m);
    assert(is_canonical_form(m, c));
}

/// Round-trip law: the canonical representative of any symmetry class is
/// its own canonical representative, so canonicalizing twice changes
/// nothing.
#[verifier::spinoff_prover]
pub proof fn lemma_canonical_idempotent(m: u16, c: u16)
    requires
        m != 0,
        is_canonical_form(m, c),
    ensures
        is_canonical_form(c, c),
        canonical_of(c) == c,
        c != 0,
{
    lemma_anchored_tight(m);
    let ax = anchored(m);
    let vs = rect_vs(m);
    let hs = rect_hs(m);
    let t1 = choose|t: int| 0 <= t < 8 && is_transform_of(c, t, ax, vs, hs);
    lemma_transform_tight(c, t1, ax, vs, hs);
    let vs1 = tf_vs(t1, vs, hs);
    let hs1 = tf_hs(t1, vs, hs);
    lemma_tight_anchor(c, vs1, hs1);
    lemma_transform_identity(c, vs1, hs1);
    assert(is_transform_of(c, 0, anchored(c), rect_vs(c), rect_hs(c)));
    assert(eq_class_of(c, c));
    assert forall|d: u16| eq_class_of(c, d) implies c <= d by {
        let t2 = choose|t: int|
            0 <= t < 8 && is_transform_of(d, t, anchored(c), rect_vs(c), rect_hs(c));
        lemma_transform_compose(ax, c, d, t1, t2, vs, hs);
        lemma_tf_comp_range(t1, t2);
        assert(is_transform_of(d, tf_comp(t1, t2), ax, vs, hs));
        assert(eq_class_of(m, d));
    }
    assert(is_canonical_form(c, c));
    assert(exists|x: u16| is_canonical_form(c, x));
    let x = canonical_of(c);
    assert(is_canonical_form(c, x));
    assert(c <= x && x <= c);
}

/// `y` arises from `x` by translating both patterns to the origin and
/// applying one of the 8 symmetries of the rectangle.
pub open spec fn symmetry_related(x: u16, y: u16) -> bool {
    exists|t: int|
        0 <= t < 8 && is_transform_of(anchored(y), t, anchored(x), rect_vs(x), rect_hs(x))
}

/// Canonical forms classify: two non-empty masks have the same canonical
/// representative exactly when one arises from the other by a translation
/// followed by one of the 8 symmetries.
#[verifier::spinoff_prover]
pub proof fn lemma_canonical_iff_related(x: u16, y: u16)
    requires
        x != 0,
        y != 0,
    ensures
        symmetry_related(x, y) <==> canonical_of(x) == canonical_of(y),
{
    lemma_anchored_tight(x);
    lemma_anchored_tight(y);
    lemma_canonical_exists(x);
    lemma_canonical_exists(y);
    let ax = anchored(x);
    let ay = anchored(y);
    let vsx = rect_vs(x);
    let hsx = rect_hs(x);
    let vsy = rect_vs(y);
    let hsy = rect_hs(y);
    let cx = canonical_of(x);
    let cy = canonical_of(y);
    if symmetry_related(x, y) {
        let t = choose|t: int| 0 <= t < 8 && is_transform_of(ay, t, ax, vsx, hsx);
        lemma_transform_tight(ay, t, ax, vsx, hsx);
        lemma_tight_anchor(ay, tf_vs(t, vsx, hsx), tf_hs(t, vsx, hsx));
        lemma_tight_anchor(ay, vsy, hsy);
        assert(tf_vs(t, vsx, hsx) == vsy && tf_hs(t, vsx, hsx) == hsy);
        lemma_transform_inverse(ax, ay, t, vsx, hsx);
        assert forall|d: u16| eq_class_of(y, d) implies eq_class_of(x, d) by {
            let t2 = choose|t2: int| 0 <= t2 < 8 && is_transform_of(d, t2, ay, vsy, hsy);
            lemma_transform_compose(ax, ay, d, t, t2, vsx, hsx);
            lemma_tf_comp_range(t, t2);
        }
        assert forall|d: u16| eq_class_of(x, d) implies eq_class_of(y, d) by {
            let t3 = choose|t3: int| 0 <= t3 < 8 && is_transform_of(d, t3, ax, vsx, hsx);
            lemma_transform_compose(ay, ax, d, tf_inv(t), t3, vsy, hsy);
            lemma_tf_comp_range(tf_inv(t), t3);
        }
        assert(eq_class_of(y, cx));
        assert forall|d: u16| eq_class_of(y, d) implies cx <= d by {
            assert(eq_class_of(x, d));
        }
        assert(is_canonical_form(y, cx));
        assert(cx <= cy && cy <= cx);
    }
    if canonical_of(x) == canonical_of(y) {
        let t1 = choose|t: int| 0 <= t < 8 && is_transform_of(cx, t, ax, vsx, hsx);
        let t2 = choose|t: int| 0 <= t < 8 && is_transform_of(cy, t, ay, vsy, hsy);
        lemma_transform_tight(cx, t1, ax, vsx, hsx);
        lemma_transform_tight(cy, t2, ay, vsy, hsy);
        lemma_tight_anchor(cx, tf_vs(t1, vsx, hsx), tf_hs(t1, vsx, hsx));
        lemma_tight_anchor(cy, tf_vs(t2, vsy, hsy), tf_hs(t2, vsy, hsy));
        assert(tf_vs(t2, vsy, hsy) == tf_vs(t1, vsx, hsx) && tf_hs(t2, vsy, hsy) == tf_hs(
            t1,
            vsx,
            hsx,
        ));
        lemma_transform_inverse(ay, cy, t2, vsy, hsy);
        assert(is_transform_of(ay, tf_inv(t2), cx, tf_vs(t1, vsx, hsx), tf_hs(t1, vsx, hsx)));
        lemma_transform_compose(ax, cx, ay, t1, tf_inv(t2), vsx, hsx);
        lemma_tf_comp_range(t1, tf_inv(t2));
        assert(is_transform_of(ay, tf_comp(t1, tf_inv(t2)), ax, vsx, hsx));
        assert(symmetry_related(x, y));
    }
}


/// Counts the members of an explicit set of up to one orbit value.
proof fn lemma_orbit_set_len1(eq: Seq<u16>, v0: u16)
    requires
        eq.len() == 8,
        eq[0] == v0,
        forall|x: int| 0 <= x < 8 ==> eq[x] == v0,
    ensures
        eq.to_set().len() == 1,
{
    assert(eq.to_set() =~= Set::<u16>::empty().insert(v0)) by {
        assert forall|c: u16| eq.to_set().contains(c) implies c == v0 by {
            let x = choose|x: int| 0 <= x < eq.len() && eq[x] == c;
        }
        assert(eq.contains(v0));
    }
    vstd::set::axiom_set_insert_len(Set::<u16>::empty(), v0);
}

/// Counts the members of an explicit set of two orbit values.
proof fn lemma_orbit_set_len2(eq: Seq<u16>, v0: u16, v1: u16)
    requires
        eq.len() == 8,
        v0 != v1,
        eq.contains(v0),
        eq.contains(v1),
        forall|x: int| 0 <= x < 8 ==> eq[x] == v0 || eq[x] == v1,
    ensures
        eq.to_set().len() == 2,
{
    assert(eq.to_set() =~= Set::<u16>::empty().insert(v0).insert(v1)) by {
        assert forall|c: u16| eq.to_set().contains(c) implies (c == v0 || c == v1) by {
            let x = choose|x: int| 0 <= x < eq.len() && eq[x] == c;
        }
    }
    vstd::set::axiom_set_insert_len(Set::<u16>::empty(), v0);
    vstd::set::axiom_set_insert_len(Set::<u16>::empty().insert(v0), v1);
}

/// Counts the members of an explicit set of four orbit values.
proof fn lemma_orbit_set_len4(eq: Seq<u16>, v0: u16, v1: u16, v2: u16, v3: u16)
    requires
        eq.len() == 8,
        v0 != v1 && v0 != v2 && v0 != v3 && v1 != v2 && v1 != v3 && v2 != v3,
        eq.contains(v0),
        eq.contains(v1),
        eq.contains(v2),
        eq.contains(v3),
        forall|x: int| 0 <= x < 8 ==> eq[x] == v0 || eq[x] == v1 || eq[x] == v2 || eq[x] == v3,
    ensures
        eq.to_set().len() == 4,
{
    assert(eq.to_set() =~= Set::<u16>::empty().insert(v0).insert(v1).insert(v2).insert(v3)) by {
        assert forall|c: u16| eq.to_set().contains(c) implies (c == v0 || c == v1 || c == v2 || c
            == v3) by {
            let x = choose|x: int| 0 <= x < eq.len() && eq[x] == c;
        }
    }
    vstd::set::axiom_set_insert_len(Set::<u16>::empty(), v0);
    vstd::set::axiom_set_insert_len(Set::<u16>::empty().insert(v0), v1);
    vstd::set::axiom_set_insert_len(Set::<u16>::empty().insert(v0).insert(v1), v2);
    vstd::set::axiom_set_insert_len(Set::<u16>::empty().insert(v0).insert(v1).insert(v2), v3);
}

/// An orbit of the 8 dihedral transforms has 1, 2, 4 or 8 distinct members:
/// the rotation suborbit has 1, 2 or 4, and the reflections either repeat it
/// or double it.
#[verifier::rlimit(100)]
#[verifier::spinoff_prover]
proof fn lemma_orbit_seq_count(m: u16, eq: Seq<u16>)
    requires
        m != 0,
        eq.len() == 8,
        forall|t: int|
            0 <= t < 8 ==> is_transform_of(
                #[trigger] eq[t],
                t,
                anchored(m),
                rect_vs(m),
                rect_hs(m),
            ),
    ensures
        eq.to_set().len() == 1 || eq.to_set().len() == 2 || eq.to_set().len() == 4
            || eq.to_set().len() == 8,
{
    if eq[0] == eq[1] {
        // The rotations collapse to one value, and so do the reflections.
        lemma_orbit_congruence(m, eq, 0, 1, 1);
        assert(eq[1] == eq[2]);
        lemma_orbit_congruence(m, eq, 1, 2, 1);
        assert(eq[2] == eq[3]);
        lemma_orbit_congruence(m, eq, 0, 1, 4);
        assert(eq[4] == eq[5]);
        lemma_orbit_congruence(m, eq, 1, 2, 4);
        assert(eq[5] == eq[6]);
        lemma_orbit_congruence(m, eq, 2, 3, 4);
        assert(eq[6] == eq[7]);
        if eq[0] == eq[4] {
            assert forall|x: int| #![trigger eq[x]] 0 <= x < 8 implies eq[x] == eq[0] by {
                if x == 0 {
                } else if x == 1 {
                } else if x == 2 {
                } else if x == 3 {
                } else if x == 4 {
                } else if x == 5 {
                } else if x == 6 {
                } else if x == 7 {
                }
            }
            lemma_orbit_set_len1(eq, eq[0]);
        } else {
            assert forall|x: int| #![trigger eq[x]] 0 <= x < 8 implies eq[x] == eq[0] || eq[x] == eq[4] by {
                if x == 0 {
                } else if x == 1 {
                } else if x == 2 {
                } else if x == 3 {
                } else if x == 4 {
                } else if x == 5 {
                } else if x == 6 {
                } else if x == 7 {
                }
            }
            lemma_orbit_set_len2(eq, eq[0], eq[4]);
        }
    } else if eq[0] == eq[2] {
        // Two rotation values and two reflection values.
        lemma_orbit_congruence(m, eq, 0, 2, 1);
        assert(eq[1] == eq[3]);
        lemma_orbit_congruence(m, eq, 0, 2, 4);
        assert(eq[4] == eq[6]);
        lemma_orbit_congruence(m, eq, 1, 3, 4);
        assert(eq[5] == eq[7]);
        assert(eq[4] != eq[5]) by {
            if eq[4] == eq[5] {
                lemma_orbit_congruence(m, eq, 4, 5, 4);
                assert(eq[0] == eq[1]);
                assert(false);
            }
        }
        if eq[0] == eq[4] {
            lemma_orbit_congruence(m, eq, 0, 4, 1);
            assert(eq[1] == eq[7]);
            assert forall|x: int| #![trigger eq[x]] 0 <= x < 8 implies eq[x] == eq[0] || eq[x] == eq[1] by {
                if x == 0 {
                } else if x == 1 {
                } else if x == 2 {
                } else if x == 3 {
                } else if x == 4 {
                } else if x == 5 {
                } else if x == 6 {
                } else if x == 7 {
                }
            }
            lemma_orbit_set_len2(eq, eq[0], eq[1]);
        } else if eq[0] == eq[5] {
            lemma_orbit_congruence(m, eq, 0, 5, 1);
            assert(eq[1] == eq[4]);
            assert forall|x: int| #![trigger eq[x]] 0 <= x < 8 implies eq[x] == eq[0] || eq[x] == eq[1] by {
                if x == 0 {
                } else if x == 1 {
                } else if x == 2 {
                } else if x == 3 {
                } else if x == 4 {
                } else if x == 5 {
                } else if x == 6 {
                } else if x == 7 {
                }
            }
            lemma_orbit_set_len2(eq, eq[0], eq[1]);
        } else if eq[1] == eq[4] {
            lemma_orbit_congruence(m, eq, 1, 4, 1);
            assert(eq[2] == eq[7]);
            assert forall|x: int| #![trigger eq[x]] 0 <= x < 8 implies eq[x] == eq[0] || eq[x] == eq[1] by {
                if x == 0 {
                } else if x == 1 {
                } else if x == 2 {
                } else if x == 3 {
                } else if x == 4 {
                } else if x == 5 {
                } else if x == 6 {
                } else if x == 7 {
                }
            }
            lemma_orbit_set_len2(eq, eq[0], eq[1]);
        } else if eq[1] == eq[5] {
            lemma_orbit_congruence(m, eq, 1, 5, 1);
            assert(eq[2] == eq[4]);
            assert forall|x: int| #![trigger eq[x]] 0 <= x < 8 implies eq[x] == eq[0] || eq[x] == eq[1] by {
                if x == 0 {
                } else if x == 1 {
                } else if x == 2 {
                } else if x == 3 {
                } else if x == 4 {
                } else if x == 5 {
                } else if x == 6 {
                } else if x == 7 {
                }
            }
            lemma_orbit_set_len2(eq, eq[0], eq[1]);
        } else {
            assert forall|x: int| #![trigger eq[x]] 0 <= x < 8 implies eq[x] == eq[0] || eq[x]
                == eq[1] || eq[x] == eq[4] || eq[x] == eq[5] by {
                if x == 0 {
                } else if x == 1 {
                } else if x == 2 {
                } else if x == 3 {
                } else if x == 4 {
                } else if x == 5 {
                } else if x == 6 {
                } else if x == 7 {
                }
            }
            lemma_orbit_set_len4(eq, eq[0], eq[1], eq[4], eq[5]);
        }
    } else {
        // All four rotations are distinct, hence so are the reflections.
        assert(eq[0] != eq[3]) by {
            if eq[0] == eq[3] {
                lemma_orbit_congruence(m, eq, 0, 3, 1);
                assert(eq[1] == eq[0]);
                assert(false);
            }
        }
        assert(eq[1] != eq[2]) by {
            if eq[1] == eq[2] {
                lemma_orbit_congruence(m, eq, 1, 2, 3);
                assert(eq[0] == eq[1]);
                assert(false);
            }
        }
        assert(eq[1] != eq[3]) by {
            if eq[1] == eq[3] {
                lemma_orbit_congruence(m, eq, 1, 3, 3);
                assert(eq[0] == eq[2]);
                assert(false);
            }
        }
        assert(eq[2] != eq[3]) by {
            if eq[2] == eq[3] {
                lemma_orbit_congruence(m, eq, 2, 3, 2);
                assert(eq[0] == eq[1]);
                assert(false);
            }
        }
        assert(eq[4] != eq[5]) by {
            if eq[4] == eq[5] {
                lemma_orbit_congruence(m, eq, 4, 5, 4);
                assert(eq[0] == eq[1]);
                assert(false);
            }
        }
        assert(eq[4] != eq[6]) by {
            if eq[4] == eq[6] {
                lemma_orbit_congruence(m, eq, 4, 6, 4);
                assert(eq[0] == eq[2]);
                assert(false);
            }
        }
        assert(eq[4] != eq[7]) by {
            if eq[4] == eq[7] {
                lemma_orbit_congruence(m, eq, 4, 7, 4);
                assert(eq[0] == eq[3]);
                assert(false);
            }
        }
        assert(eq[5] != eq[6]) by {
            if eq[5] == eq[6] {
                lemma_orbit_congruence(m, eq, 5, 6, 4);
                assert(eq[1] == eq[2]);
                assert(false);
            }
        }
        assert(eq[5] != eq[7]) by {
            if eq[5] == eq[7] {
                lemma_orbit_congruence(m, eq, 5, 7, 4);
                assert(eq[1] == eq[3]);
                assert(false);
            }
        }
        assert(eq[6] != eq[7]) by {
            if eq[6] == eq[7] {
                lemma_orbit_congruence(m, eq, 6, 7, 4);
                assert(eq[2] == eq[3]);
                assert(false);
            }
        }
        if eq[0] == eq[4] {
            lemma_orbit_congruence(m, eq, 0, 4, 1);
            assert(eq[1] == eq[7]);
            lemma_orbit_congruence(m, eq, 0, 4, 2);
            assert(eq[2] == eq[6]);
            lemma_orbit_congruence(m, eq, 0, 4, 3);
            assert(eq[3] == eq[5]);
            assert forall|x: int| #![trigger eq[x]] 0 <= x < 8 implies eq[x] == eq[0] || eq[x]
                == eq[1] || eq[x] == eq[2] || eq[x] == eq[3] by {
                if x == 0 {
                } else if x == 1 {
                } else if x == 2 {
                } else if x == 3 {
                } else if x == 4 {
                } else if x == 5 {
                } else if x == 6 {
                } else if x == 7 {
                }
            }
            lemma_orbit_set_len4(eq, eq[0], eq[1], eq[2], eq[3]);
        } else if eq[0] == eq[5] {
            lemma_orbit_congruence(m, eq, 0, 5, 1);
            assert(eq[1] == eq[4]);
            lemma_orbit_congruence(m, eq, 0, 5, 2);
            assert(eq[2] == eq[7]);
            lemma_orbit_congruence(m, eq, 0, 5, 3);
            assert(eq[3] == eq[6]);
            assert forall|x: int| #![trigger eq[x]] 0 <= x < 8 implies eq[x] == eq[0] || eq[x]
                == eq[1] || eq[x] == eq[2] || eq[x] == eq[3] by {
                if x == 0 {
                } else if x == 1 {
                } else if x == 2 {
                } else if x == 3 {
                } else if x == 4 {
                } else if x == 5 {
                } else if x == 6 {
                } else if x == 7 {
                }
            }
            lemma_orbit_set_len4(eq, eq[0], eq[1], eq[2], eq[3]);
        } else if eq[0] == eq[6] {
            lemma_orbit_congruence(m, eq, 0, 6, 1);
            assert(eq[1] == eq[5]);
            lemma_orbit_congruence(m, eq, 0, 6, 2);
            assert(eq[2] == eq[4]);
            lemma_orbit_congruence(m, eq, 0, 6, 3);
            assert(eq[3] == eq[7]);
            assert forall|x: int| #![trigger eq[x]] 0 <= x < 8 implies eq[x] == eq[0] || eq[x]
                == eq[1] || eq[x] == eq[2] || eq[x] == eq[3] by {
                if x == 0 {
                } else if x == 1 {
                } else if x == 2 {
                } else if x == 3 {
                } else if x == 4 {
                } else if x == 5 {
                } else if x == 6 {
                } else if x == 7 {
                }
            }
            lemma_orbit_set_len4(eq, eq[0], eq[1], eq[2], eq[3]);
        } else if eq[0] == eq[7] {
            lemma_orbit_congruence(m, eq, 0, 7, 1);
            assert(eq[1] == eq[6]);
            lemma_orbit_congruence(m, eq, 0, 7, 2);
            assert(eq[2] == eq[5]);
            lemma_orbit_congruence(m, eq, 0, 7, 3);
            assert(eq[3] == eq[4]);
            assert forall|x: int| #![trigger eq[x]] 0 <= x < 8 implies eq[x] == eq[0] || eq[x]
                == eq[1] || eq[x] == eq[2] || eq[x] == eq[3] by {
                if x == 0 {
                } else if x == 1 {
                } else if x == 2 {
                } else if x == 3 {
                } else if x == 4 {
                } else if x == 5 {
                } else if x == 6 {
                } else if x == 7 {
                }
            }
            lemma_orbit_set_len4(eq, eq[0], eq[1], eq[2], eq[3]);
        } else {
            // No reflection value meets a rotation value either.
            assert(eq[1] != eq[4]) by {
                if eq[1] == eq[4] {
                    lemma_orbit_congruence(m, eq, 1, 4, 3);
                    assert(eq[0] == eq[5]);
                    assert(false);
                }
            }
            assert(eq[1] != eq[5]) by {
                if eq[1] == eq[5] {
                    lemma_orbit_congruence(m, eq, 1, 5, 3);
                    assert(eq[0] == eq[6]);
                    assert(false);
                }
            }
            assert(eq[1] != eq[6]) by {
                if eq[1] == eq[6] {
                    lemma_orbit_congruence(m, eq, 1, 6, 3);
                    assert(eq[0] == eq[7]);
                    assert(false);
                }
            }
            assert(eq[1] != eq[7]) by {
                if eq[1] == eq[7] {
                    lemma_orbit_congruence(m, eq, 1, 7, 3);
                    assert(eq[0] == eq[4]);
                    assert(false);
                }
            }
            assert(eq[2] != eq[4]) by {
                if eq[2] == eq[4] {
                    lemma_orbit_congruence(m, eq, 2, 4, 2);
                    assert(eq[0] == eq[6]);
                    assert(false);
                }
            }
            assert(eq[2] != eq[5]) by {
                if eq[2] == eq[5] {
                    lemma_orbit_congruence(m, eq, 2, 5, 2);
                    assert(eq[0] == eq[7]);
                    assert(false);
                }
            }
            assert(eq[2] != eq[6]) by {
                if eq[2] == eq[6] {
                    lemma_orbit_congruence(m, eq, 2, 6, 2);
                    assert(eq[0] == eq[4]);
                    assert(false);
                }
            }
            assert(eq[2] != eq[7]) by {
                if eq[2] == eq[7] {
                    lemma_orbit_congruence(m, eq, 2, 7, 2);
                    assert(eq[0] == eq[5]);
                    assert(false);
                }
            }
            assert(eq[3] != eq[4]) by {
                if eq[3] == eq[4] {
                    lemma_orbit_congruence(m, eq, 3, 4, 1);
                    assert(eq[0] == eq[7]);
                    assert(false);
                }
            }
            assert(eq[3] != eq[5]) by {
                if eq[3] == eq[5] {
                    lemma_orbit_congruence(m, eq, 3, 5, 1);
                    assert(eq[0] == eq[4]);
                    assert(false);
                }
            }
            assert(eq[3] != eq[6]) by {
                if eq[3] == eq[6] {
                    lemma_orbit_congruence(m, eq, 3, 6, 1);
                    assert(eq[0] == eq[5]);
                    assert(false);
                }
            }
            assert(eq[3] != eq[7]) by {
                if eq[3] == eq[7] {
                    lemma_orbit_congruence(m, eq, 3, 7, 1);
                    assert(eq[0] == eq[6]);
                    assert(false);
                }
            }
            assert(eq.no_duplicates()) by {
                assert forall|i: int, j: int| 0 <= i < 8 && 0 <= j < 8 && i != j implies eq[i]
                    != eq[j] by {
                    if i == 0 {
                    } else if i == 1 {
                    } else if i == 2 {
                    } else if i == 3 {
                    } else if i == 4 {
                    } else if i == 5 {
                    } else if i == 6 {
                    } else if i == 7 {
                    }
                }
            }
            eq.unique_seq_to_set();
        }
    }
}

/// The 8 dihedral images of the anchored form of `bits`, or 8 zero masks for
/// the empty pattern.
#[verifier::spinoff_prover]
pub fn gather_equivalents(bits: u16) -> (r: Vec<u16>)
    ensures
        r@.len() == 8,
        bits == 0 ==> forall|t: int| 0 <= t < 8 ==> r@[t] == 0u16,
        bits != 0 ==> forall|t: int|
            0 <= t < 8 ==> is_transform_of(
                #[trigger] r@[t],
                t,
                anchored(bits),
                rect_vs(bits),
                rect_hs(bits),
            ),
        bits != 0 ==> 1 <= rect_vs(bits) <= 4 && 1 <= rect_hs(bits) <= 4 && confined(
            anchored(bits),
            rect_vs(bits),
            rect_hs(bits),
        ),
        bits != 0 ==> forall|t: int| 0 <= t < 8 ==> popcount(#[trigger] r@[t]) == popcount(bits),
{
    let mut out: Vec<u16> = Vec::new();
    let rect_opt = find_minimal_rectangle(bits);
    match rect_opt {
        None => {
            let mut t: usize = 0;
            while t < 8
                invariant
                    t <= 8,
                    out@.len() == t,
                    forall|u: int| 0 <= u < t ==> out@[u] == 0u16,
                decreases 8 - t,
            {
                out.push(0u16);
                t += 1;
            }
            out
        },
        Some(rect) => {
            proof {
                assert(rect_ok(bits, rect));
                assert(exists|rr: Rect| rect_ok(bits, rr));
                lemma_rect_unique(bits, rect, the_rect(bits));
            }
            let shift: u16 = (4 * rect.vmin + rect.hmin) as u16;
            let ax: u16 = bits >> shift;
            let vs: usize = rect.vmax - rect.vmin + 1;
            let hs: usize = rect.hmax - rect.hmin + 1;
            proof {
                lemma_anchor_cells(bits, rect);
                assert(ax == anchored(bits));
                assert(vs as int == rect_vs(bits) && hs as int == rect_hs(bits));
                assert(confined(ax, vs as int, hs as int));
                assert forall|i: u16| i < shift implies !occ(bits, i) by {
                    if occ(bits, i) {
                        lemma_fundamental_div_mod(i as int, 4);
                        assert(i / 4 >= rect.vmin && i % 4 >= rect.hmin);
                        assert(i as int >= 4 * rect.vmin + rect.hmin);
                    }
                }
                lemma_popcount_shr(bits, shift);
            }
            let mut t: usize = 0;
            while t < 8
                invariant
                    out@.len() == t,
                    t <= 8,
                    1 <= vs <= 4,
                    1 <= hs <= 4,
                    confined(ax, vs as int, hs as int),
                    popcount(ax) == popcount(bits),
                    forall|u: int|
                        0 <= u < t ==> is_transform_of(
                            #[trigger] out@[u],
                            u,
                            ax,
                            vs as int,
                            hs as int,
                        ),
                    forall|u: int| 0 <= u < t ==> popcount(#[trigger] out@[u]) == popcount(bits),
                decreases 8 - t,
            {
                let mt = transform_mask(ax, t, vs, hs);
                out.push(mt);
                t += 1;
            }
            out
        },
    }
}

/// The canonical representative of the symmetry class of `bits`: the
/// numerically smallest of the 8 dihedral images of its anchored form.
#[verifier::spinoff_prover]
pub fn canonicalize(bits: u16) -> (r: u16)
    ensures
        bits == 0 ==> r == 0,
        bits != 0 ==> eq_class_of(bits, r),
        bits != 0 ==> forall|c: u16| eq_class_of(bits, c) ==> r <= c,
        bits != 0 ==> r == canonical_of(bits),
        bits != 0 ==> popcount(r) == popcount(bits),
{
    let eq = gather_equivalents(bits);
    let mut r: u16 = *eq.get(0).unwrap();
    let mut j: usize = 1;
    while j < 8
        invariant
            1 <= j <= 8,
            eq@.len() == 8,
            exists|u: int| 0 <= u < 8 && r == eq@[u],
            forall|u: int| 0 <= u < j ==> r <= #[trigger] eq@[u],
        decreases 8 - j,
    {
        let e: u16 = *eq.get(j).unwrap();
        if e < r {
            r = e;
        }
        j += 1;
    }
    proof {
        if bits == 0 {
            assert(r == eq@[0]);
        } else {
            let u = choose|u: int| 0 <= u < 8 && r == eq@[u];
            assert(is_transform_of(eq@[u], u, anchored(bits), rect_vs(bits), rect_hs(bits)));
            assert(popcount(eq@[u]) == popcount(bits));
            assert(eq_class_of(bits, r));
            assert forall|c: u16| eq_class_of(bits, c) implies r <= c by {
                let t = choose|t: int|
                    0 <= t < 8 && is_transform_of(c, t, anchored(bits), rect_vs(bits), rect_hs(bits));
                lemma_transform_unique(
                    c,
                    eq@[t],
                    t,
                    anchored(bits),
                    rect_vs(bits),
                    rect_hs(bits),
                );
                assert(r <= eq@[t]);
            }
            assert(is_canonical_form(bits, r));
            assert(exists|c: u16| is_canonical_form(bits, c));
            let c = canonical_of(bits);
            assert(is_canonical_form(bits, c));
            assert(r <= c && c <= r);
        }
    }
    r
}

/// The number of distinct masks among the 8 dihedral images of `bits`: the
/// size of its symmetry orbit, always a divisor of the group's order 8.
#[verifier::spinoff_prover]
pub fn count_equivalents(bits: u16) -> (r: usize)
    ensures
        bits == 0 ==> r == 1,
        bits != 0 ==> r == orbit_count(bits),
        1 <= r <= 8,
        r == 1 || r == 2 || r == 4 || r == 8,
{
    let eq = gather_equivalents(bits);
    let mut r: usize = 0;
    let mut j: usize = 0;
    proof {
        assert(eq@.take(0).to_set() =~= Set::<u16>::empty());
        vstd::seq_lib::seq_to_set_is_finite(eq@.take(0));
        vstd::set_lib::lemma_set_empty_equivalency_len(eq@.take(0).to_set());
    }
    while j < 8
        invariant
            j <= 8,
            eq@.len() == 8,
            r == eq@.take(j as int).to_set().len(),
            r <= j,
        decreases 8 - j,
    {
        let ej: u16 = *eq.get(j).unwrap();
        let mut found: bool = false;
        let mut k: usize = 0;
        while k < j
            invariant
                k <= j,
                j < 8,
                eq@.len() == 8,
                ej == eq@[j as int],
                found == eq@.take(k as int).contains(ej),
            decreases j - k,
        {
            let ghost prev = found;
            if *eq.get(k).unwrap() == ej {
                found = true;
            }
            proof {
                assert(eq@.take(k + 1) =~= eq@.take(k as int).push(eq@[k as int]));
                if found {
                    if prev {
                        let w = choose|w: int| 0 <= w < k && eq@.take(k as int)[w] == ej;
                        assert(eq@.take(k + 1)[w] == ej);
                    } else {
                        assert(eq@.take(k + 1)[k as int] == ej);
                    }
                }
            }
            k += 1;
        }
        proof {
            vstd::seq_lib::seq_to_set_is_finite(eq@.take(j as int));
            Seq::lemma_push_to_set_commute(eq@.take(j as int), ej);
            assert(eq@.take(j + 1) =~= eq@.take(j as int).push(ej));
            vstd::set::axiom_set_insert_len(eq@.take(j as int).to_set(), ej);
            assert(eq@.take(j as int).to_set().contains(ej) == eq@.take(j as int).contains(ej));
        }
        if !found {
            r += 1;
        }
        j += 1;
    }
    proof {
        assert(eq@.take(8) =~= eq@);
        if bits == 0 {
            assert(forall|t: int| 0 <= t < 8 ==> eq@[t] == 0u16);
            assert(eq@[0] == 0u16);
            assert(eq@.to_set() =~= Set::<u16>::empty().insert(0u16)) by {
                assert forall|c: u16| eq@.to_set().contains(c) implies c == 0u16 by {
                    let w = choose|w: int| 0 <= w < eq@.len() && eq@[w] == c;
                    assert(eq@[w] == 0u16);
                }
                assert(eq@[0] == 0u16 && eq@.contains(0u16));
            }
            assert(eq@.to_set().len() == 1) by {
                vstd::set::axiom_set_insert_len(Set::<u16>::empty(), 0u16);
            }
        } else {
            let orbit = Set::new(|c: u16| eq_class_of(bits, c));
            assert(eq@.to_set() =~= orbit) by {
                assert forall|c: u16| eq@.to_set().contains(c) implies orbit.contains(c) by {
                    let t = choose|t: int| 0 <= t < 8 && eq@[t] == c;
                    assert(is_transform_of(
                        eq@[t],
                        t,
                        anchored(bits),
                        rect_vs(bits),
                        rect_hs(bits),
                    ));
                }
                assert forall|c: u16| orbit.contains(c) implies eq@.to_set().contains(c) by {
                    let t = choose|t: int|
                        0 <= t < 8 && is_transform_of(
                            c,
                            t,
                            anchored(bits),
                            rect_vs(bits),
                            rect_hs(bits),
                        );
                    lemma_transform_unique(
                        c,
                        eq@[t],
                        t,
                        anchored(bits),
                        rect_vs(bits),
                        rect_hs(bits),
                    );
                    assert(eq@[t] == c);
                }
            }
        }
        if bits != 0 {
            lemma_orbit_seq_count(bits, eq@);
        }
        if r == 0 {
            assert(!eq@.to_set().contains(eq@[0]));
            assert(false);
        }
    }
    r
}

} // verus!
