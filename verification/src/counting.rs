//! Combinatorial counting of positions over the arrangement catalog.
//!
//! For each canonical arrangement the number of piece labelings is a product
//! of falling factorials, split by how many of the two key pieces stand on
//! surrounded cells; the per-arrangement total is weighted by the size of the
//! arrangement's symmetry orbit, doubled for arrangements lying on a single
//! line, and the grand totals per bit count are divided by the 8 symmetries.

use vstd::prelude::*;
use crate::bitgrid::{
    count_bits, extract_surrounded, lemma_and_absorb, lemma_cell_ops, lemma_nonzero_has_bit,
    lemma_popcount_pos_nonzero, lemma_popcount_subset, occ, occ_vh, popcount, surrounded_mask,
};
use crate::symmetry::{count_equivalents, orbit_count};
use crate::catalog::{catalog_seq, gather_canonical_arrangements};
use vstd::arithmetic::div_mod::lemma_fundamental_div_mod;

verus! {

/// The falling factorial: `n * (n-1) * ... * (n-r+1)`, the number of ordered
/// selections of `r` items out of `n`.
pub open spec fn perm_spec(n: int, r: int) -> int
    decreases r,
{
    if r <= 0 {
        1
    } else {
        perm_spec(n, r - 1) * (n - r + 1)
    }
}

/// The falling factorial grows with its base.
pub proof fn lemma_perm_mono_n(n1: int, n2: int, r: int)
    requires
        0 <= r <= n1 <= n2,
    ensures
        1 <= perm_spec(n1, r) <= perm_spec(n2, r),
    decreases r,
{
    if r > 0 {
        lemma_perm_mono_n(n1, n2, r - 1);
        assert(1 <= perm_spec(n1, r - 1) * (n1 - r + 1) && perm_spec(n1, r - 1) * (n1 - r + 1)
            <= perm_spec(n2, r - 1) * (n2 - r + 1)) by (nonlinear_arith)
            requires
                1 <= perm_spec(n1, r - 1) <= perm_spec(n2, r - 1),
                1 <= n1 - r + 1 <= n2 - r + 1,
        ;
    }
}

/// The falling factorial grows with the number of selected items, as long as
/// they fit.
pub proof fn lemma_perm_mono_r(n: int, r1: int, r2: int)
    requires
        0 <= r1 <= r2 <= n,
    ensures
        1 <= perm_spec(n, r1) <= perm_spec(n, r2),
    decreases r2,
{
    if r2 > r1 {
        lemma_perm_mono_r(n, r1, r2 - 1);
        assert(1 <= perm_spec(n, r2 - 1) * (n - r2 + 1) && perm_spec(n, r2 - 1) * 1 <= perm_spec(
            n,
            r2 - 1,
        ) * (n - r2 + 1)) by (nonlinear_arith)
            requires
                1 <= perm_spec(n, r2 - 1),
                1 <= n - r2 + 1,
        ;
    } else {
        lemma_perm_mono_n(r1, n, 0);
        if r1 > 0 {
            lemma_perm_mono_r(n, r1 - 1, r1 - 1);
            assert(1 <= perm_spec(n, r1 - 1) * (n - r1 + 1) && perm_spec(n, r1 - 1) * 1
                <= perm_spec(n, r1 - 1) * (n - r1 + 1)) by (nonlinear_arith)
                requires
                    1 <= perm_spec(n, r1 - 1),
                    1 <= n - r1 + 1,
            ;
        }
    }
}

/// Any falling factorial within a base of 16 stays below 16 factorial.
pub proof fn lemma_perm_bound(n: int, r: int)
    requires
        0 <= r <= n <= 16,
    ensures
        1 <= perm_spec(n, r) <= 20922789888000,
{
    lemma_perm_mono_n(n, 16, r);
    lemma_perm_mono_r(16, r, 16);
    assert(perm_spec(16, 16) == 20922789888000) by {
        assert(perm_spec(16, 0) == 1);
        assert(perm_spec(16, 1) == perm_spec(16, 0) * 16);
        assert(perm_spec(16, 1) == 16);
        assert(perm_spec(16, 2) == perm_spec(16, 1) * 15);
        assert(perm_spec(16, 2) == 240);
        assert(perm_spec(16, 3) == perm_spec(16, 2) * 14);
        assert(perm_spec(16, 3) == 3360);
        assert(perm_spec(16, 4) == perm_spec(16, 3) * 13);
        assert(perm_spec(16, 4) == 43680);
        assert(perm_spec(16, 5) == perm_spec(16, 4) * 12);
        assert(perm_spec(16, 5) == 524160);
        assert(perm_spec(16, 6) == perm_spec(16, 5) * 11);
        assert(perm_spec(16, 6) == 5765760);
        assert(perm_spec(16, 7) == perm_spec(16, 6) * 10);
        assert(perm_spec(16, 7) == 57657600);
        assert(perm_spec(16, 8) == perm_spec(16, 7) * 9);
        assert(perm_spec(16, 8) == 518918400);
        assert(perm_spec(16, 9) == perm_spec(16, 8) * 8);
        assert(perm_spec(16, 9) == 4151347200);
        assert(perm_spec(16, 10) == perm_spec(16, 9) * 7);
        assert(perm_spec(16, 10) == 29059430400);
        assert(perm_spec(16, 11) == perm_spec(16, 10) * 6);
        assert(perm_spec(16, 11) == 174356582400);
        assert(perm_spec(16, 12) == perm_spec(16, 11) * 5);
        assert(perm_spec(16, 12) == 871782912000);
        assert(perm_spec(16, 13) == perm_spec(16, 12) * 4);
        assert(perm_spec(16, 13) == 3487131648000);
        assert(perm_spec(16, 14) == perm_spec(16, 13) * 3);
        assert(perm_spec(16, 14) == 10461394944000);
        assert(perm_spec(16, 15) == perm_spec(16, 14) * 2);
        assert(perm_spec(16, 15) == 20922789888000);
        assert(perm_spec(16, 16) == perm_spec(16, 15) * 1);
        assert(perm_spec(16, 16) == 20922789888000);
    }
}

/// The number of ordered selections of `r` items out of `n`.
pub fn perm(n: u64, r: u64) -> (res: u64)
    requires
        r <= n,
        n <= 16,
    ensures
        res == perm_spec(n as int, r as int),
        1 <= res,
{
    let mut result: u64 = 1;
    let mut i: u64 = 0;
    while i < r
        invariant
            i <= r,
            r <= n <= 16,
            result == perm_spec(n as int, i as int),
        decreases r - i,
    {
        proof {
            lemma_perm_bound(n as int, i + 1);
            assert(perm_spec(n as int, i + 1) == perm_spec(n as int, i as int) * (n - i));
        }
        result = result * (n - i);
        i += 1;
    }
    proof {
        lemma_perm_bound(n as int, r as int);
    }
    result
}

/// Every occupied cell of `m` lies in row `k`.
pub open spec fn all_on_row(m: u16, k: int) -> bool {
    forall|v: int, h: int| #[trigger] occ_vh(m, v, h) ==> v == k
}

/// Every occupied cell of `m` lies in column `k`.
pub open spec fn all_on_col(m: u16, k: int) -> bool {
    forall|v: int, h: int| #[trigger] occ_vh(m, v, h) ==> h == k
}

/// Every occupied cell of `m` lies on the anti-diagonal `v + h == k`.
pub open spec fn all_on_diag_sum(m: u16, k: int) -> bool {
    forall|v: int, h: int| #[trigger] occ_vh(m, v, h) ==> v + h == k
}

/// Every occupied cell of `m` lies on the diagonal `v - h == k`.
pub open spec fn all_on_diag_diff(m: u16, k: int) -> bool {
    forall|v: int, h: int| #[trigger] occ_vh(m, v, h) ==> v - h == k
}

/// The occupied cells of `m` all lie on one row, one column or one diagonal.
pub open spec fn on_line_spec(m: u16) -> bool {
    ||| exists|k: int| #[trigger] all_on_row(m, k)
    ||| exists|k: int| #[trigger] all_on_col(m, k)
    ||| exists|k: int| #[trigger] all_on_diag_sum(m, k)
    ||| exists|k: int| #[trigger] all_on_diag_diff(m, k)
}

/// Cell-level reading of the four row masks.
proof fn lemma_row_masks()
    by (bit_vector)
    ensures
        forall|i: u16| i < 16 ==> #[trigger] occ(0x000fu16, i) == (i / 4 == 0),
        forall|i: u16| i < 16 ==> #[trigger] occ(0x00f0u16, i) == (i / 4 == 1),
        forall|i: u16| i < 16 ==> #[trigger] occ(0x0f00u16, i) == (i / 4 == 2),
        forall|i: u16| i < 16 ==> #[trigger] occ(0xf000u16, i) == (i / 4 == 3),
{
}

/// Cell-level reading of the four column masks.
proof fn lemma_col_masks()
    by (bit_vector)
    ensures
        forall|i: u16| i < 16 ==> #[trigger] occ(0x1111u16, i) == (i % 4 == 0),
        forall|i: u16| i < 16 ==> #[trigger] occ(0x2222u16, i) == (i % 4 == 1),
        forall|i: u16| i < 16 ==> #[trigger] occ(0x4444u16, i) == (i % 4 == 2),
        forall|i: u16| i < 16 ==> #[trigger] occ(0x8888u16, i) == (i % 4 == 3),
{
}

/// Cell-level reading of the seven anti-diagonal masks.
proof fn lemma_diag_sum_masks()
    by (bit_vector)
    ensures
        forall|i: u16| i < 16 ==> #[trigger] occ(0x0001u16, i) == (i / 4 + i % 4 == 0),
        forall|i: u16| i < 16 ==> #[trigger] occ(0x0012u16, i) == (i / 4 + i % 4 == 1),
        forall|i: u16| i < 16 ==> #[trigger] occ(0x0124u16, i) == (i / 4 + i % 4 == 2),
        forall|i: u16| i < 16 ==> #[trigger] occ(0x1248u16, i) == (i / 4 + i % 4 == 3),
        forall|i: u16| i < 16 ==> #[trigger] occ(0x2480u16, i) == (i / 4 + i % 4 == 4),
        forall|i: u16| i < 16 ==> #[trigger] occ(0x4800u16, i) == (i / 4 + i % 4 == 5),
        forall|i: u16| i < 16 ==> #[trigger] occ(0x8000u16, i) == (i / 4 + i % 4 == 6),
{
}

/// Cell-level reading of the seven diagonal masks.
proof fn lemma_diag_diff_masks()
    by (bit_vector)
    ensures
        forall|i: u16| i < 16 ==> #[trigger] occ(0x8421u16, i) == (i / 4 == i % 4),
        forall|i: u16| i < 16 ==> #[trigger] occ(0x4210u16, i) == (i / 4 == i % 4 + 1),
        forall|i: u16| i < 16 ==> #[trigger] occ(0x2100u16, i) == (i / 4 == i % 4 + 2),
        forall|i: u16| i < 16 ==> #[trigger] occ(0x1000u16, i) == (i / 4 == i % 4 + 3),
        forall|i: u16| i < 16 ==> #[trigger] occ(0x0842u16, i) == (i % 4 == i / 4 + 1),
        forall|i: u16| i < 16 ==> #[trigger] occ(0x0084u16, i) == (i % 4 == i / 4 + 2),
        forall|i: u16| i < 16 ==> #[trigger] occ(0x0008u16, i) == (i % 4 == i / 4 + 3),
{
}

/// True iff all occupied cells lie on a single row, column or diagonal of
/// the grid.
#[verifier::rlimit(100)]
pub fn is_on_line(bits: u16) -> (r: bool)
    ensures
        r == on_line_spec(bits),
{
    let res = (bits & 0x000f == bits) || (bits & 0x00f0 == bits) || (bits & 0x0f00 == bits) || (
    bits & 0xf000 == bits) || (bits & 0x1111 == bits) || (bits & 0x2222 == bits) || (bits & 0x4444
        == bits) || (bits & 0x8888 == bits) || (bits & 0x0001 == bits) || (bits & 0x0012 == bits)
        || (bits & 0x0124 == bits) || (bits & 0x1248 == bits) || (bits & 0x2480 == bits) || (bits
        & 0x4800 == bits) || (bits & 0x8000 == bits) || (bits & 0x8421 == bits) || (bits & 0x4210
        == bits) || (bits & 0x2100 == bits) || (bits & 0x1000 == bits) || (bits & 0x0842 == bits)
        || (bits & 0x0084 == bits) || (bits & 0x0008 == bits);
    proof {
        lemma_row_masks();
        lemma_col_masks();
        lemma_diag_sum_masks();
        lemma_diag_diff_masks();
        lemma_cell_ops();
        if res {
            lemma_on_line_sound(bits);
        } else {
            if on_line_spec(bits) {
                lemma_on_line_complete(bits);
                assert(false);
            }
        }
    }
    res
}

/// From a passed containment test, read off the line property.
proof fn lemma_on_line_sound(bits: u16)
    requires
        (bits & 0x000f == bits) || (bits & 0x00f0 == bits) || (bits & 0x0f00 == bits) || (bits
            & 0xf000 == bits) || (bits & 0x1111 == bits) || (bits & 0x2222 == bits) || (bits
            & 0x4444 == bits) || (bits & 0x8888 == bits) || (bits & 0x0001 == bits) || (bits
            & 0x0012 == bits) || (bits & 0x0124 == bits) || (bits & 0x1248 == bits) || (bits
            & 0x2480 == bits) || (bits & 0x4800 == bits) || (bits & 0x8000 == bits) || (bits
            & 0x8421 == bits) || (bits & 0x4210 == bits) || (bits & 0x2100 == bits) || (bits
            & 0x1000 == bits) || (bits & 0x0842 == bits) || (bits & 0x0084 == bits) || (bits
            & 0x0008 == bits),
    ensures
        on_line_spec(bits),
{
    lemma_row_masks();
    lemma_col_masks();
    lemma_diag_sum_masks();
    lemma_diag_diff_masks();
    if bits & 0x000f == bits {
        lemma_row_line(bits, 0x000f, 0);
    } else if bits & 0x00f0 == bits {
        lemma_row_line(bits, 0x00f0, 1);
    } else if bits & 0x0f00 == bits {
        lemma_row_line(bits, 0x0f00, 2);
    } else if bits & 0xf000 == bits {
        lemma_row_line(bits, 0xf000, 3);
    } else if bits & 0x1111 == bits {
        lemma_col_line(bits, 0x1111, 0);
    } else if bits & 0x2222 == bits {
        lemma_col_line(bits, 0x2222, 1);
    } else if bits & 0x4444 == bits {
        lemma_col_line(bits, 0x4444, 2);
    } else if bits & 0x8888 == bits {
        lemma_col_line(bits, 0x8888, 3);
    } else if bits & 0x0001 == bits {
        lemma_diag_sum_line(bits, 0x0001, 0);
    } else if bits & 0x0012 == bits {
        lemma_diag_sum_line(bits, 0x0012, 1);
    } else if bits & 0x0124 == bits {
        lemma_diag_sum_line(bits, 0x0124, 2);
    } else if bits & 0x1248 == bits {
        lemma_diag_sum_line(bits, 0x1248, 3);
    } else if bits & 0x2480 == bits {
        lemma_diag_sum_line(bits, 0x2480, 4);
    } else if bits & 0x4800 == bits {
        lemma_diag_sum_line(bits, 0x4800, 5);
    } else if bits & 0x8000 == bits {
        lemma_diag_sum_line(bits, 0x8000, 6);
    } else if bits & 0x8421 == bits {
        lemma_diag_diff_line(bits, 0x8421, 0);
    } else if bits & 0x4210 == bits {
        lemma_diag_diff_line(bits, 0x4210, 1);
    } else if bits & 0x2100 == bits {
        lemma_diag_diff_line(bits, 0x2100, 2);
    } else if bits & 0x1000 == bits {
        lemma_diag_diff_line(bits, 0x1000, 3);
    } else if bits & 0x0842 == bits {
        lemma_diag_diff_line(bits, 0x0842, -1);
    } else if bits & 0x0084 == bits {
        lemma_diag_diff_line(bits, 0x0084, -2);
    } else {
        lemma_diag_diff_line(bits, 0x0008, -3);
    }
}

/// Containment in a row mask means every occupied cell sits in that row.
proof fn lemma_row_line(bits: u16, line: u16, k: int)
    requires
        bits & line == bits,
        forall|i: u16| i < 16 ==> #[trigger] occ(line, i) == (i / 4 == k),
    ensures
        all_on_row(bits, k),
{
    lemma_and_absorb(bits, line);
    assert forall|v: int, h: int| #[trigger] occ_vh(bits, v, h) implies v == k by {
        let i = (4 * v + h) as u16;
        assert(occ(bits, i) && occ(line, i));
        lemma_fundamental_div_mod(i as int, 4);
    }
}

/// Containment in a column mask means every occupied cell sits in that
/// column.
proof fn lemma_col_line(bits: u16, line: u16, k: int)
    requires
        bits & line == bits,
        forall|i: u16| i < 16 ==> #[trigger] occ(line, i) == (i % 4 == k),
    ensures
        all_on_col(bits, k),
{
    lemma_and_absorb(bits, line);
    assert forall|v: int, h: int| #[trigger] occ_vh(bits, v, h) implies h == k by {
        let i = (4 * v + h) as u16;
        assert(occ(bits, i) && occ(line, i));
        lemma_fundamental_div_mod(i as int, 4);
    }
}

/// Containment in an anti-diagonal mask means every occupied cell has that
/// coordinate sum.
proof fn lemma_diag_sum_line(bits: u16, line: u16, k: int)
    requires
        bits & line == bits,
        forall|i: u16| i < 16 ==> #[trigger] occ(line, i) == (i / 4 + i % 4 == k),
    ensures
        all_on_diag_sum(bits, k),
{
    lemma_and_absorb(bits, line);
    assert forall|v: int, h: int| #[trigger] occ_vh(bits, v, h) implies v + h == k by {
        let i = (4 * v + h) as u16;
        assert(occ(bits, i) && occ(line, i));
        lemma_fundamental_div_mod(i as int, 4);
    }
}

/// Containment in a diagonal mask means every occupied cell has that
/// coordinate difference.
proof fn lemma_diag_diff_line(bits: u16, line: u16, k: int)
    requires
        bits & line == bits,
        k >= 0 ==> forall|i: u16| i < 16 ==> #[trigger] occ(line, i) == (i / 4 == i % 4 + k),
        k < 0 ==> forall|i: u16| i < 16 ==> #[trigger] occ(line, i) == (i % 4 == i / 4 + (-k)),
    ensures
        all_on_diag_diff(bits, k),
{
    lemma_and_absorb(bits, line);
    assert forall|v: int, h: int| #[trigger] occ_vh(bits, v, h) implies v - h == k by {
        let i = (4 * v + h) as u16;
        assert(occ(bits, i) && occ(line, i));
        lemma_fundamental_div_mod(i as int, 4);
    }
}

/// A mask on one line is contained in one of the 22 line masks.
#[verifier::rlimit(100)]
proof fn lemma_on_line_complete(bits: u16)
    requires
        on_line_spec(bits),
    ensures
        (bits & 0x000f == bits) || (bits & 0x00f0 == bits) || (bits & 0x0f00 == bits) || (bits
            & 0xf000 == bits) || (bits & 0x1111 == bits) || (bits & 0x2222 == bits) || (bits
            & 0x4444 == bits) || (bits & 0x8888 == bits) || (bits & 0x0001 == bits) || (bits
            & 0x0012 == bits) || (bits & 0x0124 == bits) || (bits & 0x1248 == bits) || (bits
            & 0x2480 == bits) || (bits & 0x4800 == bits) || (bits & 0x8000 == bits) || (bits
            & 0x8421 == bits) || (bits & 0x4210 == bits) || (bits & 0x2100 == bits) || (bits
            & 0x1000 == bits) || (bits & 0x0842 == bits) || (bits & 0x0084 == bits) || (bits
            & 0x0008 == bits),
{
    lemma_row_masks();
    lemma_col_masks();
    lemma_diag_sum_masks();
    lemma_diag_diff_masks();
    lemma_cell_ops();
    if bits == 0 {
        assert(bits & 0x000f == bits) by (bit_vector)
            requires
                bits == 0,
        ;
    } else {
        lemma_nonzero_has_bit(bits);
        let i0 = choose|i: u16| i < 16 && occ(bits, i);
        lemma_fundamental_div_mod(i0 as int, 4);
        let v0 = (i0 as int) / 4;
        let h0 = (i0 as int) % 4;
        assert(occ_vh(bits, v0, h0));
        if exists|k: int| #[trigger] all_on_row(bits, k) {
            let k = choose|k: int| #[trigger] all_on_row(bits, k);
            assert(v0 == k);
            let line: u16 = if k == 0 {
                0x000f
            } else if k == 1 {
                0x00f0
            } else if k == 2 {
                0x0f00
            } else {
                0xf000
            };
            assert forall|i: u16| i < 16 && #[trigger] occ(bits, i) implies occ(line, i) by {
                lemma_fundamental_div_mod(i as int, 4);
                assert(occ_vh(bits, (i as int) / 4, (i as int) % 4));
            }
            lemma_contained_in_line(bits, line);
        } else if exists|k: int| #[trigger] all_on_col(bits, k) {
            let k = choose|k: int| #[trigger] all_on_col(bits, k);
            assert(h0 == k);
            let line: u16 = if k == 0 {
                0x1111
            } else if k == 1 {
                0x2222
            } else if k == 2 {
                0x4444
            } else {
                0x8888
            };
            assert forall|i: u16| i < 16 && #[trigger] occ(bits, i) implies occ(line, i) by {
                lemma_fundamental_div_mod(i as int, 4);
                assert(occ_vh(bits, (i as int) / 4, (i as int) % 4));
            }
            lemma_contained_in_line(bits, line);
        } else if exists|k: int| #[trigger] all_on_diag_sum(bits, k) {
            let k = choose|k: int| #[trigger] all_on_diag_sum(bits, k);
            assert(v0 + h0 == k);
            let line: u16 = if k == 0 {
                0x0001
            } else if k == 1 {
                0x0012
            } else if k == 2 {
                0x0124
            } else if k == 3 {
                0x1248
            } else if k == 4 {
                0x2480
            } else if k == 5 {
                0x4800
            } else {
                0x8000
            };
            assert forall|i: u16| i < 16 && #[trigger] occ(bits, i) implies occ(line, i) by {
                lemma_fundamental_div_mod(i as int, 4);
                assert(occ_vh(bits, (i as int) / 4, (i as int) % 4));
            }
            lemma_contained_in_line(bits, line);
        } else {
            let k = choose|k: int| #[trigger] all_on_diag_diff(bits, k);
            assert(v0 - h0 == k);
            let line: u16 = if k == 0 {
                0x8421
            } else if k == 1 {
                0x4210
            } else if k == 2 {
                0x2100
            } else if k == 3 {
                0x1000
            } else if k == -1 {
                0x0842
            } else if k == -2 {
                0x0084
            } else {
                0x0008
            };
            assert forall|i: u16| i < 16 && #[trigger] occ(bits, i) implies occ(line, i) by {
                lemma_fundamental_div_mod(i as int, 4);
                assert(occ_vh(bits, (i as int) / 4, (i as int) % 4));
            }
            lemma_contained_in_line(bits, line);
        }
    }
}

/// Derives the containment `bits & line == bits` once every occupied cell is
/// known to be a cell of `line`.
proof fn lemma_contained_in_line(bits: u16, line: u16)
    requires
        forall|i: u16| i < 16 && #[trigger] occ(bits, i) ==> occ(line, i),
    ensures
        bits & line == bits,
{
    lemma_and_absorb(bits, line);
}

/// The number of labelings of one arrangement, split by whether the two key
/// pieces stand on free cells, one surrounded cell, or two surrounded cells,
/// each split enabled by its flag.
pub open spec fn arrangement_invariant(arr: u16, f_free: bool, f_one: bool, f_both: bool) -> int {
    let nd = popcount(arr);
    let ns = popcount(surrounded_mask(arr));
    let nf = nd - ns;
    (if f_free && nf >= 2 {
        perm_spec(nf, 2) * perm_spec(10, nd - 2)
    } else {
        0
    }) + (if f_one && ns >= 1 && nf >= 1 {
        2 * perm_spec(ns, 1) * perm_spec(nf, 1) * perm_spec(10, nd - 2)
    } else {
        0
    }) + (if f_both && ns >= 2 {
        perm_spec(ns, 2) * perm_spec(10, nd - 2)
    } else {
        0
    })
}

/// One arrangement's contribution: its labeling count, weighted by its orbit
/// size, doubled when the arrangement lies on a single line.
pub open spec fn arrangement_total(arr: u16, f_free: bool, f_one: bool, f_both: bool) -> int {
    arrangement_invariant(arr, f_free, f_one, f_both) * orbit_count(arr) * (if on_line_spec(arr) {
        2int
    } else {
        1int
    })
}

/// Sum of the contributions of the arrangements of `s` holding exactly `n`
/// occupied cells.
pub open spec fn totals_of(s: Seq<u16>, n: int, f_free: bool, f_one: bool, f_both: bool) -> int
    decreases s.len(),
{
    if s.len() == 0 {
        0
    } else {
        totals_of(s.drop_last(), n, f_free, f_one, f_both) + if popcount(s.last()) == n {
            arrangement_total(s.last(), f_free, f_one, f_both)
        } else {
            0
        }
    }
}

/// Each arrangement's contribution stays under this bound, so the running
/// sums stay far from overflow.
pub proof fn lemma_total_bound(arr: u16, f_free: bool, f_one: bool, f_both: bool)
    requires
        2 <= popcount(arr) <= 12,
        0 <= orbit_count(arr) <= 8,
    ensures
        0 <= arrangement_total(arr, f_free, f_one, f_both) <= 0xf000000000,
{
    let nd = popcount(arr);
    let ns = popcount(surrounded_mask(arr));
    let nf = nd - ns;
    lemma_popcount_bound(surrounded_mask(arr));
    assert(0 <= ns <= 16);
    lemma_perm_bound(10, nd - 2);
    lemma_perm_mono_n(10, 10, nd - 2);
    lemma_perm_mono_r(10, nd - 2, 10);
    assert(perm_spec(10, 10) == 3628800) by {
        assert(perm_spec(10, 0) == 1);
        assert(perm_spec(10, 1) == perm_spec(10, 0) * 10);
        assert(perm_spec(10, 2) == perm_spec(10, 1) * 9);
        assert(perm_spec(10, 3) == perm_spec(10, 2) * 8);
        assert(perm_spec(10, 4) == perm_spec(10, 3) * 7);
        assert(perm_spec(10, 5) == perm_spec(10, 4) * 6);
        assert(perm_spec(10, 6) == perm_spec(10, 5) * 5);
        assert(perm_spec(10, 7) == perm_spec(10, 6) * 4);
        assert(perm_spec(10, 8) == perm_spec(10, 7) * 3);
        assert(perm_spec(10, 9) == perm_spec(10, 8) * 2);
        assert(perm_spec(10, 10) == perm_spec(10, 9) * 1);
    }
    let p10 = perm_spec(10, nd - 2);
    assert(1 <= p10 <= 3628800);
    if nf >= 2 {
        lemma_perm_16_2(nf);
    }
    if ns >= 2 {
        lemma_perm_16_2(ns);
    }
    assert(perm_spec(ns, 0) == 1 && perm_spec(nf, 0) == 1);
    assert(perm_spec(ns, 1) == perm_spec(ns, 0) * ns);
    assert(perm_spec(nf, 1) == perm_spec(nf, 0) * nf);
    let inv = arrangement_invariant(arr, f_free, f_one, f_both);
    assert(0 <= inv <= 1000 * 3628800) by (nonlinear_arith)
        requires
            inv == (if f_free && nf >= 2 {
                perm_spec(nf, 2) * p10
            } else {
                0int
            }) + (if f_one && ns >= 1 && nf >= 1 {
                2 * perm_spec(ns, 1) * perm_spec(nf, 1) * p10
            } else {
                0int
            }) + (if f_both && ns >= 2 {
                perm_spec(ns, 2) * p10
            } else {
                0int
            }),
            1 <= p10 <= 3628800,
            0 <= ns <= 16,
            -16 <= nf <= 16,
            perm_spec(ns, 1) == ns,
            perm_spec(nf, 1) == nf,
            nf >= 2 ==> 1 <= perm_spec(nf, 2) <= 240,
            ns >= 2 ==> 1 <= perm_spec(ns, 2) <= 240,
    ;
    let total = arrangement_total(arr, f_free, f_one, f_both);
    assert(0 <= total <= 1000 * 3628800 * 16) by (nonlinear_arith)
        requires
            total == inv * orbit_count(arr) * (if on_line_spec(arr) {
                2int
            } else {
                1int
            }),
            0 <= inv <= 1000 * 3628800,
            0 <= orbit_count(arr) <= 8,
    ;
}

/// Sums, for each bit count, the contributions of the given arrangements.
/// Slot `n` of the result totals the arrangements with `n` occupied cells.
pub fn count_positions_from_arrangements(
    arr_slice: &Vec<u16>,
    include_free: bool,
    include_one_surrounded: bool,
    include_both_surrounded: bool,
) -> (r: Vec<u64>)
    requires
        forall|j: int| 0 <= j < arr_slice@.len() ==> 2 <= popcount(#[trigger] arr_slice@[j]) <= 12,
        arr_slice@.len() <= 65536,
    ensures
        r@.len() == 13,
        forall|n: int|
            0 <= n < 13 ==> r@[n] == totals_of(
                arr_slice@,
                n,
                include_free,
                include_one_surrounded,
                include_both_surrounded,
            ),
{
    let mut totals: Vec<u64> = Vec::new();
    let mut k: usize = 0;
    while k < 13
        invariant
            k <= 13,
            totals@.len() == k,
            forall|n: int| 0 <= n < k ==> totals@[n] == 0,
        decreases 13 - k,
    {
        totals.push(0);
        k += 1;
    }
    proof {
        assert forall|n: int| 0 <= n < 13 implies totals@[n] == totals_of(
            arr_slice@.take(0),
            n,
            include_free,
            include_one_surrounded,
            include_both_surrounded,
        ) by {
            assert(arr_slice@.take(0) =~= Seq::<u16>::empty());
        }
    }
    let mut j: usize = 0;
    while j < arr_slice.len()
        invariant
            j <= arr_slice@.len(),
            arr_slice@.len() <= 65536,
            forall|jj: int|
                0 <= jj < arr_slice@.len() ==> 2 <= popcount(#[trigger] arr_slice@[jj]) <= 12,
            totals@.len() == 13,
            forall|n: int|
                0 <= n < 13 ==> totals@[n] == totals_of(
                    arr_slice@.take(j as int),
                    n,
                    include_free,
                    include_one_surrounded,
                    include_both_surrounded,
                ),
            forall|n: int| 0 <= n < 13 ==> totals@[n] <= (j as int) * 0xf000000000,
        decreases arr_slice@.len() - j,
    {
        let arr: u16 = *arr_slice.get(j).unwrap();
        let nd: usize = count_bits(arr);
        let sur: u16 = extract_surrounded(arr);
        let ns: usize = count_bits(sur);
        proof {
            lemma_popcount_subset(sur, arr);
        }
        let nf: usize = nd - ns;
        let p10: u64 = perm(10, (nd - 2) as u64);
        proof {
            lemma_perm_10_bound(nd as int);
        }
        let mut invariant_count: u64 = 0;
        if include_free && nf >= 2 {
            let pf: u64 = perm(nf as u64, 2);
            proof {
                lemma_perm_16_2(nf as int);
                assert(0 <= pf * p10 <= 240 * 3628800) by (nonlinear_arith)
                    requires
                        0 <= pf <= 240,
                        0 <= p10 <= 3628800,
                ;
            }
            invariant_count += pf * p10;
        }
        if include_one_surrounded && ns >= 1 && nf >= 1 {
            let ps: u64 = perm(ns as u64, 1);
            let pf: u64 = perm(nf as u64, 1);
            proof {
                assert(perm_spec(ns as int, 0) == 1 && perm_spec(nf as int, 0) == 1);
                assert(perm_spec(ns as int, 1) == perm_spec(ns as int, 0) * ns);
                assert(perm_spec(nf as int, 1) == perm_spec(nf as int, 0) * nf);
                assert(0 <= 2 * ps && 2 * ps <= 32 && 0 <= 2 * ps * pf && 2 * ps * pf <= 512
                    && 0 <= 2 * ps * pf * p10 <= 2 * 16 * 16 * 3628800) by (nonlinear_arith)
                    requires
                        0 <= ps <= 16,
                        0 <= pf <= 16,
                        0 <= p10 <= 3628800,
                ;
            }
            let term: u64 = 2 * ps * pf * p10;
            invariant_count += term;
        }
        if include_both_surrounded && ns >= 2 {
            let ps: u64 = perm(ns as u64, 2);
            proof {
                lemma_perm_16_2(ns as int);
                assert(0 <= ps * p10 <= 240 * 3628800) by (nonlinear_arith)
                    requires
                        0 <= ps <= 240,
                        0 <= p10 <= 3628800,
                ;
            }
            invariant_count += ps * p10;
        }
        assert(invariant_count <= 3599769600);
        let cnt: usize = count_equivalents(arr);
        proof {
            lemma_popcount_pos_nonzero(arr);
        }
        let line: bool = is_on_line(arr);
        proof {
            assert(0 <= invariant_count * (cnt as u64) && invariant_count * (cnt as u64)
                <= 28798156800 && invariant_count * (cnt as u64) * 2 <= 57596313600)
                by (nonlinear_arith)
                requires
                    0 <= invariant_count <= 3599769600,
                    0 <= cnt <= 8,
            ;
        }
        let add: u64 = if line {
            invariant_count * (cnt as u64) * 2
        } else {
            invariant_count * (cnt as u64)
        };
        proof {
            lemma_total_bound(arr, include_free, include_one_surrounded, include_both_surrounded);
            assert(invariant_count == arrangement_invariant(
                arr,
                include_free,
                include_one_surrounded,
                include_both_surrounded,
            ));
            assert(add == arrangement_total(
                arr,
                include_free,
                include_one_surrounded,
                include_both_surrounded,
            ));
        }
        let ghost old_totals = totals@;
        let idx: usize = nd;
        let cur: u64 = *totals.get(idx).unwrap();
        totals[idx] = cur + add;
        proof {
            assert(totals@ == old_totals.update(idx as int, (cur + add) as u64));
            assert(arr_slice@.take(j + 1) =~= arr_slice@.take(j as int).push(arr));
            assert forall|n: int| 0 <= n < 13 implies totals@[n] == totals_of(
                arr_slice@.take(j + 1),
                n,
                include_free,
                include_one_surrounded,
                include_both_surrounded,
            ) by {
                let pre = arr_slice@.take(j as int);
                let post = arr_slice@.take(j + 1);
                assert(post.drop_last() =~= pre);
                assert(post.last() == arr);
                if n == nd {
                    assert(totals@[n] == cur + add);
                } else {
                    assert(totals@[n] == old_totals[n]);
                }
            }
        }
        j += 1;
    }
    proof {
        assert(arr_slice@.take(arr_slice@.len() as int) =~= arr_slice@);
    }
    totals
}

/// The per-10 falling factorial for an arrangement's remaining pieces stays
/// below 10 factorial.
proof fn lemma_perm_10_bound(nd: int)
    requires
        2 <= nd <= 12,
    ensures
        1 <= perm_spec(10, nd - 2) <= 3628800,
{
    lemma_perm_mono_r(10, nd - 2, 10);
    assert(perm_spec(10, 10) == 3628800) by {
        assert(perm_spec(10, 1) == perm_spec(10, 0) * 10);
        assert(perm_spec(10, 2) == perm_spec(10, 1) * 9);
        assert(perm_spec(10, 3) == perm_spec(10, 2) * 8);
        assert(perm_spec(10, 4) == perm_spec(10, 3) * 7);
        assert(perm_spec(10, 5) == perm_spec(10, 4) * 6);
        assert(perm_spec(10, 6) == perm_spec(10, 5) * 5);
        assert(perm_spec(10, 7) == perm_spec(10, 6) * 4);
        assert(perm_spec(10, 8) == perm_spec(10, 7) * 3);
        assert(perm_spec(10, 9) == perm_spec(10, 8) * 2);
        assert(perm_spec(10, 10) == perm_spec(10, 9) * 1);
    }
}

/// Counts, for each bit count from 2 to 12, the distinct positions over the
/// whole arrangement catalog, split by the chosen key-piece cases; slot `n`
/// of the result holds the count for `n` pieces.  The grand totals are
/// divided by the 8 grid symmetries.
pub fn count_positions(
    include_free: bool,
    include_one_surrounded: bool,
    include_both_surrounded: bool,
) -> (r: Vec<u64>)
    ensures
        r@.len() == 13,
        forall|n: int|
            0 <= n < 13 ==> r@[n] == totals_of(
                catalog_seq(),
                n,
                include_free,
                include_one_surrounded,
                include_both_surrounded,
            ) / 8,
{
    let cat = gather_canonical_arrangements();
    proof {
        assert forall|jj: int| 0 <= jj < cat@.len() implies 2 <= popcount(#[trigger] cat@[jj])
            <= 12 by {
            assert(cat@.contains(cat@[jj]));
        }
    }
    let totals = count_positions_from_arrangements(
        &cat,
        include_free,
        include_one_surrounded,
        include_both_surrounded,
    );
    let mut r: Vec<u64> = Vec::new();
    let mut n: usize = 0;
    while n < 13
        invariant
            n <= 13,
            r@.len() == n,
            totals@.len() == 13,
            forall|m: int| 0 <= m < n ==> r@[m] == totals@[m] / 8,
        decreases 13 - n,
    {
        let t: u64 = *totals.get(n).unwrap();
        r.push(t / 8);
        n += 1;
    }
    r
}

/// A falling factorial of two items out of at most 16 is at most 240.
proof fn lemma_perm_16_2(n: int)
    requires
        2 <= n <= 16,
    ensures
        1 <= perm_spec(n, 2) <= 240,
{
    lemma_perm_mono_n(n, 16, 2);
    assert(perm_spec(16, 2) == 240) by {
        assert(perm_spec(16, 1) == perm_spec(16, 0) * 16);
        assert(perm_spec(16, 2) == perm_spec(16, 1) * 15);
    }
}

/// Any mask holds at most 16 cells.
proof fn lemma_popcount_bound(m: u16)
    ensures
        0 <= popcount(m) <= 16,
{
    lemma_popcount_upto_bound(m, 16);
}

proof fn lemma_popcount_upto_bound(m: u16, n: int)
    requires
        0 <= n <= 16,
    ensures
        0 <= crate::bitgrid::popcount_upto(m, n) <= n,
    decreases n,
{
    if n > 0 {
        lemma_popcount_upto_bound(m, n - 1);
    }
}

} // verus!
