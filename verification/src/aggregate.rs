//! Sweeping the arrangement catalog and merging per-share results.
//!
//! The catalog is split into disjoint shares by catalog index modulo the
//! worker count; each share is processed independently and the per-bit-count
//! results are merged at the end, by set union for the checkmate search and
//! by sum for the one-ply-win tallies.  Both merges are order-independent,
//! so the final results do not depend on the number of shares.

use vstd::prelude::*;
use crate::bitgrid::{
    count_bits, extract_surrounded, lemma_one_bit_nonzero, occ, one_bit, popcount,
    surrounded_mask,
};
use crate::catalog::{catalog_ok, catalog_seq, gather_canonical_arrangements};
use crate::oracle::{board_set_contents, bs_absorb, bs_len, bs_new};
use crate::prune::{
    bit_index, may_be_checkmate, may_be_checkmate_spec, may_be_win1, may_be_win1_spec, shift_by,
    space_dh, space_dv, lemma_translated_one_bit, make_space_if_possible,
};
use crate::search::{checkmate_keys, gather_checkmates, gather_win1, win1_keys};
use tokyodoves::collections::BoardSet;

verus! {

/// The checkmate keys one arrangement contributes: its key piece ranges
/// over the non-surrounded cells; the pattern is normalized away from the
/// walls around that piece, filtered, and searched.
pub open spec fn arr_checkmate_keys(arr: u16) -> Set<u64> {
    let free = arr & !surrounded_mask(arr);
    Set::new(
        |key: u64|
            exists|j: u16|
                j < 16 && #[trigger] occ(free, j) && {
                    let all0 = arr | (1u16 << j);
                    let dv = space_dv(1u16 << j, all0);
                    let dh = space_dh(1u16 << j, all0);
                    let b2 = shift_by(1u16 << j, dv, dh);
                    let a2 = shift_by(all0, dv, dh);
                    &&& may_be_checkmate_spec(bit_index(b2), a2 & !b2)
                    &&& checkmate_keys(b2, a2 & !b2).contains(key)
                },
    )
}

/// The one-ply-win keys one arrangement contributes: the opposing key piece
/// ranges over the non-surrounded cells and the liberty filter decides
/// whether the search runs.
pub open spec fn arr_win1_keys(arr: u16) -> Set<u64> {
    let free = arr & !surrounded_mask(arr);
    Set::new(
        |key: u64|
            exists|j: u16|
                j < 16 && #[trigger] occ(free, j) && may_be_win1_spec(1u16 << j, arr)
                    && win1_keys(1u16 << j, arr).contains(key),
    )
}

/// The checkmate keys an arrangement contributes under bit count `n`.
pub open spec fn arr_checkmate_contrib(arr: u16, n: int) -> Set<u64> {
    if popcount(arr) == n {
        arr_checkmate_keys(arr)
    } else {
        Set::empty()
    }
}

/// The union of the checkmate keys of the arrangements of `s` with `n`
/// occupied cells.
pub open spec fn slice_checkmate_keys(s: Seq<u16>, n: int) -> Set<u64>
    decreases s.len(),
{
    if s.len() == 0 {
        Set::empty()
    } else {
        slice_checkmate_keys(s.drop_last(), n).union(arr_checkmate_contrib(s.last(), n))
    }
}

/// The one-ply-win tally an arrangement contributes under bit count `n`.
pub open spec fn arr_win1_contrib(arr: u16, n: int) -> int {
    if popcount(arr) == n {
        arr_win1_keys(arr).len() as int
    } else {
        0
    }
}

/// The summed one-ply-win tallies of the arrangements of `s` with `n`
/// occupied cells.
pub open spec fn slice_win1_totals(s: Seq<u16>, n: int) -> int
    decreases s.len(),
{
    if s.len() == 0 {
        0
    } else {
        slice_win1_totals(s.drop_last(), n) + arr_win1_contrib(s.last(), n)
    }
}

/// The share of `s` a worker `th` out of `k` receives: the elements whose
/// index is `th` modulo `k`, in order.
pub open spec fn part_seq(s: Seq<u16>, k: int, th: int) -> Seq<u16>
    decreases s.len(),
{
    if s.len() == 0 {
        Seq::empty()
    } else {
        part_seq(s.drop_last(), k, th) + (if (s.len() - 1) % k == th {
            seq![s.last()]
        } else {
            Seq::empty()
        })
    }
}

/// The merged checkmate keys of the first `t` shares.
pub open spec fn parts_checkmate_union(s: Seq<u16>, k: int, t: int, n: int) -> Set<u64>
    decreases t,
{
    if t <= 0 {
        Set::empty()
    } else {
        parts_checkmate_union(s, k, t - 1, n).union(
            slice_checkmate_keys(part_seq(s, k, t - 1), n),
        )
    }
}

/// The merged one-ply-win tallies of the first `t` shares.
pub open spec fn parts_win1_sum(s: Seq<u16>, k: int, t: int, n: int) -> int
    decreases t,
{
    if t <= 0 {
        0
    } else {
        parts_win1_sum(s, k, t - 1, n) + slice_win1_totals(part_seq(s, k, t - 1), n)
    }
}

/// Appending one element to a slice adds exactly its contribution.
proof fn lemma_slice_checkmate_push(s: Seq<u16>, x: u16, n: int)
    ensures
        slice_checkmate_keys(s + seq![x], n) == slice_checkmate_keys(s, n).union(
            arr_checkmate_contrib(x, n),
        ),
{
    assert((s + seq![x]).drop_last() =~= s);
    assert((s + seq![x]).last() == x);
    assert(slice_checkmate_keys(s + seq![x], n) =~= slice_checkmate_keys(s, n).union(
        arr_checkmate_contrib(x, n),
    ));
}

/// Appending one element to a slice adds exactly its tally.
proof fn lemma_slice_win1_push(s: Seq<u16>, x: u16, n: int)
    ensures
        slice_win1_totals(s + seq![x], n) == slice_win1_totals(s, n) + arr_win1_contrib(x, n),
{
    assert((s + seq![x]).drop_last() =~= s);
    assert((s + seq![x]).last() == x);
}

/// Appending one element to the sequence extends exactly one share; the
/// merged keys of the first `t` shares grow by that element's contribution
/// exactly when its share lies among them.
proof fn lemma_parts_checkmate_step(s: Seq<u16>, k: int, t: int, n: int)
    requires
        k >= 1,
        0 <= t <= k,
        s.len() >= 1,
    ensures
        parts_checkmate_union(s, k, t, n) == if (s.len() - 1) % k < t {
            parts_checkmate_union(s.drop_last(), k, t, n).union(
                arr_checkmate_contrib(s.last(), n),
            )
        } else {
            parts_checkmate_union(s.drop_last(), k, t, n)
        },
    decreases t,
{
    let s0 = s.drop_last();
    let x = s.last();
    let th0 = (s.len() - 1) % k;
    if t > 0 {
        lemma_parts_checkmate_step(s, k, t - 1, n);
        if th0 == t - 1 {
            assert(part_seq(s, k, t - 1) =~= part_seq(s0, k, t - 1) + seq![x]);
            lemma_slice_checkmate_push(part_seq(s0, k, t - 1), x, n);
            assert(parts_checkmate_union(s, k, t, n) =~= parts_checkmate_union(
                s0,
                k,
                t,
                n,
            ).union(arr_checkmate_contrib(x, n)));
        } else {
            assert(part_seq(s, k, t - 1) =~= part_seq(s0, k, t - 1));
            if th0 < t - 1 {
                assert(parts_checkmate_union(s, k, t, n) =~= parts_checkmate_union(
                    s0,
                    k,
                    t,
                    n,
                ).union(arr_checkmate_contrib(x, n)));
            } else {
                assert(parts_checkmate_union(s, k, t, n) =~= parts_checkmate_union(s0, k, t, n));
            }
        }
    }
}

/// The tally counterpart of `lemma_parts_checkmate_step`.
proof fn lemma_parts_win1_step(s: Seq<u16>, k: int, t: int, n: int)
    requires
        k >= 1,
        0 <= t <= k,
        s.len() >= 1,
    ensures
        parts_win1_sum(s, k, t, n) == if (s.len() - 1) % k < t {
            parts_win1_sum(s.drop_last(), k, t, n) + arr_win1_contrib(s.last(), n)
        } else {
            parts_win1_sum(s.drop_last(), k, t, n)
        },
    decreases t,
{
    let s0 = s.drop_last();
    let x = s.last();
    let th0 = (s.len() - 1) % k;
    if t > 0 {
        lemma_parts_win1_step(s, k, t - 1, n);
        if th0 == t - 1 {
            assert(part_seq(s, k, t - 1) =~= part_seq(s0, k, t - 1) + seq![x]);
            lemma_slice_win1_push(part_seq(s0, k, t - 1), x, n);
        } else {
            assert(part_seq(s, k, t - 1) =~= part_seq(s0, k, t - 1));
        }
    }
}

/// Splitting the catalog into `k` shares by index and merging the per-share
/// checkmate keys by union yields the keys of the whole catalog, whatever
/// `k` is.
pub proof fn lemma_checkmate_partition(s: Seq<u16>, k: int, n: int)
    requires
        k >= 1,
    ensures
        parts_checkmate_union(s, k, k, n) == slice_checkmate_keys(s, n),
    decreases s.len(),
{
    if s.len() == 0 {
        lemma_parts_checkmate_empty(s, k, k, n);
    } else {
        let s0 = s.drop_last();
        lemma_checkmate_partition(s0, k, n);
        lemma_parts_checkmate_step(s, k, k, n);
        assert(0 <= (s.len() - 1) % k < k);
    }
}

proof fn lemma_parts_checkmate_empty(s: Seq<u16>, k: int, t: int, n: int)
    requires
        s.len() == 0,
    ensures
        parts_checkmate_union(s, k, t, n) == Set::<u64>::empty(),
    decreases t,
{
    if t > 0 {
        lemma_parts_checkmate_empty(s, k, t - 1, n);
        assert(part_seq(s, k, t - 1) =~= Seq::<u16>::empty());
        assert(parts_checkmate_union(s, k, t, n) =~= Set::<u64>::empty());
    }
}

/// The tally counterpart of `lemma_checkmate_partition`.
pub proof fn lemma_win1_partition(s: Seq<u16>, k: int, n: int)
    requires
        k >= 1,
    ensures
        parts_win1_sum(s, k, k, n) == slice_win1_totals(s, n),
    decreases s.len(),
{
    if s.len() == 0 {
        lemma_parts_win1_empty(s, k, k, n);
    } else {
        let s0 = s.drop_last();
        lemma_win1_partition(s0, k, n);
        lemma_parts_win1_step(s, k, k, n);
        assert(0 <= (s.len() - 1) % k < k);
    }
}

proof fn lemma_parts_win1_empty(s: Seq<u16>, k: int, t: int, n: int)
    requires
        s.len() == 0,
    ensures
        parts_win1_sum(s, k, t, n) == 0,
    decreases t,
{
    if t > 0 {
        lemma_parts_win1_empty(s, k, t - 1, n);
        assert(part_seq(s, k, t - 1) =~= Seq::<u16>::empty());
    }
}

/// The elements of a share are elements of the whole sequence.
proof fn lemma_part_elems(s: Seq<u16>, k: int, th: int)
    ensures
        forall|x: int|
            0 <= x < part_seq(s, k, th).len() ==> s.contains(#[trigger] part_seq(s, k, th)[x]),
    decreases s.len(),
{
    if s.len() > 0 {
        let s0 = s.drop_last();
        lemma_part_elems(s0, k, th);
        let p0 = part_seq(s0, k, th);
        let p = part_seq(s, k, th);
        assert forall|x: int| 0 <= x < p.len() implies s.contains(#[trigger] p[x]) by {
            if x < p0.len() {
                assert(p[x] == p0[x]);
                assert(s0.contains(p0[x]));
                let y = choose|y: int| 0 <= y < s0.len() && s0[y] == p0[x];
                assert(s[y] == p0[x]);
            } else {
                assert(p[x] == s.last());
                assert(s[s.len() - 1] == s.last());
            }
        }
    }
}

/// The summed lengths of the first `t` shares.
pub open spec fn parts_len_sum(s: Seq<u16>, k: int, t: int) -> int
    decreases t,
{
    if t <= 0 {
        0
    } else {
        parts_len_sum(s, k, t - 1) + part_seq(s, k, t - 1).len()
    }
}

/// Every element lands in exactly one share, so the share lengths sum to
/// the whole length.
proof fn lemma_parts_len_total(s: Seq<u16>, k: int)
    requires
        k >= 1,
    ensures
        parts_len_sum(s, k, k) == s.len(),
    decreases s.len(),
{
    if s.len() == 0 {
        lemma_parts_len_empty(s, k, k);
    } else {
        lemma_parts_len_total(s.drop_last(), k);
        lemma_parts_len_step(s, k, k);
        assert(0 <= (s.len() - 1) % k < k);
    }
}

proof fn lemma_parts_len_empty(s: Seq<u16>, k: int, t: int)
    requires
        s.len() == 0,
    ensures
        parts_len_sum(s, k, t) == 0,
    decreases t,
{
    if t > 0 {
        lemma_parts_len_empty(s, k, t - 1);
        assert(part_seq(s, k, t - 1) =~= Seq::<u16>::empty());
    }
}

proof fn lemma_parts_len_step(s: Seq<u16>, k: int, t: int)
    requires
        k >= 1,
        0 <= t <= k,
        s.len() >= 1,
    ensures
        parts_len_sum(s, k, t) == if (s.len() - 1) % k < t {
            parts_len_sum(s.drop_last(), k, t) + 1
        } else {
            parts_len_sum(s.drop_last(), k, t)
        },
    decreases t,
{
    let s0 = s.drop_last();
    let th0 = (s.len() - 1) % k;
    if t > 0 {
        lemma_parts_len_step(s, k, t - 1);
        if th0 == t - 1 {
            assert(part_seq(s, k, t - 1) =~= part_seq(s0, k, t - 1) + seq![s.last()]);
        } else {
            assert(part_seq(s, k, t - 1) =~= part_seq(s0, k, t - 1));
        }
    }
}

/// The partial share-length sums never exceed the total.
proof fn lemma_parts_len_mono(s: Seq<u16>, k: int, t: int)
    requires
        k >= 1,
        0 <= t <= k,
    ensures
        0 <= parts_len_sum(s, k, t) <= parts_len_sum(s, k, k),
    decreases k - t,
{
    if t < k {
        lemma_parts_len_mono(s, k, t + 1);
    }
    lemma_parts_len_nonneg(s, k, t);
}

proof fn lemma_parts_len_nonneg(s: Seq<u16>, k: int, t: int)
    ensures
        parts_len_sum(s, k, t) >= 0,
    decreases t,
{
    if t > 0 {
        lemma_parts_len_nonneg(s, k, t - 1);
    }
}

/// The merged checkmate keys do not depend on the number of shares: any two
/// worker counts give the same final per-bit-count sets.
pub proof fn lemma_checkmate_merge_determinism(s: Seq<u16>, k1: int, k2: int, n: int)
    requires
        k1 >= 1,
        k2 >= 1,
    ensures
        parts_checkmate_union(s, k1, k1, n) == parts_checkmate_union(s, k2, k2, n),
{
    lemma_checkmate_partition(s, k1, n);
    lemma_checkmate_partition(s, k2, n);
}

/// The merged one-ply-win tallies do not depend on the number of shares:
/// any two worker counts give the same final per-bit-count totals.
pub proof fn lemma_win1_merge_determinism(s: Seq<u16>, k1: int, k2: int, n: int)
    requires
        k1 >= 1,
        k2 >= 1,
    ensures
        parts_win1_sum(s, k1, k1, n) == parts_win1_sum(s, k2, k2, n),
{
    lemma_win1_partition(s, k1, n);
    lemma_win1_partition(s, k2, n);
}

/// Runs the checkmate search over one arrangement: normalizes and filters
/// every non-surrounded key-piece cell, and unions the searched keys.
fn arr_checkmate_pool(arr: u16) -> (r: BoardSet)
    ensures
        board_set_contents(r) == arr_checkmate_keys(arr),
{
    let mut pool = bs_new();
    let sur: u16 = extract_surrounded(arr);
    let free: u16 = arr & !sur;
    let mut j: u16 = 0;
    while j < 16
        invariant
            j <= 16,
            free == arr & !surrounded_mask(arr),
            board_set_contents(pool) == Set::new(
                |key: u64|
                    exists|jj: u16|
                        jj < j && #[trigger] occ(free, jj) && {
                            let all0 = arr | (1u16 << jj);
                            let dv = space_dv(1u16 << jj, all0);
                            let dh = space_dh(1u16 << jj, all0);
                            let b2 = shift_by(1u16 << jj, dv, dh);
                            let a2 = shift_by(all0, dv, dh);
                            &&& may_be_checkmate_spec(bit_index(b2), a2 & !b2)
                            &&& checkmate_keys(b2, a2 & !b2).contains(key)
                        },
            ),
        decreases 16 - j,
    {
        let ghost before = board_set_contents(pool);
        let ghost inv_at = |jm: u16, key: u64|
            exists|jj: u16|
                jj < jm && #[trigger] occ(free, jj) && {
                    let all0 = arr | (1u16 << jj);
                    let dv = space_dv(1u16 << jj, all0);
                    let dh = space_dh(1u16 << jj, all0);
                    let b2 = shift_by(1u16 << jj, dv, dh);
                    let a2 = shift_by(all0, dv, dh);
                    &&& may_be_checkmate_spec(bit_index(b2), a2 & !b2)
                    &&& checkmate_keys(b2, a2 & !b2).contains(key)
                };
        if (free >> j) & 1 == 1 {
            assert(occ(free, j));
            let boss: u16 = 1u16 << j;
            let r2 = make_space_if_possible(boss, arr);
            let b2: u16 = r2.0;
            let a2: u16 = r2.1;
            let ghost all0 = arr | boss;
            let ghost dv = space_dv(boss, all0);
            let ghost dh = space_dh(boss, all0);
            proof {
                assert(one_bit(boss));
                lemma_translated_one_bit(boss, b2, dv, dh);
                lemma_one_bit_nonzero(b2);
            }
            if may_be_checkmate(b2, a2) {
                let sub = gather_checkmates(b2, a2 & !b2);
                proof {
                    assert((a2 & !b2) & !b2 == a2 & !b2) by (bit_vector);
                }
                bs_absorb(&mut pool, sub);
                proof {
                    let added = checkmate_keys(b2, a2 & !b2);
                    assert(board_set_contents(pool) =~= Set::new(|key: u64| inv_at((j + 1) as u16, key)))
                        by {
                        assert forall|key: u64| board_set_contents(pool).contains(key) implies
                            inv_at((j + 1) as u16, key) by {
                            if before.contains(key) {
                                let jj = choose|jj: u16| jj < j && #[trigger] occ(free, jj) && {
                                    let all0 = arr | (1u16 << jj);
                                    let dv = space_dv(1u16 << jj, all0);
                                    let dh = space_dh(1u16 << jj, all0);
                                    let b2 = shift_by(1u16 << jj, dv, dh);
                                    let a2 = shift_by(all0, dv, dh);
                                    &&& may_be_checkmate_spec(bit_index(b2), a2 & !b2)
                                    &&& checkmate_keys(b2, a2 & !b2).contains(key)
                                };
                                assert(jj < j + 1 && occ(free, jj));
                            } else {
                                assert(added.contains(key));
                                assert(occ(free, j));
                            }
                        }
                        assert forall|key: u64| inv_at((j + 1) as u16, key) implies board_set_contents(
                            pool,
                        ).contains(key) by {
                            let jj = choose|jj: u16| jj < j + 1 && #[trigger] occ(free, jj) && {
                                let all0 = arr | (1u16 << jj);
                                let dv = space_dv(1u16 << jj, all0);
                                let dh = space_dh(1u16 << jj, all0);
                                let b2 = shift_by(1u16 << jj, dv, dh);
                                let a2 = shift_by(all0, dv, dh);
                                &&& may_be_checkmate_spec(bit_index(b2), a2 & !b2)
                                &&& checkmate_keys(b2, a2 & !b2).contains(key)
                            };
                            if jj < j {
                                assert(before.contains(key));
                            } else {
                                assert(jj == j);
                                assert(added.contains(key));
                            }
                        }
                    }
                }
            } else {
                proof {
                    assert(board_set_contents(pool) =~= Set::new(|key: u64| inv_at((j + 1) as u16, key)))
                        by {
                        assert forall|key: u64| inv_at((j + 1) as u16, key) implies before.contains(
                            key,
                        ) by {
                            let jj = choose|jj: u16| jj < j + 1 && #[trigger] occ(free, jj) && {
                                let all0 = arr | (1u16 << jj);
                                let dv = space_dv(1u16 << jj, all0);
                                let dh = space_dh(1u16 << jj, all0);
                                let b2 = shift_by(1u16 << jj, dv, dh);
                                let a2 = shift_by(all0, dv, dh);
                                &&& may_be_checkmate_spec(bit_index(b2), a2 & !b2)
                                &&& checkmate_keys(b2, a2 & !b2).contains(key)
                            };
                            assert(jj != j);
                        }
                    }
                }
            }
        } else {
            proof {
                assert(!occ(free, j));
                assert(board_set_contents(pool) =~= Set::new(|key: u64| inv_at((j + 1) as u16, key))) by {
                    assert forall|key: u64| inv_at((j + 1) as u16, key) implies before.contains(key) by {
                        let jj = choose|jj: u16| jj < j + 1 && #[trigger] occ(free, jj) && {
                            let all0 = arr | (1u16 << jj);
                            let dv = space_dv(1u16 << jj, all0);
                            let dh = space_dh(1u16 << jj, all0);
                            let b2 = shift_by(1u16 << jj, dv, dh);
                            let a2 = shift_by(all0, dv, dh);
                            &&& may_be_checkmate_spec(bit_index(b2), a2 & !b2)
                            &&& checkmate_keys(b2, a2 & !b2).contains(key)
                        };
                        assert(jj != j);
                    }
                }
            }
        }
        j += 1;
    }
    proof {
        assert(board_set_contents(pool) =~= arr_checkmate_keys(arr));
    }
    pool
}

/// Runs the one-ply-win search over one arrangement: filters every
/// non-surrounded opposing-key-piece cell and unions the searched keys.
fn arr_win1_pool(arr: u16) -> (r: BoardSet)
    ensures
        board_set_contents(r) == arr_win1_keys(arr),
{
    let mut pool = bs_new();
    let sur: u16 = extract_surrounded(arr);
    let free: u16 = arr & !sur;
    let mut j: u16 = 0;
    while j < 16
        invariant
            j <= 16,
            free == arr & !surrounded_mask(arr),
            board_set_contents(pool) == Set::new(
                |key: u64|
                    exists|jj: u16|
                        jj < j && #[trigger] occ(free, jj) && may_be_win1_spec(1u16 << jj, arr)
                            && win1_keys(1u16 << jj, arr).contains(key),
            ),
        decreases 16 - j,
    {
        let ghost before = board_set_contents(pool);
        if (free >> j) & 1 == 1 {
            assert(occ(free, j));
            let ob: u16 = 1u16 << j;
            if may_be_win1(ob, arr) {
                proof {
                    assert(one_bit(ob));
                }
                let sub = gather_win1(ob, arr);
                bs_absorb(&mut pool, sub);
                proof {
                    let added = win1_keys(ob, arr);
                    assert(board_set_contents(pool) =~= Set::new(
                        |key: u64|
                            exists|jj: u16|
                                jj < j + 1 && #[trigger] occ(free, jj) && may_be_win1_spec(
                                    1u16 << jj,
                                    arr,
                                ) && win1_keys(1u16 << jj, arr).contains(key),
                    )) by {
                        assert forall|key: u64| board_set_contents(pool).contains(key) implies
                            exists|jj: u16|
                                jj < j + 1 && #[trigger] occ(free, jj) && may_be_win1_spec(
                                    1u16 << jj,
                                    arr,
                                ) && win1_keys(1u16 << jj, arr).contains(key) by {
                            if before.contains(key) {
                                let jj = choose|jj: u16|
                                    jj < j && #[trigger] occ(free, jj) && may_be_win1_spec(
                                        1u16 << jj,
                                        arr,
                                    ) && win1_keys(1u16 << jj, arr).contains(key);
                                assert(jj < j + 1 && occ(free, jj));
                            } else {
                                assert(added.contains(key));
                                assert(occ(free, j));
                            }
                        }
                        assert forall|key: u64|
                            (exists|jj: u16|
                                jj < j + 1 && #[trigger] occ(free, jj) && may_be_win1_spec(
                                    1u16 << jj,
                                    arr,
                                ) && win1_keys(1u16 << jj, arr).contains(
                                key,
                            )) implies board_set_contents(pool).contains(key) by {
                            let jj = choose|jj: u16|
                                jj < j + 1 && #[trigger] occ(free, jj) && may_be_win1_spec(
                                    1u16 << jj,
                                    arr,
                                ) && win1_keys(1u16 << jj, arr).contains(key);
                            if jj < j {
                                assert(before.contains(key));
                            } else {
                                assert(jj == j);
                                assert(added.contains(key));
                            }
                        }
                    }
                }
            } else {
                proof {
                    assert(board_set_contents(pool) =~= Set::new(
                        |key: u64|
                            exists|jj: u16|
                                jj < j + 1 && #[trigger] occ(free, jj) && may_be_win1_spec(
                                    1u16 << jj,
                                    arr,
                                ) && win1_keys(1u16 << jj, arr).contains(key),
                    )) by {
                        assert forall|key: u64|
                            (exists|jj: u16|
                                jj < j + 1 && #[trigger] occ(free, jj) && may_be_win1_spec(
                                    1u16 << jj,
                                    arr,
                                ) && win1_keys(1u16 << jj, arr).contains(key)) implies
                            before.contains(key) by {
                            let jj = choose|jj: u16|
                                jj < j + 1 && #[trigger] occ(free, jj) && may_be_win1_spec(
                                    1u16 << jj,
                                    arr,
                                ) && win1_keys(1u16 << jj, arr).contains(key);
                            assert(jj != j);
                        }
                    }
                }
            }
        } else {
            proof {
                assert(!occ(free, j));
                assert(board_set_contents(pool) =~= Set::new(
                    |key: u64|
                        exists|jj: u16|
                            jj < j + 1 && #[trigger] occ(free, jj) && may_be_win1_spec(
                                1u16 << jj,
                                arr,
                            ) && win1_keys(1u16 << jj, arr).contains(key),
                )) by {
                    assert forall|key: u64|
                        (exists|jj: u16|
                            jj < j + 1 && #[trigger] occ(free, jj) && may_be_win1_spec(
                                1u16 << jj,
                                arr,
                            ) && win1_keys(1u16 << jj, arr).contains(key)) implies before.contains(
                        key,
                    ) by {
                        let jj = choose|jj: u16|
                            jj < j + 1 && #[trigger] occ(free, jj) && may_be_win1_spec(
                                1u16 << jj,
                                arr,
                            ) && win1_keys(1u16 << jj, arr).contains(key);
                        assert(jj != j);
                    }
                }
            }
        }
        j += 1;
    }
    proof {
        assert(board_set_contents(pool) =~= arr_win1_keys(arr));
    }
    pool
}

/// Sweeps a share of the catalog, collecting for each bit count the keys of
/// every checkmate-matching position of its arrangements.
pub fn create_checkmates_map_from_arrangements(arr_slice: &Vec<u16>) -> (r: Vec<BoardSet>)
    requires
        forall|x: int| 0 <= x < arr_slice@.len() ==> 2 <= popcount(#[trigger] arr_slice@[x]) <= 12,
    ensures
        r@.len() == 13,
        forall|n: int|
            0 <= n < 13 ==> board_set_contents(#[trigger] r@[n]) == slice_checkmate_keys(
                arr_slice@,
                n,
            ),
{
    let mut sets: Vec<BoardSet> = Vec::new();
    let mut k: usize = 0;
    while k < 13
        invariant
            k <= 13,
            sets@.len() == k,
            forall|n: int|
                0 <= n < k ==> board_set_contents(#[trigger] sets@[n]) == Set::<u64>::empty(),
        decreases 13 - k,
    {
        sets.push(bs_new());
        k += 1;
    }
    proof {
        assert(arr_slice@.take(0) =~= Seq::<u16>::empty());
    }
    let mut i: usize = 0;
    while i < arr_slice.len()
        invariant
            i <= arr_slice@.len(),
            forall|x: int|
                0 <= x < arr_slice@.len() ==> 2 <= popcount(#[trigger] arr_slice@[x]) <= 12,
            sets@.len() == 13,
            forall|n: int|
                0 <= n < 13 ==> board_set_contents(#[trigger] sets@[n]) == slice_checkmate_keys(
                    arr_slice@.take(i as int),
                    n,
                ),
        decreases arr_slice@.len() - i,
    {
        let arr: u16 = *arr_slice.get(i).unwrap();
        let nd: usize = count_bits(arr);
        let pool = arr_checkmate_pool(arr);
        let ghost old_sets = sets@;
        bs_absorb(&mut sets[nd], pool);
        proof {
            assert(arr_slice@.take(i + 1) =~= arr_slice@.take(i as int) + seq![arr]);
            lemma_slice_checkmate_push_all(arr_slice@.take(i as int), arr);
            assert forall|n: int| 0 <= n < 13 implies board_set_contents(#[trigger] sets@[n])
                == slice_checkmate_keys(arr_slice@.take(i + 1), n) by {
                if n == nd {
                    assert(board_set_contents(sets@[n]) =~= slice_checkmate_keys(
                        arr_slice@.take(i + 1),
                        n,
                    ));
                } else {
                    assert(sets@[n] == old_sets[n]);
                    assert(arr_checkmate_contrib(arr, n) =~= Set::<u64>::empty());
                    assert(slice_checkmate_keys(arr_slice@.take(i + 1), n)
                        =~= slice_checkmate_keys(arr_slice@.take(i as int), n));
                }
            }
        }
        i += 1;
    }
    proof {
        assert(arr_slice@.take(arr_slice@.len() as int) =~= arr_slice@);
    }
    sets
}

/// `lemma_slice_checkmate_push` for every bit count at once.
proof fn lemma_slice_checkmate_push_all(s: Seq<u16>, x: u16)
    ensures
        forall|n: int|
            #![trigger slice_checkmate_keys(s + seq![x], n)]
            slice_checkmate_keys(s + seq![x], n) == slice_checkmate_keys(s, n).union(
                arr_checkmate_contrib(x, n),
            ),
{
    assert forall|n: int| #![trigger slice_checkmate_keys(s + seq![x], n)]
        slice_checkmate_keys(s + seq![x], n) == slice_checkmate_keys(s, n).union(
        arr_checkmate_contrib(x, n),
    ) by {
        lemma_slice_checkmate_push(s, x, n);
    }
}

/// Sweeps a share of the catalog, tallying for each bit count the distinct
/// one-ply-win keys of each arrangement; an arrangement's keys are counted
/// once, while equal keys of different arrangements add up.
pub fn count_win1_from_arrangements(arr_slice: &Vec<u16>) -> (r: Vec<u128>)
    ensures
        r@.len() == 13,
        forall|n: int|
            0 <= n < 13 ==> r@[n] == slice_win1_totals(arr_slice@, n),
        forall|n: int|
            0 <= n < 13 ==> r@[n] <= arr_slice@.len() * 0x10000000000000000,
{
    let mut totals: Vec<u128> = Vec::new();
    let mut k: usize = 0;
    while k < 13
        invariant
            k <= 13,
            totals@.len() == k,
            forall|n: int| 0 <= n < k ==> totals@[n] == 0,
        decreases 13 - k,
    {
        totals.push(0);
        k += 1;
    }
    proof {
        assert(arr_slice@.take(0) =~= Seq::<u16>::empty());
    }
    let mut i: usize = 0;
    while i < arr_slice.len()
        invariant
            i <= arr_slice@.len(),
            totals@.len() == 13,
            forall|n: int|
                0 <= n < 13 ==> totals@[n] == slice_win1_totals(arr_slice@.take(i as int), n),
            forall|n: int| 0 <= n < 13 ==> totals@[n] <= (i as int) * 0x10000000000000000,
        decreases arr_slice@.len() - i,
    {
        let arr: u16 = *arr_slice.get(i).unwrap();
        let nd: usize = count_bits(arr);
        let pool = arr_win1_pool(arr);
        let c: usize = bs_len(&pool);
        let ghost old_totals = totals@;
        if nd < 13 {
            let cur: u128 = *totals.get(nd).unwrap();
            totals[nd] = cur + (c as u128);
        }
        proof {
            assert(arr_slice@.take(i + 1) =~= arr_slice@.take(i as int) + seq![arr]);
            assert forall|n: int| 0 <= n < 13 implies totals@[n] == slice_win1_totals(
                arr_slice@.take(i + 1),
                n,
            ) && totals@[n] <= (i + 1) * 0x10000000000000000 by {
                lemma_slice_win1_push(arr_slice@.take(i as int), arr, n);
                if nd < 13 && n == nd {
                    assert(totals@[n] == old_totals[n] + c);
                    assert(arr_win1_contrib(arr, n) == c);
                } else {
                    if nd < 13 {
                        assert(totals@[n] == old_totals[n]);
                    }
                    assert(arr_win1_contrib(arr, n) == 0) by {
                        if popcount(arr) == n {
                            assert(nd == n && nd < 13);
                            assert(false);
                        }
                    }
                }
            }
        }
        i += 1;
    }
    proof {
        assert(arr_slice@.take(arr_slice@.len() as int) =~= arr_slice@);
    }
    totals
}

/// The share of `arrs` with indices `th` modulo `k`, in catalog order.
pub fn partition_catalog(arrs: &Vec<u16>, k: usize, th: usize) -> (r: Vec<u16>)
    requires
        1 <= k,
        th < k,
    ensures
        r@ == part_seq(arrs@, k as int, th as int),
{
    let mut r: Vec<u16> = Vec::new();
    let mut i: usize = 0;
    proof {
        assert(arrs@.take(0) =~= Seq::<u16>::empty());
    }
    while i < arrs.len()
        invariant
            i <= arrs@.len(),
            th < k,
            r@ == part_seq(arrs@.take(i as int), k as int, th as int),
        decreases arrs@.len() - i,
    {
        let ghost old_r = r@;
        if i % k == th {
            r.push(*arrs.get(i).unwrap());
        }
        proof {
            let pre = arrs@.take(i as int);
            let post = arrs@.take(i + 1);
            assert(post.drop_last() =~= pre);
            assert(post.last() == arrs@[i as int]);
            assert(post.len() - 1 == i);
            if (i as int) % (k as int) == th {
                assert(r@ =~= part_seq(post, k as int, th as int));
            } else {
                assert(r@ =~= part_seq(post, k as int, th as int));
            }
        }
        i += 1;
    }
    proof {
        assert(arrs@.take(arrs@.len() as int) =~= arrs@);
    }
    r
}

/// Builds the catalog, splits it into `num_workers` shares by index, runs
/// the checkmate sweep over each share, and merges the per-bit-count key
/// sets by union.  The merged sets depend only on the catalog, not on the
/// number of shares.
pub fn create_checkmates_map(num_workers: usize) -> (r: Vec<BoardSet>)
    requires
        1 <= num_workers,
    ensures
        r@.len() == 13,
        forall|n: int|
            0 <= n < 13 ==> board_set_contents(#[trigger] r@[n]) == slice_checkmate_keys(
                catalog_seq(),
                n,
            ),
{
    let cat = gather_canonical_arrangements();
    let mut merged: Vec<BoardSet> = Vec::new();
    let mut k: usize = 0;
    while k < 13
        invariant
            k <= 13,
            merged@.len() == k,
            forall|n: int|
                0 <= n < k ==> board_set_contents(#[trigger] merged@[n]) == Set::<u64>::empty(),
        decreases 13 - k,
    {
        merged.push(bs_new());
        k += 1;
    }
    let mut th: usize = 0;
    while th < num_workers
        invariant
            th <= num_workers,
            1 <= num_workers,
            merged@.len() == 13,
            catalog_ok(cat@),
            forall|c: u16| cat@.contains(c) ==> 2 <= popcount(c) <= 12,
            forall|n: int|
                0 <= n < 13 ==> board_set_contents(#[trigger] merged@[n]) == parts_checkmate_union(
                    cat@,
                    num_workers as int,
                    th as int,
                    n,
                ),
        decreases num_workers - th,
    {
        let part = partition_catalog(&cat, num_workers, th);
        proof {
            lemma_part_elems(cat@, num_workers as int, th as int);
            assert forall|x: int| 0 <= x < part@.len() implies 2 <= popcount(#[trigger] part@[x])
                <= 12 by {
                assert(cat@.contains(part@[x]));
            }
        }
        let mut m = create_checkmates_map_from_arrangements(&part);
        let mut n: usize = 13;
        while n > 0
            invariant
                n <= 13,
                m@.len() == n,
                merged@.len() == 13,
                forall|q: int|
                    0 <= q < n ==> board_set_contents(#[trigger] m@[q]) == slice_checkmate_keys(
                        part@,
                        q,
                    ),
                part@ == part_seq(cat@, num_workers as int, th as int),
                forall|q: int|
                    0 <= q < n ==> board_set_contents(#[trigger] merged@[q])
                        == parts_checkmate_union(cat@, num_workers as int, th as int, q),
                forall|q: int|
                    n <= q < 13 ==> board_set_contents(#[trigger] merged@[q])
                        == parts_checkmate_union(cat@, num_workers as int, th + 1, q),
            decreases n,
        {
            n -= 1;
            let set_n = m.pop().unwrap();
            let ghost old_merged = merged@;
            bs_absorb(&mut merged[n], set_n);
            proof {
                assert(board_set_contents(merged@[n as int]) =~= parts_checkmate_union(
                    cat@,
                    num_workers as int,
                    th + 1,
                    n as int,
                ));
                assert(forall|q: int|
                    0 <= q < 13 && q != n ==> #[trigger] merged@[q] == old_merged[q]);
            }
        }
        th += 1;
    }
    proof {
        assert forall|n: int| 0 <= n < 13 implies board_set_contents(#[trigger] merged@[n])
            == slice_checkmate_keys(cat@, n) by {
            lemma_checkmate_partition(cat@, num_workers as int, n);
        }
    }
    merged
}

/// Builds the catalog, splits it into `num_workers` shares by index, runs
/// the one-ply-win sweep over each share, and merges the per-bit-count
/// tallies by sum.  The merged totals depend only on the catalog, not on
/// the number of shares.
pub fn count_win1(num_workers: usize) -> (r: Vec<u128>)
    requires
        1 <= num_workers,
    ensures
        r@.len() == 13,
        forall|n: int| 0 <= n < 13 ==> r@[n] == slice_win1_totals(catalog_seq(), n),
{
    let cat = gather_canonical_arrangements();
    let mut merged: Vec<u128> = Vec::new();
    let mut k: usize = 0;
    while k < 13
        invariant
            k <= 13,
            merged@.len() == k,
            forall|n: int| 0 <= n < k ==> merged@[n] == 0,
        decreases 13 - k,
    {
        merged.push(0);
        k += 1;
    }
    proof {
        lemma_parts_len_total(cat@, num_workers as int);
    }
    let mut th: usize = 0;
    while th < num_workers
        invariant
            th <= num_workers,
            1 <= num_workers,
            merged@.len() == 13,
            catalog_ok(cat@),
            cat@.len() <= 65536,
            parts_len_sum(cat@, num_workers as int, num_workers as int) == cat@.len(),
            forall|n: int|
                0 <= n < 13 ==> merged@[n] == parts_win1_sum(
                    cat@,
                    num_workers as int,
                    th as int,
                    n,
                ),
            forall|n: int|
                0 <= n < 13 ==> merged@[n] <= parts_len_sum(
                    cat@,
                    num_workers as int,
                    th as int,
                ) * 0x10000000000000000,
        decreases num_workers - th,
    {
        let part = partition_catalog(&cat, num_workers, th);
        let m = count_win1_from_arrangements(&part);
        proof {
            lemma_parts_len_mono(cat@, num_workers as int, th as int);
            lemma_parts_len_mono(cat@, num_workers as int, th + 1);
        }
        let ghost old_merged = merged@;
        let mut n: usize = 0;
        while n < 13
            invariant
                n <= 13,
                merged@.len() == 13,
                m@.len() == 13,
                part@ == part_seq(cat@, num_workers as int, th as int),
                th < num_workers,
                parts_len_sum(cat@, num_workers as int, num_workers as int) == cat@.len(),
                cat@.len() <= 65536,
                0 <= parts_len_sum(cat@, num_workers as int, th as int) <= cat@.len(),
                0 <= parts_len_sum(cat@, num_workers as int, th + 1) <= cat@.len(),
                forall|q: int|
                    0 <= q < 13 ==> m@[q] == slice_win1_totals(part@, q) && m@[q] <= part@.len()
                        * 0x10000000000000000,
                forall|q: int|
                    0 <= q < 13 ==> old_merged[q] == parts_win1_sum(
                        cat@,
                        num_workers as int,
                        th as int,
                        q,
                    ) && old_merged[q] <= parts_len_sum(cat@, num_workers as int, th as int)
                        * 0x10000000000000000,
                forall|q: int| n <= q < 13 ==> merged@[q] == old_merged[q],
                forall|q: int|
                    0 <= q < n ==> merged@[q] == parts_win1_sum(
                        cat@,
                        num_workers as int,
                        th + 1,
                        q,
                    ) && merged@[q] <= parts_len_sum(cat@, num_workers as int, th + 1)
                        * 0x10000000000000000,
            decreases 13 - n,
        {
            let cur: u128 = *merged.get(n).unwrap();
            let add: u128 = *m.get(n).unwrap();
            proof {
                assert(merged@[n as int] == old_merged[n as int]);
                assert(old_merged[n as int] == parts_win1_sum(
                    cat@,
                    num_workers as int,
                    th as int,
                    n as int,
                ));
                assert(old_merged[n as int] <= parts_len_sum(cat@, num_workers as int, th as int)
                    * 0x10000000000000000);
                assert(add == slice_win1_totals(part@, n as int));
                assert(add <= part@.len() * 0x10000000000000000);
                assert(parts_len_sum(cat@, num_workers as int, th + 1) == parts_len_sum(
                    cat@,
                    num_workers as int,
                    th as int,
                ) + part@.len());
                assert(cur + add <= (parts_len_sum(cat@, num_workers as int, th as int)
                    + part@.len()) * 0x10000000000000000) by (nonlinear_arith)
                    requires
                        cur <= parts_len_sum(cat@, num_workers as int, th as int)
                            * 0x10000000000000000,
                        add <= part@.len() * 0x10000000000000000,
                ;
                assert((parts_len_sum(cat@, num_workers as int, th as int) + part@.len())
                    * 0x10000000000000000 <= 65536 * 0x10000000000000000) by (nonlinear_arith)
                    requires
                        0 <= parts_len_sum(cat@, num_workers as int, th as int) + part@.len()
                            <= 65536,
                ;
            }
            merged[n] = cur + add;
            proof {
                assert(parts_win1_sum(cat@, num_workers as int, th + 1, n as int)
                    == parts_win1_sum(cat@, num_workers as int, th as int, n as int)
                    + slice_win1_totals(part_seq(cat@, num_workers as int, th as int), n as int));
                assert(merged@[n as int] == parts_win1_sum(
                    cat@,
                    num_workers as int,
                    th + 1,
                    n as int,
                ));
            }
            n += 1;
        }
        th += 1;
    }
    proof {
        assert forall|n: int| 0 <= n < 13 implies merged@[n] == slice_win1_totals(cat@, n) by {
            lemma_win1_partition(cat@, num_workers as int, n);
        }
    }
    merged
}

} // verus!
