//! Exhaustive enumeration of piece assignments for a candidate arrangement.
//!
//! Around a fixed pair of key pieces, every remaining occupied cell receives
//! one of the ten labels (side, slot) with side in {0,1} and slot in {1..5},
//! without repetition; each complete assignment is handed to the value
//! oracle, and the keys of the positions matching the target value are
//! collected into a board set, where duplicates collapse.

use vstd::prelude::*;
use crate::bitgrid::{extract_surrounded, lemma_one_bit_nonzero, occ, one_bit, surrounded_mask};
use crate::oracle::{
    board_set_contents, bs_insert, bs_new, invariant_key_of, label_permutations, lose2_verdict,
    oracle_matches_lose2, oracle_matches_win1, position_key, win1_verdict,
};
use tokyodoves::collections::BoardSet;

verus! {

/// A piece label: a side (0 or 1) and an ordinary slot (1 to 5).
pub open spec fn is_label(e: (u8, u8)) -> bool {
    e.0 < 2 && 1 <= e.1 < 6
}

/// The position-array slot a label addresses.
pub open spec fn slot_of(e: (u8, u8)) -> int {
    e.0 * 6 + e.1
}

/// An ordered selection of `n` pairwise distinct labels.
pub open spec fn valid_selection(s: Seq<(u8, u8)>, n: int) -> bool {
    s.len() == n && s.no_duplicates() && (forall|x: int| 0 <= x < s.len() ==> is_label(#[trigger] s[x]))
}

/// The 12 piece bitboards holding only the two key pieces.
pub open spec fn base_positions(boss: u16, ob: u16) -> Seq<u16> {
    seq![boss, 0u16, 0u16, 0u16, 0u16, 0u16, ob, 0u16, 0u16, 0u16, 0u16, 0u16]
}

/// The 12 piece bitboards after assigning cell `cells[x]` to the slot of
/// label `s[x]`, for every `x`.
pub open spec fn positions_from(boss: u16, ob: u16, cells: Seq<u16>, s: Seq<(u8, u8)>) -> Seq<u16>
    decreases cells.len(),
{
    if cells.len() == 0 {
        base_positions(boss, ob)
    } else {
        positions_from(boss, ob, cells.drop_last(), s.drop_last()).update(
            slot_of(s[cells.len() - 1]),
            cells.last(),
        )
    }
}

/// Every piece bitboard of `p` is empty or a single cell.
pub open spec fn slots_one_hot(p: Seq<u16>) -> bool {
    forall|k: int| 0 <= k < p.len() ==> #[trigger] p[k] == 0 || one_bit(p[k])
}

/// The two key-piece slots survive every assignment step (a label only
/// addresses slots 1 to 5 or 7 to 11), and with single-cell pieces every
/// slot stays empty or a single cell.
proof fn lemma_positions_from_slots(boss: u16, ob: u16, cells: Seq<u16>, s: Seq<(u8, u8)>)
    requires
        s.len() == cells.len(),
        forall|x: int| 0 <= x < s.len() ==> is_label(#[trigger] s[x]),
        one_bit(boss),
        one_bit(ob),
        forall|x: int| 0 <= x < cells.len() ==> one_bit(#[trigger] cells[x]),
    ensures
        positions_from(boss, ob, cells, s).len() == 12,
        positions_from(boss, ob, cells, s)[0] == boss,
        positions_from(boss, ob, cells, s)[6] == ob,
        slots_one_hot(positions_from(boss, ob, cells, s)),
    decreases cells.len(),
{
    if cells.len() == 0 {
        let p = positions_from(boss, ob, cells, s);
        assert forall|k: int| 0 <= k < p.len() implies #[trigger] p[k] == 0 || one_bit(p[k]) by {
            if k == 0 || k == 6 {
            } else {
                assert(p[k] == 0);
            }
        }
    } else {
        lemma_positions_from_slots(boss, ob, cells.drop_last(), s.drop_last());
        let e = s[cells.len() - 1];
        assert(is_label(e));
        assert(1 <= slot_of(e) <= 11 && slot_of(e) != 6);
        assert(one_bit(cells.last()));
        let prev = positions_from(boss, ob, cells.drop_last(), s.drop_last());
        let p = positions_from(boss, ob, cells, s);
        assert(p == prev.update(slot_of(e), cells.last()));
        assert forall|k: int| 0 <= k < p.len() implies #[trigger] p[k] == 0 || one_bit(p[k]) by {
            if k == slot_of(e) {
                assert(p[k] == cells.last());
            } else {
                assert(p[k] == prev[k]);
                assert(prev[k] == 0 || one_bit(prev[k]));
            }
        }
    }
}

/// The occupied cells of `m` with index `n` or above, lowest first, as
/// single-bit masks.
pub open spec fn bits_list_from(m: u16, n: int) -> Seq<u16>
    decreases 16 - n,
    when n <= 16
{
    if n >= 16 {
        Seq::empty()
    } else {
        let rest = bits_list_from(m, n + 1);
        if occ(m, n as u16) {
            seq![(1u16 << (n as u16))] + rest
        } else {
            rest
        }
    }
}

/// The occupied cells of `m`, lowest first, as single-bit masks.
pub open spec fn cells_of(m: u16) -> Seq<u16> {
    bits_list_from(m, 0)
}

/// The oracle verdict used by a search: win-in-1 or lose-in-2.
pub open spec fn verdict_of(use_win1: bool, positions: Seq<u16>) -> bool {
    if use_win1 {
        win1_verdict(positions)
    } else {
        lose2_verdict(positions)
    }
}

/// The keys of the positions matching the target value, over every ordered
/// assignment of the cells to distinct labels.
pub open spec fn match_keys(use_win1: bool, boss: u16, ob: u16, cells: Seq<u16>) -> Set<u64> {
    Set::new(
        |key: u64|
            exists|s: Seq<(u8, u8)>|
                {
                    &&& valid_selection(s, cells.len() as int)
                    &&& verdict_of(use_win1, #[trigger] positions_from(boss, ob, cells, s))
                    &&& key == invariant_key_of(positions_from(boss, ob, cells, s))
                },
    )
}

/// The keys contributed by the first `t` enumerated selections.
pub open spec fn listed_keys(
    use_win1: bool,
    boss: u16,
    ob: u16,
    cells: Seq<u16>,
    sels: Seq<Vec<(u8, u8)>>,
    t: int,
) -> Set<u64> {
    Set::new(
        |key: u64|
            exists|x: int|
                {
                    &&& 0 <= x < t && x < sels.len()
                    &&& verdict_of(use_win1, positions_from(boss, ob, cells, (#[trigger] sels[x])@))
                    &&& key == invariant_key_of(positions_from(boss, ob, cells, sels[x]@))
                },
    )
}

/// Every entry of the cell list is a single-bit mask.
proof fn lemma_cells_of_one_bit(m: u16, n: int)
    requires
        0 <= n <= 16,
    ensures
        forall|x: int|
            0 <= x < bits_list_from(m, n).len() ==> one_bit(#[trigger] bits_list_from(m, n)[x]),
    decreases 16 - n,
{
    if n < 16 {
        lemma_cells_of_one_bit(m, n + 1);
        let rest = bits_list_from(m, n + 1);
        if occ(m, n as u16) {
            assert forall|x: int|
                0 <= x < bits_list_from(m, n).len() implies one_bit(
                #[trigger] bits_list_from(m, n)[x],
            ) by {
                if x == 0 {
                    assert(bits_list_from(m, n)[0] == (1u16 << (n as u16)));
                } else {
                    assert(bits_list_from(m, n)[x] == rest[x - 1]);
                }
            }
        }
    }
}

/// The occupied cells of `m`, as single-bit masks in increasing order.
fn collect_cells(m: u16) -> (r: Vec<u16>)
    ensures
        r@ == cells_of(m),
        forall|x: int| 0 <= x < r@.len() ==> one_bit(#[trigger] r@[x]),
{
    proof {
        lemma_cells_of_one_bit(m, 0);
    }
    let mut r: Vec<u16> = Vec::new();
    let mut n: u16 = 0;
    while n < 16
        invariant
            n <= 16,
            cells_of(m) =~= r@ + bits_list_from(m, n as int),
        decreases 16 - n,
    {
        let ghost old_r = r@;
        if (m >> n) & 1 == 1 {
            assert(occ(m, n));
            r.push(1u16 << n);
            proof {
                assert(bits_list_from(m, n as int) =~= seq![(1u16 << n)] + bits_list_from(
                    m,
                    n + 1,
                ));
                assert(r@ + bits_list_from(m, n + 1) =~= old_r + bits_list_from(m, n as int));
            }
        } else {
            assert(!occ(m, n));
            proof {
                assert(bits_list_from(m, n as int) =~= bits_list_from(m, n + 1));
            }
        }
        n += 1;
    }
    proof {
        assert(r@ + bits_list_from(m, 16) =~= r@);
    }
    r
}

/// The ten labels, sides outermost, in a fixed order.
fn build_labels() -> (r: Vec<(u8, u8)>)
    ensures
        r@.len() == 10,
        r@.no_duplicates(),
        forall|x: int| 0 <= x < 10 ==> is_label(#[trigger] r@[x]),
        forall|e: (u8, u8)| is_label(e) ==> r@.contains(e),
{
    let mut r: Vec<(u8, u8)> = Vec::new();
    let mut x: usize = 0;
    while x < 10
        invariant
            x <= 10,
            r@.len() == x,
            forall|y: int|
                0 <= y < x ==> #[trigger] r@[y] == (((y / 5) as u8, (y % 5 + 1) as u8)),
        decreases 10 - x,
    {
        let c: u8 = (x / 5) as u8;
        let d: u8 = (x % 5 + 1) as u8;
        r.push((c, d));
        x += 1;
    }
    proof {
        assert forall|a: int, b: int| 0 <= a < b < 10 implies r@[a] != r@[b] by {
            if r@[a] == r@[b] {
                assert(a / 5 == b / 5 && a % 5 == b % 5);
                assert(a == 5 * (a / 5) + a % 5 && b == 5 * (b / 5) + b % 5);
            }
        }
        assert forall|e: (u8, u8)| is_label(e) implies r@.contains(e) by {
            let y = (e.0 as int) * 5 + (e.1 as int) - 1;
            assert(0 <= y < 10);
            assert(y / 5 == e.0 && y % 5 == e.1 - 1);
            assert(r@[y] == e);
        }
    }
    r
}

/// Fills the 12 piece bitboards from the two key pieces and an assignment
/// of each remaining cell to a label's slot.
fn build_positions(boss: u16, ob: u16, cells: &Vec<u16>, sel: &Vec<(u8, u8)>) -> (r: Vec<u16>)
    requires
        sel@.len() == cells@.len(),
        forall|x: int| 0 <= x < sel@.len() ==> is_label(#[trigger] sel@[x]),
    ensures
        r@.len() == 12,
        r@ == positions_from(boss, ob, cells@, sel@),
{
    let mut r: Vec<u16> = Vec::new();
    r.push(boss);
    r.push(0);
    r.push(0);
    r.push(0);
    r.push(0);
    r.push(0);
    r.push(ob);
    r.push(0);
    r.push(0);
    r.push(0);
    r.push(0);
    r.push(0);
    proof {
        assert(r@ =~= base_positions(boss, ob));
        assert(cells@.take(0) =~= Seq::<u16>::empty());
        assert(sel@.take(0) =~= Seq::<(u8, u8)>::empty());
        assert(positions_from(boss, ob, cells@.take(0), sel@.take(0)) =~= base_positions(boss, ob));
    }
    let mut t: usize = 0;
    while t < cells.len()
        invariant
            t <= cells@.len(),
            sel@.len() == cells@.len(),
            forall|x: int| 0 <= x < sel@.len() ==> is_label(#[trigger] sel@[x]),
            r@.len() == 12,
            r@ == positions_from(boss, ob, cells@.take(t as int), sel@.take(t as int)),
        decreases cells@.len() - t,
    {
        let lab: (u8, u8) = *sel.get(t).unwrap();
        let slot: usize = (lab.0 as usize) * 6 + (lab.1 as usize);
        assert(is_label(sel@[t as int]));
        assert(1 <= slot < 12);
        let cell: u16 = *cells.get(t).unwrap();
        r[slot] = cell;
        proof {
            let pre_c = cells@.take(t as int);
            let pre_s = sel@.take(t as int);
            let post_c = cells@.take(t + 1);
            let post_s = sel@.take(t + 1);
            assert(post_c.drop_last() =~= pre_c);
            assert(post_s.drop_last() =~= pre_s);
            assert(post_c.last() == cells@[t as int]);
            assert(post_s[post_c.len() - 1] == sel@[t as int]);
            assert(r@ =~= positions_from(boss, ob, post_c, post_s));
        }
        t += 1;
    }
    proof {
        assert(cells@.take(cells@.len() as int) =~= cells@);
        assert(sel@.take(sel@.len() as int) =~= sel@);
    }
    r
}

/// Enumerates every assignment of the cells of `not_boss_bits` to distinct
/// labels, asks the oracle for each, and adds the keys of the matching
/// positions to `acc`.
fn collect_matches(use_win1: bool, boss: u16, ob: u16, not_boss_bits: u16, acc: &mut BoardSet)
    requires
        one_bit(boss),
        one_bit(ob),
    ensures
        board_set_contents(*final(acc)) == board_set_contents(*old(acc)).union(
            match_keys(use_win1, boss, ob, cells_of(not_boss_bits)),
        ),
{
    let cells = collect_cells(not_boss_bits);
    let labels = build_labels();
    let sels = label_permutations(&labels, cells.len());
    let ghost cells_g = cells@;
    let ghost sels_g = sels@;
    proof {
        assert forall|e: (u8, u8)| labels@.contains(e) implies is_label(e) by {
            let y = choose|y: int| 0 <= y < labels@.len() && labels@[y] == e;
        }
    }
    let mut t: usize = 0;
    while t < sels.len()
        invariant
            one_bit(boss),
            one_bit(ob),
            forall|x: int| 0 <= x < cells_g.len() ==> one_bit(#[trigger] cells_g[x]),
            t <= sels_g.len(),
            sels@ == sels_g,
            cells@ == cells_g,
            cells_g == cells_of(not_boss_bits),
            forall|x: int| 0 <= x < sels_g.len() ==> (#[trigger] sels_g[x])@.len() == cells_g.len(),
            forall|x: int|
                0 <= x < sels_g.len() ==> forall|y: int|
                    0 <= y < (#[trigger] sels_g[x])@.len() ==> is_label(sels_g[x]@[y]),
            board_set_contents(*acc) == board_set_contents(*old(acc)).union(
                listed_keys(use_win1, boss, ob, cells_g, sels_g, t as int),
            ),
        decreases sels_g.len() - t,
    {
        let sel: &Vec<(u8, u8)> = sels.get(t).unwrap();
        let pos = build_positions(boss, ob, &cells, sel);
        proof {
            lemma_positions_from_slots(boss, ob, cells_g, sels_g[t as int]@);
            lemma_one_bit_nonzero(boss);
            lemma_one_bit_nonzero(ob);
            assert(pos@[0] == boss && pos@[6] == ob);
        }
        let verdict: bool = if use_win1 {
            oracle_matches_win1(&pos)
        } else {
            oracle_matches_lose2(&pos)
        };
        let ghost before = board_set_contents(*acc);
        if verdict {
            let key = position_key(&pos);
            bs_insert(acc, key);
        }
        proof {
            assert(verdict == verdict_of(use_win1, positions_from(boss, ob, cells_g, sels_g[t as int]@)));
            let prev = listed_keys(use_win1, boss, ob, cells_g, sels_g, t as int);
            let next = listed_keys(use_win1, boss, ob, cells_g, sels_g, t + 1);
            if verdict {
                let key = invariant_key_of(positions_from(boss, ob, cells_g, sels_g[t as int]@));
                assert(next =~= prev.insert(key)) by {
                    assert forall|kk: u64| next.contains(kk) implies prev.insert(kk).contains(
                        kk,
                    ) by {}
                    assert forall|kk: u64| next.contains(kk) implies prev.contains(kk) || kk
                        == key by {
                        let x = choose|x: int|
                            {
                                &&& 0 <= x < t + 1 && x < sels_g.len()
                                &&& verdict_of(
                                    use_win1,
                                    positions_from(boss, ob, cells_g, (#[trigger] sels_g[x])@),
                                )
                                &&& kk == invariant_key_of(
                                    positions_from(boss, ob, cells_g, sels_g[x]@),
                                )
                            };
                        if x < t {
                            assert(prev.contains(kk));
                        }
                    }
                    assert forall|kk: u64| prev.contains(kk) || kk == key implies next.contains(
                        kk,
                    ) by {
                        if prev.contains(kk) {
                            let x = choose|x: int|
                                {
                                    &&& 0 <= x < t && x < sels_g.len()
                                    &&& verdict_of(
                                        use_win1,
                                        positions_from(boss, ob, cells_g, (#[trigger] sels_g[x])@),
                                    )
                                    &&& kk == invariant_key_of(
                                        positions_from(boss, ob, cells_g, sels_g[x]@),
                                    )
                                };
                            assert(next.contains(kk));
                        } else {
                            assert(next.contains(key));
                        }
                    }
                }
                assert(board_set_contents(*acc) =~= board_set_contents(*old(acc)).union(next));
            } else {
                assert(next =~= prev) by {
                    assert forall|kk: u64| next.contains(kk) implies prev.contains(kk) by {
                        let x = choose|x: int|
                            {
                                &&& 0 <= x < t + 1 && x < sels_g.len()
                                &&& verdict_of(
                                    use_win1,
                                    positions_from(boss, ob, cells_g, (#[trigger] sels_g[x])@),
                                )
                                &&& kk == invariant_key_of(
                                    positions_from(boss, ob, cells_g, sels_g[x]@),
                                )
                            };
                        if x == t {
                            assert(false);
                        }
                    }
                }
                assert(board_set_contents(*acc) =~= board_set_contents(*old(acc)).union(next));
            }
        }
        t += 1;
    }
    proof {
        let listed = listed_keys(use_win1, boss, ob, cells_g, sels_g, sels_g.len() as int);
        let wanted = match_keys(use_win1, boss, ob, cells_g);
        assert(listed =~= wanted) by {
            assert forall|kk: u64| listed.contains(kk) implies wanted.contains(kk) by {
                let x = choose|x: int|
                    {
                        &&& 0 <= x < sels_g.len() && x < sels_g.len()
                        &&& verdict_of(
                            use_win1,
                            positions_from(boss, ob, cells_g, (#[trigger] sels_g[x])@),
                        )
                        &&& kk == invariant_key_of(positions_from(boss, ob, cells_g, sels_g[x]@))
                    };
                let s = sels_g[x]@;
                assert(valid_selection(s, cells_g.len() as int));
            }
            assert forall|kk: u64| wanted.contains(kk) implies listed.contains(kk) by {
                let s = choose|s: Seq<(u8, u8)>|
                    {
                        &&& valid_selection(s, cells_g.len() as int)
                        &&& verdict_of(use_win1, #[trigger] positions_from(boss, ob, cells_g, s))
                        &&& kk == invariant_key_of(positions_from(boss, ob, cells_g, s))
                    };
                assert(s.no_duplicates());
                assert(exists|x: int| 0 <= x < sels_g.len() && (#[trigger] sels_g[x])@ == s);
                let x = choose|x: int| 0 <= x < sels_g.len() && (#[trigger] sels_g[x])@ == s;
                assert(listed.contains(kk));
            }
        }
    }
}

/// The keys of every checkmate-matching position over an arrangement with a
/// fixed friendly key piece: the opposing key piece ranges over the
/// non-surrounded remaining cells, the other pieces over all assignments.
pub open spec fn checkmate_keys(boss: u16, others: u16) -> Set<u64> {
    let cands = others & !surrounded_mask(boss | others);
    Set::new(
        |key: u64|
            exists|j: u16|
                j < 16 && #[trigger] occ(cands, j) && match_keys(
                    false,
                    boss,
                    1u16 << j,
                    cells_of(others & !(1u16 << j)),
                ).contains(key),
    )
}

/// Collects the keys of every position over the arrangement
/// `boss_bit | other_bits` whose value is "loses in exactly 2 plies": the
/// opposing key piece ranges over the non-surrounded cells of `other_bits`,
/// the remaining cells over all labelings, and equal keys collapse.
pub fn gather_checkmates(boss_bit: u16, other_bits: u16) -> (r: BoardSet)
    requires
        one_bit(boss_bit),
    ensures
        board_set_contents(r) == checkmate_keys(boss_bit, other_bits & !boss_bit),
{
    let others: u16 = other_bits & !boss_bit;
    let mut checkmates = bs_new();
    let sur: u16 = extract_surrounded(boss_bit | others);
    let cands: u16 = others & !sur;
    let mut j: u16 = 0;
    while j < 16
        invariant
            j <= 16,
            one_bit(boss_bit),
            cands == others & !surrounded_mask(boss_bit | others),
            board_set_contents(checkmates) == Set::new(
                |key: u64|
                    exists|jj: u16|
                        jj < j && #[trigger] occ(cands, jj) && match_keys(
                            false,
                            boss_bit,
                            1u16 << jj,
                            cells_of(others & !(1u16 << jj)),
                        ).contains(key),
            ),
        decreases 16 - j,
    {
        let ghost before = board_set_contents(checkmates);
        if (cands >> j) & 1 == 1 {
            assert(occ(cands, j));
            let ob: u16 = 1u16 << j;
            proof {
                assert(one_bit(ob));
            }
            collect_matches(false, boss_bit, ob, others & !ob, &mut checkmates);
            proof {
                let added = match_keys(false, boss_bit, ob, cells_of(others & !ob));
                assert(board_set_contents(checkmates) =~= Set::new(
                    |key: u64|
                        exists|jj: u16|
                            jj < j + 1 && #[trigger] occ(cands, jj) && match_keys(
                                false,
                                boss_bit,
                                1u16 << jj,
                                cells_of(others & !(1u16 << jj)),
                            ).contains(key),
                )) by {
                    assert forall|key: u64| board_set_contents(checkmates).contains(key) implies
                        exists|jj: u16|
                            jj < j + 1 && #[trigger] occ(cands, jj) && match_keys(
                                false,
                                boss_bit,
                                1u16 << jj,
                                cells_of(others & !(1u16 << jj)),
                            ).contains(key) by {
                        if before.contains(key) {
                            let jj = choose|jj: u16|
                                jj < j && #[trigger] occ(cands, jj) && match_keys(
                                    false,
                                    boss_bit,
                                    1u16 << jj,
                                    cells_of(others & !(1u16 << jj)),
                                ).contains(key);
                            assert(jj < j + 1 && occ(cands, jj));
                        } else {
                            assert(added.contains(key));
                            assert(occ(cands, j));
                        }
                    }
                    assert forall|key: u64|
                        (exists|jj: u16|
                            jj < j + 1 && #[trigger] occ(cands, jj) && match_keys(
                                false,
                                boss_bit,
                                1u16 << jj,
                                cells_of(others & !(1u16 << jj)),
                            ).contains(key)) implies board_set_contents(checkmates).contains(
                        key,
                    ) by {
                        let jj = choose|jj: u16|
                            jj < j + 1 && #[trigger] occ(cands, jj) && match_keys(
                                false,
                                boss_bit,
                                1u16 << jj,
                                cells_of(others & !(1u16 << jj)),
                            ).contains(key);
                        if jj < j {
                            assert(before.contains(key));
                        } else {
                            assert(jj == j);
                            assert(added.contains(key));
                        }
                    }
                }
            }
        } else {
            proof {
                assert(!occ(cands, j));
                assert(board_set_contents(checkmates) =~= Set::new(
                    |key: u64|
                        exists|jj: u16|
                            jj < j + 1 && #[trigger] occ(cands, jj) && match_keys(
                                false,
                                boss_bit,
                                1u16 << jj,
                                cells_of(others & !(1u16 << jj)),
                            ).contains(key),
                )) by {
                    assert forall|key: u64|
                        (exists|jj: u16|
                            jj < j + 1 && #[trigger] occ(cands, jj) && match_keys(
                                false,
                                boss_bit,
                                1u16 << jj,
                                cells_of(others & !(1u16 << jj)),
                            ).contains(key)) implies before.contains(key) by {
                        let jj = choose|jj: u16|
                            jj < j + 1 && #[trigger] occ(cands, jj) && match_keys(
                                false,
                                boss_bit,
                                1u16 << jj,
                                cells_of(others & !(1u16 << jj)),
                            ).contains(key);
                        assert(jj != j);
                    }
                }
            }
        }
        j += 1;
    }
    proof {
        assert(board_set_contents(checkmates) =~= checkmate_keys(boss_bit, others)) by {
            assert forall|key: u64| board_set_contents(checkmates).contains(key) implies
                checkmate_keys(boss_bit, others).contains(key) by {
                let jj = choose|jj: u16|
                    jj < 16 && #[trigger] occ(cands, jj) && match_keys(
                        false,
                        boss_bit,
                        1u16 << jj,
                        cells_of(others & !(1u16 << jj)),
                    ).contains(key);
            }
            assert forall|key: u64| checkmate_keys(boss_bit, others).contains(key) implies
                board_set_contents(checkmates).contains(key) by {
                let jj = choose|jj: u16|
                    jj < 16 && #[trigger] occ(cands, jj) && match_keys(
                        false,
                        boss_bit,
                        1u16 << jj,
                        cells_of(others & !(1u16 << jj)),
                    ).contains(key);
            }
        }
    }
    checkmates
}

/// The keys of every win-in-one-matching position over an arrangement with
/// a fixed opposing key piece: the friendly key piece ranges over the
/// non-surrounded cells besides it.
pub open spec fn win1_keys(other_boss: u16, all_bits: u16) -> Set<u64> {
    let all = all_bits | other_boss;
    let cands = all & !surrounded_mask(all) & !other_boss;
    Set::new(
        |key: u64|
            exists|j: u16|
                j < 16 && #[trigger] occ(cands, j) && match_keys(
                    true,
                    1u16 << j,
                    other_boss,
                    cells_of(all & !(1u16 << j) & !other_boss),
                ).contains(key),
    )
}

/// Collects the keys of every position over `all_bits | other_boss_bit`
/// whose value is "wins in exactly 1 ply", the friendly key piece ranging
/// over the non-surrounded cells other than the opposing key piece.
pub fn gather_win1(other_boss_bit: u16, all_bits: u16) -> (r: BoardSet)
    requires
        one_bit(other_boss_bit),
    ensures
        board_set_contents(r) == win1_keys(other_boss_bit, all_bits),
{
    let all: u16 = all_bits | other_boss_bit;
    let mut win1_set = bs_new();
    let sur: u16 = extract_surrounded(all);
    let cands: u16 = all & !sur & !other_boss_bit;
    let mut j: u16 = 0;
    while j < 16
        invariant
            j <= 16,
            one_bit(other_boss_bit),
            all == all_bits | other_boss_bit,
            cands == all & !surrounded_mask(all) & !other_boss_bit,
            board_set_contents(win1_set) == Set::new(
                |key: u64|
                    exists|jj: u16|
                        jj < j && #[trigger] occ(cands, jj) && match_keys(
                            true,
                            1u16 << jj,
                            other_boss_bit,
                            cells_of(all & !(1u16 << jj) & !other_boss_bit),
                        ).contains(key),
            ),
        decreases 16 - j,
    {
        let ghost before = board_set_contents(win1_set);
        if (cands >> j) & 1 == 1 {
            assert(occ(cands, j));
            let boss: u16 = 1u16 << j;
            proof {
                assert(one_bit(boss));
            }
            collect_matches(
                true,
                boss,
                other_boss_bit,
                all & !boss & !other_boss_bit,
                &mut win1_set,
            );
            proof {
                let added = match_keys(
                    true,
                    boss,
                    other_boss_bit,
                    cells_of(all & !boss & !other_boss_bit),
                );
                assert(board_set_contents(win1_set) =~= Set::new(
                    |key: u64|
                        exists|jj: u16|
                            jj < j + 1 && #[trigger] occ(cands, jj) && match_keys(
                                true,
                                1u16 << jj,
                                other_boss_bit,
                                cells_of(all & !(1u16 << jj) & !other_boss_bit),
                            ).contains(key),
                )) by {
                    assert forall|key: u64| board_set_contents(win1_set).contains(key) implies
                        exists|jj: u16|
                            jj < j + 1 && #[trigger] occ(cands, jj) && match_keys(
                                true,
                                1u16 << jj,
                                other_boss_bit,
                                cells_of(all & !(1u16 << jj) & !other_boss_bit),
                            ).contains(key) by {
                        if before.contains(key) {
                            let jj = choose|jj: u16|
                                jj < j && #[trigger] occ(cands, jj) && match_keys(
                                    true,
                                    1u16 << jj,
                                    other_boss_bit,
                                    cells_of(all & !(1u16 << jj) & !other_boss_bit),
                                ).contains(key);
                            assert(jj < j + 1 && occ(cands, jj));
                        } else {
                            assert(added.contains(key));
                            assert(occ(cands, j));
                        }
                    }
                    assert forall|key: u64|
                        (exists|jj: u16|
                            jj < j + 1 && #[trigger] occ(cands, jj) && match_keys(
                                true,
                                1u16 << jj,
                                other_boss_bit,
                                cells_of(all & !(1u16 << jj) & !other_boss_bit),
                            ).contains(key)) implies board_set_contents(win1_set).contains(
                        key,
                    ) by {
                        let jj = choose|jj: u16|
                            jj < j + 1 && #[trigger] occ(cands, jj) && match_keys(
                                true,
                                1u16 << jj,
                                other_boss_bit,
                                cells_of(all & !(1u16 << jj) & !other_boss_bit),
                            ).contains(key);
                        if jj < j {
                            assert(before.contains(key));
                        } else {
                            assert(jj == j);
                            assert(added.contains(key));
                        }
                    }
                }
            }
        } else {
            proof {
                assert(!occ(cands, j));
                assert(board_set_contents(win1_set) =~= Set::new(
                    |key: u64|
                        exists|jj: u16|
                            jj < j + 1 && #[trigger] occ(cands, jj) && match_keys(
                                true,
                                1u16 << jj,
                                other_boss_bit,
                                cells_of(all & !(1u16 << jj) & !other_boss_bit),
                            ).contains(key),
                )) by {
                    assert forall|key: u64|
                        (exists|jj: u16|
                            jj < j + 1 && #[trigger] occ(cands, jj) && match_keys(
                                true,
                                1u16 << jj,
                                other_boss_bit,
                                cells_of(all & !(1u16 << jj) & !other_boss_bit),
                            ).contains(key)) implies before.contains(key) by {
                        let jj = choose|jj: u16|
                            jj < j + 1 && #[trigger] occ(cands, jj) && match_keys(
                                true,
                                1u16 << jj,
                                other_boss_bit,
                                cells_of(all & !(1u16 << jj) & !other_boss_bit),
                            ).contains(key);
                        assert(jj != j);
                    }
                }
            }
        }
        j += 1;
    }
    proof {
        assert(board_set_contents(win1_set) =~= win1_keys(other_boss_bit, all_bits)) by {
            assert forall|key: u64| board_set_contents(win1_set).contains(key) implies win1_keys(
                other_boss_bit,
                all_bits,
            ).contains(key) by {
                let jj = choose|jj: u16|
                    jj < 16 && #[trigger] occ(cands, jj) && match_keys(
                        true,
                        1u16 << jj,
                        other_boss_bit,
                        cells_of(all & !(1u16 << jj) & !other_boss_bit),
                    ).contains(key);
            }
            assert forall|key: u64| win1_keys(other_boss_bit, all_bits).contains(key) implies
                board_set_contents(win1_set).contains(key) by {
                let jj = choose|jj: u16|
                    jj < 16 && #[trigger] occ(cands, jj) && match_keys(
                        true,
                        1u16 << jj,
                        other_boss_bit,
                        cells_of(all & !(1u16 << jj) & !other_boss_bit),
                    ).contains(key);
            }
        }
    }
    win1_set
}

} // verus!
