//! The reference catalog of canonical arrangements.
//!
//! All 65536 occupancy masks are enumerated; those with 2 to 12 occupied
//! cells and no isolated piece are reduced to their canonical symmetry
//! representative, and each representative is kept exactly once, in
//! increasing numeric order.

use vstd::prelude::*;
use crate::bitgrid::{count_bits, is_isolated, is_isolated_spec, lemma_popcount_pos_nonzero, popcount};
use crate::symmetry::{
    canonical_of, canonicalize, lemma_canonical_exists, lemma_canonical_idempotent,
    lemma_canonical_iff_related, lemma_canonical_isolation, symmetry_related,
};

verus! {

/// A mask belongs in the catalog's domain: 2 to 12 occupied cells and no
/// isolated piece.
pub open spec fn eligible(m: u16) -> bool {
    2 <= popcount(m) <= 12 && !is_isolated_spec(m)
}

/// `s` has the catalog's shape: strictly increasing, holding the canonical
/// form of every eligible mask and nothing else.
pub open spec fn catalog_ok(s: Seq<u16>) -> bool {
    &&& forall|a: int, b: int| 0 <= a < b < s.len() ==> s[a] < s[b]
    &&& forall|m: u16| eligible(m) ==> s.contains(canonical_of(m))
    &&& forall|c: u16| s.contains(c) ==> exists|m: u16| eligible(m) && c == canonical_of(m)
}

/// The catalog as a spec value: the unique sequence of the catalog's shape.
pub open spec fn catalog_seq() -> Seq<u16> {
    choose|s: Seq<u16>| catalog_ok(s)
}

/// The catalog: strictly increasing, holding the canonical form of every
/// eligible mask and nothing else, so exactly one representative stands for
/// each symmetry class met by an eligible mask.
pub fn gather_canonical_arrangements() -> (r: Vec<u16>)
    ensures
        catalog_ok(r@),
        r@ == catalog_seq(),
        forall|a: int, b: int| 0 <= a < b < r@.len() ==> r@[a] < r@[b],
        forall|m: u16| eligible(m) ==> r@.contains(canonical_of(m)),
        forall|c: u16| r@.contains(c) ==> exists|m: u16| eligible(m) && c == canonical_of(m),
        forall|c: u16| r@.contains(c) ==> 2 <= popcount(c) <= 12,
        forall|c: u16| r@.contains(c) ==> eligible(c),
        r@.len() <= 65536,
{
    let mut seen: Vec<bool> = Vec::new();
    let mut k: usize = 0;
    while k < 65536
        invariant
            k <= 65536,
            seen@.len() == k,
            forall|c: int| 0 <= c < k ==> !seen@[c],
        decreases 65536 - k,
    {
        seen.push(false);
        k += 1;
    }
    let mut i: u32 = 0;
    while i < 65536
        invariant
            i <= 65536,
            seen@.len() == 65536,
            forall|c: u16|
                #[trigger] seen@[c as int] <==> exists|m: u16|
                    m < i && #[trigger] eligible(m) && canonical_of(m) == c,
            forall|c: u16| #[trigger] seen@[c as int] ==> 2 <= popcount(c) <= 12,
        decreases 65536 - i,
    {
        let bits: u16 = i as u16;
        let n = count_bits(bits);
        if 2 <= n && n <= 12 && !is_isolated(bits) {
            assert(eligible(bits));
            proof {
                lemma_popcount_pos_nonzero(bits);
            }
            let c = canonicalize(bits);
            assert(2 <= popcount(c) <= 12);
            let ghost old_seen = seen@;
            seen[c as usize] = true;
            proof {
                assert(seen@ == old_seen.update(c as int, true));
                assert forall|c2: u16| #[trigger] seen@[c2 as int] <==> exists|m: u16|
                    m < i + 1 && #[trigger] eligible(m) && canonical_of(m) == c2 by {
                    if c2 == c {
                        assert(seen@[c2 as int]);
                        assert(eligible(bits) && canonical_of(bits) == c2);
                    } else {
                        assert(seen@[c2 as int] == old_seen[c2 as int]);
                        if seen@[c2 as int] {
                            let m = choose|m: u16|
                                m < i && #[trigger] eligible(m) && canonical_of(m) == c2;
                            assert(m < i + 1 && eligible(m) && canonical_of(m) == c2);
                        } else {
                            if exists|m: u16|
                                m < i + 1 && #[trigger] eligible(m) && canonical_of(m) == c2 {
                                let m = choose|m: u16|
                                    m < i + 1 && #[trigger] eligible(m) && canonical_of(m) == c2;
                                assert(m != bits);
                                assert(m < i);
                                assert(old_seen[c2 as int]);
                                assert(false);
                            }
                        }
                    }
                }
            }
        } else {
            assert(!eligible(bits));
            proof {
                assert forall|c2: u16| #[trigger] seen@[c2 as int] <==> exists|m: u16|
                    m < i + 1 && #[trigger] eligible(m) && canonical_of(m) == c2 by {
                    if seen@[c2 as int] {
                        let m = choose|m: u16|
                            m < i && #[trigger] eligible(m) && canonical_of(m) == c2;
                        assert(m < i + 1 && eligible(m) && canonical_of(m) == c2);
                    } else {
                        if exists|m: u16|
                            m < i + 1 && #[trigger] eligible(m) && canonical_of(m) == c2 {
                            let m = choose|m: u16|
                                m < i + 1 && #[trigger] eligible(m) && canonical_of(m) == c2;
                            assert(m != bits);
                            assert(m < i);
                            assert(false);
                        }
                    }
                }
            }
        }
        i += 1;
    }
    let mut out: Vec<u16> = Vec::new();
    let mut v: u32 = 0;
    while v < 65536
        invariant
            v <= 65536,
            seen@.len() == 65536,
            forall|c: u16|
                #[trigger] seen@[c as int] <==> exists|m: u16|
                    #[trigger] eligible(m) && canonical_of(m) == c,
            forall|c: u16| #[trigger] seen@[c as int] ==> 2 <= popcount(c) <= 12,
            out@.len() <= v,
            forall|a: int, b: int| 0 <= a < b < out@.len() ==> out@[a] < out@[b],
            forall|a: int| 0 <= a < out@.len() ==> (out@[a] as int) < v,
            forall|c: u16| c < v ==> (out@.contains(c) <==> seen@[c as int]),
        decreases 65536 - v,
    {
        let idx: usize = v as usize;
        if *seen.get(idx).unwrap() {
            let ghost old_out = out@;
            out.push(v as u16);
            proof {
                assert forall|c: u16| c < v + 1 implies (out@.contains(c) <==> seen@[c as int]) by {
                    if c < v {
                        if old_out.contains(c) {
                            let w = choose|w: int| 0 <= w < old_out.len() && old_out[w] == c;
                            assert(out@[w] == c);
                        }
                        if out@.contains(c) {
                            let w = choose|w: int| 0 <= w < out@.len() && out@[w] == c;
                            assert(w < old_out.len());
                            assert(old_out[w] == c);
                        }
                    } else {
                        assert(out@[out@.len() - 1] == c);
                    }
                }
            }
        } else {
            proof {
                assert forall|c: u16| c < v + 1 implies (out@.contains(c) <==> seen@[c as int]) by {
                    if c == v as u16 {
                        if out@.contains(c) {
                            let w = choose|w: int| 0 <= w < out@.len() && out@[w] == c;
                            assert((out@[w] as int) < v);
                            assert(false);
                        }
                    }
                }
            }
        }
        v += 1;
    }
    proof {
        assert forall|m: u16| eligible(m) implies out@.contains(canonical_of(m)) by {
            let c = canonical_of(m);
            assert(seen@[c as int]);
        }
        assert forall|c: u16| out@.contains(c) implies 2 <= popcount(c) <= 12 by {
            assert(seen@[c as int]);
        }
        assert forall|c: u16| out@.contains(c) implies eligible(c) by {
            assert(seen@[c as int]);
            let m = choose|m: u16| #[trigger] eligible(m) && canonical_of(m) == c;
            lemma_popcount_pos_nonzero(m);
            lemma_canonical_isolation(m);
        }
        assert(catalog_ok(out@));
        assert(exists|s: Seq<u16>| catalog_ok(s));
        assert(catalog_ok(catalog_seq()));
        lemma_catalog_unique(out@, catalog_seq());
    }
    out
}

/// Two strictly increasing sequences with the same members are equal.
proof fn lemma_sorted_unique(s1: Seq<u16>, s2: Seq<u16>)
    requires
        forall|a: int, b: int| 0 <= a < b < s1.len() ==> s1[a] < s1[b],
        forall|a: int, b: int| 0 <= a < b < s2.len() ==> s2[a] < s2[b],
        forall|c: u16| s1.contains(c) <==> s2.contains(c),
    ensures
        s1 == s2,
    decreases s1.len(),
{
    if s1.len() == 0 {
        if s2.len() > 0 {
            assert(s2.contains(s2[0]));
            assert(s1.contains(s2[0]));
            assert(false);
        }
        assert(s1 =~= s2);
    } else {
        assert(s1.contains(s1[0]));
        assert(s2.contains(s1[0]));
        if s2.len() == 0 {
            assert(false);
        }
        let j = choose|j: int| 0 <= j < s2.len() && s2[j] == s1[0];
        assert(s2[0] <= s1[0]) by {
            if j > 0 {
                assert(s2[0] < s2[j]);
            }
        }
        assert(s2.contains(s2[0]));
        assert(s1.contains(s2[0]));
        let i = choose|i: int| 0 <= i < s1.len() && s1[i] == s2[0];
        assert(s1[0] <= s2[0]) by {
            if i > 0 {
                assert(s1[0] < s1[i]);
            }
        }
        assert(s1[0] == s2[0]);
        let t1 = s1.subrange(1, s1.len() as int);
        let t2 = s2.subrange(1, s2.len() as int);
        assert forall|c: u16| t1.contains(c) <==> t2.contains(c) by {
            lemma_tail_membership(s1, c);
            lemma_tail_membership(s2, c);
        }
        lemma_sorted_unique(t1, t2);
        assert(s1 =~= s2) by {
            assert(s1.len() == t1.len() + 1 && s2.len() == t2.len() + 1);
            assert forall|x: int| 0 <= x < s1.len() implies s1[x] == s2[x] by {
                if x > 0 {
                    assert(t1[x - 1] == t2[x - 1]);
                }
            }
        }
    }
}

/// A strictly increasing sequence holds a value beyond its head exactly
/// when its tail does.
proof fn lemma_tail_membership(s: Seq<u16>, c: u16)
    requires
        s.len() >= 1,
        forall|a: int, b: int| 0 <= a < b < s.len() ==> s[a] < s[b],
    ensures
        s.subrange(1, s.len() as int).contains(c) <==> (s.contains(c) && c > s[0]),
{
    let t = s.subrange(1, s.len() as int);
    if t.contains(c) {
        let x = choose|x: int| 0 <= x < t.len() && t[x] == c;
        assert(s[x + 1] == c);
        assert(s[0] < s[x + 1]);
    }
    if s.contains(c) && c > s[0] {
        let x = choose|x: int| 0 <= x < s.len() && s[x] == c;
        assert(x != 0);
        assert(t[x - 1] == c);
    }
}

/// The catalog's characterization pins it down: any two sequences of the
/// catalog's shape are equal.
pub proof fn lemma_catalog_unique(s1: Seq<u16>, s2: Seq<u16>)
    requires
        catalog_ok(s1),
        catalog_ok(s2),
    ensures
        s1 == s2,
{
    assert forall|c: u16| s1.contains(c) <==> s2.contains(c) by {
        if s1.contains(c) {
            let m = choose|m: u16| eligible(m) && c == canonical_of(m);
            assert(s2.contains(canonical_of(m)));
        }
        if s2.contains(c) {
            let m = choose|m: u16| eligible(m) && c == canonical_of(m);
            assert(s1.contains(canonical_of(m)));
        }
    }
    lemma_sorted_unique(s1, s2);
}

/// Exactly one representative stands per symmetry class: two distinct
/// entries of a catalog-shaped sequence are never related by translation
/// and symmetry.
pub proof fn lemma_catalog_one_representative(s: Seq<u16>, a: int, b: int)
    requires
        catalog_ok(s),
        0 <= a < s.len(),
        0 <= b < s.len(),
        a != b,
    ensures
        !symmetry_related(s[a], s[b]),
{
    assert(s.contains(s[a]));
    assert(s.contains(s[b]));
    let m1 = choose|m: u16| eligible(m) && s[a] == canonical_of(m);
    let m2 = choose|m: u16| eligible(m) && s[b] == canonical_of(m);
    lemma_popcount_pos_nonzero(m1);
    lemma_popcount_pos_nonzero(m2);
    lemma_canonical_exists(m1);
    lemma_canonical_exists(m2);
    lemma_canonical_idempotent(m1, s[a]);
    lemma_canonical_idempotent(m2, s[b]);
    if symmetry_related(s[a], s[b]) {
        lemma_canonical_iff_related(s[a], s[b]);
        assert(s[a] == s[b]);
        if a < b {
            assert(s[a] < s[b]);
        } else {
            assert(s[b] < s[a]);
        }
        assert(false);
    }
}

} // verus!
