use vstd::prelude::*;

use crate::count::{head_cands, head_pais, lemma_head_pais, without_head, Count};
use crate::index::Name;

verus! {

/// Runs (three consecutive numbers) starting at position `k` of a suit, for
/// the first `runs.len()` positions; none start at 7 or 8.
pub open spec fn run_at(runs: Seq<int>, k: int) -> int {
    if 0 <= k < runs.len() && k < 7 {
        runs[k]
    } else {
        0
    }
}

/// Tiles at position `i` taken up by runs.
pub open spec fn run_cover(runs: Seq<int>, i: int) -> int {
    run_at(runs, i) + run_at(runs, i - 1) + run_at(runs, i - 2)
}

/// Taking `runs[k]` runs from each position `k`, what is left of every one of
/// the nine numbers is a whole number of triplets.
pub open spec fn fits_runs(s: Seq<u8>, runs: Seq<int>) -> bool {
    &&& runs.len() == 7
    &&& forall|k: int| 0 <= k < 7 ==> runs[k] >= 0
    &&& forall|i: int|
        0 <= i < 9 ==> s[i] - run_cover(runs, i) >= 0 && (s[i] - run_cover(runs, i)) % 3 == 0
}

/// The nine counts of a numbered suit split entirely into runs and triplets.
pub open spec fn suit_melds(s: Seq<u8>) -> bool {
    exists|runs: Seq<int>| fits_runs(s, runs)
}

/// Every count is a whole number of triplets.
pub open spec fn all_triplets(s: Seq<u8>) -> bool {
    forall|i: int| 0 <= i < s.len() ==> s[i] % 3 == 0
}

/// All 34 counts split into melds: runs and triplets in each numbered suit,
/// triplets among the honours.
pub open spec fn all_melds(s: Seq<u8>) -> bool {
    &&& suit_melds(s.subrange(0, 9))
    &&& suit_melds(s.subrange(9, 18))
    &&& suit_melds(s.subrange(18, 27))
    &&& all_triplets(s.subrange(27, 34))
}

/// A head (two of one kind) and melds for all the rest.
pub open spec fn standard_agari(s: Seq<u8>) -> bool {
    exists|p: int| 0 <= p < 34 && s[p] >= 2 && #[trigger] all_melds(without_head(s, p))
}

/// Whether the first nine counts split into runs and triplets. Runs from a
/// position can be taken three at a time as triplets instead, so the number of
/// runs started at each position is the count left there, modulo three.
pub fn is_mentsu(c: &[u8]) -> (r: bool)
    requires
        c@.len() >= 9,
    ensures
        r == suit_melds(c@),
{
    let ghost s = c@;
    let (mut a, mut b) = (c[0], c[1]);
    let ghost mut g: Seq<int> = Seq::empty();
    let mut i: usize = 0;
    while i < 7
        invariant
            s == c@,
            s.len() >= 9,
            0 <= i <= 7,
            g.len() == i,
            forall|k: int| 0 <= k < i ==> 0 <= #[trigger] g[k] < 3,
            a == s[i as int] - run_cover(g, i as int),
            b == s[i + 1] - run_cover(g, i + 1),
            forall|j: int|
                0 <= j < i ==> s[j] - #[trigger] run_cover(g, j) >= 0 && (s[j] - run_cover(g, j)) % 3
                    == 0,
            forall|runs: Seq<int>|
                #[trigger] fits_runs(s, runs) ==> forall|k: int|
                    0 <= k < i ==> #[trigger] g[k] <= runs[k] && (runs[k] - g[k]) % 3 == 0,
        decreases 7 - i,
    {
        let r = a % 3;
        proof {
            assert forall|runs: Seq<int>| #[trigger] fits_runs(s, runs) implies r <= runs[i as int]
                && (runs[i as int] - r) % 3 == 0 && b >= r && s[i + 2] >= r by {
                assert(s[i as int] - run_cover(runs, i as int) >= 0);
                assert((s[i as int] - run_cover(runs, i as int)) % 3 == 0);
                assert(s[i + 1] - run_cover(runs, i + 1) >= 0);
                assert(s[i + 2] - run_cover(runs, i + 2) >= 0);
                if i >= 1 {
                    assert(g[i - 1] <= runs[i - 1] && (runs[i - 1] - g[i - 1]) % 3 == 0);
                }
                if i >= 2 {
                    assert(g[i - 2] <= runs[i - 2] && (runs[i - 2] - g[i - 2]) % 3 == 0);
                }
                assert(runs[i as int] >= 0);
                if i + 1 < 7 {
                    assert(runs[i + 1] >= 0);
                }
            }
        }
        if b >= r && c[i + 2] >= r {
            let ghost g0 = g;
            proof {
                g = g.push(r as int);
                assert forall|k: int| 0 <= k < i + 3 && k != i implies run_at(g, k) == run_at(g0, k)
                    by {}
                assert(run_at(g, i as int) == r);
                assert forall|j: int| 0 <= j < i + 1 implies s[j] - #[trigger] run_cover(g, j) >= 0
                    && (s[j] - run_cover(g, j)) % 3 == 0 by {
                    if j < i {
                        assert(run_cover(g, j) == run_cover(g0, j));
                    }
                }
            }
            a = b - r;
            b = c[i + 2] - r;
            i = i + 1;
        } else {
            proof {
                assert forall|runs: Seq<int>| !fits_runs(s, runs) by {
                    if fits_runs(s, runs) {
                        assert(b >= r && s[i + 2] >= r);
                    }
                }
            }
            return false;
        }
    }
    proof {
        assert(run_cover(g, 7) == g[6] + g[5]);
        assert(run_cover(g, 8) == g[6]);
        assert forall|runs: Seq<int>| #[trigger] fits_runs(s, runs) implies a % 3 == 0 && b % 3
            == 0 by {
            assert((s[7] - run_cover(runs, 7)) % 3 == 0);
            assert((s[8] - run_cover(runs, 8)) % 3 == 0);
            assert(g[6] <= runs[6] && (runs[6] - g[6]) % 3 == 0);
            assert(g[5] <= runs[5] && (runs[5] - g[5]) % 3 == 0);
        }
        if a % 3 == 0 && b % 3 == 0 {
            assert(fits_runs(s, g));
        }
    }
    a % 3 == 0 && b % 3 == 0
}

/// Whether every count is a whole number of triplets.
pub fn is_anko(c: &[u8]) -> (r: bool)
    ensures
        r == all_triplets(c@),
{
    let mut i: usize = 0;
    while i < c.len()
        invariant
            0 <= i <= c@.len(),
            forall|j: int| 0 <= j < i ==> c@[j] % 3 == 0,
        decreases c@.len() - i,
    {
        if c[i] % 3 != 0 {
            return false;
        }
        i = i + 1;
    }
    true
}

/// Whether some head leaves counts that split entirely into melds.
pub fn is_agari(count: &Count) -> (r: bool)
    ensures
        r == standard_agari(count@),
{
    let cands = count.find_head();
    let ghost s = count@;
    let ghost hp = head_pais(s, 34);
    proof {
        lemma_head_pais(s, 34);
        assert(cands@.len() == hp.len());
    }
    let mut k: usize = 0;
    while k < cands.len()
        invariant
            s == count@,
            hp == head_pais(s, 34),
            head_cands(cands@, s),
            cands@.len() == hp.len(),
            0 <= k <= cands@.len(),
            forall|j: int| 0 <= j < k ==> !all_melds(#[trigger] without_head(s, hp[j])),
        decreases cands@.len() - k,
    {
        let c = &cands[k].1;
        let ghost rest = without_head(s, hp[k as int]);
        proof {
            assert(cands@[k as int].1@ == rest);
            assert(c@ == rest);
            assert(c.manzu@ =~= rest.subrange(0, 9));
            assert(c.pinzu@ =~= rest.subrange(9, 18));
            assert(c.souzu@ =~= rest.subrange(18, 27));
            assert(c.zupai@ =~= rest.subrange(27, 34));
        }
        if is_mentsu(&c.manzu) && is_mentsu(&c.pinzu) && is_mentsu(&c.souzu) && is_anko(&c.zupai) {
            proof {
                lemma_head_pais(s, 34);
                assert(0 <= hp[k as int] < 34 && s[hp[k as int]] >= 2);
                assert(all_melds(rest));
            }
            return true;
        }
        k = k + 1;
    }
    proof {
        lemma_head_pais(s, 34);
        assert forall|p: int| 0 <= p < 34 && s[p] >= 2 implies !#[trigger] all_melds(
            without_head(s, p),
        ) by {
            assert(hp.contains(p));
            let j = choose|j: int| 0 <= j < hp.len() && hp[j] == p;
            assert(!all_melds(without_head(s, hp[j])));
        }
    }
    false
}

} // verus!
