use vstd::prelude::*;

use crate::agari::{all_melds, all_triplets, fits_runs, run_at, run_cover, suit_melds};
use crate::count::Count;

verus! {

/// A meld: three tiles of suit `mode`, numbers `num` (a run or a triplet).
#[derive(Clone, Copy)]
pub struct Mentsu {
    pub mode: u8,
    pub num: [usize; 3],
}

impl Mentsu {
    /// All three numbers equal.
    pub open spec fn triplet(self) -> bool {
        self.num[0] == self.num[1] && self.num[1] == self.num[2]
    }

    /// An honour meld, or one holding a 1 or a 9.
    pub open spec fn with_yaochu(self) -> bool {
        ||| self.mode == 3
        ||| self.num[0] == 0 || self.num[0] == 8
        ||| self.num[1] == 0 || self.num[1] == 8
        ||| self.num[2] == 0 || self.num[2] == 8
    }

    /// A numbered-suit meld holding a 1 or a 9.
    pub open spec fn with_terminal(self) -> bool {
        self.with_yaochu() && self.mode != 3
    }

    /// The meld of suit `mode` and numbers `num`.
    pub fn new(mode: u8, num: [usize; 3]) -> (r: Self)
        ensures
            r == (Mentsu { mode, num }),
    {
        Self { mode, num }
    }

    /// Whether the meld is a triplet.
    pub fn is_anko(&self) -> (r: bool)
        ensures
            r == self.triplet(),
    {
        self.num[0] == self.num[1] && self.num[1] == self.num[2]
    }

    /// Whether the meld is of honours or holds a 1 or a 9.
    pub fn is_yaochu(&self) -> (r: bool)
        ensures
            r == self.with_yaochu(),
    {
        if self.mode == 3 {
            return true;
        }
        let mut i: usize = 0;
        while i < 3
            invariant
                0 <= i <= 3,
                self.mode != 3,
                forall|k: int| 0 <= k < i ==> self.num[k] != 0 && self.num[k] != 8,
            decreases 3 - i,
        {
            if self.num[i] == 0 || self.num[i] == 8 {
                return true;
            }
            i = i + 1;
        }
        false
    }

    /// Whether the meld is of a numbered suit and holds a 1 or a 9.
    pub fn is_jun(&self) -> (r: bool)
        ensures
            r == self.with_terminal(),
    {
        self.is_yaochu() && self.mode != 3
    }
}

/// The run `n, n+1, n+2` of suit `mode`.
pub open spec fn run_meld(mode: u8, n: int) -> Mentsu {
    Mentsu { mode, num: [n as usize, (n + 1) as usize, (n + 2) as usize] }
}

/// The triplet of number `n` of suit `mode`.
pub open spec fn triplet_meld(mode: u8, n: int) -> Mentsu {
    Mentsu { mode, num: [n as usize, n as usize, n as usize] }
}

/// Total of the nine counts of a suit.
pub open spec fn sum9(c: Seq<u8>) -> int {
    c[0] + c[1] + c[2] + c[3] + c[4] + c[5] + c[6] + c[7] + c[8]
}

/// Adds the meld `m` at the end of each decomposition.
pub open spec fn push_all(v: Seq<Seq<Mentsu>>, m: Mentsu) -> Seq<Seq<Mentsu>> {
    v.map_values(|d: Seq<Mentsu>| d.push(m))
}

/// The contents of each vector.
pub open spec fn melds_view(v: Seq<Vec<Mentsu>>) -> Seq<Seq<Mentsu>> {
    v.map_values(|d: Vec<Mentsu>| d@)
}

/// Counts `c` of one suit with one tile fewer of each of `n`, `n+1`, `n+2`.
pub open spec fn take_run(c: Seq<u8>, n: int) -> Seq<u8> {
    c.update(n, (c[n] - 1) as u8).update(n + 1, (c[n + 1] - 1) as u8).update(
        n + 2,
        (c[n + 2] - 1) as u8,
    )
}

/// Counts `c` of one suit with three tiles fewer of number `n`.
pub open spec fn take_triplet(c: Seq<u8>, n: int) -> Seq<u8> {
    c.update(n, (c[n] - 3) as u8)
}

/// Every way to split the counts of suit `mode` from number `n` on into runs
/// and triplets, in this order: at the lowest number still held, first the
/// splits that take a run from it, then those that take a triplet; each split
/// lists its melds from the highest number down. Counts that cannot be split
/// give no decomposition; no counts left give the single empty one.
pub open spec fn suit_decomps(c: Seq<u8>, mode: u8, n: int) -> Seq<Seq<Mentsu>>
    decreases sum9(c), 9 - n,
{
    if n >= 9 || n < 0 || c.len() != 9 {
        seq![Seq::empty()]
    } else if c[n] == 0 {
        suit_decomps(c, mode, n + 1)
    } else {
        let runs = if n < 7 && c[n + 1] > 0 && c[n + 2] > 0 {
            push_all(suit_decomps(take_run(c, n), mode, n), run_meld(mode, n))
        } else {
            Seq::empty()
        };
        let triplets = if c[n] >= 3 {
            push_all(suit_decomps(take_triplet(c, n), mode, n), triplet_meld(mode, n))
        } else {
            Seq::empty()
        };
        runs + triplets
    }
}

/// `x` followed by each of `b`.
pub open spec fn prepend_all(x: Seq<Mentsu>, b: Seq<Seq<Mentsu>>) -> Seq<Seq<Mentsu>> {
    b.map_values(|y: Seq<Mentsu>| x + y)
}

/// Every decomposition of `a` joined with every decomposition of `b`, the
/// first varying slowest.
pub open spec fn combine(a: Seq<Seq<Mentsu>>, b: Seq<Seq<Mentsu>>) -> Seq<Seq<Mentsu>>
    decreases a.len(),
{
    if a.len() == 0 {
        Seq::empty()
    } else {
        combine(a.drop_last(), b) + prepend_all(a.last(), b)
    }
}

/// Decompositions of the first `k` numbered suits of the 34 counts `s`.
pub open spec fn decomps_upto(s: Seq<u8>, k: int) -> Seq<Seq<Mentsu>>
    decreases k,
{
    if k <= 0 {
        seq![Seq::empty()]
    } else {
        combine(
            decomps_upto(s, k - 1),
            suit_decomps(s.subrange(9 * (k - 1), 9 * k), (k - 1) as u8, 0),
        )
    }
}

/// Every decomposition of the three numbered suits of `s` into melds (the
/// honours are not looked at): manzu splits vary slowest, souzu fastest.
pub open spec fn decompositions(s: Seq<u8>) -> Seq<Seq<Mentsu>> {
    decomps_upto(s, 3)
}

/// Pushing a vector of melds pushes its contents.
pub proof fn lemma_melds_view_push(v: Seq<Vec<Mentsu>>, x: Vec<Mentsu>)
    ensures
        melds_view(v.push(x)) == melds_view(v).push(x@),
{
    assert(melds_view(v.push(x)) =~= melds_view(v).push(x@));
}

/// Joining one more decomposition of the first list adds its joins at the end.
pub proof fn lemma_combine_step(a: Seq<Seq<Mentsu>>, b: Seq<Seq<Mentsu>>, i: int)
    requires
        0 <= i < a.len(),
    ensures
        combine(a.take(i + 1), b) == combine(a.take(i), b) + prepend_all(a[i], b),
{
    assert(a.take(i + 1).drop_last() =~= a.take(i));
}

/// A decomposition whose melds are of the numbered suits with numbers below 9,
/// with at most `bound / 3` melds.
pub open spec fn melds_ok(d: Seq<Mentsu>, bound: int) -> bool {
    &&& 3 * d.len() <= bound
    &&& forall|i: int| 0 <= i < d.len() ==> (#[trigger] d[i]).mode < 3 && d[i].num[0] < 9
}

proof fn lemma_push_all_ok(x: Seq<Seq<Mentsu>>, m: Mentsu, bound: int)
    requires
        forall|k: int| 0 <= k < x.len() ==> melds_ok(#[trigger] x[k], bound - 3),
        m.mode < 3,
        m.num[0] < 9,
    ensures
        forall|k: int| 0 <= k < push_all(x, m).len() ==> melds_ok(#[trigger] push_all(x, m)[k], bound),
{
    assert forall|k: int| 0 <= k < push_all(x, m).len() implies melds_ok(#[trigger] push_all(x, m)[k], bound) by {
        let d = x[k];
        assert(melds_ok(d, bound - 3));
        assert(push_all(x, m)[k] == d.push(m));
        assert forall|i: int| 0 <= i < d.push(m).len() implies (#[trigger] d.push(m)[i]).mode < 3
            && d.push(m)[i].num[0] < 9 by {
            if i < d.len() {
                assert(d.push(m)[i] == d[i]);
            }
        }
    }
}

proof fn lemma_concat_ok(a: Seq<Seq<Mentsu>>, b: Seq<Seq<Mentsu>>, bound: int)
    requires
        forall|k: int| 0 <= k < a.len() ==> melds_ok(#[trigger] a[k], bound),
        forall|k: int| 0 <= k < b.len() ==> melds_ok(#[trigger] b[k], bound),
    ensures
        forall|k: int| 0 <= k < (a + b).len() ==> melds_ok(#[trigger] (a + b)[k], bound),
{
    assert forall|k: int| 0 <= k < (a + b).len() implies melds_ok(#[trigger] (a + b)[k], bound) by {
        if k < a.len() {
            assert((a + b)[k] == a[k]);
        } else {
            assert((a + b)[k] == b[k - a.len()]);
        }
    }
}

proof fn lemma_sum9_take(c: Seq<u8>, n: int)
    requires
        c.len() == 9,
        0 <= n < 9,
        c[n] > 0,
    ensures
        n < 7 && c[n + 1] > 0 && c[n + 2] > 0 ==> sum9(take_run(c, n)) == sum9(c) - 3,
        c[n] >= 3 ==> sum9(take_triplet(c, n)) == sum9(c) - 3,
{
}

/// Every decomposition of a suit takes a meld for each three tiles at most,
/// and its melds are of that suit with numbers below 9.
#[verifier::spinoff_prover]
#[verifier::rlimit(50)]
pub proof fn lemma_suit_decomps_ok(c: Seq<u8>, mode: u8, n: int)
    requires
        mode < 3,
    ensures
        forall|k: int|
            0 <= k < suit_decomps(c, mode, n).len() ==> melds_ok(
                #[trigger] suit_decomps(c, mode, n)[k],
                sum9(c),
            ),
    decreases sum9(c), 9 - n,
{
    if n >= 9 || n < 0 || c.len() != 9 {
        let e = Seq::<Mentsu>::empty();
        assert(suit_decomps(c, mode, n) == seq![e]);
        assert(0 <= c[0] && 0 <= c[1] && 0 <= c[2] && 0 <= c[3] && 0 <= c[4] && 0 <= c[5] && 0 <= c[6]
            && 0 <= c[7] && 0 <= c[8]);
        assert(melds_ok(e, sum9(c)));
        assert forall|k: int| 0 <= k < suit_decomps(c, mode, n).len() implies melds_ok(
            #[trigger] suit_decomps(c, mode, n)[k],
            sum9(c),
        ) by {
            assert(seq![e][k] == e);
        }
    } else if c[n] == 0 {
        lemma_suit_decomps_ok(c, mode, n + 1);
        assert(suit_decomps(c, mode, n) == suit_decomps(c, mode, n + 1));
    } else {
        lemma_sum9_take(c, n);
        let runs = if n < 7 && c[n + 1] > 0 && c[n + 2] > 0 {
            push_all(suit_decomps(take_run(c, n), mode, n), run_meld(mode, n))
        } else {
            Seq::empty()
        };
        let triplets = if c[n] >= 3 {
            push_all(suit_decomps(take_triplet(c, n), mode, n), triplet_meld(mode, n))
        } else {
            Seq::empty()
        };
        if n < 7 && c[n + 1] > 0 && c[n + 2] > 0 {
            lemma_suit_decomps_ok(take_run(c, n), mode, n);
            lemma_push_all_ok(suit_decomps(take_run(c, n), mode, n), run_meld(mode, n), sum9(c));
        }
        if c[n] >= 3 {
            lemma_suit_decomps_ok(take_triplet(c, n), mode, n);
            lemma_push_all_ok(suit_decomps(take_triplet(c, n), mode, n), triplet_meld(mode, n), sum9(c));
        }
        lemma_concat_ok(runs, triplets, sum9(c));
        assert(suit_decomps(c, mode, n) == runs + triplets);
    }
}

/// Joining decompositions adds up their bounds.
pub proof fn lemma_combine_ok(a: Seq<Seq<Mentsu>>, b: Seq<Seq<Mentsu>>, ba: int, bb: int)
    requires
        forall|k: int| 0 <= k < a.len() ==> melds_ok(#[trigger] a[k], ba),
        forall|k: int| 0 <= k < b.len() ==> melds_ok(#[trigger] b[k], bb),
    ensures
        forall|k: int| 0 <= k < combine(a, b).len() ==> melds_ok(#[trigger] combine(a, b)[k], ba + bb),
    decreases a.len(),
{
    if a.len() > 0 {
        lemma_combine_ok(a.drop_last(), b, ba, bb);
        let prev = combine(a.drop_last(), b);
        let x = a.last();
        assert(melds_ok(a[a.len() - 1], ba));
        let pa = prepend_all(x, b);
        assert forall|k: int| 0 <= k < (prev + pa).len() implies melds_ok(#[trigger] (prev + pa)[k], ba + bb)
            by {
            if k < prev.len() {
                assert((prev + pa)[k] == prev[k]);
            } else {
                let j = k - prev.len();
                assert((prev + pa)[k] == x + b[j]);
                assert(melds_ok(b[j], bb));
                assert forall|i: int| 0 <= i < (x + b[j]).len() implies (#[trigger] (x + b[j])[i]).mode < 3
                    && (x + b[j])[i].num[0] < 9 by {
                    if i < x.len() {
                        assert((x + b[j])[i] == x[i]);
                    } else {
                        assert((x + b[j])[i] == b[j][i - x.len()]);
                    }
                }
            }
        }
    }
}

/// Every decomposition of the numbered suits has at most 2295 melds, all of
/// the numbered suits, with numbers below 9.
pub proof fn lemma_decompositions_ok(s: Seq<u8>)
    requires
        s.len() == 34,
    ensures
        forall|k: int|
            0 <= k < decompositions(s).len() ==> melds_ok(#[trigger] decompositions(s)[k], 6885),
{
    assert(melds_ok(decomps_upto(s, 0)[0], 0));
    let s0 = s.subrange(0, 9);
    let s1 = s.subrange(9, 18);
    let s2 = s.subrange(18, 27);
    assert(sum9(s0) <= 2295 && sum9(s1) <= 2295 && sum9(s2) <= 2295);
    lemma_suit_decomps_ok(s0, 0, 0);
    lemma_suit_decomps_ok(s1, 1, 0);
    lemma_suit_decomps_ok(s2, 2, 0);
    assert forall|k: int| 0 <= k < suit_decomps(s0, 0, 0).len() implies melds_ok(#[trigger] suit_decomps(s0, 0, 0)[k], 2295) by {
        assert(melds_ok(suit_decomps(s0, 0, 0)[k], sum9(s0)));
    }
    assert forall|k: int| 0 <= k < suit_decomps(s1, 1, 0).len() implies melds_ok(#[trigger] suit_decomps(s1, 1, 0)[k], 2295) by {
        assert(melds_ok(suit_decomps(s1, 1, 0)[k], sum9(s1)));
    }
    assert forall|k: int| 0 <= k < suit_decomps(s2, 2, 0).len() implies melds_ok(#[trigger] suit_decomps(s2, 2, 0)[k], 2295) by {
        assert(melds_ok(suit_decomps(s2, 2, 0)[k], sum9(s2)));
    }
    lemma_combine_ok(decomps_upto(s, 0), suit_decomps(s0, 0, 0), 0, 2295);
    lemma_combine_ok(decomps_upto(s, 1), suit_decomps(s1, 1, 0), 2295, 2295);
    lemma_combine_ok(decomps_upto(s, 2), suit_decomps(s2, 2, 0), 4590, 2295);
}

/// `runs` fits the counts from number `n` on: no runs start below `n`, and
/// from `n` on what the runs leave is whole triplets.
pub open spec fn fits_from(s: Seq<u8>, runs: Seq<int>, n: int) -> bool {
    &&& runs.len() == 7
    &&& forall|k: int| 0 <= k < 7 ==> runs[k] >= 0
    &&& forall|k: int| 0 <= k < 7 && k < n ==> runs[k] == 0
    &&& forall|i: int|
        n <= i < 9 ==> s[i] - run_cover(runs, i) >= 0 && (s[i] - run_cover(runs, i)) % 3 == 0
}

#[verifier::spinoff_prover]
#[verifier::rlimit(50)]
proof fn lemma_decomps_complete(c: Seq<u8>, mode: u8, n: int, runs: Seq<int>)
    requires
        c.len() == 9,
        0 <= n,
        fits_from(c, runs, n),
    ensures
        suit_decomps(c, mode, n).len() > 0,
    decreases sum9(c), 9 - n,
{
    if n >= 9 {
        assert(suit_decomps(c, mode, n) == seq![Seq::<Mentsu>::empty()]);
    } else if c[n] == 0 {
        assert(c[n] - run_cover(runs, n) >= 0);
        assert(run_at(runs, n - 1) == 0 && run_at(runs, n - 2) == 0);
        assert(run_at(runs, n) == 0);
        assert forall|i: int| n + 1 <= i < 9 implies c[i] - run_cover(runs, i) >= 0 && (c[i] - run_cover(runs, i)) % 3 == 0 by {
            assert(n <= i < 9);
        }
        lemma_decomps_complete(c, mode, n + 1, runs);
        assert(suit_decomps(c, mode, n) == suit_decomps(c, mode, n + 1));
    } else {
        lemma_sum9_take(c, n);
        assert(run_at(runs, n - 1) == 0 && run_at(runs, n - 2) == 0);
        let runs_part = if n < 7 && c[n + 1] > 0 && c[n + 2] > 0 {
            push_all(suit_decomps(take_run(c, n), mode, n), run_meld(mode, n))
        } else {
            Seq::empty()
        };
        let triplets = if c[n] >= 3 {
            push_all(suit_decomps(take_triplet(c, n), mode, n), triplet_meld(mode, n))
        } else {
            Seq::empty()
        };
        assert(suit_decomps(c, mode, n) == runs_part + triplets);
        if run_at(runs, n) > 0 {
            assert(n < 7);
            assert(c[n + 1] - run_cover(runs, n + 1) >= 0);
            assert(c[n + 2] - run_cover(runs, n + 2) >= 0);
            assert(run_at(runs, n + 1) >= 0);
            let r2 = runs.update(n, runs[n] - 1);
            let t = take_run(c, n);
            assert forall|i: int| n <= i < 9 implies t[i] - run_cover(r2, i) >= 0 && (t[i] - run_cover(r2, i)) % 3 == 0 by {
                assert(c[i] - run_cover(runs, i) >= 0 && (c[i] - run_cover(runs, i)) % 3 == 0);
                if i == n || i == n + 1 || i == n + 2 {
                    assert(t[i] == c[i] - 1);
                    assert(run_cover(r2, i) == run_cover(runs, i) - 1);
                } else {
                    assert(t[i] == c[i]);
                    assert(run_cover(r2, i) == run_cover(runs, i));
                }
            }
            assert(fits_from(t, r2, n));
            lemma_decomps_complete(t, mode, n, r2);
            assert(runs_part.len() > 0);
        } else {
            assert(c[n] - run_cover(runs, n) >= 0 && (c[n] - run_cover(runs, n)) % 3 == 0);
            assert(c[n] >= 3);
            let t = take_triplet(c, n);
            assert forall|i: int| n <= i < 9 implies t[i] - run_cover(runs, i) >= 0 && (t[i] - run_cover(runs, i)) % 3 == 0 by {
                assert(c[i] - run_cover(runs, i) >= 0 && (c[i] - run_cover(runs, i)) % 3 == 0);
            }
            lemma_decomps_complete(t, mode, n, runs);
            assert(triplets.len() > 0);
        }
    }
}

/// Runs that fit the counts with one run fewer at `n` fit them with that run.
proof fn lemma_fits_add_run(c: Seq<u8>, n: int, r2: Seq<int>)
    requires
        c.len() == 9,
        0 <= n < 7,
        c[n] > 0,
        c[n + 1] > 0,
        c[n + 2] > 0,
        fits_from(take_run(c, n), r2, n),
    ensures
        fits_from(c, r2.update(n, r2[n] + 1), n),
{
    let t = take_run(c, n);
    let runs = r2.update(n, r2[n] + 1);
    assert forall|i: int| n <= i < 9 implies c[i] - run_cover(runs, i) >= 0 && (c[i] - run_cover(
        runs,
        i,
    )) % 3 == 0 by {
        assert(t[i] - run_cover(r2, i) >= 0 && (t[i] - run_cover(r2, i)) % 3 == 0);
        if i == n || i == n + 1 || i == n + 2 {
            assert(t[i] == c[i] - 1);
            assert(run_cover(runs, i) == run_cover(r2, i) + 1);
        } else {
            assert(t[i] == c[i]);
            assert(run_cover(runs, i) == run_cover(r2, i));
        }
    }
}

/// Runs that fit the counts with a triplet fewer at `n` fit them too.
proof fn lemma_fits_add_triplet(c: Seq<u8>, n: int, runs: Seq<int>)
    requires
        c.len() == 9,
        0 <= n < 9,
        c[n] >= 3,
        fits_from(take_triplet(c, n), runs, n),
    ensures
        fits_from(c, runs, n),
{
    let t = take_triplet(c, n);
    assert forall|i: int| n <= i < 9 implies c[i] - run_cover(runs, i) >= 0 && (c[i] - run_cover(
        runs,
        i,
    )) % 3 == 0 by {
        assert(t[i] - run_cover(runs, i) >= 0 && (t[i] - run_cover(runs, i)) % 3 == 0);
    }
}

proof fn lemma_decomps_sound(c: Seq<u8>, mode: u8, n: int)
    requires
        c.len() == 9,
        0 <= n,
        suit_decomps(c, mode, n).len() > 0,
    ensures
        exists|runs: Seq<int>| #[trigger] fits_from(c, runs, n),
    decreases sum9(c), 9 - n,
{
    if n >= 9 {
        let z = Seq::new(7, |k: int| 0int);
        assert(fits_from(c, z, n));
    } else if c[n] == 0 {
        assert(suit_decomps(c, mode, n) == suit_decomps(c, mode, n + 1));
        lemma_decomps_sound(c, mode, n + 1);
        let runs = choose|runs: Seq<int>| #[trigger] fits_from(c, runs, n + 1);
        assert(run_at(runs, n) == 0 && run_at(runs, n - 1) == 0 && run_at(runs, n - 2) == 0);
        assert(fits_from(c, runs, n));
    } else {
        lemma_sum9_take(c, n);
        let can_run = n < 7 && c[n + 1] > 0 && c[n + 2] > 0;
        let runs_part = if can_run {
            push_all(suit_decomps(take_run(c, n), mode, n), run_meld(mode, n))
        } else {
            Seq::empty()
        };
        let triplets = if c[n] >= 3 {
            push_all(suit_decomps(take_triplet(c, n), mode, n), triplet_meld(mode, n))
        } else {
            Seq::empty()
        };
        assert(suit_decomps(c, mode, n) == runs_part + triplets);
        if runs_part.len() > 0 {
            let t = take_run(c, n);
            lemma_decomps_sound(t, mode, n);
            let r2 = choose|runs: Seq<int>| #[trigger] fits_from(t, runs, n);
            lemma_fits_add_run(c, n, r2);
            assert(fits_from(c, r2.update(n, r2[n] + 1), n));
        } else {
            assert(triplets.len() > 0);
            let t = take_triplet(c, n);
            lemma_decomps_sound(t, mode, n);
            let runs = choose|runs: Seq<int>| #[trigger] fits_from(t, runs, n);
            lemma_fits_add_triplet(c, n, runs);
            assert(fits_from(c, runs, n));
        }
    }
}

/// The counts of a suit split into runs and triplets exactly when the
/// enumeration of their decompositions finds one.
pub proof fn law_melds_iff_decomposable(s: Seq<u8>, mode: u8)
    requires
        s.len() == 9,
    ensures
        suit_melds(s) <==> suit_decomps(s, mode, 0).len() > 0,
{
    if suit_melds(s) {
        let runs = choose|runs: Seq<int>| fits_runs(s, runs);
        assert(fits_from(s, runs, 0));
        lemma_decomps_complete(s, mode, 0, runs);
    }
    if suit_decomps(s, mode, 0).len() > 0 {
        lemma_decomps_sound(s, mode, 0);
        let runs = choose|runs: Seq<int>| #[trigger] fits_from(s, runs, 0);
        assert(fits_runs(s, runs));
    }
}

proof fn lemma_combine_len(a: Seq<Seq<Mentsu>>, b: Seq<Seq<Mentsu>>)
    ensures
        combine(a, b).len() == a.len() * b.len(),
    decreases a.len(),
{
    if a.len() > 0 {
        lemma_combine_len(a.drop_last(), b);
        let n = a.len() as int;
        let m = b.len() as int;
        assert((n - 1) * m + m == n * m) by (nonlinear_arith);
    }
}

/// The counts split into melds (runs and triplets in each numbered suit,
/// triplets among the honours) exactly when the honours are whole triplets
/// and the numbered suits have at least one decomposition.
pub proof fn law_melds_iff_decompositions(s: Seq<u8>)
    requires
        s.len() == 34,
    ensures
        all_melds(s) <==> (decompositions(s).len() > 0 && all_triplets(s.subrange(27, 34))),
{
    let e = Seq::<Mentsu>::empty();
    assert(decomps_upto(s, 0) == seq![e]);
    let s0 = s.subrange(0, 9);
    let s1 = s.subrange(9, 18);
    let s2 = s.subrange(18, 27);
    let a = suit_decomps(s0, 0, 0);
    let b = suit_decomps(s1, 1, 0);
    let c = suit_decomps(s2, 2, 0);
    law_melds_iff_decomposable(s0, 0);
    law_melds_iff_decomposable(s1, 1);
    law_melds_iff_decomposable(s2, 2);
    assert(decomps_upto(s, 1) == combine(decomps_upto(s, 0), a));
    assert(decomps_upto(s, 2) == combine(decomps_upto(s, 1), b));
    assert(decomps_upto(s, 3) == combine(decomps_upto(s, 2), c));
    lemma_combine_len(decomps_upto(s, 0), a);
    lemma_combine_len(decomps_upto(s, 1), b);
    lemma_combine_len(decomps_upto(s, 2), c);
    let la = a.len() as int;
    let lb = b.len() as int;
    let lc = c.len() as int;
    assert(la * lb * lc > 0 <==> (la > 0 && lb > 0 && lc > 0)) by (nonlinear_arith)
        requires
            la >= 0,
            lb >= 0,
            lc >= 0,
    ;
    assert(decompositions(s).len() == 1 * la * lb * lc);
}

/// Tiles of suit `mode` and number `i` in the meld `m`.
pub open spec fn meld_tiles(m: Mentsu, mode: u8, i: int) -> int {
    if m.mode == mode {
        (if m.num[0] as int == i { 1int } else { 0int }) + (if m.num[1] as int == i {
            1int
        } else {
            0int
        }) + (if m.num[2] as int == i { 1int } else { 0int })
    } else {
        0
    }
}

/// Tiles of suit `mode` and number `i` in all the melds of `d`.
pub open spec fn tiles_used(d: Seq<Mentsu>, mode: u8, i: int) -> int
    decreases d.len(),
{
    if d.len() == 0 {
        0
    } else {
        tiles_used(d.drop_last(), mode, i) + meld_tiles(d.last(), mode, i)
    }
}

proof fn lemma_tiles_used_concat(x: Seq<Mentsu>, y: Seq<Mentsu>, mode: u8, i: int)
    ensures
        tiles_used(x + y, mode, i) == tiles_used(x, mode, i) + tiles_used(y, mode, i),
    decreases y.len(),
{
    if y.len() == 0 {
        assert(x + y =~= x);
    } else {
        lemma_tiles_used_concat(x, y.drop_last(), mode, i);
        assert((x + y).drop_last() =~= x + y.drop_last());
    }
}

/// What a split of one suit from number `n` on uses: the counts from `n` on.
pub open spec fn suit_tiles(c: Seq<u8>, mode: u8, n: int, md: u8, i: int) -> int {
    if md == mode && n <= i < 9 {
        c[i] as int
    } else {
        0
    }
}

#[verifier::spinoff_prover]
#[verifier::rlimit(50)]
proof fn lemma_suit_decomps_tiles(c: Seq<u8>, mode: u8, n: int)
    requires
        c.len() == 9,
        0 <= n,
    ensures
        forall|k: int, md: u8, i: int|
            0 <= k < suit_decomps(c, mode, n).len() ==> #[trigger] tiles_used(
                suit_decomps(c, mode, n)[k],
                md,
                i,
            ) == suit_tiles(c, mode, n, md, i),
    decreases sum9(c), 9 - n,
{
    if n >= 9 {
        let e = Seq::<Mentsu>::empty();
        assert(suit_decomps(c, mode, n) == seq![e]);
        assert forall|k: int, md: u8, i: int|
            0 <= k < suit_decomps(c, mode, n).len() implies #[trigger] tiles_used(
            suit_decomps(c, mode, n)[k],
            md,
            i,
        ) == suit_tiles(c, mode, n, md, i) by {
            assert(seq![e][k] == e);
        }
    } else if c[n] == 0 {
        lemma_suit_decomps_tiles(c, mode, n + 1);
        assert(suit_decomps(c, mode, n) == suit_decomps(c, mode, n + 1));
        assert forall|k: int, md: u8, i: int|
            0 <= k < suit_decomps(c, mode, n).len() implies #[trigger] tiles_used(
            suit_decomps(c, mode, n)[k],
            md,
            i,
        ) == suit_tiles(c, mode, n, md, i) by {
            assert(tiles_used(suit_decomps(c, mode, n + 1)[k], md, i) == suit_tiles(
                c,
                mode,
                n + 1,
                md,
                i,
            ));
        }
    } else {
        lemma_sum9_take(c, n);
        let can_run = n < 7 && c[n + 1] > 0 && c[n + 2] > 0;
        let runs = if can_run {
            push_all(suit_decomps(take_run(c, n), mode, n), run_meld(mode, n))
        } else {
            Seq::empty()
        };
        let triplets = if c[n] >= 3 {
            push_all(suit_decomps(take_triplet(c, n), mode, n), triplet_meld(mode, n))
        } else {
            Seq::empty()
        };
        assert(suit_decomps(c, mode, n) == runs + triplets);
        if can_run {
            lemma_suit_decomps_tiles(take_run(c, n), mode, n);
        }
        if c[n] >= 3 {
            lemma_suit_decomps_tiles(take_triplet(c, n), mode, n);
        }
        assert forall|k: int, md: u8, i: int|
            0 <= k < suit_decomps(c, mode, n).len() implies #[trigger] tiles_used(
            suit_decomps(c, mode, n)[k],
            md,
            i,
        ) == suit_tiles(c, mode, n, md, i) by {
            if k < runs.len() {
                let t = take_run(c, n);
                let sub = suit_decomps(t, mode, n);
                assert((runs + triplets)[k] == runs[k]);
                assert(runs[k] == sub[k].push(run_meld(mode, n)));
                assert(sub[k].push(run_meld(mode, n)).drop_last() =~= sub[k]);
                assert(tiles_used(sub[k], md, i) == suit_tiles(t, mode, n, md, i));
            } else {
                let t = take_triplet(c, n);
                let sub = suit_decomps(t, mode, n);
                let j = k - runs.len();
                assert((runs + triplets)[k] == triplets[j]);
                assert(triplets[j] == sub[j].push(triplet_meld(mode, n)));
                assert(sub[j].push(triplet_meld(mode, n)).drop_last() =~= sub[j]);
                assert(tiles_used(sub[j], md, i) == suit_tiles(t, mode, n, md, i));
            }
        }
    }
}

proof fn lemma_combine_elem(a: Seq<Seq<Mentsu>>, b: Seq<Seq<Mentsu>>, j: int) -> (pq: (int, int))
    requires
        0 <= j < combine(a, b).len(),
    ensures
        0 <= pq.0 < a.len(),
        0 <= pq.1 < b.len(),
        combine(a, b)[j] == a[pq.0] + b[pq.1],
    decreases a.len(),
{
    let prev = combine(a.drop_last(), b);
    let pa = prepend_all(a.last(), b);
    assert(combine(a, b) == prev + pa);
    if j < prev.len() {
        let pq = lemma_combine_elem(a.drop_last(), b, j);
        assert((prev + pa)[j] == prev[j]);
        pq
    } else {
        let q = j - prev.len();
        assert((prev + pa)[j] == pa[q]);
        (a.len() - 1, q)
    }
}

/// What the splits of the first `k` numbered suits use.
pub open spec fn upto_tiles(s: Seq<u8>, k: int, md: u8, i: int) -> int {
    if md < k && 0 <= i < 9 {
        s[9 * md + i] as int
    } else {
        0
    }
}

proof fn lemma_decomps_upto_tiles(s: Seq<u8>, k: int)
    requires
        s.len() == 34,
        0 <= k <= 3,
    ensures
        forall|j: int, md: u8, i: int|
            0 <= j < decomps_upto(s, k).len() ==> #[trigger] tiles_used(decomps_upto(s, k)[j], md, i)
                == upto_tiles(s, k, md, i),
    decreases k,
{
    if k == 0 {
        let e = Seq::<Mentsu>::empty();
        assert(decomps_upto(s, 0) == seq![e]);
        assert forall|j: int, md: u8, i: int|
            0 <= j < decomps_upto(s, k).len() implies #[trigger] tiles_used(
            decomps_upto(s, k)[j],
            md,
            i,
        ) == upto_tiles(s, k, md, i) by {
            assert(seq![e][j] == e);
        }
    } else {
        lemma_decomps_upto_tiles(s, k - 1);
        let a = decomps_upto(s, k - 1);
        let sub = s.subrange(9 * (k - 1), 9 * k);
        let b = suit_decomps(sub, (k - 1) as u8, 0);
        lemma_suit_decomps_tiles(sub, (k - 1) as u8, 0);
        assert(decomps_upto(s, k) == combine(a, b));
        assert forall|j: int, md: u8, i: int|
            0 <= j < decomps_upto(s, k).len() implies #[trigger] tiles_used(
            decomps_upto(s, k)[j],
            md,
            i,
        ) == upto_tiles(s, k, md, i) by {
            let pq = lemma_combine_elem(a, b, j);
            lemma_tiles_used_concat(a[pq.0], b[pq.1], md, i);
            assert(tiles_used(a[pq.0], md, i) == upto_tiles(s, k - 1, md, i));
            assert(tiles_used(b[pq.1], md, i) == suit_tiles(sub, (k - 1) as u8, 0, md, i));
        }
    }
}

/// Each split of the numbered suits uses every tile of those suits exactly
/// once, and no honour.
pub proof fn law_decompositions_use_every_tile(s: Seq<u8>, k: int, md: u8, i: int)
    requires
        s.len() == 34,
        0 <= k < decompositions(s).len(),
    ensures
        tiles_used(decompositions(s)[k], md, i) == (if md < 3 && 0 <= i < 9 {
            s[9 * md + i] as int
        } else {
            0
        }),
{
    lemma_decomps_upto_tiles(s, 3);
    assert(tiles_used(decomps_upto(s, 3)[k], md, i) == upto_tiles(s, 3, md, i));
}

/// A copy of a list of melds.
fn copy_melds(v: &Vec<Mentsu>) -> (r: Vec<Mentsu>)
    ensures
        r@ == v@,
{
    let mut r: Vec<Mentsu> = Vec::new();
    let mut i: usize = 0;
    while i < v.len()
        invariant
            0 <= i <= v@.len(),
            r@ == v@.take(i as int),
        decreases v@.len() - i,
    {
        r.push(v[i]);
        i = i + 1;
        assert(r@ =~= v@.take(i as int));
    }
    assert(v@.take(v@.len() as int) =~= v@);
    r
}

/// Each decomposition of `v` with the meld `m` added at the end.
fn push_each(v: &Vec<Vec<Mentsu>>, m: Mentsu) -> (r: Vec<Vec<Mentsu>>)
    ensures
        melds_view(r@) == push_all(melds_view(v@), m),
{
    let mut r: Vec<Vec<Mentsu>> = Vec::new();
    let mut i: usize = 0;
    while i < v.len()
        invariant
            0 <= i <= v@.len(),
            melds_view(r@) == push_all(melds_view(v@), m).take(i as int),
        decreases v@.len() - i,
    {
        let mut d = copy_melds(&v[i]);
        d.push(m);
        let ghost r0 = r@;
        r.push(d);
        proof {
            lemma_melds_view_push(r0, d);
        }
        i = i + 1;
        assert(melds_view(r@) =~= push_all(melds_view(v@), m).take(i as int));
    }
    assert(push_all(melds_view(v@), m).take(v@.len() as int) =~= push_all(melds_view(v@), m));
    r
}

/// All of `a` followed by all of `b`.
fn append_all(a: Vec<Vec<Mentsu>>, b: &Vec<Vec<Mentsu>>) -> (r: Vec<Vec<Mentsu>>)
    ensures
        melds_view(r@) == melds_view(a@) + melds_view(b@),
{
    let mut r = a;
    let ghost a0 = melds_view(r@);
    let mut i: usize = 0;
    while i < b.len()
        invariant
            0 <= i <= b@.len(),
            melds_view(r@) == a0 + melds_view(b@).take(i as int),
        decreases b@.len() - i,
    {
        let d = copy_melds(&b[i]);
        let ghost r0 = r@;
        r.push(d);
        proof {
            lemma_melds_view_push(r0, d);
        }
        i = i + 1;
        assert(melds_view(r@) =~= a0 + melds_view(b@).take(i as int));
    }
    assert(melds_view(b@).take(b@.len() as int) =~= melds_view(b@));
    r
}

fn _decomp(c: &mut [u8; 9], mode: u8, n: usize) -> (r: Vec<Vec<Mentsu>>)
    ensures
        final(c)@ == old(c)@,
        melds_view(r@) == suit_decomps(old(c)@, mode, n as int),
    decreases sum9(old(c)@), 9 - n,
{
    if n >= 9 {
        let r = vec![Vec::new()];
        assert(melds_view(r@) =~= seq![Seq::<Mentsu>::empty()]);
        return r;
    }
    if c[n] == 0 {
        return _decomp(c, mode, n + 1);
    }
    let ghost c0 = c@;
    let mut shuntsu: Vec<Vec<Mentsu>> = Vec::new();
    if n < 7 && c[n] > 0 && c[n + 1] > 0 && c[n + 2] > 0 {
        c[n] = c[n] - 1;
        c[n + 1] = c[n + 1] - 1;
        c[n + 2] = c[n + 2] - 1;
        assert(c@ =~= take_run(c0, n as int));
        let sub = _decomp(c, mode, n);
        shuntsu = push_each(&sub, Mentsu::new(mode, [n, n + 1, n + 2]));
        c[n] = c[n] + 1;
        c[n + 1] = c[n + 1] + 1;
        c[n + 2] = c[n + 2] + 1;
        assert(c@ =~= c0);
    }
    assert(melds_view(shuntsu@) =~= (if n < 7 && c0[n + 1] > 0 && c0[n + 2] > 0 {
        push_all(suit_decomps(take_run(c0, n as int), mode, n as int), run_meld(mode, n as int))
    } else {
        Seq::empty()
    }));
    let mut koutsu: Vec<Vec<Mentsu>> = Vec::new();
    if c[n] >= 3 {
        c[n] = c[n] - 3;
        assert(c@ =~= take_triplet(c0, n as int));
        let sub = _decomp(c, mode, n);
        c[n] = c[n] + 3;
        assert(c@ =~= c0);
        koutsu = push_each(&sub, Mentsu::new(mode, [n, n, n]));
    }
    assert(melds_view(koutsu@) =~= (if c0[n as int] >= 3 {
        push_all(suit_decomps(take_triplet(c0, n as int), mode, n as int), triplet_meld(mode, n as int))
    } else {
        Seq::empty()
    }));
    append_all(shuntsu, &koutsu)
}

/// Every decomposition of `va` joined with every one of `vsub`.
fn combine_exec(v_all: &Vec<Vec<Mentsu>>, v_sub: &Vec<Vec<Mentsu>>) -> (r: Vec<Vec<Mentsu>>)
    ensures
        melds_view(r@) == combine(melds_view(v_all@), melds_view(v_sub@)),
{
    let ghost a = melds_view(v_all@);
    let ghost b = melds_view(v_sub@);
    let mut v_new: Vec<Vec<Mentsu>> = Vec::new();
    let mut i: usize = 0;
    assert(a.take(0) =~= Seq::<Seq<Mentsu>>::empty());
    while i < v_all.len()
        invariant
            a == melds_view(v_all@),
            b == melds_view(v_sub@),
            0 <= i <= v_all@.len(),
            melds_view(v_new@) == combine(a.take(i as int), b),
        decreases v_all@.len() - i,
    {
        let ghost before = melds_view(v_new@);
        let mut j: usize = 0;
        while j < v_sub.len()
            invariant
                a == melds_view(v_all@),
                b == melds_view(v_sub@),
                0 <= i < v_all@.len(),
                0 <= j <= v_sub@.len(),
                melds_view(v_new@) == before + prepend_all(a[i as int], b).take(j as int),
            decreases v_sub@.len() - j,
        {
            let mut v = copy_melds(&v_all[i]);
            let vs = &v_sub[j];
            let mut k: usize = 0;
            while k < vs.len()
                invariant
                    0 <= k <= vs@.len(),
                    v@ == v_all@[i as int]@ + vs@.take(k as int),
                decreases vs@.len() - k,
            {
                v.push(vs[k]);
                k = k + 1;
                assert(v@ =~= v_all@[i as int]@ + vs@.take(k as int));
            }
            assert(vs@.take(vs@.len() as int) =~= vs@);
            let ghost r0 = v_new@;
            v_new.push(v);
            proof {
                lemma_melds_view_push(r0, v);
            }
            j = j + 1;
            assert(melds_view(v_new@) =~= before + prepend_all(a[i as int], b).take(j as int));
        }
        assert(prepend_all(a[i as int], b).take(v_sub@.len() as int) =~= prepend_all(a[i as int], b));
        proof {
            lemma_combine_step(a, b, i as int);
        }
        i = i + 1;
    }
    assert(a.take(v_all@.len() as int) =~= a);
    v_new
}

/// Every way to split the three numbered suits of `c` into melds.
pub fn decompose(c: &Count) -> (r: Vec<Vec<Mentsu>>)
    ensures
        melds_view(r@) == decompositions(c@),
{
    let mut v_all: Vec<Vec<Mentsu>> = vec![Vec::new()];
    assert(melds_view(v_all@) =~= decomps_upto(c@, 0));
    let suits: [[u8; 9]; 3] = [c.manzu, c.pinzu, c.souzu];
    assert(suits@[0]@ =~= c@.subrange(0, 9));
    assert(suits@[1]@ =~= c@.subrange(9, 18));
    assert(suits@[2]@ =~= c@.subrange(18, 27));
    let mut i: usize = 0;
    while i < 3
        invariant
            0 <= i <= 3,
            forall|k: int| 0 <= k < 3 ==> (#[trigger] suits@[k])@ == c@.subrange(9 * k, 9 * k + 9),
            melds_view(v_all@) == decomps_upto(c@, i as int),
        decreases 3 - i,
    {
        let mut ci = suits[i];
        let v_sub = _decomp(&mut ci, i as u8, 0);
        v_all = combine_exec(&v_all, &v_sub);
        i = i + 1;
    }
    v_all
}

impl PartialEq for Mentsu {
    fn eq(&self, other: &Self) -> (r: bool) {
        let r = self.mode == other.mode && self.num[0] == other.num[0] && self.num[1] == other.num[1]
            && self.num[2] == other.num[2];
        proof {
            if r {
                assert(self.num =~= other.num);
            }
        }
        r
    }
}

impl vstd::std_specs::cmp::PartialEqSpecImpl for Mentsu {
    open spec fn obeys_eq_spec() -> bool {
        true
    }

    open spec fn eq_spec(&self, other: &Self) -> bool {
        self.mode == other.mode && self.num[0] == other.num[0] && self.num[1] == other.num[1]
            && self.num[2] == other.num[2]
    }
}

} // verus!
