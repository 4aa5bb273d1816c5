use vstd::prelude::*;

use crate::calc::{
    all_yaochu, chanta_han, covers_suit, douko, doujun, doujun_at, equal_after, first_repeat_from,
    han_of, has_run, holds_honour, ikki, kan_nums, other_repeats_from, peiko_han, run_like,
    same_runs_between, suits_used, triplet_count, triplet_nums, uses_suit, yakuhai_melds,
    yakuhai_of,
};
use crate::index::Name;
use crate::mentsu::Mentsu;

verus! {

// ---------------------------------------------------------------- sums over melds

/// Sum of `f` over the melds of `s`.
pub open spec fn msum(s: Seq<Mentsu>, f: spec_fn(Mentsu) -> int) -> int
    decreases s.len(),
{
    if s.len() == 0 {
        0
    } else {
        msum(s.drop_last(), f) + f(s.last())
    }
}

proof fn lemma_msum_concat(a: Seq<Mentsu>, b: Seq<Mentsu>, f: spec_fn(Mentsu) -> int)
    ensures
        msum(a + b, f) == msum(a, f) + msum(b, f),
    decreases b.len(),
{
    if b.len() == 0 {
        assert(a + b =~= a);
    } else {
        lemma_msum_concat(a, b.drop_last(), f);
        assert((a + b).drop_last() =~= a + b.drop_last());
    }
}

/// `s` split around its meld `i`.
proof fn lemma_msum_split(s: Seq<Mentsu>, f: spec_fn(Mentsu) -> int, i: int)
    requires
        0 <= i < s.len(),
    ensures
        msum(s, f) == msum(s.take(i), f) + f(s[i]) + msum(s.subrange(i + 1, s.len() as int), f),
        msum(s.remove(i), f) == msum(s.take(i), f) + msum(s.subrange(i + 1, s.len() as int), f),
{
    let a = s.take(i);
    let b = s.subrange(i + 1, s.len() as int);
    assert(s =~= a + seq![s[i]] + b);
    assert(s.remove(i) =~= a + b);
    lemma_msum_concat(a + seq![s[i]], b, f);
    lemma_msum_concat(a, seq![s[i]], f);
    lemma_msum_concat(a, b, f);
    assert(seq![s[i]].drop_last() =~= Seq::<Mentsu>::empty());
    assert(msum(seq![s[i]], f) == msum(Seq::<Mentsu>::empty(), f) + f(s[i]));
}

/// A sum over the melds does not depend on their order.
pub proof fn lemma_msum_perm(s1: Seq<Mentsu>, s2: Seq<Mentsu>, f: spec_fn(Mentsu) -> int)
    requires
        s1.to_multiset() == s2.to_multiset(),
    ensures
        msum(s1, f) == msum(s2, f),
    decreases s1.len(),
{
    broadcast use vstd::seq_lib::group_to_multiset_ensures;
    broadcast use vstd::multiset::group_multiset_axioms;

    if s1.len() == 0 {
        assert(s1.to_multiset().len() == 0);
        assert(s2.to_multiset().len() == s2.len());
    } else {
        let x = s1.last();
        let t1 = s1.drop_last();
        assert(s1 =~= t1.push(x));
        assert(s1.to_multiset().count(x) > 0);
        assert(s2.contains(x));
        let j = choose|j: int| 0 <= j < s2.len() && s2[j] == x;
        let t2 = s2.remove(j);
        assert(t1.to_multiset() =~= t2.to_multiset());
        lemma_msum_perm(t1, t2, f);
        lemma_msum_split(s2, f, j);
    }
}


proof fn lemma_perm_contains(s1: Seq<Mentsu>, s2: Seq<Mentsu>, m: Mentsu)
    requires
        s1.to_multiset() == s2.to_multiset(),
    ensures
        s1.contains(m) <==> s2.contains(m),
{
    broadcast use vstd::seq_lib::group_to_multiset_ensures;

    assert(s1.contains(m) <==> s1.to_multiset().count(m) > 0);
    assert(s2.contains(m) <==> s2.to_multiset().count(m) > 0);
}

/// Some meld of `s1` meets `p` exactly when some meld of a reordering does.
proof fn lemma_perm_exists(s1: Seq<Mentsu>, s2: Seq<Mentsu>, p: spec_fn(Mentsu) -> bool)
    requires
        s1.to_multiset() == s2.to_multiset(),
    ensures
        (exists|i: int| 0 <= i < s1.len() && p(#[trigger] s1[i])) <==> (exists|i: int|
            0 <= i < s2.len() && p(#[trigger] s2[i])),
{
    if exists|i: int| 0 <= i < s1.len() && p(#[trigger] s1[i]) {
        let i = choose|i: int| 0 <= i < s1.len() && p(#[trigger] s1[i]);
        lemma_perm_contains(s1, s2, s1[i]);
        assert(s1.contains(s1[i]));
        let j = choose|j: int| 0 <= j < s2.len() && s2[j] == s1[i];
        assert(p(s2[j]));
    }
    if exists|i: int| 0 <= i < s2.len() && p(#[trigger] s2[i]) {
        let i = choose|i: int| 0 <= i < s2.len() && p(#[trigger] s2[i]);
        lemma_perm_contains(s1, s2, s2[i]);
        assert(s2.contains(s2[i]));
        let j = choose|j: int| 0 <= j < s1.len() && s1[j] == s2[i];
        assert(p(s1[j]));
    }
}

/// Every meld of `s1` meets `p` exactly when every meld of a reordering does.
proof fn lemma_perm_forall(s1: Seq<Mentsu>, s2: Seq<Mentsu>, p: spec_fn(Mentsu) -> bool)
    requires
        s1.to_multiset() == s2.to_multiset(),
    ensures
        (forall|i: int| 0 <= i < s1.len() ==> p(#[trigger] s1[i])) <==> (forall|i: int|
            0 <= i < s2.len() ==> p(#[trigger] s2[i])),
{
    let q = |m: Mentsu| !p(m);
    lemma_perm_exists(s1, s2, q);
    if !(forall|i: int| 0 <= i < s1.len() ==> p(#[trigger] s1[i])) {
        let i = choose|i: int| !(0 <= i < s1.len() ==> p(#[trigger] s1[i]));
        assert(q(s1[i]));
    }
    if !(forall|i: int| 0 <= i < s2.len() ==> p(#[trigger] s2[i])) {
        let i = choose|i: int| !(0 <= i < s2.len() ==> p(#[trigger] s2[i]));
        assert(q(s2[i]));
    }
}

/// Han for the honour triplets among the melds.
pub open spec fn yakuhai_f(ba: usize, cha: usize) -> spec_fn(Mentsu) -> int {
    |m: Mentsu| if m.mode == 3 { yakuhai_of(m.num[0], ba, cha) } else { 0int }
}

/// One for a triplet.
pub open spec fn triplet_f() -> spec_fn(Mentsu) -> int {
    |m: Mentsu| if m.triplet() { 1int } else { 0int }
}

proof fn lemma_yakuhai_msum(s: Seq<Mentsu>, ba: usize, cha: usize)
    ensures
        yakuhai_melds(s, ba, cha) == msum(s, yakuhai_f(ba, cha)),
        triplet_count(s) == msum(s, triplet_f()),
    decreases s.len(),
{
    if s.len() > 0 {
        lemma_yakuhai_msum(s.drop_last(), ba, cha);
    }
}


// ---------------------------------------------------------------- triplet numbers

/// Occurrences of `v` in `ks`.
pub open spec fn vcount(ks: Seq<usize>, v: usize) -> nat
    decreases ks.len(),
{
    if ks.len() == 0 {
        0
    } else {
        vcount(ks.drop_last(), v) + if ks.last() == v {
            1nat
        } else {
            0nat
        }
    }
}

proof fn lemma_vcount_concat(a: Seq<usize>, b: Seq<usize>, v: usize)
    ensures
        vcount(a + b, v) == vcount(a, v) + vcount(b, v),
    decreases b.len(),
{
    if b.len() == 0 {
        assert(a + b =~= a);
    } else {
        lemma_vcount_concat(a, b.drop_last(), v);
        assert((a + b).drop_last() =~= a + b.drop_last());
    }
}

/// One for a triplet of number `v`.
pub open spec fn triplet_num_f(v: usize) -> spec_fn(Mentsu) -> int {
    |m: Mentsu| if m.triplet() && m.num[0] == v { 1int } else { 0int }
}

proof fn lemma_vcount_triplets(s: Seq<Mentsu>, v: usize)
    ensures
        vcount(triplet_nums(s), v) == msum(s, triplet_num_f(v)),
    decreases s.len(),
{
    if s.len() > 0 {
        lemma_vcount_triplets(s.drop_last(), v);
        if s.last().triplet() {
            assert(triplet_nums(s).drop_last() =~= triplet_nums(s.drop_last()));
        }
    }
}

proof fn lemma_equal_after_count(ks: Seq<usize>, i: int, j: int)
    requires
        0 <= i < j <= ks.len(),
    ensures
        equal_after(ks, i, j) == vcount(ks.subrange(i + 1, j), ks[i]),
    decreases j - i,
{
    if j > i + 1 {
        lemma_equal_after_count(ks, i, j - 1);
        assert(ks.subrange(i + 1, j).drop_last() =~= ks.subrange(i + 1, j - 1));
    } else {
        assert(ks.subrange(i + 1, j) =~= Seq::<usize>::empty());
    }
}

proof fn lemma_vcount_step(ks: Seq<usize>, v: usize, a: int)
    requires
        0 <= a < ks.len(),
    ensures
        vcount(ks.subrange(a, ks.len() as int), v) == (if ks[a] == v {
            1int
        } else {
            0int
        }) + vcount(ks.subrange(a + 1, ks.len() as int), v),
{
    let n = ks.len() as int;
    assert(ks.subrange(a, n) =~= seq![ks[a]] + ks.subrange(a + 1, n));
    lemma_vcount_concat(seq![ks[a]], ks.subrange(a + 1, n), v);
    assert(seq![ks[a]].drop_last() =~= Seq::<usize>::empty());
    assert(vcount(seq![ks[a]], v) == vcount(Seq::<usize>::empty(), v) + if ks[a] == v {
        1nat
    } else {
        0nat
    });
}

proof fn lemma_vcount_find(ks: Seq<usize>, v: usize, a: int)
    requires
        0 <= a <= ks.len(),
        vcount(ks.subrange(a, ks.len() as int), v) >= 3,
    ensures
        exists|i: int|
            a <= i < ks.len() && ks[i] == v && #[trigger] vcount(ks.subrange(i + 1, ks.len() as int), v)
                == 2,
    decreases ks.len() - a,
{
    let n = ks.len() as int;
    if a == n {
        assert(ks.subrange(a, n) =~= Seq::<usize>::empty());
    } else {
        lemma_vcount_step(ks, v, a);
        if vcount(ks.subrange(a + 1, n), v) >= 3 {
            lemma_vcount_find(ks, v, a + 1);
        } else {
            assert(vcount(ks.subrange(a + 1, n), v) == 2);
        }
    }
}

/// Sanshoku doukou holds exactly when some number occurs three times.
proof fn lemma_douko_count(ks: Seq<usize>)
    ensures
        douko(ks) <==> exists|v: usize| #[trigger] vcount(ks, v) >= 3,
{
    let n = ks.len() as int;
    if douko(ks) {
        let i = choose|i: int| 0 <= i < n && #[trigger] equal_after(ks, i, n) == 2;
        lemma_equal_after_count(ks, i, n);
        let a = ks.take(i);
        let b = ks.subrange(i + 1, n);
        assert(ks =~= a + seq![ks[i]] + b);
        lemma_vcount_concat(a + seq![ks[i]], b, ks[i]);
        lemma_vcount_concat(a, seq![ks[i]], ks[i]);
        assert(seq![ks[i]].drop_last() =~= Seq::<usize>::empty());
        assert(vcount(ks, ks[i]) >= 3);
    }
    if exists|v: usize| #[trigger] vcount(ks, v) >= 3 {
        let v = choose|v: usize| #[trigger] vcount(ks, v) >= 3;
        assert(ks.subrange(0, n) =~= ks);
        lemma_vcount_find(ks, v, 0);
        let i = choose|i: int|
            0 <= i < n && ks[i] == v && #[trigger] vcount(ks.subrange(i + 1, n), v) == 2;
        lemma_equal_after_count(ks, i, n);
        assert(equal_after(ks, i, n) == 2);
    }
}

proof fn lemma_douko_perm(s1: Seq<Mentsu>, s2: Seq<Mentsu>, kan: Seq<Name>)
    requires
        s1.to_multiset() == s2.to_multiset(),
    ensures
        douko(triplet_nums(s1) + kan_nums(kan)) == douko(triplet_nums(s2) + kan_nums(kan)),
{
    let k1 = triplet_nums(s1) + kan_nums(kan);
    let k2 = triplet_nums(s2) + kan_nums(kan);
    lemma_douko_count(k1);
    lemma_douko_count(k2);
    assert forall|v: usize| #[trigger] vcount(k1, v) == vcount(k2, v) by {
        lemma_vcount_concat(triplet_nums(s1), kan_nums(kan), v);
        lemma_vcount_concat(triplet_nums(s2), kan_nums(kan), v);
        lemma_vcount_triplets(s1, v);
        lemma_vcount_triplets(s2, v);
        lemma_msum_perm(s1, s2, triplet_num_f(v));
    }
    if exists|v: usize| #[trigger] vcount(k1, v) >= 3 {
        let v = choose|v: usize| #[trigger] vcount(k1, v) >= 3;
        assert(vcount(k2, v) >= 3);
    }
    if exists|v: usize| #[trigger] vcount(k2, v) >= 3 {
        let v = choose|v: usize| #[trigger] vcount(k2, v) >= 3;
        assert(vcount(k1, v) >= 3);
    }
}


// ---------------------------------------------------------------- runs

/// A run of suit `md` starting at number `n`.
pub open spec fn run_f(md: int, n: int) -> spec_fn(Mentsu) -> bool {
    |m: Mentsu| !m.triplet() && m.mode == md && m.num[0] == n
}

proof fn lemma_has_run_perm(s1: Seq<Mentsu>, s2: Seq<Mentsu>, md: int, n: int)
    requires
        s1.to_multiset() == s2.to_multiset(),
    ensures
        has_run(s1, md, n) == has_run(s2, md, n),
{
    let p = run_f(md, n);
    lemma_perm_exists(s1, s2, p);
    if has_run(s1, md, n) {
        let k = choose|k: int|
            0 <= k < s1.len() && !s1[k].triplet() && s1[k].mode == md && #[trigger] s1[k].num[0] == n;
        assert(p(s1[k]));
        let j = choose|i: int| 0 <= i < s2.len() && p(#[trigger] s2[i]);
        assert(s2[j].num[0] == n);
    }
    if has_run(s2, md, n) {
        let k = choose|k: int|
            0 <= k < s2.len() && !s2[k].triplet() && s2[k].mode == md && #[trigger] s2[k].num[0] == n;
        assert(p(s2[k]));
        let j = choose|i: int| 0 <= i < s1.len() && p(#[trigger] s1[i]);
        assert(s1[j].num[0] == n);
    }
}

/// The same run in the three suits.
pub open spec fn doujun_num(s: Seq<Mentsu>, n: int) -> bool {
    has_run(s, 0, n) && has_run(s, 1, n) && has_run(s, 2, n)
}

proof fn lemma_doujun_char(s: Seq<Mentsu>)
    ensures
        doujun(s) <==> exists|n: int| #[trigger] doujun_num(s, n),
{
    if doujun(s) {
        let i = choose|i: int| 0 <= i < s.len() && #[trigger] doujun_at(s, i);
        let n = s[i].num[0] as int;
        assert forall|md: int| 0 <= md < 3 implies has_run(s, md, n) by {
            assert(covers_suit(s, i, md));
            if s[i].mode == md {
                assert(s[i].num[0] == n);
            } else {
                let j = choose|j: int| #[trigger] run_like(s, i, j, md);
                assert(s[j].num[0] == n);
            }
        }
        assert(doujun_num(s, n));
    }
    if exists|n: int| #[trigger] doujun_num(s, n) {
        let n = choose|n: int| #[trigger] doujun_num(s, n);
        let k0 = choose|k: int|
            0 <= k < s.len() && !s[k].triplet() && s[k].mode == 0 && #[trigger] s[k].num[0] == n;
        let k1 = choose|k: int|
            0 <= k < s.len() && !s[k].triplet() && s[k].mode == 1 && #[trigger] s[k].num[0] == n;
        let k2 = choose|k: int|
            0 <= k < s.len() && !s[k].triplet() && s[k].mode == 2 && #[trigger] s[k].num[0] == n;
        let i = if k0 <= k1 && k0 <= k2 {
            k0
        } else if k1 <= k2 {
            k1
        } else {
            k2
        };
        assert(s[i].num[0] == n);
        if k0 != i {
            assert(run_like(s, i, k0, 0));
        }
        if k1 != i {
            assert(run_like(s, i, k1, 1));
        }
        if k2 != i {
            assert(run_like(s, i, k2, 2));
        }
        assert(covers_suit(s, i, 0));
        assert(covers_suit(s, i, 1));
        assert(covers_suit(s, i, 2));
        assert(doujun_at(s, i));
    }
}

/// Sanshoku doujun is found exactly when the same run (runs starting from the
/// same number) is held in each of the three numbered suits; runs in two suits
/// alone never make it.
pub proof fn law_doujun_three_suits(s: Seq<Mentsu>)
    ensures
        doujun(s) <==> exists|k0: int, k1: int, k2: int|
            0 <= k0 < s.len() && 0 <= k1 < s.len() && 0 <= k2 < s.len() && !(#[trigger] s[k0]).triplet()
                && !(#[trigger] s[k1]).triplet() && !(#[trigger] s[k2]).triplet() && s[k0].mode == 0
                && s[k1].mode == 1 && s[k2].mode == 2 && s[k1].num[0] == s[k0].num[0] && s[k2].num[0]
                == s[k0].num[0],
{
    lemma_doujun_char(s);
    if doujun(s) {
        let n = choose|n: int| #[trigger] doujun_num(s, n);
        let k0 = choose|k: int|
            0 <= k < s.len() && !s[k].triplet() && s[k].mode == 0 && #[trigger] s[k].num[0] == n;
        let k1 = choose|k: int|
            0 <= k < s.len() && !s[k].triplet() && s[k].mode == 1 && #[trigger] s[k].num[0] == n;
        let k2 = choose|k: int|
            0 <= k < s.len() && !s[k].triplet() && s[k].mode == 2 && #[trigger] s[k].num[0] == n;
        assert(!s[k0].triplet() && !s[k1].triplet() && !s[k2].triplet());
    }
    if exists|k0: int, k1: int, k2: int|
        0 <= k0 < s.len() && 0 <= k1 < s.len() && 0 <= k2 < s.len() && !(#[trigger] s[k0]).triplet()
            && !(#[trigger] s[k1]).triplet() && !(#[trigger] s[k2]).triplet() && s[k0].mode == 0
            && s[k1].mode == 1 && s[k2].mode == 2 && s[k1].num[0] == s[k0].num[0] && s[k2].num[0]
            == s[k0].num[0] {
        let (k0, k1, k2) = choose|k0: int, k1: int, k2: int|
            0 <= k0 < s.len() && 0 <= k1 < s.len() && 0 <= k2 < s.len() && !(#[trigger] s[k0]).triplet()
                && !(#[trigger] s[k1]).triplet() && !(#[trigger] s[k2]).triplet() && s[k0].mode == 0
                && s[k1].mode == 1 && s[k2].mode == 2 && s[k1].num[0] == s[k0].num[0] && s[k2].num[0]
                == s[k0].num[0];
        let n = s[k0].num[0] as int;
        assert(has_run(s, 0, n));
        assert(has_run(s, 1, n));
        assert(has_run(s, 2, n));
        assert(doujun_num(s, n));
    }
}

proof fn lemma_doujun_perm(s1: Seq<Mentsu>, s2: Seq<Mentsu>)
    requires
        s1.to_multiset() == s2.to_multiset(),
    ensures
        doujun(s1) == doujun(s2),
{
    lemma_doujun_char(s1);
    lemma_doujun_char(s2);
    assert forall|n: int| #[trigger] doujun_num(s1, n) == doujun_num(s2, n) by {
        lemma_has_run_perm(s1, s2, 0, n);
        lemma_has_run_perm(s1, s2, 1, n);
        lemma_has_run_perm(s1, s2, 2, n);
    }
    if doujun(s1) {
        let n = choose|n: int| #[trigger] doujun_num(s1, n);
        assert(doujun_num(s2, n));
    }
    if doujun(s2) {
        let n = choose|n: int| #[trigger] doujun_num(s2, n);
        assert(doujun_num(s1, n));
    }
}


// ---------------------------------------------------------------- repeated runs

/// One for a meld equal to `m`.
pub open spec fn eq_f(m: Mentsu) -> spec_fn(Mentsu) -> int {
    |x: Mentsu| if x == m { 1int } else { 0int }
}

/// `m` is a run held at least twice.
pub open spec fn repeated_run(s: Seq<Mentsu>, m: Mentsu) -> bool {
    !m.triplet() && msum(s, eq_f(m)) >= 2
}

/// Iipeikou and ryanpeikou by the runs held twice: none, one, or two of them.
pub open spec fn peiko_by_runs(s: Seq<Mentsu>) -> int {
    if exists|m: Mentsu| #[trigger] repeated_run(s, m) {
        if exists|m1: Mentsu, m2: Mentsu|
            m1 != m2 && #[trigger] repeated_run(s, m1) && #[trigger] repeated_run(s, m2) {
            3
        } else {
            1
        }
    } else {
        0
    }
}

proof fn lemma_eq_count_nonneg(s: Seq<Mentsu>, m: Mentsu)
    ensures
        msum(s, eq_f(m)) >= 0,
    decreases s.len(),
{
    if s.len() > 0 {
        lemma_eq_count_nonneg(s.drop_last(), m);
    }
}

proof fn lemma_eq_count_two(s: Seq<Mentsu>, m0: Mentsu, m1: Mentsu)
    requires
        m0 != m1,
    ensures
        msum(s, eq_f(m0)) + msum(s, eq_f(m1)) <= s.len(),
    decreases s.len(),
{
    if s.len() > 0 {
        lemma_eq_count_two(s.drop_last(), m0, m1);
    }
}

proof fn lemma_same_runs_count(s: Seq<Mentsu>, i: int, j: int)
    requires
        0 <= i < j <= s.len(),
    ensures
        same_runs_between(s, i, j) == (if !s[i].triplet() {
            msum(s.subrange(i + 1, j), eq_f(s[i]))
        } else {
            0
        }),
    decreases j - i,
{
    if j > i + 1 {
        lemma_same_runs_count(s, i, j - 1);
        assert(s.subrange(i + 1, j).drop_last() =~= s.subrange(i + 1, j - 1));
    } else {
        assert(s.subrange(i + 1, j) =~= Seq::<Mentsu>::empty());
    }
}

proof fn lemma_eq_count_find(s: Seq<Mentsu>, m: Mentsu, a: int)
    requires
        0 <= a <= s.len(),
        msum(s.subrange(a, s.len() as int), eq_f(m)) >= 2,
    ensures
        exists|i: int|
            a <= i < s.len() && s[i] == m && #[trigger] msum(s.subrange(i + 1, s.len() as int), eq_f(m))
                >= 1,
    decreases s.len() - a,
{
    let n = s.len() as int;
    if a == n {
        assert(s.subrange(a, n) =~= Seq::<Mentsu>::empty());
    } else {
        let t = s.subrange(a, n);
        assert(t.take(0) =~= Seq::<Mentsu>::empty());
        assert(t.subrange(1, t.len() as int) =~= s.subrange(a + 1, n));
        lemma_msum_split(t, eq_f(m), 0);
        if msum(s.subrange(a + 1, n), eq_f(m)) >= 2 {
            lemma_eq_count_find(s, m, a + 1);
        } else {
            assert(s[a] == m);
        }
    }
}

/// A run counted as repeated at meld `i` is held twice.
proof fn lemma_repeat_at(s: Seq<Mentsu>, i: int)
    requires
        0 <= i < s.len(),
        same_runs_between(s, i, s.len() as int) > 0,
    ensures
        repeated_run(s, s[i]),
{
    let n = s.len() as int;
    lemma_same_runs_count(s, i, n);
    lemma_msum_split(s, eq_f(s[i]), i);
    lemma_eq_count_nonneg(s.take(i), s[i]);
}

/// A run held twice is counted as repeated at its first place.
proof fn lemma_repeated_somewhere(s: Seq<Mentsu>, m: Mentsu)
    requires
        repeated_run(s, m),
    ensures
        exists|i: int|
            0 <= i < s.len() && s[i] == m && #[trigger] same_runs_between(s, i, s.len() as int) > 0,
{
    let n = s.len() as int;
    assert(s.subrange(0, n) =~= s);
    lemma_eq_count_find(s, m, 0);
    let i = choose|i: int|
        0 <= i < n && s[i] == m && #[trigger] msum(s.subrange(i + 1, n), eq_f(m)) >= 1;
    lemma_same_runs_count(s, i, n);
    assert(same_runs_between(s, i, n) > 0);
}

proof fn lemma_first_repeat(s: Seq<Mentsu>, a: int)
    requires
        0 <= a,
    ensures
        first_repeat_from(s, a) is None <==> forall|i: int|
            a <= i < s.len() ==> #[trigger] same_runs_between(s, i, s.len() as int) == 0,
        first_repeat_from(s, a) matches Some(m0) ==> exists|i: int|
            a <= i < s.len() && s[i] == m0 && #[trigger] same_runs_between(s, i, s.len() as int) > 0,
    decreases s.len() - a,
{
    if a < s.len() {
        lemma_first_repeat(s, a + 1);
        if same_runs_between(s, a, s.len() as int) == 0 {
            assert forall|i: int|
                a <= i < s.len() && #[trigger] same_runs_between(s, i, s.len() as int) != 0 implies a
                + 1 <= i by {}
        }
    }
}

proof fn lemma_other_repeats_zero(s: Seq<Mentsu>, m0: Mentsu, a: int)
    requires
        0 <= a,
        forall|i: int|
            a <= i < s.len() && s[i] != m0 ==> #[trigger] same_runs_between(s, i, s.len() as int) == 0,
    ensures
        other_repeats_from(s, m0, a) == 0,
    decreases s.len() - a,
{
    if a < s.len() {
        lemma_other_repeats_zero(s, m0, a + 1);
    }
}

/// Four melds holding two runs twice each: one pair of equal runs of the
/// second kind.
proof fn lemma_two_pairs(s: Seq<Mentsu>, m0: Mentsu, m1: Mentsu)
    requires
        s.len() == 4,
        m0 != m1,
        !m0.triplet(),
        !m1.triplet(),
        msum(s, eq_f(m0)) >= 2,
        msum(s, eq_f(m1)) >= 2,
    ensures
        other_repeats_from(s, m0, 0) == 1,
{
    reveal_with_fuel(msum, 5);
    reveal_with_fuel(other_repeats_from, 5);
    reveal_with_fuel(same_runs_between, 4);
    let s3 = s.drop_last();
    let s2 = s3.drop_last();
    let s1 = s2.drop_last();
    assert(s3[0] == s[0] && s3[1] == s[1] && s3[2] == s[2]);
    assert(s2[0] == s[0] && s2[1] == s[1]);
    assert(s1[0] == s[0]);
    assert(s1.drop_last().len() == 0);
}

proof fn lemma_peiko_by_runs(s: Seq<Mentsu>)
    requires
        s.len() <= 4,
    ensures
        peiko_han(s) == peiko_by_runs(s),
{
    let n = s.len() as int;
    lemma_first_repeat(s, 0);
    match first_repeat_from(s, 0) {
        None => {
            if exists|m: Mentsu| #[trigger] repeated_run(s, m) {
                let m = choose|m: Mentsu| #[trigger] repeated_run(s, m);
                lemma_repeated_somewhere(s, m);
                let i = choose|i: int|
                    0 <= i < n && s[i] == m && #[trigger] same_runs_between(s, i, n) > 0;
                assert(same_runs_between(s, i, n) == 0);
            }
        },
        Some(m0) => {
            let i0 = choose|i: int| 0 <= i < n && s[i] == m0 && #[trigger] same_runs_between(s, i, n) > 0;
            lemma_repeat_at(s, i0);
            assert(repeated_run(s, m0));
            if exists|m1: Mentsu| m1 != m0 && #[trigger] repeated_run(s, m1) {
                let m1 = choose|m1: Mentsu| m1 != m0 && #[trigger] repeated_run(s, m1);
                lemma_eq_count_two(s, m0, m1);
                lemma_two_pairs(s, m0, m1);
                assert(m0 != m1 && repeated_run(s, m0) && repeated_run(s, m1));
                assert(peiko_by_runs(s) == 3);
            } else {
                assert forall|i: int| 0 <= i < n && s[i] != m0 implies #[trigger] same_runs_between(
                    s,
                    i,
                    n,
                ) == 0 by {
                    if same_runs_between(s, i, n) > 0 {
                        lemma_repeat_at(s, i);
                    }
                }
                lemma_other_repeats_zero(s, m0, 0);
                if exists|m1: Mentsu, m2: Mentsu|
                    m1 != m2 && #[trigger] repeated_run(s, m1) && #[trigger] repeated_run(s, m2) {
                    let (m1, m2) = choose|m1: Mentsu, m2: Mentsu|
                        m1 != m2 && #[trigger] repeated_run(s, m1) && #[trigger] repeated_run(s, m2);
                    if m1 != m0 {
                        assert(m1 != m0 && repeated_run(s, m1));
                    } else {
                        assert(m2 != m0 && repeated_run(s, m2));
                    }
                }
                assert(peiko_by_runs(s) == 1);
            }
        },
    }
}

proof fn lemma_peiko_perm(s1: Seq<Mentsu>, s2: Seq<Mentsu>)
    requires
        s1.to_multiset() == s2.to_multiset(),
        s1.len() <= 4,
    ensures
        peiko_han(s1) == peiko_han(s2),
{
    broadcast use vstd::seq_lib::group_to_multiset_ensures;

    assert(s1.len() == s1.to_multiset().len());
    assert(s2.len() == s2.to_multiset().len());
    lemma_peiko_by_runs(s1);
    lemma_peiko_by_runs(s2);
    assert forall|m: Mentsu| #[trigger] repeated_run(s1, m) == repeated_run(s2, m) by {
        lemma_msum_perm(s1, s2, eq_f(m));
    }
    if exists|m: Mentsu| #[trigger] repeated_run(s1, m) {
        let m = choose|m: Mentsu| #[trigger] repeated_run(s1, m);
        assert(repeated_run(s2, m));
    }
    if exists|m: Mentsu| #[trigger] repeated_run(s2, m) {
        let m = choose|m: Mentsu| #[trigger] repeated_run(s2, m);
        assert(repeated_run(s1, m));
    }
    if exists|m1: Mentsu, m2: Mentsu|
        m1 != m2 && #[trigger] repeated_run(s1, m1) && #[trigger] repeated_run(s1, m2) {
        let (m1, m2) = choose|m1: Mentsu, m2: Mentsu|
            m1 != m2 && #[trigger] repeated_run(s1, m1) && #[trigger] repeated_run(s1, m2);
        assert(repeated_run(s2, m1) && repeated_run(s2, m2));
    }
    if exists|m1: Mentsu, m2: Mentsu|
        m1 != m2 && #[trigger] repeated_run(s2, m1) && #[trigger] repeated_run(s2, m2) {
        let (m1, m2) = choose|m1: Mentsu, m2: Mentsu|
            m1 != m2 && #[trigger] repeated_run(s2, m1) && #[trigger] repeated_run(s2, m2);
        assert(repeated_run(s1, m1) && repeated_run(s1, m2));
    }
}


// ---------------------------------------------------------------- the law

/// The han of a decomposition (what `Calc::han` counts) does not depend on the
/// order in which its melds are listed, for the at most four melds of a hand.
pub proof fn law_han_order_free(
    s1: Seq<Mentsu>,
    s2: Seq<Mentsu>,
    kan: Seq<Name>,
    head: Name,
    han_base: int,
    ba: usize,
    cha: usize,
)
    requires
        s1.to_multiset() == s2.to_multiset(),
        s1.len() <= 4,
    ensures
        han_of(s1, kan, head, han_base, ba, cha) == han_of(s2, kan, head, han_base, ba, cha),
{
    lemma_peiko_perm(s1, s2);
    lemma_yakuhai_msum(s1, ba, cha);
    lemma_yakuhai_msum(s2, ba, cha);
    lemma_msum_perm(s1, s2, yakuhai_f(ba, cha));
    lemma_msum_perm(s1, s2, triplet_f());
    lemma_douko_perm(s1, s2, kan);
    lemma_doujun_perm(s1, s2);
    let trip = |m: Mentsu| m.triplet();
    lemma_perm_forall(s1, s2, trip);
    assert((forall|i: int| 0 <= i < s1.len() ==> (#[trigger] s1[i]).triplet()) == (forall|i: int|
        0 <= i < s2.len() ==> (#[trigger] s2[i]).triplet()));
    let yao = |m: Mentsu| m.with_yaochu();
    lemma_perm_forall(s1, s2, yao);
    assert(all_yaochu(s1, kan) == all_yaochu(s2, kan));
    assert(chanta_han(s1, kan) == chanta_han(s2, kan));
    assert forall|md: int, n: int| #[trigger] has_run(s1, md, n) == has_run(s2, md, n) by {
        lemma_has_run_perm(s1, s2, md, n);
    }
    if ikki(s1) {
        let md = choose|md: int|
            0 <= md < 2 && has_run(s1, md, 1) && has_run(s1, md, 4) && has_run(s1, md, 7);
        assert(has_run(s2, md, 1) && has_run(s2, md, 4) && has_run(s2, md, 7));
    }
    if ikki(s2) {
        let md = choose|md: int|
            0 <= md < 2 && has_run(s2, md, 1) && has_run(s2, md, 4) && has_run(s2, md, 7);
        assert(has_run(s1, md, 1) && has_run(s1, md, 4) && has_run(s1, md, 7));
    }
    assert(ikki(s1) == ikki(s2));
    assert forall|n: usize| holds_honour(s1, kan, head, n) == holds_honour(s2, kan, head, n) by {
        lemma_perm_contains(s1, s2, Mentsu { mode: 3, num: [n, n, n] });
    }
    assert forall|md: int| #[trigger] uses_suit(s1, kan, md) == uses_suit(s2, kan, md) by {
        let p = |m: Mentsu| m.mode == md;
        lemma_perm_exists(s1, s2, p);
        assert((exists|i: int| 0 <= i < s1.len() && (#[trigger] s1[i]).mode == md) == (exists|i: int|
            0 <= i < s2.len() && (#[trigger] s2[i]).mode == md));
    }
    assert(suits_used(s1, kan) == suits_used(s2, kan));
}

} // verus!
