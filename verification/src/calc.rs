use vstd::prelude::*;

use crate::index::{name_is_jun, name_is_yaochu, yaochu_name, Name};
use crate::mentsu::Mentsu;
use crate::naki::Naki;
use crate::score::{score_computable, score_of, Score};

verus! {

/// One decomposition of a winning hand, with the circumstances of the win:
/// the concealed melds, the meld completed by the winning tile (`None` when
/// the head was), the quads, the head, the winning tile, the han counted
/// outside the melds, and the round (`ba`) and seat (`cha`) winds.
pub struct Calc {
    stand: Vec<Mentsu>,
    last: Option<Mentsu>,
    naki: Naki,
    head: Name,
    tsumo: Name,
    han_base: usize,
    ba: usize,
    cha: usize,
}

// ---------------------------------------------------------------- fu

/// Fu for the head: dragons, and the round or seat wind.
pub open spec fn head_fu(head: Name, ba: usize, cha: usize) -> int {
    if head.0 == 3 && (head.1 >= 4 || head.1 == ba || head.1 == cha) {
        2
    } else {
        0
    }
}

/// Fu for a concealed meld: 8 for a triplet of terminals or honours, 4 for
/// another triplet, none for a run.
pub open spec fn anko_fu(m: Mentsu) -> int {
    if m.triplet() {
        if m.with_yaochu() {
            8
        } else {
            4
        }
    } else {
        0
    }
}

pub open spec fn anko_fu_sum(s: Seq<Mentsu>) -> int
    decreases s.len(),
{
    if s.len() == 0 {
        0
    } else {
        anko_fu_sum(s.drop_last()) + anko_fu(s.last())
    }
}

/// Fu for a quad: 32 of terminals or honours, 16 otherwise.
pub open spec fn kan_fu(k: Name) -> int {
    if yaochu_name(k) {
        32
    } else {
        16
    }
}

pub open spec fn kan_fu_sum(s: Seq<Name>) -> int
    decreases s.len(),
{
    if s.len() == 0 {
        0
    } else {
        kan_fu_sum(s.drop_last()) + kan_fu(s.last())
    }
}

/// Fu for the wait: 2 for a single wait on the head; for a run completed by
/// the winning tile, 2 for each of an edge wait (1-2 waiting on 3, 8-9 waiting
/// on 7) and a closed wait (waiting on the middle).
pub open spec fn machi_fu(last: Option<Mentsu>, tsumo: Name) -> int {
    match last {
        None => 2,
        Some(m) => if m.triplet() {
            0
        } else {
            (if m.num[0] == tsumo.1 && m.num[2] == 8 {
                2int
            } else {
                0int
            }) + (if m.num[1] == tsumo.1 {
                2int
            } else {
                0int
            }) + (if m.num[2] == tsumo.1 && m.num[0] == 0 {
                2int
            } else {
                0int
            })
        },
    }
}

/// Fu for the wait, by its kind: a run completed in its middle (closed wait),
/// or 1-2-3 completed by the 3 or 7-8-9 completed by the 7 (edge wait), gives
/// 2; a run completed at either end otherwise (two-sided wait) gives none; a
/// triplet completed (double pair wait) gives none; a single wait on the head
/// gives 2.
pub proof fn law_wait_fu(mode: u8, n: usize, tsumo: Name)
    requires
        n <= 6,
    ensures
        machi_fu(Some(Mentsu { mode, num: [n, (n + 1) as usize, (n + 2) as usize] }), tsumo) == (if tsumo.1
            == n + 1 || (n == 0 && tsumo.1 == 2) || (n == 6 && tsumo.1 == 6) {
            2int
        } else {
            0int
        }),
        machi_fu(Some(Mentsu { mode, num: [n, n, n] }), tsumo) == 0,
        machi_fu(None, tsumo) == 2,
{
}

/// Fu of a decomposition before the self-draw bonus.
pub open spec fn fu_of(
    stand: Seq<Mentsu>,
    last: Option<Mentsu>,
    kan: Seq<Name>,
    head: Name,
    tsumo: Name,
    ba: usize,
    cha: usize,
) -> int {
    20 + head_fu(head, ba, cha) + anko_fu_sum(stand) + kan_fu_sum(kan) + machi_fu(last, tsumo)
}

// ---------------------------------------------------------------- han

/// Melds `i` and `k` are the same run.
pub open spec fn same_run(s: Seq<Mentsu>, i: int, k: int) -> bool {
    !s[i].triplet() && s[i] == s[k]
}

/// Number of melds strictly between `i` and `j` that are the same run as meld `i`.
pub open spec fn same_runs_between(s: Seq<Mentsu>, i: int, j: int) -> nat
    decreases j - i,
{
    if j <= i + 1 {
        0
    } else {
        same_runs_between(s, i, j - 1) + if same_run(s, i, j - 1) {
            1nat
        } else {
            0nat
        }
    }
}

/// The first run from meld `i` on that is repeated later.
pub open spec fn first_repeat_from(s: Seq<Mentsu>, i: int) -> Option<Mentsu>
    decreases s.len() - i,
{
    if i < 0 || i >= s.len() {
        None
    } else if same_runs_between(s, i, s.len() as int) > 0 {
        Some(s[i])
    } else {
        first_repeat_from(s, i + 1)
    }
}

/// Pairs of equal runs, the first from meld `i` on, whose run is not `m0`.
pub open spec fn other_repeats_from(s: Seq<Mentsu>, m0: Mentsu, i: int) -> nat
    decreases s.len() - i,
{
    if i < 0 || i >= s.len() {
        0
    } else {
        (if s[i] != m0 {
            same_runs_between(s, i, s.len() as int)
        } else {
            0
        }) + other_repeats_from(s, m0, i + 1)
    }
}

/// Iipeikou: 1 han for a repeated run, and 2 more for each pair of equal runs
/// of another kind (ryanpeikou).
pub open spec fn peiko_han(s: Seq<Mentsu>) -> int {
    match first_repeat_from(s, 0) {
        None => 0,
        Some(m0) => (1 + 2 * other_repeats_from(s, m0, 0)) as int,
    }
}

/// Yakuhai for an honour of number `n`: dragons, round wind, seat wind.
pub open spec fn yakuhai_of(n: usize, ba: usize, cha: usize) -> int {
    (if n >= 4 {
        1int
    } else {
        0int
    }) + (if n == ba {
        1int
    } else {
        0int
    }) + (if n == cha {
        1int
    } else {
        0int
    })
}

pub open spec fn yakuhai_melds(s: Seq<Mentsu>, ba: usize, cha: usize) -> int
    decreases s.len(),
{
    if s.len() == 0 {
        0
    } else {
        yakuhai_melds(s.drop_last(), ba, cha) + if s.last().mode == 3 {
            yakuhai_of(s.last().num[0], ba, cha)
        } else {
            0
        }
    }
}

pub open spec fn yakuhai_kans(s: Seq<Name>, ba: usize, cha: usize) -> int
    decreases s.len(),
{
    if s.len() == 0 {
        0
    } else {
        yakuhai_kans(s.drop_last(), ba, cha) + if s.last().0 == 3 {
            yakuhai_of(s.last().1, ba, cha)
        } else {
            0
        }
    }
}

/// Number of triplets among the melds.
pub open spec fn triplet_count(s: Seq<Mentsu>) -> int
    decreases s.len(),
{
    if s.len() == 0 {
        0
    } else {
        triplet_count(s.drop_last()) + if s.last().triplet() {
            1int
        } else {
            0int
        }
    }
}

/// Numbers of the triplets, in order.
pub open spec fn triplet_nums(s: Seq<Mentsu>) -> Seq<usize>
    decreases s.len(),
{
    if s.len() == 0 {
        Seq::empty()
    } else if s.last().triplet() {
        triplet_nums(s.drop_last()).push(s.last().num[0])
    } else {
        triplet_nums(s.drop_last())
    }
}

/// Numbers of the quads, in order.
pub open spec fn kan_nums(s: Seq<Name>) -> Seq<usize>
    decreases s.len(),
{
    if s.len() == 0 {
        Seq::empty()
    } else {
        kan_nums(s.drop_last()).push(s.last().1)
    }
}

/// Entries after `i` and before `j` equal to entry `i`.
pub open spec fn equal_after(ks: Seq<usize>, i: int, j: int) -> nat
    decreases j - i,
{
    if j <= i + 1 {
        0
    } else {
        equal_after(ks, i, j - 1) + if ks[j - 1] == ks[i] {
            1nat
        } else {
            0nat
        }
    }
}

/// Sanshoku doukou: some triplet or quad number occurs on exactly two later ones.
pub open spec fn douko(ks: Seq<usize>) -> bool {
    exists|i: int| 0 <= i < ks.len() && #[trigger] equal_after(ks, i, ks.len() as int) == 2
}

/// Meld `j` is a run after meld `i` starting from the same number, in suit `md`.
pub open spec fn run_like(s: Seq<Mentsu>, i: int, j: int, md: int) -> bool {
    i < j < s.len() && !s[j].triplet() && s[j].num[0] == s[i].num[0] && s[j].mode == md
}

/// Run `i`, or a later run from the same number, is of suit `md`.
pub open spec fn covers_suit(s: Seq<Mentsu>, i: int, md: int) -> bool {
    s[i].mode == md || exists|j: int| #[trigger] run_like(s, i, j, md)
}

/// Sanshoku doujun: the run `i` and later runs from the same number cover the
/// three suits.
pub open spec fn doujun_at(s: Seq<Mentsu>, i: int) -> bool {
    &&& !s[i].triplet()
    &&& covers_suit(s, i, 0)
    &&& covers_suit(s, i, 1)
    &&& covers_suit(s, i, 2)
}

pub open spec fn doujun(s: Seq<Mentsu>) -> bool {
    exists|i: int| 0 <= i < s.len() && #[trigger] doujun_at(s, i)
}

/// Every meld and quad holds a terminal or an honour.
pub open spec fn all_yaochu(s: Seq<Mentsu>, kan: Seq<Name>) -> bool {
    &&& forall|i: int| 0 <= i < s.len() ==> (#[trigger] s[i]).with_yaochu()
    &&& forall|i: int| 0 <= i < kan.len() ==> yaochu_name(#[trigger] kan[i])
}

/// Every quad is of terminals.
pub open spec fn all_jun_kans(kan: Seq<Name>) -> bool {
    forall|i: int| 0 <= i < kan.len() ==> yaochu_name(#[trigger] kan[i]) && kan[i].0 != 3
}

/// Chanta (2 han), 1 more when every quad is of terminals.
pub open spec fn chanta_han(s: Seq<Mentsu>, kan: Seq<Name>) -> int {
    if all_yaochu(s, kan) {
        2 + if all_jun_kans(kan) {
            1int
        } else {
            0int
        }
    } else {
        0
    }
}

/// A run of suit `md` starting at number `n`.
pub open spec fn has_run(s: Seq<Mentsu>, md: int, n: int) -> bool {
    exists|k: int| 0 <= k < s.len() && !s[k].triplet() && s[k].mode == md && #[trigger] s[k].num[0] == n
}

/// The ikkitsuukan test as counted here: runs starting at the numbers 1, 4
/// and 7 (counting from 0, so the runs 2-3-4, 5-6-7 and 8-9-10) of manzu, or
/// of pinzu. The last of these is no run of real tiles, so melds of real tiles
/// never meet it.
pub open spec fn ikki(s: Seq<Mentsu>) -> bool {
    exists|md: int| 0 <= md < 2 && has_run(s, md, 1) && has_run(s, md, 4) && has_run(s, md, 7)
}

/// The honour of number `n` held as a triplet, a quad, or the head.
pub open spec fn holds_honour(s: Seq<Mentsu>, kan: Seq<Name>, head: Name, n: usize) -> bool {
    ||| s.contains(Mentsu { mode: 3, num: [n, n, n] })
    ||| kan.contains((3u8, n))
    ||| head == (3u8, n)
}

/// Some meld or quad is of suit `md`.
pub open spec fn uses_suit(s: Seq<Mentsu>, kan: Seq<Name>, md: int) -> bool {
    ||| exists|i: int| 0 <= i < s.len() && (#[trigger] s[i]).mode == md
    ||| exists|i: int| 0 <= i < kan.len() && (#[trigger] kan[i]).0 == md
}

pub open spec fn suits_used(s: Seq<Mentsu>, kan: Seq<Name>) -> int {
    (if uses_suit(s, kan, 0) {
        1int
    } else {
        0int
    }) + (if uses_suit(s, kan, 1) {
        1int
    } else {
        0int
    }) + (if uses_suit(s, kan, 2) {
        1int
    } else {
        0int
    })
}

/// Han of a decomposition: the base han and those of each pattern.
pub open spec fn han_of(
    stand: Seq<Mentsu>,
    kan: Seq<Name>,
    head: Name,
    han_base: int,
    ba: usize,
    cha: usize,
) -> int {
    han_base + peiko_han(stand) + yakuhai_melds(stand, ba, cha) + yakuhai_kans(kan, ba, cha) + (if forall|
        i: int,
    | 0 <= i < stand.len() ==> (#[trigger] stand[i]).triplet() {
        2int
    } else {
        0int
    }) + (if triplet_count(stand) + kan.len() == 3 {
        2int
    } else {
        0int
    }) + (if douko(triplet_nums(stand) + kan_nums(kan)) {
        2int
    } else {
        0int
    }) + (if doujun(stand) {
        2int
    } else {
        0int
    }) + chanta_han(stand, kan) + (if ikki(stand) {
        2int
    } else {
        0int
    }) + (if holds_honour(stand, kan, head, 4) && holds_honour(stand, kan, head, 5)
        && holds_honour(stand, kan, head, 6) {
        2int
    } else {
        0int
    }) + (if kan.len() == 3 {
        2int
    } else {
        0int
    }) + (if suits_used(stand, kan) == 1 {
        3 + if uses_suit(stand, kan, 3) {
            0int
        } else {
            3int
        }
    } else {
        0int
    })
}

/// A later run than `i` starting from the same number, of a suit past the
/// numbered suits.
pub open spec fn honour_run_after(s: Seq<Mentsu>, i: int, j: int) -> bool {
    i < j < s.len() && !s[j].triplet() && s[j].num[0] == s[i].num[0] && s[j].mode >= 3
}

/// The sanshoku-doujun search at run `i` looks up the table of a suit past
/// the numbered suits.
pub open spec fn touches_honour(s: Seq<Mentsu>, i: int) -> bool {
    !s[i].triplet() && (s[i].mode >= 3 || exists|j: int| #[trigger] honour_run_after(s, i, j))
}

/// The sanshoku-doujun search stops (having found the pattern) before it
/// looks up a suit past the numbered ones.
pub open spec fn doujun_countable(s: Seq<Mentsu>) -> bool {
    forall|i: int|
        0 <= i < s.len() && #[trigger] touches_honour(s, i) ==> exists|k: int|
            0 <= k < i && #[trigger] doujun_at(s, k)
}

/// The runs of suit `md` starting at 1, 4 or 7 (counting from 0) start below 9.
pub open spec fn ikki_suit_countable(s: Seq<Mentsu>, md: int) -> bool {
    forall|i: int|
        0 <= i < s.len() && !s[i].triplet() && s[i].mode == md && (#[trigger] s[i]).num[0] % 3 == 1
            ==> s[i].num[0] < 9
}

/// The ikkitsuukan search looks up its table within bounds: in manzu, and in
/// pinzu unless manzu already has the pattern.
pub open spec fn ikki_countable(s: Seq<Mentsu>) -> bool {
    &&& ikki_suit_countable(s, 0)
    &&& !(has_run(s, 0, 1) && has_run(s, 0, 4) && has_run(s, 0, 7)) ==> ikki_suit_countable(s, 1)
}

/// The han patterns can be counted: every suit that indexes one of their
/// tables is within it.
pub open spec fn han_countable(stand: Seq<Mentsu>, kan: Seq<Name>) -> bool {
    &&& forall|i: int| 0 <= i < stand.len() ==> (#[trigger] stand[i]).mode < 4
    &&& doujun_countable(stand)
    &&& ikki_countable(stand)
    &&& forall|i: int| 0 <= i < kan.len() ==> (#[trigger] kan[i]).0 < 4
}

/// Score of a decomposition won by self-draw: pinfu (20 fu) counts one han
/// more, any other hand two fu more.
pub open spec fn calc_score(
    stand: Seq<Mentsu>,
    last: Option<Mentsu>,
    kan: Seq<Name>,
    head: Name,
    tsumo: Name,
    han_base: int,
    ba: usize,
    cha: usize,
) -> Score {
    let fu = fu_of(stand, last, kan, head, tsumo, ba, cha);
    let han = han_of(stand, kan, head, han_base, ba, cha);
    if fu == 20 {
        score_of(fu, han + 1, cha == 0)
    } else {
        score_of(fu + 2, han, cha == 0)
    }
}

// ---------------------------------------------------------------- lemmas

proof fn lemma_no_repeats_skip(s: Seq<Mentsu>, m0: Mentsu, a: int, i: int)
    requires
        0 <= a <= i <= s.len(),
        forall|k: int| a <= k < i ==> #[trigger] same_runs_between(s, k, s.len() as int) == 0,
    ensures
        first_repeat_from(s, a) == first_repeat_from(s, i),
        other_repeats_from(s, m0, a) == other_repeats_from(s, m0, i),
    decreases i - a,
{
    if a < i {
        lemma_no_repeats_skip(s, m0, a + 1, i);
        assert(same_runs_between(s, a, s.len() as int) == 0);
    }
}

proof fn lemma_fu_bound(stand: Seq<Mentsu>, kan: Seq<Name>)
    ensures
        0 <= anko_fu_sum(stand) <= 8 * stand.len(),
        0 <= kan_fu_sum(kan) <= 32 * kan.len(),
    decreases stand.len() + kan.len(),
{
    if stand.len() > 0 {
        lemma_fu_bound(stand.drop_last(), kan);
    }
    if kan.len() > 0 {
        lemma_fu_bound(stand, kan.drop_last());
    }
}

proof fn lemma_same_runs_bound(s: Seq<Mentsu>, i: int, j: int)
    ensures
        same_runs_between(s, i, j) <= (if j > i {
            j - i
        } else {
            0
        }),
    decreases j - i,
{
    if j > i + 1 {
        lemma_same_runs_bound(s, i, j - 1);
    }
}

proof fn lemma_other_repeats_bound(s: Seq<Mentsu>, m0: Mentsu, i: int)
    requires
        s.len() <= 4,
        0 <= i,
    ensures
        other_repeats_from(s, m0, i) <= 4 * (if i <= s.len() {
            s.len() - i
        } else {
            0
        }),
    decreases s.len() - i,
{
    if i < s.len() {
        lemma_other_repeats_bound(s, m0, i + 1);
        lemma_same_runs_bound(s, i, s.len() as int);
    }
}

/// A decomposition of four melds and quads counts at most 70 han over the base.
pub proof fn lemma_han_bound(
    stand: Seq<Mentsu>,
    kan: Seq<Name>,
    head: Name,
    han_base: int,
    ba: usize,
    cha: usize,
)
    requires
        stand.len() + kan.len() == 4,
    ensures
        han_base <= han_of(stand, kan, head, han_base, ba, cha) <= han_base + 70,
{
    lemma_yakuhai_bounds(stand, kan, ba, cha);
    match first_repeat_from(stand, 0) {
        Some(m0) => {
            lemma_other_repeats_bound(stand, m0, 0);
        },
        None => {},
    }
}

// ---------------------------------------------------------------- exec

proof fn lemma_same_runs_mono(s: Seq<Mentsu>, i: int, j: int, j2: int)
    requires
        j <= j2,
    ensures
        same_runs_between(s, i, j) <= same_runs_between(s, i, j2),
    decreases j2 - j,
{
    if j < j2 {
        lemma_same_runs_mono(s, i, j, j2 - 1);
    }
}

proof fn lemma_yakuhai_bounds(s: Seq<Mentsu>, kan: Seq<Name>, ba: usize, cha: usize)
    ensures
        0 <= yakuhai_melds(s, ba, cha) <= 3 * s.len(),
        0 <= yakuhai_kans(kan, ba, cha) <= 3 * kan.len(),
        0 <= triplet_count(s) <= s.len(),
    decreases s.len() + kan.len(),
{
    if s.len() > 0 {
        lemma_yakuhai_bounds(s.drop_last(), kan, ba, cha);
    }
    if kan.len() > 0 {
        lemma_yakuhai_bounds(s, kan.drop_last(), ba, cha);
    }
}

/// Iipeikou and ryanpeikou.
fn peiko_count(s: &Vec<Mentsu>) -> (r: usize)
    requires
        s@.len() <= 4,
    ensures
        r == peiko_han(s@),
{
    let n = s.len();
    let mut h: usize = 0;
    let mut opt: Option<Mentsu> = None;
    let mut i: usize = 0;
    while i < n
        invariant
            n == s@.len(),
            n <= 4,
            0 <= i <= n,
            opt is None ==> h == 0 && forall|k: int|
                0 <= k < i ==> #[trigger] same_runs_between(s@, k, n as int) == 0,
            opt matches Some(m0) ==> first_repeat_from(s@, 0) == Some(m0) && h == 1 + 2 * (
            other_repeats_from(s@, m0, 0) - other_repeats_from(s@, m0, i as int)),
            h <= 1 + 8 * i,
        decreases n - i,
    {
        let mut j: usize = i + 1;
        while j < n
            invariant
                n == s@.len(),
                n <= 4,
                0 <= i < n,
                i + 1 <= j <= n,
                opt is None ==> h == 0 && (forall|k: int|
                    0 <= k < i ==> #[trigger] same_runs_between(s@, k, n as int) == 0)
                    && same_runs_between(s@, i as int, j as int) == 0,
                opt matches Some(m0) ==> first_repeat_from(s@, 0) == Some(m0) && h == 1 + 2 * (
                other_repeats_from(s@, m0, 0) - other_repeats_from(s@, m0, i as int)) + (if s@[i as int]
                    != m0 {
                    2 * same_runs_between(s@, i as int, j as int)
                } else {
                    0
                }),
                h <= 1 + 8 * i + 2 * (j - i - 1),
            decreases n - j,
        {
            let ghost sr = same_run(s@, i as int, j as int);
            if !s[i].is_anko() && s[i] == s[j] {
                proof {
                    assert(s@[i as int].num =~= s@[j as int].num);
                    assert(sr);
                }
                match &opt {
                    None => {
                        proof {
                            let m0 = s@[i as int];
                            lemma_no_repeats_skip(s@, m0, 0, i as int);
                            lemma_same_runs_mono(s@, i as int, j + 1, n as int);
                            assert(same_runs_between(s@, i as int, j + 1) == 1);
                        }
                        opt = Some(s[i]);
                        h = h + 1;
                    },
                    Some(m) => {
                        if s[i] != *m {
                            h = h + 2;
                        } else {
                            assert(s@[i as int].num =~= m.num);
                        }
                    },
                }
            } else {
                proof {
                    if sr {
                        assert(s@[i as int] == s@[j as int]);
                    }
                }
            }
            j = j + 1;
        }
        proof {
            if let Some(m0) = opt {
                assert(other_repeats_from(s@, m0, i as int) == (if s@[i as int] != m0 {
                    same_runs_between(s@, i as int, n as int)
                } else {
                    0
                }) + other_repeats_from(s@, m0, i + 1));
            }
        }
        i = i + 1;
    }
    proof {
        if opt is None {
            lemma_no_repeats_skip(s@, s@[0], 0, n as int);
        }
    }
    h
}

/// Yakuhai of the melds and quads.
fn yakuhai_count(s: &Vec<Mentsu>, kan: &Vec<Name>, ba: usize, cha: usize) -> (r: usize)
    requires
        s@.len() <= 4,
        kan@.len() <= 4,
    ensures
        r == yakuhai_melds(s@, ba, cha) + yakuhai_kans(kan@, ba, cha),
{
    let mut h: usize = 0;
    let mut i: usize = 0;
    while i < s.len()
        invariant
            s@.len() <= 4,
            0 <= i <= s@.len(),
            h == yakuhai_melds(s@.take(i as int), ba, cha),
            h <= 3 * i,
        decreases s@.len() - i,
    {
        let m = &s[i];
        assert(s@.take(i + 1).drop_last() =~= s@.take(i as int));
        if m.mode == 3 {
            if m.num[0] >= 4 {
                h = h + 1;
            }
            if m.num[0] == ba {
                h = h + 1;
            }
            if m.num[0] == cha {
                h = h + 1;
            }
        }
        i = i + 1;
    }
    assert(s@.take(s@.len() as int) =~= s@);
    let ghost h0 = h as int;
    let mut k: usize = 0;
    while k < kan.len()
        invariant
            kan@.len() <= 4,
            h0 <= 12,
            0 <= k <= kan@.len(),
            h == h0 + yakuhai_kans(kan@.take(k as int), ba, cha),
            h <= h0 + 3 * k,
        decreases kan@.len() - k,
    {
        let kk = kan[k];
        assert(kan@.take(k + 1).drop_last() =~= kan@.take(k as int));
        if kk.0 == 3 {
            if kk.1 >= 4 {
                h = h + 1;
            }
            if kk.1 == ba {
                h = h + 1;
            }
            if kk.1 == cha {
                h = h + 1;
            }
        }
        k = k + 1;
    }
    assert(kan@.take(kan@.len() as int) =~= kan@);
    h
}

/// Whether every meld is a triplet (toitoi).
fn all_anko(s: &Vec<Mentsu>) -> (r: bool)
    ensures
        r == forall|i: int| 0 <= i < s@.len() ==> (#[trigger] s@[i]).triplet(),
{
    let mut b = true;
    let mut i: usize = 0;
    while i < s.len()
        invariant
            0 <= i <= s@.len(),
            b == forall|k: int| 0 <= k < i ==> (#[trigger] s@[k]).triplet(),
        decreases s@.len() - i,
    {
        b = b && s[i].is_anko();
        i = i + 1;
    }
    b
}

/// Number of triplets among the melds.
fn count_anko(s: &Vec<Mentsu>) -> (r: usize)
    requires
        s@.len() <= 4,
    ensures
        r == triplet_count(s@),
{
    let mut c: usize = 0;
    let mut i: usize = 0;
    while i < s.len()
        invariant
            s@.len() <= 4,
            0 <= i <= s@.len(),
            c == triplet_count(s@.take(i as int)),
            c <= i,
        decreases s@.len() - i,
    {
        assert(s@.take(i + 1).drop_last() =~= s@.take(i as int));
        if s[i].is_anko() {
            c = c + 1;
        }
        i = i + 1;
    }
    assert(s@.take(s@.len() as int) =~= s@);
    c
}

/// Sanshoku doukou over the numbers of the triplets and then of the quads.
fn douko_found(s: &Vec<Mentsu>, kan: &Vec<Name>) -> (r: bool)
    requires
        s@.len() <= 4,
        kan@.len() <= 4,
    ensures
        r == douko(triplet_nums(s@) + kan_nums(kan@)),
{
    let mut koutsu: Vec<usize> = Vec::new();
    let mut i: usize = 0;
    while i < s.len()
        invariant
            0 <= i <= s@.len(),
            koutsu@ == triplet_nums(s@.take(i as int)),
        decreases s@.len() - i,
    {
        assert(s@.take(i + 1).drop_last() =~= s@.take(i as int));
        if s[i].is_anko() {
            koutsu.push(s[i].num[0]);
        }
        i = i + 1;
    }
    assert(s@.take(s@.len() as int) =~= s@);
    let ghost t = koutsu@;
    let mut k: usize = 0;
    while k < kan.len()
        invariant
            0 <= k <= kan@.len(),
            koutsu@ == t + kan_nums(kan@.take(k as int)),
        decreases kan@.len() - k,
    {
        assert(kan@.take(k + 1).drop_last() =~= kan@.take(k as int));
        koutsu.push(kan[k].1);
        k = k + 1;
        assert(koutsu@ =~= t + kan_nums(kan@.take(k as int)));
    }
    assert(kan@.take(kan@.len() as int) =~= kan@);
    assert(koutsu@ == triplet_nums(s@) + kan_nums(kan@));
    let ghost ks = koutsu@;
    let n_kou = koutsu.len();
    let mut i: usize = 0;
    while i < n_kou
        invariant
            ks == koutsu@,
            ks == triplet_nums(s@) + kan_nums(kan@),
            n_kou == ks.len(),
            0 <= i <= n_kou,
            forall|k: int| 0 <= k < i ==> #[trigger] equal_after(ks, k, n_kou as int) != 2,
        decreases n_kou - i,
    {
        let mut c: usize = 1;
        let mut j: usize = i + 1;
        while j < n_kou
            invariant
                ks == koutsu@,
                n_kou == ks.len(),
                0 <= i < n_kou,
                i + 1 <= j <= n_kou,
                c == 1 + equal_after(ks, i as int, j as int),
                c <= j - i,
            decreases n_kou - j,
        {
            if koutsu[i] == koutsu[j] {
                c = c + 1;
            }
            j = j + 1;
        }
        if c == 3 {
            assert(equal_after(ks, i as int, ks.len() as int) == 2);
            assert(douko(ks));
            return true;
        }
        i = i + 1;
    }
    false
}

/// Sanshoku doujun.
fn doujun_found(s: &Vec<Mentsu>) -> (r: bool)
    requires
        doujun_countable(s@),
    ensures
        r == doujun(s@),
{
    let n = s.len();
    let mut i: usize = 0;
    while i < n
        invariant
            n == s@.len(),
            doujun_countable(s@),
            0 <= i <= n,
            forall|k: int| 0 <= k < i ==> !#[trigger] doujun_at(s@, k),
        decreases n - i,
    {
        if !s[i].is_anko() {
            proof {
                assert(!touches_honour(s@, i as int));
            }
            let mut v: [bool; 3] = [false; 3];
            v[s[i].mode as usize] = true;
            let mut j: usize = i + 1;
            while j < n
                invariant
                    n == s@.len(),
                    0 <= i < n,
                    !s@[i as int].triplet(),
                    !touches_honour(s@, i as int),
                    s@[i as int].mode < 3,
                    i + 1 <= j <= n,
                    forall|md: int|
                        0 <= md < 3 ==> #[trigger] v@[md] == (s@[i as int].mode == md || exists|j2: int|
                            #[trigger] run_like(s@, i as int, j2, md) && j2 < j),
                decreases n - j,
            {
                if !s[j].is_anko() && s[i].num[0] == s[j].num[0] {
                    proof {
                        assert(!honour_run_after(s@, i as int, j as int));
                    }
                    v[s[j].mode as usize] = true;
                    assert(run_like(s@, i as int, j as int, s@[j as int].mode as int));
                }
                proof {
                    assert forall|md: int| 0 <= md < 3 && #[trigger] run_like(s@, i as int, j as int, md)
                        implies v@[md] by {}
                }
                j = j + 1;
            }
            proof {
                assert forall|md: int|
                    0 <= md < 3 implies #[trigger] v@[md] == covers_suit(s@, i as int, md) by {
                    if exists|j2: int| #[trigger] run_like(s@, i as int, j2, md) {
                        let j2 = choose|j2: int| #[trigger] run_like(s@, i as int, j2, md);
                        assert(j2 < n);
                    }
                }
            }
            if v[0] && v[1] && v[2] {
                assert(doujun_at(s@, i as int));
                return true;
            }
            assert(!v@[0] || !v@[1] || !v@[2]);
        }
        i = i + 1;
    }
    false
}

/// Chanta, with the extra han when every quad is of terminals.
fn chanta_count(s: &Vec<Mentsu>, kan: &Vec<Name>) -> (r: usize)
    ensures
        r == chanta_han(s@, kan@),
{
    let mut flg = true;
    let mut k: usize = 0;
    while k < kan.len()
        invariant
            0 <= k <= kan@.len(),
            flg == forall|i: int| 0 <= i < k ==> yaochu_name(#[trigger] kan@[i]),
        decreases kan@.len() - k,
    {
        flg = flg && name_is_yaochu(kan[k]);
        k = k + 1;
    }
    let mut i: usize = 0;
    while i < s.len()
        invariant
            0 <= i <= s@.len(),
            flg == ((forall|k: int| 0 <= k < kan@.len() ==> yaochu_name(#[trigger] kan@[k])) && forall|
                k: int,
            | 0 <= k < i ==> (#[trigger] s@[k]).with_yaochu()),
        decreases s@.len() - i,
    {
        flg = flg && s[i].is_yaochu();
        i = i + 1;
    }
    if flg {
        let mut jun = true;
        let mut k: usize = 0;
        while k < kan.len()
            invariant
                0 <= k <= kan@.len(),
                jun == forall|i: int|
                    0 <= i < k ==> yaochu_name(#[trigger] kan@[i]) && kan@[i].0 != 3,
            decreases kan@.len() - k,
        {
            jun = jun && name_is_jun(kan[k]);
            k = k + 1;
        }
        if jun {
            3
        } else {
            2
        }
    } else {
        0
    }
}

/// The ikkitsuukan test, in manzu then in pinzu.
fn ikki_found(s: &Vec<Mentsu>) -> (r: bool)
    requires
        ikki_countable(s@),
    ensures
        r == ikki(s@),
{
    let mut i: u8 = 0;
    while i < 2
        invariant
            ikki_countable(s@),
            0 <= i <= 2,
            forall|md: int|
                0 <= md < i ==> !(has_run(s@, md, 1) && has_run(s@, md, 4) && has_run(s@, md, 7)),
        decreases 2 - i,
    {
        proof {
            assert(ikki_suit_countable(s@, i as int));
        }
        let mut v: [bool; 3] = [false; 3];
        let mut k: usize = 0;
        while k < s.len()
            invariant
                ikki_suit_countable(s@, i as int),
                0 <= i < 2,
                0 <= k <= s@.len(),
                forall|t: int|
                    0 <= t < 3 ==> v@[t] == exists|l: int|
                        0 <= l < k && !s@[l].triplet() && s@[l].mode == i && #[trigger] s@[l].num[0] == 3
                            * t + 1,
            decreases s@.len() - k,
        {
            let m = &s[k];
            if !m.is_anko() && m.mode == i && m.num[0] % 3 == 1 {
                v[m.num[0] / 3] = true;
            }
            proof {
                assert forall|t: int| 0 <= t < 3 implies v@[t] == exists|l: int|
                    0 <= l < k + 1 && !s@[l].triplet() && s@[l].mode == i && #[trigger] s@[l].num[0] == 3
                        * t + 1 by {
                    if !s@[k as int].triplet() && s@[k as int].mode == i && s@[k as int].num[0] == 3 * t + 1 {
                        assert(s@[k as int].num[0] % 3 == 1);
                    }
                }
            }
            k = k + 1;
        }
        proof {
            assert(v@[0] == has_run(s@, i as int, 1));
            assert(v@[1] == has_run(s@, i as int, 4));
            assert(v@[2] == has_run(s@, i as int, 7));
        }
        if v[0] && v[1] && v[2] {
            return true;
        }
        i = i + 1;
    }
    false
}

/// Number of suits among manzu, pinzu and souzu used by the melds and quads,
/// and whether honours are used.
fn isshoku_count(s: &Vec<Mentsu>, kan: &Vec<Name>) -> (r: usize)
    requires
        forall|i: int| 0 <= i < s@.len() ==> (#[trigger] s@[i]).mode < 4,
        forall|i: int| 0 <= i < kan@.len() ==> (#[trigger] kan@[i]).0 < 4,
    ensures
        r == (if suits_used(s@, kan@) == 1 {
            3 + if uses_suit(s@, kan@, 3) {
                0int
            } else {
                3int
            }
        } else {
            0int
        }),
{
    let mut v: [usize; 4] = [0; 4];
    let mut i: usize = 0;
    while i < s.len()
        invariant
            forall|i: int| 0 <= i < s@.len() ==> (#[trigger] s@[i]).mode < 4,
            0 <= i <= s@.len(),
            forall|md: int|
                0 <= md < 4 ==> v@[md] == (if exists|l: int| 0 <= l < i && (#[trigger] s@[l]).mode == md {
                    1usize
                } else {
                    0usize
                }),
        decreases s@.len() - i,
    {
        v[s[i].mode as usize] = 1;
        proof {
            assert forall|md: int| 0 <= md < 4 implies v@[md] == (if exists|l: int|
                0 <= l < i + 1 && (#[trigger] s@[l]).mode == md {
                1usize
            } else {
                0usize
            }) by {
                if s@[i as int].mode == md {
                    assert(0 <= i < i + 1 && s@[i as int].mode == md);
                }
            }
        }
        i = i + 1;
    }
    let mut k: usize = 0;
    while k < kan.len()
        invariant
            forall|i: int| 0 <= i < kan@.len() ==> (#[trigger] kan@[i]).0 < 4,
            0 <= k <= kan@.len(),
            forall|md: int|
                0 <= md < 4 ==> v@[md] == (if (exists|l: int| 0 <= l < s@.len() && (#[trigger] s@[l]).mode
                    == md) || (exists|l: int| 0 <= l < k && (#[trigger] kan@[l]).0 == md) {
                    1usize
                } else {
                    0usize
                }),
        decreases kan@.len() - k,
    {
        v[kan[k].0 as usize] = 1;
        proof {
            assert forall|md: int| 0 <= md < 4 implies v@[md] == (if (exists|l: int|
                0 <= l < s@.len() && (#[trigger] s@[l]).mode == md) || (exists|l: int|
                0 <= l < k + 1 && (#[trigger] kan@[l]).0 == md) {
                1usize
            } else {
                0usize
            }) by {
                if kan@[k as int].0 == md {
                    assert(0 <= k < k + 1 && kan@[k as int].0 == md);
                }
            }
        }
        k = k + 1;
    }
    assert(forall|md: int| 0 <= md < 4 ==> v@[md] == (if uses_suit(s@, kan@, md) { 1usize } else { 0usize }));
    if v[0] + v[1] + v[2] == 1 {
        if v[3] == 0 {
            6
        } else {
            3
        }
    } else {
        0
    }
}

fn copy_stand(v: &[Mentsu]) -> (r: Vec<Mentsu>)
    ensures
        r@ == v@,
{
    let mut r: Vec<Mentsu> = Vec::new();
    let mut i: usize = 0;
    while i < v.len()
        invariant
            0 <= i <= v@.len(),
            r@ == v@.take(i as int),
        decreases v@.len() - i,
    {
        r.push(v[i]);
        i = i + 1;
        assert(r@ =~= v@.take(i as int));
    }
    assert(v@.take(v@.len() as int) =~= v@);
    r
}

fn contains_meld(v: &Vec<Mentsu>, m: &Mentsu) -> (r: bool)
    ensures
        r == v@.contains(*m),
{
    let mut i: usize = 0;
    while i < v.len()
        invariant
            0 <= i <= v@.len(),
            forall|k: int| 0 <= k < i ==> v@[k] != *m,
        decreases v@.len() - i,
    {
        if v[i] == *m {
            assert(v@[i as int].num =~= m.num);
            return true;
        }
        i = i + 1;
    }
    false
}

fn contains_name(v: &Vec<Name>, n: Name) -> (r: bool)
    ensures
        r == v@.contains(n),
{
    let mut i: usize = 0;
    while i < v.len()
        invariant
            0 <= i <= v@.len(),
            forall|k: int| 0 <= k < i ==> v@[k] != n,
        decreases v@.len() - i,
    {
        if v[i].0 == n.0 && v[i].1 == n.1 {
            return true;
        }
        i = i + 1;
    }
    false
}

impl Calc {
    #[verifier::type_invariant]
    spec fn four_melds(self) -> bool {
        self.stand@.len() + self.naki.kan@.len() == 4
    }

    pub closed spec fn stand_s(&self) -> Seq<Mentsu> {
        self.stand@
    }

    pub closed spec fn last_s(&self) -> Option<Mentsu> {
        self.last
    }

    pub closed spec fn kan_s(&self) -> Seq<Name> {
        self.naki.kan@
    }

    pub closed spec fn head_s(&self) -> Name {
        self.head
    }

    pub closed spec fn tsumo_s(&self) -> Name {
        self.tsumo
    }

    pub closed spec fn han_base_s(&self) -> usize {
        self.han_base
    }

    pub closed spec fn ba_s(&self) -> usize {
        self.ba
    }

    pub closed spec fn cha_s(&self) -> usize {
        self.cha
    }

    /// Accepted only when the melds and quads make four.
    pub fn new(
        stand: &[Mentsu],
        last: Option<Mentsu>,
        naki: Naki,
        head: Name,
        tsumo: Name,
        han_base: usize,
        ba: usize,
        cha: usize,
    ) -> (r: Result<Self, ()>)
        requires
            stand@.len() + naki.kan@.len() <= usize::MAX,
        ensures
            r is Ok <==> stand@.len() + naki.kan@.len() == 4,
            r matches Ok(c) ==> {
                &&& c.stand_s() == stand@
                &&& c.last_s() == last
                &&& c.kan_s() == naki.kan@
                &&& c.head_s() == head
                &&& c.tsumo_s() == tsumo
                &&& c.han_base_s() == han_base
                &&& c.ba_s() == ba
                &&& c.cha_s() == cha
            },
    {
        if stand.len() + naki.kan.len() != 4 {
            return Err(());
        }
        Ok(Calc { stand: copy_stand(stand), last, naki, head, tsumo, han_base, ba, cha })
    }

    fn _contain(&self, name: Name) -> (r: bool)
        ensures
            r == (self.stand@.contains(Mentsu { mode: name.0, num: [name.1, name.1, name.1] })
                || self.naki.kan@.contains(name)),
    {
        contains_meld(&self.stand, &Mentsu::new(name.0, [name.1, name.1, name.1])) || contains_name(
            &self.naki.kan,
            name,
        )
    }

    fn _contain_head(&self, name: Name) -> (r: bool)
        ensures
            r == (self.stand@.contains(Mentsu { mode: name.0, num: [name.1, name.1, name.1] })
                || self.naki.kan@.contains(name) || self.head == name),
    {
        self._contain(name) || (self.head.0 == name.0 && self.head.1 == name.1)
    }

    /// The score when won by self-draw.
    pub fn score(&self) -> (r: Score)
        requires
            han_countable(self.stand_s(), self.kan_s()),
            han_of(
                self.stand_s(),
                self.kan_s(),
                self.head_s(),
                self.han_base_s() as int,
                self.ba_s(),
                self.cha_s(),
            ) <= usize::MAX,
            fu_of(
                self.stand_s(),
                self.last_s(),
                self.kan_s(),
                self.head_s(),
                self.tsumo_s(),
                self.ba_s(),
                self.cha_s(),
            ) == 20 ==> han_of(
                self.stand_s(),
                self.kan_s(),
                self.head_s(),
                self.han_base_s() as int,
                self.ba_s(),
                self.cha_s(),
            ) < usize::MAX,
        ensures
            r == calc_score(
                self.stand_s(),
                self.last_s(),
                self.kan_s(),
                self.head_s(),
                self.tsumo_s(),
                self.han_base_s() as int,
                self.ba_s(),
                self.cha_s(),
            ),
    {
        let mut fu = self.fu();
        let mut han = self.han();
        proof {
            use_type_invariant(self);
            lemma_fu_bound(self.stand@, self.naki.kan@);
            vstd::arithmetic::power2::lemma2_to64();
        }
        if fu == 20 {
            han = han + 1;
        } else {
            fu = fu + 2;
        }
        assert(fu <= 200);
        assert(score_computable(fu as int, han as int)) by {
            if han < 6 {
                let p = vstd::arithmetic::power2::pow2((han + 2) as nat);
                assert(p <= 128);
                let ru = crate::score::round_up(fu as int, 10);
                assert(ru <= 209) by (nonlinear_arith)
                    requires
                        ru == (fu + 9) / 10 * 10 || ru == fu,
                        0 <= fu <= 200,
                ;
                assert(0 <= ru) by (nonlinear_arith)
                    requires
                        ru == (fu + 9) / 10 * 10 || ru == fu,
                        0 <= fu <= 200,
                ;
                assert(ru * p <= 209 * 128) by (nonlinear_arith)
                    requires
                        0 <= ru <= 209,
                        0 <= p <= 128,
                ;
            }
        }
        Score::new(fu, han, self.cha == 0)
    }

    /// Han before the self-draw pinfu bonus.
    pub fn han(&self) -> (r: usize)
        requires
            han_countable(self.stand_s(), self.kan_s()),
            han_of(
                self.stand_s(),
                self.kan_s(),
                self.head_s(),
                self.han_base_s() as int,
                self.ba_s(),
                self.cha_s(),
            ) <= usize::MAX,
        ensures
            r == han_of(
                self.stand_s(),
                self.kan_s(),
                self.head_s(),
                self.han_base_s() as int,
                self.ba_s(),
                self.cha_s(),
            ),
    {
        proof {
            use_type_invariant(self);
            lemma_yakuhai_bounds(self.stand@, self.naki.kan@, self.ba, self.cha);
        }
        let ghost s = self.stand@;
        let ghost kan = self.naki.kan@;
        let ghost first = first_repeat_from(s, 0);
        let mut h = self.han_base;
        // 1,2peiko
        let peiko = peiko_count(&self.stand);
        h = h + peiko;
        // yakuhai
        let yakuhai = yakuhai_count(&self.stand, &self.naki.kan, self.ba, self.cha);
        h = h + yakuhai;
        // toitoi
        if all_anko(&self.stand) {
            h = h + 2;
        }
        // 3anko
        if count_anko(&self.stand) + self.naki.kan.len() == 3 {
            h = h + 2;
        }
        // 3shoku-douko
        if douko_found(&self.stand, &self.naki.kan) {
            h = h + 2;
        }
        // 3shoku-doujun
        if doujun_found(&self.stand) {
            h = h + 2;
        }
        // hourontou & chanta
        h = h + chanta_count(&self.stand, &self.naki.kan);
        // ikki
        if ikki_found(&self.stand) {
            h = h + 2;
        }
        // shosangen
        if self._contain_head((3, 4)) && self._contain_head((3, 5)) && self._contain_head((3, 6)) {
            h = h + 2;
        }
        // 3kantsu
        if self.naki.kan.len() == 3 {
            h = h + 2;
        }
        // isshoku
        h = h + isshoku_count(&self.stand, &self.naki.kan);
        h
    }

    /// Fu before the self-draw bonus.
    pub fn fu(&self) -> (r: usize)
        ensures
            r == fu_of(
                self.stand_s(),
                self.last_s(),
                self.kan_s(),
                self.head_s(),
                self.tsumo_s(),
                self.ba_s(),
                self.cha_s(),
            ),
    {
        proof {
            use_type_invariant(self);
        }
        let mut f: usize = 20;
        // head
        if self.head.0 == 3 {
            if self.head.1 >= 4 || self.head.1 == self.ba || self.head.1 == self.cha {
                f = f + 2;
            }
        }
        let ghost f0 = f as int;
        // anko
        let mut i: usize = 0;
        while i < self.stand.len()
            invariant
                self.stand@.len() <= 4,
                0 <= i <= self.stand@.len(),
                f == f0 + anko_fu_sum(self.stand@.take(i as int)),
                0 <= anko_fu_sum(self.stand@.take(i as int)) <= 8 * i,
                f0 <= 22,
            decreases self.stand@.len() - i,
        {
            let m = &self.stand[i];
            assert(self.stand@.take(i + 1).drop_last() =~= self.stand@.take(i as int));
            if m.is_anko() {
                if m.is_yaochu() {
                    f = f + 8;
                } else {
                    f = f + 4;
                }
            }
            i = i + 1;
        }
        assert(self.stand@.take(self.stand@.len() as int) =~= self.stand@);
        let ghost f1 = f as int;
        // kantsu
        let mut k: usize = 0;
        while k < self.naki.kan.len()
            invariant
                self.naki.kan@.len() <= 4,
                0 <= k <= self.naki.kan@.len(),
                f == f1 + kan_fu_sum(self.naki.kan@.take(k as int)),
                0 <= kan_fu_sum(self.naki.kan@.take(k as int)) <= 32 * k,
                f1 <= 22 + 32,
            decreases self.naki.kan@.len() - k,
        {
            let kk = self.naki.kan[k];
            assert(self.naki.kan@.take(k + 1).drop_last() =~= self.naki.kan@.take(k as int));
            if name_is_yaochu(kk) {
                f = f + 32;
            } else {
                f = f + 16;
            }
            k = k + 1;
        }
        assert(self.naki.kan@.take(self.naki.kan@.len() as int) =~= self.naki.kan@);
        // machi
        match &self.last {
            None => {
                f = f + 2;
            },
            Some(m) => {
                if !m.is_anko() {
                    if m.num[0] == self.tsumo.1 && m.num[2] == 8 {
                        f = f + 2;
                    }
                    if m.num[1] == self.tsumo.1 {
                        f = f + 2;
                    }
                    if m.num[2] == self.tsumo.1 && m.num[0] == 0 {
                        f = f + 2;
                    }
                }
            },
        }
        f
    }
}

} // verus!
