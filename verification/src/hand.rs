use vstd::prelude::*;

use crate::agari::standard_agari;
use crate::calc::{calc_score, han_countable, lemma_han_bound, Calc};
use crate::count::{head_cands, head_pais, kokushi, lemma_head_pais, seven_pairs, tally, without_head, Count};
use crate::mentsu::{decompose, decompositions, lemma_decompositions_ok, melds_ok, melds_view, Mentsu};
use crate::score::{score_computable, score_of, Score};
use crate::index::{index2pai, name_pai, pai2name, pai_name, valid_name, yaochu_pai, Name};
use crate::naki::Naki;

verus! {

// ---------------------------------------------------------------- sums

/// Total of the counts.
pub open spec fn seq_sum(s: Seq<u8>) -> int
    decreases s.len(),
{
    if s.len() == 0 {
        0
    } else {
        seq_sum(s.drop_last()) + s.last()
    }
}

/// Sums of a concatenation add up.
pub proof fn lemma_seq_sum_concat(a: Seq<u8>, b: Seq<u8>)
    ensures
        seq_sum(a + b) == seq_sum(a) + seq_sum(b),
    decreases b.len(),
{
    if b.len() == 0 {
        assert(a + b =~= a);
    } else {
        lemma_seq_sum_concat(a, b.drop_last());
        assert((a + b).drop_last() =~= a + b.drop_last());
    }
}

/// A sum of counts is zero exactly when every count is.
pub proof fn lemma_seq_sum_positive(s: Seq<u8>)
    ensures
        seq_sum(s) >= 0,
        seq_sum(s) > 0 <==> exists|i: int| 0 <= i < s.len() && s[i] > 0,
    decreases s.len(),
{
    if s.len() > 0 {
        lemma_seq_sum_positive(s.drop_last());
        if exists|i: int| 0 <= i < s.drop_last().len() && s.drop_last()[i] > 0 {
            let i = choose|i: int| 0 <= i < s.drop_last().len() && s.drop_last()[i] > 0;
            assert(s[i] > 0);
        }
        if exists|i: int| 0 <= i < s.len() && s[i] > 0 {
            let i = choose|i: int| 0 <= i < s.len() && s[i] > 0;
            if i < s.len() - 1 {
                assert(s.drop_last()[i] > 0);
            }
        }
    }
}

/// Total of `a[lo..hi]`.
fn sum_range(a: &[u8], lo: usize, hi: usize) -> (r: u8)
    requires
        lo <= hi <= a@.len(),
        seq_sum(a@.subrange(lo as int, hi as int)) <= 255,
    ensures
        r == seq_sum(a@.subrange(lo as int, hi as int)),
{
    let ghost whole = a@.subrange(lo as int, hi as int);
    let mut r: u8 = 0;
    let mut i: usize = lo;
    while i < hi
        invariant
            lo <= i <= hi <= a@.len(),
            whole == a@.subrange(lo as int, hi as int),
            seq_sum(whole) <= 255,
            r == seq_sum(a@.subrange(lo as int, i as int)),
        decreases hi - i,
    {
        proof {
            assert(a@.subrange(lo as int, i + 1).drop_last() =~= a@.subrange(lo as int, i as int));
            lemma_seq_sum_concat(a@.subrange(lo as int, i + 1), a@.subrange(i + 1, hi as int));
            assert(a@.subrange(lo as int, i + 1) + a@.subrange(i + 1, hi as int) =~= whole);
            lemma_seq_sum_positive(a@.subrange(i + 1, hi as int));
        }
        r = r + a[i];
        i = i + 1;
    }
    r
}

// ---------------------------------------------------------------- model

/// The 34 counts of a hand's tile indices.
pub open spec fn counts_of(stand: Seq<u8>) -> Seq<u8> {
    Seq::new(34, |p: int| tally(stand, p) as u8)
}

/// Tile indices that can be counted: none of 136..143 (which name no kind of
/// the seven honours), and at most 255 of a kind.
pub open spec fn countable(stand: Seq<u8>) -> bool {
    &&& forall|i: int| 0 <= i < stand.len() ==> !(136 <= #[trigger] stand[i] < 144)
    &&& forall|p: int| 0 <= p < 34 ==> #[trigger] tally(stand, p) <= 255
}

/// A winning shape.
pub open spec fn agari_counts(c: Seq<u8>) -> bool {
    seven_pairs(c) || kokushi(c) || standard_agari(c)
}

/// Number of quads of kind `p`.
pub open spec fn kan_tally(kan: Seq<Name>, p: int) -> nat
    decreases kan.len(),
{
    if kan.len() == 0 {
        0
    } else {
        kan_tally(kan.drop_last(), p) + if name_pai(kan.last()) == p {
            1nat
        } else {
            0nat
        }
    }
}

/// The counts with `k` more tiles for each quad.
pub open spec fn with_kans(c: Seq<u8>, kan: Seq<Name>, k: int) -> Seq<u8> {
    Seq::new(c.len(), |p: int| (c[p] + k * kan_tally(kan, p)) as u8)
}

/// Counts of suit `md` (nine numbers, seven honours).
pub open spec fn suit_of(c: Seq<u8>, md: int) -> Seq<u8> {
    if md == 3 {
        c.subrange(27, 34)
    } else {
        c.subrange(9 * md, 9 * md + 9)
    }
}

/// Some tile of suit `md` is held.
pub open spec fn suit_held(c: Seq<u8>, md: int) -> bool {
    seq_sum(suit_of(c, md)) > 0
}

// ---------------------------------------------------------------- yakuman

/// The last terminal or honour kind (in kind order) held twice, among the first `n`.
pub open spec fn last_yaochu_pair(c: Seq<u8>, n: int) -> Option<int>
    decreases n,
{
    if n <= 0 {
        None
    } else if yaochu_pai(n - 1) && c[n - 1] == 2 {
        Some(n - 1)
    } else {
        last_yaochu_pair(c, n - 1)
    }
}

/// Kokushi musou (1), doubled when the pair is the winning tile.
pub open spec fn kokushi_bonus(c: Seq<u8>, tsumo: Name) -> int {
    if kokushi(c) {
        let last = match last_yaochu_pair(c, 34) {
            Some(p) => pai_name(p),
            None => (0u8, 0usize),
        };
        1 + if last == tsumo {
            1int
        } else {
            0int
        }
    } else {
        0
    }
}

/// The last of numbers 1 to 7 (0-based) below `n` held twice.
pub open spec fn last_mid_pair(c9: Seq<u8>, n: int) -> Option<int>
    decreases n,
{
    if n <= 1 {
        None
    } else if c9[n - 1] == 2 {
        Some(n - 1)
    } else {
        last_mid_pair(c9, n - 1)
    }
}

/// Chuuren poutou shape: 1112345678999 of one suit plus one more.
pub open spec fn chuuren_shape(c9: Seq<u8>) -> bool {
    &&& (c9[0] == 3 || c9[0] == 4)
    &&& (c9[8] == 3 || c9[8] == 4)
    &&& forall|i: int| 1 <= i < 8 ==> c9[i] == 1 || c9[i] == 2
}

/// The number held once more than the base shape (looked for in the order
/// 1, 9, 2, ..., 8; the last found counts; 1 when none).
pub open spec fn chuuren_extra(c9: Seq<u8>) -> int {
    match last_mid_pair(c9, 8) {
        Some(i) => i,
        None => if c9[8] == 4 {
            8
        } else {
            0
        },
    }
}

/// The only numbered suit held, when exactly one is and no honours are.
pub open spec fn single_suit(c: Seq<u8>) -> Option<int> {
    let n = (if suit_held(c, 0) {
        1int
    } else {
        0int
    }) + (if suit_held(c, 1) {
        1int
    } else {
        0int
    }) + (if suit_held(c, 2) {
        1int
    } else {
        0int
    }) + (if suit_held(c, 3) {
        1int
    } else {
        0int
    });
    if n == 1 && !suit_held(c, 3) {
        Some(
            if suit_held(c, 0) {
                0int
            } else if suit_held(c, 1) {
                1int
            } else {
                2int
            },
        )
    } else {
        None
    }
}

/// Chuuren poutou (1), doubled when the extra number is that of the winning tile.
pub open spec fn chuuren_bonus(c: Seq<u8>, tsumo: Name) -> int {
    match single_suit(c) {
        Some(md) => {
            let c9 = suit_of(c, md);
            if chuuren_shape(c9) {
                1 + if chuuren_extra(c9) == tsumo.1 {
                    1int
                } else {
                    0int
                }
            } else {
                0
            }
        },
        None => 0,
    }
}

/// Kinds of the all-green hand: 2, 3, 4, 6, 8 of souzu and the green dragon.
pub open spec fn green_pai(p: int) -> bool {
    p == 19 || p == 20 || p == 21 || p == 23 || p == 25 || p == 32
}

/// Ryuuiisou: only green kinds held.
pub open spec fn all_green(c: Seq<u8>) -> bool {
    forall|p: int| 0 <= p < 34 && c[p] > 0 ==> green_pai(p)
}

/// Daisangen: three of each dragon.
pub open spec fn daisangen(c: Seq<u8>) -> bool {
    c[31] == 3 && c[32] == 3 && c[33] == 3
}

/// Tiles of the four winds.
pub open spec fn winds(c: Seq<u8>) -> int {
    c[27] + c[28] + c[29] + c[30]
}

/// Tsuuiisou: no numbered tile.
pub open spec fn only_honours(c: Seq<u8>) -> bool {
    forall|p: int| 0 <= p < 27 ==> c[p] == 0
}

/// The last kind (in kind order) held twice, among the first `n`.
pub open spec fn last_pair(c: Seq<u8>, n: int) -> Option<int>
    decreases n,
{
    if n <= 0 {
        None
    } else if c[n - 1] == 2 {
        Some(n - 1)
    } else {
        last_pair(c, n - 1)
    }
}

/// Suuankou: every kind held two or three times (1), doubled when the pair is
/// the winning tile.
pub open spec fn suuankou_bonus(c: Seq<u8>, tsumo: Name) -> int {
    if forall|p: int| 0 <= p < 34 ==> c[p] == 2 || c[p] == 3 {
        let last = match last_pair(c, 34) {
            Some(p) => pai_name(p),
            None => (0u8, 0usize),
        };
        1 + if last == tsumo {
            1int
        } else {
            0int
        }
    } else {
        0
    }
}

/// A numbered kind of 2 to 8.
pub open spec fn middle_pai(p: int) -> bool {
    p < 27 && p % 9 != 0 && p % 9 != 8
}

/// Chinroutou: only 1s and 9s held.
pub open spec fn only_terminals(c: Seq<u8>) -> bool {
    forall|p: int| 0 <= p < 34 && (middle_pai(p) || p >= 27) ==> #[trigger] c[p] == 0
}

/// Tiles of 2 to 8 over the three numbered suits.
pub open spec fn middle_sum(c: Seq<u8>) -> int {
    seq_sum(c.subrange(1, 8)) + seq_sum(c.subrange(10, 17)) + seq_sum(c.subrange(19, 26))
}

/// Yakuman count (each counting once, some twice).
pub open spec fn yakuman_of(c: Seq<u8>, kan: Seq<Name>, tenhou: bool, tsumo: Name) -> int {
    let c2 = with_kans(c, kan, 3);
    (if tenhou {
        1int
    } else {
        0int
    }) + (if kan.len() == 4 {
        1int
    } else {
        0int
    }) + kokushi_bonus(c, tsumo) + chuuren_bonus(c, tsumo) + (if all_green(c2) {
        1int
    } else {
        0int
    }) + (if daisangen(c2) {
        1int
    } else {
        0int
    }) + (if winds(c2) >= 11 {
        1int
    } else {
        0int
    }) + (if winds(c2) == 12 {
        1int
    } else {
        0int
    }) + (if only_honours(c2) {
        1int
    } else {
        0int
    }) + suuankou_bonus(c2, tsumo) + (if only_terminals(c2) {
        1int
    } else {
        0int
    })
}

/// The yakuman count is computed without overflow and with quads of real kinds.
pub open spec fn yakuman_computable(c: Seq<u8>, kan: Seq<Name>) -> bool {
    let c2 = with_kans(c, kan, 3);
    &&& forall|i: int| 0 <= i < kan.len() ==> valid_name(#[trigger] kan[i])
    &&& forall|p: int| 0 <= p < 34 ==> c[p] + 3 * #[trigger] kan_tally(kan, p) <= 255
    &&& forall|md: int| 0 <= md < 4 ==> #[trigger] seq_sum(suit_of(c, md)) <= 255
    &&& seq_sum(c2.subrange(0, 27)) <= 255
    &&& winds(c2) <= 255
    &&& middle_sum(c2) + seq_sum(c2.subrange(27, 34)) <= 255
}


/// The kind of the given name as a position, honours taken for names of suit 3 and above.
pub open spec fn slot(name: Name) -> int {
    if name.0 < 3 {
        name_pai(name)
    } else {
        27 + name.1
    }
}

/// All four tiles of the kind are in the hand or declared as a quad.
pub open spec fn full(c: Seq<u8>, kan: Seq<Name>, name: Name) -> bool {
    c[slot(name)] == 4 || kan.contains(name)
}

/// Kinds among the first `n` that can still be drawn, in order.
pub open spec fn draw_pais(c: Seq<u8>, kan: Seq<Name>, n: int) -> Seq<int>
    decreases n,
{
    if n <= 0 {
        Seq::empty()
    } else if !full(c, kan, pai_name(n - 1)) {
        draw_pais(c, kan, n - 1).push(n - 1)
    } else {
        draw_pais(c, kan, n - 1)
    }
}

/// The counts after drawing one tile of kind `p`.
pub open spec fn drawn(c: Seq<u8>, p: int) -> Seq<u8> {
    c.update(p, (c[p] + 1) as u8)
}

/// Tenpai: some kind among the first 33 that can be drawn makes a winning shape.
pub open spec fn tenpai_counts(c: Seq<u8>, kan: Seq<Name>) -> bool {
    exists|p: int| 0 <= p < 33 && !full(c, kan, pai_name(p)) && #[trigger] agari_counts(drawn(c, p))
}

/// No terminal or honour held.
pub open spec fn tanyao_counts(c: Seq<u8>) -> bool {
    forall|p: int| 0 <= p < 34 && yaochu_pai(p) ==> c[p] == 0
}

/// The kinds listed for drawing are exactly those below `n` not used up.
pub proof fn lemma_draw_pais(c: Seq<u8>, kan: Seq<Name>, n: int)
    requires
        0 <= n,
    ensures
        forall|k: int|
            0 <= k < draw_pais(c, kan, n).len() ==> 0 <= #[trigger] draw_pais(c, kan, n)[k] < n
                && !full(c, kan, pai_name(draw_pais(c, kan, n)[k])),
        forall|p: int|
            0 <= p < n && !full(c, kan, pai_name(p)) ==> #[trigger] draw_pais(c, kan, n).contains(p),
    decreases n,
{
    if n > 0 {
        lemma_draw_pais(c, kan, n - 1);
        let prev = draw_pais(c, kan, n - 1);
        if !full(c, kan, pai_name(n - 1)) {
            assert(draw_pais(c, kan, n) == prev.push(n - 1));
            assert forall|p: int| 0 <= p < n && !full(c, kan, pai_name(p)) implies #[trigger] draw_pais(
                c,
                kan,
                n,
            ).contains(p) by {
                if p < n - 1 {
                    assert(prev.contains(p));
                    let k = choose|k: int| 0 <= k < prev.len() && prev[k] == p;
                    assert(draw_pais(c, kan, n)[k] == p);
                } else {
                    assert(draw_pais(c, kan, n)[prev.len() as int] == p);
                }
            }
        } else {
            assert(draw_pais(c, kan, n) == prev);
            assert forall|p: int| 0 <= p < n && !full(c, kan, pai_name(p)) implies #[trigger] draw_pais(
                c,
                kan,
                n,
            ).contains(p) by {
                assert(prev.contains(p));
            }
        }
    }
}

/// Count of kind `p`.
fn count_at(c: &Count, p: usize) -> (r: u8)
    requires
        p < 34,
    ensures
        r == c@[p as int],
{
    if p < 9 {
        c.manzu[p]
    } else if p < 18 {
        c.pinzu[p - 9]
    } else if p < 27 {
        c.souzu[p - 18]
    } else {
        c.zupai[p - 27]
    }
}

/// Adds `k` tiles of kind `p`.
fn add_at(c: &mut Count, p: usize, k: u8)
    requires
        p < 34,
        old(c)@[p as int] + k <= 255,
    ensures
        final(c)@ == old(c)@.update(p as int, (old(c)@[p as int] + k) as u8),
{
    let ghost c0 = c@;
    if p < 9 {
        c.manzu[p] = c.manzu[p] + k;
    } else if p < 18 {
        c.pinzu[p - 9] = c.pinzu[p - 9] + k;
    } else if p < 27 {
        c.souzu[p - 18] = c.souzu[p - 18] + k;
    } else {
        c.zupai[p - 27] = c.zupai[p - 27] + k;
    }
    assert(c@ =~= c0.update(p as int, (c0[p as int] + k) as u8));
}

/// Total of the counts of kinds `lo..hi`.
fn count_sum(c: &Count, lo: usize, hi: usize) -> (r: u8)
    requires
        lo <= hi <= 34,
        seq_sum(c@.subrange(lo as int, hi as int)) <= 255,
    ensures
        r == seq_sum(c@.subrange(lo as int, hi as int)),
{
    let ghost whole = c@.subrange(lo as int, hi as int);
    let mut r: u8 = 0;
    let mut i: usize = lo;
    while i < hi
        invariant
            lo <= i <= hi <= 34,
            c@.len() == 34,
            whole == c@.subrange(lo as int, hi as int),
            seq_sum(whole) <= 255,
            r == seq_sum(c@.subrange(lo as int, i as int)),
        decreases hi - i,
    {
        proof {
            assert(c@.subrange(lo as int, i + 1).drop_last() =~= c@.subrange(lo as int, i as int));
            lemma_seq_sum_concat(c@.subrange(lo as int, i + 1), c@.subrange(i + 1, hi as int));
            assert(c@.subrange(lo as int, i + 1) + c@.subrange(i + 1, hi as int) =~= whole);
            lemma_seq_sum_positive(c@.subrange(i + 1, hi as int));
        }
        r = r + count_at(c, i);
        i = i + 1;
    }
    r
}

/// Kokushi part of the yakuman count.
fn kokushi_part(c: &Count, tsumo: Name) -> (r: usize)
    ensures
        r == kokushi_bonus(c@, tsumo),
{
    let mut flg = true;
    let mut last: Name = (0, 0);
    let mut p: usize = 0;
    while p < 34
        invariant
            0 <= p <= 34,
            c@.len() == 34,
            flg == forall|q: int| 0 <= q < p && yaochu_pai(q) ==> c@[q] == 1 || c@[q] == 2,
            last == match last_yaochu_pair(c@, p as int) {
                Some(q) => pai_name(q),
                None => (0u8, 0usize),
            },
        decreases 34 - p,
    {
        let ghost flg0 = flg;
        if p >= 27 || p % 9 == 0 || p % 9 == 8 {
            let x = count_at(c, p);
            if x == 1 {
            } else if x == 2 {
                last = ((p / 9) as u8, p % 9);
            } else {
                flg = false;
            }
        }
        proof {
            assert(flg == (flg0 && (yaochu_pai(p as int) ==> c@[p as int] == 1 || c@[p as int] == 2)));
        }
        p = p + 1;
    }
    if flg {
        if last.0 == tsumo.0 && last.1 == tsumo.1 {
            2
        } else {
            1
        }
    } else {
        0
    }
}

/// Chuuren part of the yakuman count.
fn chuuren_part(c: &Count, tsumo: Name) -> (r: usize)
    requires
        forall|md: int| 0 <= md < 4 ==> #[trigger] seq_sum(suit_of(c@, md)) <= 255,
    ensures
        r == chuuren_bonus(c@, tsumo),
{
    assert(seq_sum(suit_of(c@, 0)) <= 255 && seq_sum(suit_of(c@, 1)) <= 255 && seq_sum(suit_of(c@, 2))
        <= 255 && seq_sum(suit_of(c@, 3)) <= 255);
    let v: [u8; 4] = [
        if count_sum(c, 0, 9) > 0 { 1 } else { 0 },
        if count_sum(c, 9, 18) > 0 { 1 } else { 0 },
        if count_sum(c, 18, 27) > 0 { 1 } else { 0 },
        if count_sum(c, 27, 34) > 0 { 1 } else { 0 },
    ];
    if v[0] + v[1] + v[2] + v[3] == 1 && v[3] == 0 {
        let c9: [u8; 9] = if v[0] == 1 {
            c.manzu
        } else if v[1] == 1 {
            c.pinzu
        } else {
            c.souzu
        };
        let ghost md: int = if v[0] == 1 {
            0
        } else if v[1] == 1 {
            1
        } else {
            2
        };
        assert(single_suit(c@) == Some(md));
        assert(c9@ =~= suit_of(c@, md));
        let mut flg = true;
        let mut last: usize = 0;
        if c9[0] == 3 {
        } else if c9[0] == 4 {
            last = 0;
        } else {
            flg = false;
        }
        if c9[8] == 3 {
        } else if c9[8] == 4 {
            last = 8;
        } else {
            flg = false;
        }
        let mut i: usize = 1;
        while i < 8
            invariant
                1 <= i <= 8,
                c9@.len() == 9,
                flg == ((c9@[0] == 3 || c9@[0] == 4) && (c9@[8] == 3 || c9@[8] == 4) && forall|k: int|
                    1 <= k < i ==> c9@[k] == 1 || c9@[k] == 2),
                last == match last_mid_pair(c9@, i as int) {
                    Some(q) => q,
                    None => if c9@[8] == 4 {
                        8int
                    } else {
                        0int
                    },
                },
            decreases 8 - i,
        {
            if c9[i] == 1 {
            } else if c9[i] == 2 {
                last = i;
            } else {
                flg = false;
            }
            i = i + 1;
        }
        if flg {
            if last == tsumo.1 {
                2
            } else {
                1
            }
        } else {
            0
        }
    } else {
        assert(single_suit(c@) is None);
        0
    }
}

/// Whether the name is one of the all-green kinds.
fn allgreen_contains(name: Name) -> (r: bool)
    ensures
        r == (name == (2u8, 1usize) || name == (2u8, 2usize) || name == (2u8, 3usize) || name == (
        2u8, 5usize) || name == (2u8, 7usize) || name == (3u8, 5usize)),
{
    (name.0 == 2 && (name.1 == 1 || name.1 == 2 || name.1 == 3 || name.1 == 5 || name.1 == 7)) || (
    name.0 == 3 && name.1 == 5)
}

/// The counts with three more tiles for each quad.
fn add_kans(count: &Count, kans: &Vec<Name>) -> (r: Count)
    requires
        forall|i: int| 0 <= i < kans@.len() ==> valid_name(#[trigger] kans@[i]),
        forall|p: int| 0 <= p < 34 ==> count@[p] + 3 * #[trigger] kan_tally(kans@, p) <= 255,
    ensures
        r@ == with_kans(count@, kans@, 3),
{
    let ghost c = count@;
    let ghost kan = kans@;
    let mut r = *count;
    let mut k: usize = 0;
    assert(r@ =~= with_kans(c, kan.take(0), 3));
    while k < kans.len()
        invariant
            c == count@,
            kan == kans@,
            forall|i: int| 0 <= i < kan.len() ==> valid_name(#[trigger] kan[i]),
            forall|p: int| 0 <= p < 34 ==> c[p] + 3 * #[trigger] kan_tally(kan, p) <= 255,
            0 <= k <= kan.len(),
            r@ == with_kans(c, kan.take(k as int), 3),
        decreases kan.len() - k,
    {
        let kk = kans[k];
        let ghost p = name_pai(kk);
        proof {
            assert(valid_name(kan[k as int]));
            assert(kan.take(k + 1).drop_last() =~= kan.take(k as int));
            assert(kan.take(k + 1).last() == kk);
            assert(kan_tally(kan.take(k + 1), p) == kan_tally(kan.take(k as int), p) + 1);
            lemma_kan_tally_prefix(kan, k + 1, p);
            assert(c[p] + 3 * kan_tally(kan, p) <= 255);
            assert(r@[p] == c[p] + 3 * kan_tally(kan.take(k as int), p));
        }
        add_at(&mut r, kk.0 as usize * 9 + kk.1, 3);
        k = k + 1;
        assert(r@ =~= with_kans(c, kan.take(k as int), 3));
    }
    assert(kan.take(kan.len() as int) =~= kan);
    r
}

/// Ryuuiisou.
fn green_part(count: &Count) -> (r: bool)
    ensures
        r == all_green(count@),
{
    let ghost c2 = count@;
    let mut flg = true;
    let mut p: usize = 0;
    while p < 34
        invariant
            0 <= p <= 34,
            c2 == count@,
            c2.len() == 34,
            flg == forall|q: int| 0 <= q < p && c2[q] > 0 ==> green_pai(q),
        decreases 34 - p,
    {
        let ghost flg0 = flg;
        if count_at(count, p) > 0 {
            let g = allgreen_contains(((p / 9) as u8, p % 9));
            assert(g == green_pai(p as int));
            if !g {
                flg = false;
            }
        }
        proof {
            assert(flg == (flg0 && (c2[p as int] > 0 ==> green_pai(p as int))));
        }
        p = p + 1;
    }
    flg
}

/// Tsuuiisou.
fn honours_part(count: &Count) -> (r: bool)
    requires
        seq_sum(count@.subrange(0, 27)) <= 255,
    ensures
        r == only_honours(count@),
{
    let ghost c2 = count@;
    proof {
        lemma_seq_sum_concat(c2.subrange(0, 9), c2.subrange(9, 18));
        lemma_seq_sum_concat(c2.subrange(0, 9) + c2.subrange(9, 18), c2.subrange(18, 27));
        assert(c2.subrange(0, 9) + c2.subrange(9, 18) + c2.subrange(18, 27) =~= c2.subrange(0, 27));
        lemma_seq_sum_positive(c2.subrange(0, 9));
        lemma_seq_sum_positive(c2.subrange(9, 18));
        lemma_seq_sum_positive(c2.subrange(18, 27));
        lemma_seq_sum_positive(c2.subrange(0, 27));
    }
    let s0 = count_sum(count, 0, 9);
    let s1 = count_sum(count, 9, 18);
    let s2 = count_sum(count, 18, 27);
    let r = s0 + s1 + s2 == 0;
    proof {
        if r {
            assert forall|q: int| 0 <= q < 27 implies c2[q] == 0 by {
                assert(c2.subrange(0, 27)[q] == c2[q]);
            }
        } else {
            let i = choose|i: int| 0 <= i < 27 && c2.subrange(0, 27)[i] > 0;
            assert(c2[i] > 0);
        }
    }
    r
}

/// Suuankou part of the yakuman count.
fn suuankou_part(count: &Count, tsumo: Name) -> (r: usize)
    ensures
        r == suuankou_bonus(count@, tsumo),
{
    let ghost c2 = count@;
    let mut flg = true;
    let mut last: Name = (0, 0);
    let mut p: usize = 0;
    while p < 34
        invariant
            0 <= p <= 34,
            c2 == count@,
            c2.len() == 34,
            flg == forall|q: int| 0 <= q < p ==> c2[q] == 2 || c2[q] == 3,
            last == match last_pair(c2, p as int) {
                Some(q) => pai_name(q),
                None => (0u8, 0usize),
            },
        decreases 34 - p,
    {
        let ghost flg0 = flg;
        let x = count_at(count, p);
        if x == 3 {
        } else if x == 2 {
            last = ((p / 9) as u8, p % 9);
        } else {
            flg = false;
        }
        proof {
            assert(flg == (flg0 && (c2[p as int] == 2 || c2[p as int] == 3)));
        }
        p = p + 1;
    }
    if flg {
        if last.0 == tsumo.0 && last.1 == tsumo.1 {
            2
        } else {
            1
        }
    } else {
        0
    }
}

/// Chinroutou.
fn chinroutou_part(count: &Count) -> (r: bool)
    requires
        middle_sum(count@) + seq_sum(count@.subrange(27, 34)) <= 255,
    ensures
        r == only_terminals(count@),
{
    let ghost c2 = count@;
    proof {
        lemma_seq_sum_positive(c2.subrange(1, 8));
        lemma_seq_sum_positive(c2.subrange(10, 17));
        lemma_seq_sum_positive(c2.subrange(19, 26));
        lemma_seq_sum_positive(c2.subrange(27, 34));
    }
    let m0 = count_sum(count, 1, 8);
    let m1 = count_sum(count, 10, 17);
    let m2 = count_sum(count, 19, 26);
    let h = count_sum(count, 27, 34);
    let r = m0 + m1 + m2 + h == 0;
    proof {
        if r {
            assert(m0 == 0 && m1 == 0 && m2 == 0 && h == 0);
            assert(!(exists|i: int| 0 <= i < 7 && c2.subrange(1, 8)[i] > 0));
            assert(!(exists|i: int| 0 <= i < 7 && c2.subrange(10, 17)[i] > 0));
            assert(!(exists|i: int| 0 <= i < 7 && c2.subrange(19, 26)[i] > 0));
            assert(!(exists|i: int| 0 <= i < 7 && c2.subrange(27, 34)[i] > 0));
            assert forall|q: int| 0 <= q < 34 && (middle_pai(q) || q >= 27) implies c2[q] == 0 by {
                if q >= 27 {
                    assert(c2.subrange(27, 34)[q - 27] == c2[q]);
                } else if q < 9 {
                    assert(c2.subrange(1, 8)[q - 1] == c2[q]);
                } else if q < 18 {
                    assert(c2.subrange(10, 17)[q - 10] == c2[q]);
                } else {
                    assert(c2.subrange(19, 26)[q - 19] == c2[q]);
                }
            }
        } else {
            if m0 > 0 {
                let i = choose|i: int| 0 <= i < 7 && c2.subrange(1, 8)[i] > 0;
                assert(c2[1 + i] > 0 && middle_pai(1 + i));
            } else if m1 > 0 {
                let i = choose|i: int| 0 <= i < 7 && c2.subrange(10, 17)[i] > 0;
                assert(c2[10 + i] > 0 && middle_pai(10 + i));
            } else if m2 > 0 {
                let i = choose|i: int| 0 <= i < 7 && c2.subrange(19, 26)[i] > 0;
                assert(c2[19 + i] > 0 && middle_pai(19 + i));
            } else {
                let i = choose|i: int| 0 <= i < 7 && c2.subrange(27, 34)[i] > 0;
                assert(c2[27 + i] > 0);
            }
        }
    }
    r
}

/// The counts and the quads of a hand.
#[derive(Clone)]
pub struct HandCount {
    count: Count,
    naki: Naki,
}

impl View for HandCount {
    type V = (Seq<u8>, Seq<Name>);

    closed spec fn view(&self) -> (Seq<u8>, Seq<Name>) {
        (self.count@, self.naki.kan@)
    }
}

/// The counts of a `HandCount` are one for each of the 34 tile kinds.
pub proof fn lemma_hand_count_kinds(hc: HandCount)
    ensures
        hc@.0.len() == 34,
{
}

impl HandCount {
    fn duplicate(&self) -> (r: Self)
        ensures
            r@ == self@,
    {
        HandCount { count: self.count, naki: self.naki.duplicate() }
    }

    /// Whether the counts form a winning shape.
    pub fn is_agari(&self) -> (r: bool)
        ensures
            r == agari_counts(self@.0),
    {
        self.count.is_agari()
    }

    /// Whether all four tiles of the kind are held or declared as a quad.
    pub fn is_full(&self, name: Name) -> (r: bool)
        requires
            name.0 < 3 ==> name.1 < 9,
            name.0 >= 3 ==> name.1 < 7,
        ensures
            r == full(self@.0, self@.1, name),
    {
        let in_count = if name.0 == 0 {
            self.count.manzu[name.1] == 4
        } else if name.0 == 1 {
            self.count.pinzu[name.1] == 4
        } else if name.0 == 2 {
            self.count.souzu[name.1] == 4
        } else {
            self.count.zupai[name.1] == 4
        };
        assert(in_count == (self.count@[slot(name)] == 4));
        let mut found = false;
        let mut i: usize = 0;
        while i < self.naki.kan.len()
            invariant
                0 <= i <= self.naki.kan@.len(),
                found == exists|k: int| 0 <= k < i && self.naki.kan@[k] == name,
            decreases self.naki.kan@.len() - i,
        {
            if self.naki.kan[i].0 == name.0 && self.naki.kan[i].1 == name.1 {
                found = true;
            }
            i = i + 1;
        }
        in_count || found
    }

    /// Adds one tile of the named kind (names of no suit change nothing).
    pub fn add_name(&mut self, name: Name)
        requires
            name.0 <= 3 ==> valid_name(name) && old(self)@.0[name_pai(name)] < 255,
        ensures
            final(self)@.1 == old(self)@.1,
            final(self)@.0 == (if name.0 <= 3 {
                drawn(old(self)@.0, name_pai(name))
            } else {
                old(self)@.0
            }),
    {
        let ghost c0 = self.count@;
        if name.0 == 0 {
            self.count.manzu[name.1] = self.count.manzu[name.1] + 1;
        }
        if name.0 == 1 {
            self.count.pinzu[name.1] = self.count.pinzu[name.1] + 1;
        }
        if name.0 == 2 {
            self.count.souzu[name.1] = self.count.souzu[name.1] + 1;
        }
        if name.0 == 3 {
            self.count.zupai[name.1] = self.count.zupai[name.1] + 1;
        }
        proof {
            if name.0 <= 3 {
                assert(self.count@ =~= drawn(c0, name_pai(name)));
            } else {
                assert(self.count@ =~= c0);
            }
        }
    }

    /// The hands after drawing each kind that can still be drawn, among the
    /// first 33 kinds, in kind order.
    pub fn virtual_tsumo(&self) -> (r: Vec<HandCount>)
        requires
            forall|p: int|
                0 <= p < 33 && !full(self@.0, self@.1, pai_name(p)) ==> #[trigger] self@.0[p] < 255,
        ensures
            r@.len() == draw_pais(self@.0, self@.1, 33).len(),
            forall|k: int|
                0 <= k < r@.len() ==> (#[trigger] r@[k])@ == (
                    drawn(self@.0, draw_pais(self@.0, self@.1, 33)[k]),
                    self@.1,
                ),
    {
        let mut v: Vec<HandCount> = Vec::new();
        let mut pai: u8 = 0;
        while pai < 33
            invariant
                0 <= pai <= 33,
                forall|p: int|
                    0 <= p < 33 && !full(self@.0, self@.1, pai_name(p)) ==> #[trigger] self@.0[p] < 255,
                v@.len() == draw_pais(self@.0, self@.1, pai as int).len(),
                forall|k: int|
                    0 <= k < v@.len() ==> (#[trigger] v@[k])@ == (
                        drawn(self@.0, draw_pais(self@.0, self@.1, pai as int)[k]),
                        self@.1,
                    ),
            decreases 33 - pai,
        {
            let mut hc = self.duplicate();
            let name = pai2name(pai);
            assert(pai_name(pai as int) == name);
            assert(name_pai(name) == pai);
            let ghost prev = draw_pais(self@.0, self@.1, pai as int);
            if !self.is_full(name) {
                hc.add_name(name);
                v.push(hc);
                assert(draw_pais(self@.0, self@.1, pai + 1) == prev.push(pai as int));
            } else {
                assert(draw_pais(self@.0, self@.1, pai + 1) == prev);
            }
            pai = pai + 1;
        }
        v
    }

    /// Tenpai: drawing some kind (among the first 33) makes a winning shape.
    pub fn is_tenpai(&self) -> (r: bool)
        requires
            forall|p: int|
                0 <= p < 33 && !full(self@.0, self@.1, pai_name(p)) ==> #[trigger] self@.0[p] < 255,
        ensures
            r == tenpai_counts(self@.0, self@.1),
    {
        let cands = self.virtual_tsumo();
        let ghost c = self@.0;
        let ghost kan = self@.1;
        let ghost dp = draw_pais(c, kan, 33);
        proof {
            lemma_draw_pais(c, kan, 33);
        }
        let mut k: usize = 0;
        while k < cands.len()
            invariant
                c == self@.0,
                kan == self@.1,
                dp == draw_pais(c, kan, 33),
                cands@.len() == dp.len(),
                forall|j: int| 0 <= j < cands@.len() ==> (#[trigger] cands@[j])@ == (drawn(c, dp[j]), kan),
                0 <= k <= cands@.len(),
                forall|j: int| 0 <= j < k ==> !agari_counts(#[trigger] drawn(c, dp[j])),
            decreases cands@.len() - k,
        {
            if cands[k].is_agari() {
                proof {
                    lemma_draw_pais(c, kan, 33);
                    assert(cands@[k as int]@ == (drawn(c, dp[k as int]), kan));
                    assert(0 <= dp[k as int] < 33);
                    assert(agari_counts(drawn(c, dp[k as int])));
                }
                return true;
            }
            k = k + 1;
        }
        proof {
            lemma_draw_pais(c, kan, 33);
            assert forall|p: int|
                0 <= p < 33 && !full(c, kan, pai_name(p)) implies !#[trigger] agari_counts(
                drawn(c, p),
            ) by {
                assert(dp.contains(p));
                let j = choose|j: int| 0 <= j < dp.len() && dp[j] == p;
                assert(!agari_counts(drawn(c, dp[j])));
            }
        }
        false
    }

    /// No terminal or honour held.
    pub fn tanyao(&self) -> (r: bool)
        requires
            (self@.0[0] == 0 && self@.0[8] == 0 && self@.0[9] == 0 && self@.0[17] == 0 && self@.0[18]
                == 0 && self@.0[26] == 0) ==> seq_sum(self@.0.subrange(27, 34)) <= 255,
        ensures
            r == tanyao_counts(self@.0),
    {
        let ghost c = self@.0;
        let r = self.count.manzu[0] == 0 && self.count.manzu[8] == 0 && self.count.pinzu[0] == 0
            && self.count.pinzu[8] == 0 && self.count.souzu[0] == 0 && self.count.souzu[8] == 0
            && count_sum(&self.count, 27, 34) == 0;
        proof {
            assert(c[0] == self.count.manzu@[0] && c[8] == self.count.manzu@[8]);
            assert(c[9] == self.count.pinzu@[0] && c[17] == self.count.pinzu@[8]);
            assert(c[18] == self.count.souzu@[0] && c[26] == self.count.souzu@[8]);
            lemma_seq_sum_positive(c.subrange(27, 34));
            if r {
                assert forall|p: int| 0 <= p < 34 && yaochu_pai(p) implies c[p] == 0 by {
                    if p >= 27 {
                        assert(c.subrange(27, 34)[p - 27] == c[p]);
                    }
                }
            } else {
                if c[0] == 0 && c[8] == 0 && c[9] == 0 && c[17] == 0 && c[18] == 0 && c[26] == 0 {
                    let i = choose|i: int| 0 <= i < 7 && c.subrange(27, 34)[i] > 0;
                    assert(c[27 + i] > 0 && yaochu_pai(27 + i));
                } else {
                    assert(yaochu_pai(0) && yaochu_pai(8) && yaochu_pai(9) && yaochu_pai(17) && yaochu_pai(
                        18,
                    ) && yaochu_pai(26));
                    assert(!tanyao_counts(c));
                }
            }
        }
        r
    }

    /// Yakuman count of the hand won by self-draw on `tsumo`.
    #[verifier::spinoff_prover]
    pub fn yakuman(&self, tenhou: bool, tsumo: Name) -> (r: usize)
        requires
            yakuman_computable(self@.0, self@.1),
        ensures
            r == yakuman_of(self@.0, self@.1, tenhou, tsumo),
    {
        let ghost c = self@.0;
        let ghost kan = self@.1;
        let mut ans: usize = if tenhou { 1 } else { 0 };
        // 4kantsu
        if self.naki.kan.len() == 4 {
            ans = ans + 1;
        }
        // kokushi
        ans = ans + kokushi_part(&self.count, tsumo);
        // 9ren
        ans = ans + chuuren_part(&self.count, tsumo);
        // quads count as triplets from here on
        let count = add_kans(&self.count, &self.naki.kan);
        let ghost c2 = count@;
        // all green
        if green_part(&count) {
            ans = ans + 1;
        }
        // daisangen
        if count.zupai[4] == 3 && count.zupai[5] == 3 && count.zupai[6] == 3 {
            ans = ans + 1;
        }
        // shousushi daisushi
        assert(count.zupai@[0] + count.zupai@[1] + count.zupai@[2] + count.zupai@[3] == winds(c2));
        let s = count.zupai[0] + count.zupai[1] + count.zupai[2] + count.zupai[3];
        if s >= 11 {
            ans = ans + 1;
        }
        if s == 12 {
            ans = ans + 1;
        }
        // zuiso
        if honours_part(&count) {
            ans = ans + 1;
        }
        // 4anko
        ans = ans + suuankou_part(&count, tsumo);
        // chinroutou
        if chinroutou_part(&count) {
            ans = ans + 1;
        }
        ans
    }
}

/// A prefix of the quads holds no more quads of a kind than the whole.
pub proof fn lemma_kan_tally_prefix(kan: Seq<Name>, k: int, p: int)
    requires
        0 <= k <= kan.len(),
    ensures
        kan_tally(kan.take(k), p) <= kan_tally(kan, p),
    decreases kan.len(),
{
    if k < kan.len() {
        lemma_kan_tally_prefix(kan.drop_last(), k, p);
        assert(kan.drop_last().take(k) =~= kan.take(k));
    } else {
        assert(kan.take(k) =~= kan);
    }
}


// ---------------------------------------------------------------- hand

/// Tile indices in ascending order.
pub open spec fn sorted(s: Seq<u8>) -> bool {
    forall|i: int, j: int| 0 <= i <= j < s.len() ==> s[i] <= s[j]
}

/// The tile indices without those of kind `p`, in their order.
pub open spec fn drop_kind(s: Seq<u8>, p: int) -> Seq<u8>
    decreases s.len(),
{
    if s.len() == 0 {
        s
    } else if s.last() / 4 == p {
        drop_kind(s.drop_last(), p)
    } else {
        drop_kind(s.drop_last(), p).push(s.last())
    }
}

/// The digit value of a character `'0'..='9'`.
pub open spec fn digit_of(c: char) -> Option<int> {
    if '0' <= c && c <= '9' {
        Some(c as int - '0' as int)
    } else {
        None
    }
}

/// The least index from `n` on that is not taken (256 when all are).
pub open spec fn next_free(stand: Seq<u8>, n: int) -> int
    decreases 256 - n,
{
    if n >= 256 || n < 0 || !stand.contains(n as u8) {
        n
    } else {
        next_free(stand, n + 1)
    }
}

/// Reading the characters of a hand such as "m123p456s789z11": a letter sets
/// the suit (m, p, s, z; manzu by default), a digit adds a tile of that suit
/// and number, with the least free index of that kind and up; other
/// characters are passed over. Gives the suit in force and the indices.
pub open spec fn parse_hand(cs: Seq<char>) -> (u8, Seq<u8>)
    decreases cs.len(),
{
    if cs.len() == 0 {
        (0u8, Seq::empty())
    } else {
        let (mode, stand) = parse_hand(cs.drop_last());
        let c = cs.last();
        match digit_of(c) {
            Some(d) => (mode, stand.push(next_free(stand, mode * 36 + (d - 1) * 4) as u8)),
            None => if c == 'm' {
                (0u8, stand)
            } else if c == 'p' {
                (1u8, stand)
            } else if c == 's' {
                (2u8, stand)
            } else if c == 'z' {
                (3u8, stand)
            } else {
                (mode, stand)
            },
        }
    }
}

/// The characters can be read: no digit 0, and a free index for every tile.
pub open spec fn parsable(cs: Seq<char>) -> bool
    decreases cs.len(),
{
    if cs.len() == 0 {
        true
    } else {
        let (mode, stand) = parse_hand(cs.drop_last());
        &&& parsable(cs.drop_last())
        &&& match digit_of(cs.last()) {
            Some(d) => d != 0 && next_free(stand, mode * 36 + (d - 1) * 4) < 256,
            None => true,
        }
    }
}

/// Sorts the tile indices in ascending order, with `slice::sort` of std,
/// which orders the elements ascending and keeps each of them.
#[verifier::external_body]
fn sort_indices(v: &mut Vec<u8>)
    ensures
        final(v)@.to_multiset() == old(v)@.to_multiset(),
        sorted(final(v)@),
{
    v.sort();
}

fn contains_u8(v: &Vec<u8>, x: u8) -> (r: bool)
    ensures
        r == v@.contains(x),
{
    let mut i: usize = 0;
    while i < v.len()
        invariant
            0 <= i <= v@.len(),
            forall|k: int| 0 <= k < i ==> v@[k] != x,
        decreases v@.len() - i,
    {
        if v[i] == x {
            return true;
        }
        i = i + 1;
    }
    false
}

/// A hand: the tile indices held (0..=135, four per kind) and the quads.
pub struct Hand {
    pub stand: Vec<u8>,
    pub naki: Naki,
}

impl Hand {
    /// The dealt tiles, sorted, with no quads.
    pub fn new(haipai: &[u8; 13]) -> (r: Self)
        ensures
            sorted(r.stand@),
            r.stand@.to_multiset() == haipai@.to_multiset(),
            r.naki.kan@ == Seq::<Name>::empty(),
    {
        let naki = Naki::new();
        let mut stand: Vec<u8> = Vec::new();
        let mut i: usize = 0;
        while i < 13
            invariant
                0 <= i <= 13,
                haipai@.len() == 13,
                stand@ == haipai@.take(i as int),
            decreases 13 - i,
        {
            stand.push(haipai[i]);
            i = i + 1;
            assert(stand@ =~= haipai@.take(i as int));
        }
        assert(haipai@.take(13) =~= haipai@);
        sort_indices(&mut stand);
        Self { stand, naki }
    }

    /// Reads a hand written as digits after suit letters, e.g. "m123p456s789z11".
    pub fn from_string(s: &str) -> (r: Self)
        requires
            parsable(s@),
        ensures
            r.stand@ == parse_hand(s@).1,
            r.naki.kan@ == Seq::<Name>::empty(),
    {
        let mut stand: Vec<u8> = Vec::new();
        let naki = Naki::new();
        let mut mode: u8 = 0;
        let ghost cs = s@;
        for c in it: s.chars()
            invariant
                it.seq() == cs,
                cs == s@,
                parsable(cs),
                (mode, stand@) == parse_hand(cs.take(it.index() as int)),
                mode <= 3,
        {
            let ghost k = it.index() as int;
            proof {
                assert(cs.take(k + 1).drop_last() =~= cs.take(k));
                assert(cs.take(k + 1).last() == c);
                lemma_parsable_prefix(cs, k + 1);
            }
            if '0' <= c && c <= '9' {
                let p: u8 = (c as u32 - '0' as u32) as u8;
                proof {
                    assert(digit_of(c) == Some(p as int));
                    assert(p != 0);
                }
                let mut n: u8 = mode * 36 + (p - 1) * 4;
                let ghost target = next_free(stand@, n as int);
                assert(target < 256);
                proof {
                    lemma_next_free_ge(stand@, n as int);
                }
                while contains_u8(&stand, n)
                    invariant
                        target < 256,
                        next_free(stand@, n as int) == target,
                        n <= target,
                    decreases 256 - n,
                {
                    proof {
                        assert(stand@.contains(n));
                        assert(next_free(stand@, n as int) == next_free(stand@, n + 1));
                        lemma_next_free_ge(stand@, n + 1);
                    }
                    n = n + 1;
                }
                stand.push(n);
            } else {
                if c == 'm' {
                    mode = 0;
                }
                if c == 'p' {
                    mode = 1;
                }
                if c == 's' {
                    mode = 2;
                }
                if c == 'z' {
                    mode = 3;
                }
            }
        }
        assert(cs.take(cs.len() as int) =~= cs);
        Self { stand, naki }
    }

    /// Draws the tile with index `pai` and sorts the hand.
    pub fn tsumo(&mut self, pai: u8)
        ensures
            sorted(final(self).stand@),
            final(self).stand@.to_multiset() == old(self).stand@.to_multiset().insert(pai),
            final(self).naki.kan@ == old(self).naki.kan@,
    {
        self.stand.push(pai);
        proof {
            broadcast use vstd::seq_lib::group_to_multiset_ensures;
        }
        sort_indices(&mut self.stand);
    }

    /// Discards the tile at `position`, giving its index.
    pub fn dahai(&mut self, position: usize) -> (r: u8)
        requires
            position < old(self).stand@.len(),
        ensures
            r == old(self).stand@[position as int],
            final(self).stand@ == old(self).stand@.remove(position as int),
            final(self).naki.kan@ == old(self).naki.kan@,
    {
        self.stand.remove(position)
    }

    /// Declares a concealed quad of the kind of the tile at `position`, when
    /// exactly four tiles of that kind are held: they leave the hand and the
    /// kind joins the quads.
    pub fn kan(&mut self, position: usize) -> (r: bool)
        requires
            position < old(self).stand@.len(),
            old(self).stand@.len() >= 4,
        ensures
            ({
                let p = old(self).stand@[position as int] / 4;
                let rest = drop_kind(old(self).stand@, p as int);
                &&& r == (rest.len() + 4 == old(self).stand@.len())
                &&& r ==> final(self).stand@ == rest && final(self).naki.kan@ == old(
                    self,
                ).naki.kan@.push(pai_name(p as int))
                &&& !r ==> final(self).stand@ == old(self).stand@ && final(self).naki.kan@ == old(
                    self,
                ).naki.kan@
            }),
    {
        let n = self.stand.len();
        let pai = index2pai(self.stand[position]);
        let ghost s0 = self.stand@;
        let mut stand_new: Vec<u8> = Vec::new();
        let mut i: usize = 0;
        while i < n
            invariant
                n == self.stand@.len(),
                s0 == self.stand@,
                0 <= i <= n,
                stand_new@ == drop_kind(s0.take(i as int), pai as int),
                stand_new@.len() <= i,
            decreases n - i,
        {
            assert(s0.take(i + 1).drop_last() =~= s0.take(i as int));
            let si = self.stand[i];
            if index2pai(si) != pai {
                stand_new.push(si);
            }
            i = i + 1;
        }
        assert(s0.take(n as int) =~= s0);
        if n - 4 == stand_new.len() {
            self.stand = stand_new;
            self.naki.kan.push(pai2name(pai));
            true
        } else {
            false
        }
    }

    /// The counts of the tiles held, with the quads.
    pub fn to_count(&self) -> (r: HandCount)
        requires
            countable(self.stand@),
        ensures
            r@ == (counts_of(self.stand@), self.naki.kan@),
    {
        HandCount::from_hand(self)
    }

    /// Whether the tiles held form a winning shape.
    pub fn is_agari(&self) -> (r: bool)
        requires
            countable(self.stand@),
        ensures
            r == agari_counts(counts_of(self.stand@)),
    {
        self.to_count().is_agari()
    }

    /// Whether one more tile, of a kind not used up, makes a winning shape.
    pub fn is_tenpai(&self) -> (r: bool)
        requires
            countable(self.stand@),
            forall|p: int|
                0 <= p < 33 && !full(counts_of(self.stand@), self.naki.kan@, pai_name(p))
                    ==> #[trigger] tally(self.stand@, p) < 255,
        ensures
            r == tenpai_counts(counts_of(self.stand@), self.naki.kan@),
    {
        self.to_count().is_tenpai()
    }
}

/// The next free index is at least where the search starts.
pub proof fn lemma_next_free_ge(stand: Seq<u8>, n: int)
    requires
        0 <= n,
    ensures
        next_free(stand, n) >= n,
    decreases 256 - n,
{
    if n < 256 && stand.contains(n as u8) {
        lemma_next_free_ge(stand, n + 1);
    }
}

/// A prefix of readable text is readable.
pub proof fn lemma_parsable_prefix(cs: Seq<char>, k: int)
    requires
        parsable(cs),
        0 <= k <= cs.len(),
    ensures
        parsable(cs.take(k)),
    decreases cs.len(),
{
    if k < cs.len() {
        lemma_parsable_prefix(cs.drop_last(), k);
        assert(cs.drop_last().take(k) =~= cs.take(k));
    } else {
        assert(cs.take(k) =~= cs);
    }
}

impl HandCount {
    /// The counts of a hand, with its quads.
    pub fn from_hand(hand: &Hand) -> (r: Self)
        requires
            countable(hand.stand@),
        ensures
            r@ == (counts_of(hand.stand@), hand.naki.kan@),
    {
        let count = Count::from_indices(hand.stand.as_slice());
        let naki = hand.naki.duplicate();
        let r = Self { count, naki };
        assert(r@.0 =~= counts_of(hand.stand@));
        r
    }
}


// ---------------------------------------------------------------- score

pub open spec fn flag(b: bool) -> int {
    if b {
        1
    } else {
        0
    }
}

/// Dora: one han per tile (quads counting four) of each dora kind.
pub open spec fn dora_han(c4: Seq<u8>, dora: Seq<Name>) -> int
    decreases dora.len(),
{
    if dora.len() == 0 {
        0
    } else {
        dora_han(c4, dora.drop_last()) + c4[name_pai(dora.last())]
    }
}

/// Some 1 or 9 is held.
pub open spec fn terminal_held(c: Seq<u8>) -> bool {
    exists|p: int| 0 <= p < 27 && (p % 9 == 0 || p % 9 == 8) && #[trigger] c[p] > 0
}

/// Some 2 to 8 is held.
pub open spec fn middle_held(c: Seq<u8>) -> bool {
    exists|p: int| 0 <= p < 34 && middle_pai(p) && #[trigger] c[p] > 0
}

/// Number of the numbered suits held.
pub open spec fn suits_held(c: Seq<u8>) -> int {
    flag(suit_held(c, 0)) + flag(suit_held(c, 1)) + flag(suit_held(c, 2))
}

/// Han that do not depend on the decomposition: self-draw, riichi, double
/// riichi, ippatsu, haitei, rinshan, dora (quads counting four tiles), red
/// fives (indices 16, 52, 88), honitsu (3) and chinitsu (3 more), tanyao,
/// honroutou (2).
pub open spec fn base_han(
    stand: Seq<u8>,
    c: Seq<u8>,
    kan: Seq<Name>,
    reach: bool,
    double: bool,
    ippatsu: bool,
    haitei: bool,
    rinshan: bool,
    dora: Seq<Name>,
) -> int {
    let c4 = with_kans(c, kan, 4);
    1 + flag(reach) + flag(double) + flag(ippatsu) + flag(haitei) + flag(rinshan) + dora_han(c4, dora)
        + aka_han(stand) + suit_han(c4)
}

/// Red fives: indices 16, 52 and 88.
pub open spec fn aka_han(stand: Seq<u8>) -> int {
    flag(stand.contains(16)) + flag(stand.contains(52)) + flag(stand.contains(88))
}

/// Han by the suits held: honitsu (3) and chinitsu (3 more), tanyao (1),
/// honroutou (2).
pub open spec fn suit_han(c4: Seq<u8>) -> int {
    (if suits_held(c4) == 1 {
        3 + if !suit_held(c4, 3) {
            3int
        } else {
            0int
        }
    } else {
        0int
    }) + (if !suit_held(c4, 3) && !terminal_held(c4) {
        1int
    } else {
        0int
    }) + (if !middle_held(c4) {
        2int
    } else {
        0int
    })
}

/// The base han can be counted: quads and dora of real kinds, no count or
/// total over 255, and the han and meld totals within `usize`.
pub open spec fn base_computable(c: Seq<u8>, kan: Seq<Name>, dora: Seq<Name>) -> bool {
    let c4 = with_kans(c, kan, 4);
    &&& forall|i: int| 0 <= i < kan.len() ==> valid_name(#[trigger] kan[i])
    &&& forall|p: int| 0 <= p < 34 ==> c[p] + 4 * #[trigger] kan_tally(kan, p) <= 255
    &&& forall|i: int| 0 <= i < dora.len() ==> valid_name(#[trigger] dora[i])
    &&& forall|md: int| 0 <= md < 4 ==> #[trigger] seq_sum(suit_of(c4, md)) <= 255
    &&& c4[0] + c4[8] + c4[9] + c4[17] + c4[18] + c4[26] <= 255
    &&& middle_sum(c4) <= 255
    &&& dora.len() * 255 + 200 <= usize::MAX
    &&& kan.len() + 2295 <= usize::MAX
}

/// The meld holds a tile of number `t`.
pub open spec fn holds_num(m: Mentsu, t: usize) -> bool {
    m.num[0] == t || m.num[1] == t || m.num[2] == t
}

/// Scores for the decomposition `vm` with each of its first `k` melds taken
/// as completed by the winning tile, where that tile can be in it.
pub open spec fn meld_scores(
    vm: Seq<Mentsu>,
    k: int,
    kan: Seq<Name>,
    head: Name,
    tsumo: Name,
    hb: int,
    ba: usize,
    cha: usize,
) -> Seq<Score>
    decreases k,
{
    if k <= 0 {
        Seq::empty()
    } else {
        meld_scores(vm, k - 1, kan, head, tsumo, hb, ba, cha) + if vm[k - 1].mode == tsumo.0
            && holds_num(vm[k - 1], tsumo.1) && vm.len() + kan.len() == 4 {
            seq![calc_score(vm, Some(vm[k - 1]), kan, head, tsumo, hb, ba, cha)]
        } else {
            Seq::empty()
        }
    }
}

/// Score of the decomposition won on the head, when the winning tile is the head.
pub open spec fn head_score(
    vm: Seq<Mentsu>,
    kan: Seq<Name>,
    head: Name,
    tsumo: Name,
    hb: int,
    ba: usize,
    cha: usize,
) -> Seq<Score> {
    if head == tsumo && vm.len() + kan.len() == 4 {
        seq![calc_score(vm, None, kan, head, tsumo, hb, ba, cha)]
    } else {
        Seq::empty()
    }
}

/// All readings of one decomposition.
pub open spec fn decomp_scores(
    vm: Seq<Mentsu>,
    kan: Seq<Name>,
    head: Name,
    tsumo: Name,
    hb: int,
    ba: usize,
    cha: usize,
) -> Seq<Score> {
    head_score(vm, kan, head, tsumo, hb, ba, cha) + meld_scores(
        vm,
        vm.len() as int,
        kan,
        head,
        tsumo,
        hb,
        ba,
        cha,
    )
}

/// Readings of the first `k` decompositions.
pub open spec fn decomps_scores(
    vms: Seq<Seq<Mentsu>>,
    k: int,
    kan: Seq<Name>,
    head: Name,
    tsumo: Name,
    hb: int,
    ba: usize,
    cha: usize,
) -> Seq<Score>
    decreases k,
{
    if k <= 0 {
        Seq::empty()
    } else {
        decomps_scores(vms, k - 1, kan, head, tsumo, hb, ba, cha) + decomp_scores(
            vms[k - 1],
            kan,
            head,
            tsumo,
            hb,
            ba,
            cha,
        )
    }
}

/// Readings for the first `k` heads of `hp`.
pub open spec fn heads_scores(
    c: Seq<u8>,
    hp: Seq<int>,
    k: int,
    kan: Seq<Name>,
    tsumo: Name,
    hb: int,
    ba: usize,
    cha: usize,
) -> Seq<Score>
    decreases k,
{
    if k <= 0 {
        Seq::empty()
    } else {
        let vms = decompositions(without_head(c, hp[k - 1]));
        heads_scores(c, hp, k - 1, kan, tsumo, hb, ba, cha) + decomps_scores(
            vms,
            vms.len() as int,
            kan,
            pai_name(hp[k - 1]),
            tsumo,
            hb,
            ba,
            cha,
        )
    }
}

/// Every score the hand can be read as: seven pairs (25 fu, 2 han), then each
/// head, each decomposition of the numbered suits, each place of the winning tile.
pub open spec fn hand_scores(
    c: Seq<u8>,
    kan: Seq<Name>,
    tsumo: Name,
    hb: int,
    ba: usize,
    cha: usize,
) -> Seq<Score> {
    (if seven_pairs(c) {
        seq![score_of(25, hb + 2, cha == 0)]
    } else {
        Seq::empty()
    }) + heads_scores(c, head_pais(c, 34), head_pais(c, 34).len() as int, kan, tsumo, hb, ba, cha)
}

/// The first of the scores with the highest payment from each non-dealer.
pub open spec fn best_score(sc: Seq<Score>) -> Score
    decreases sc.len(),
{
    if sc.len() <= 1 {
        sc[0]
    } else {
        let b = best_score(sc.drop_last());
        if b.children < sc.last().children {
            sc.last()
        } else {
            b
        }
    }
}

/// Score of `bai` yakuman.
pub open spec fn yakuman_score(bai: int, cha: usize) -> Score {
    Score {
        parent: if cha == 0 {
            None
        } else {
            Some((16000 * bai) as usize)
        },
        children: (if cha == 0 {
            16000 * bai
        } else {
            8000 * bai
        }) as usize,
        fu: 0,
        han: bai as usize,
    }
}

/// Score of a hand won by self-draw on `tsumo`: none when the hand is not a
/// winning shape, the yakuman score when there is one, else the best reading.
pub open spec fn hand_score(
    stand: Seq<u8>,
    kan: Seq<Name>,
    tenhou: bool,
    reach: bool,
    double: bool,
    ippatsu: bool,
    haitei: bool,
    rinshan: bool,
    dora: Seq<Name>,
    tsumo: Name,
    ba: usize,
    cha: usize,
) -> Option<Score> {
    let c = counts_of(stand);
    if !agari_counts(c) {
        None
    } else {
        let bai = yakuman_of(c, kan, tenhou, tsumo);
        if bai > 0 {
            Some(yakuman_score(bai, cha))
        } else {
            let hb = base_han(stand, c, kan, reach, double, ippatsu, haitei, rinshan, dora);
            Some(best_score(hand_scores(c, kan, tsumo, hb, ba, cha)))
        }
    }
}

/// What scoring needs: the counts for a winning shape, the yakuman count, and
/// without yakuman, the base han and at least one reading.
pub open spec fn scorable(
    stand: Seq<u8>,
    kan: Seq<Name>,
    tenhou: bool,
    reach: bool,
    double: bool,
    ippatsu: bool,
    haitei: bool,
    rinshan: bool,
    dora: Seq<Name>,
    tsumo: Name,
    ba: usize,
    cha: usize,
) -> bool {
    let c = counts_of(stand);
    &&& countable(stand)
    &&& agari_counts(c) ==> yakuman_computable(c, kan)
    &&& (agari_counts(c) && yakuman_of(c, kan, tenhou, tsumo) == 0) ==> {
        &&& base_computable(c, kan, dora)
        &&& hand_scores(
            c,
            kan,
            tsumo,
            base_han(stand, c, kan, reach, double, ippatsu, haitei, rinshan, dora),
            ba,
            cha,
        ).len() > 0
    }
}

proof fn lemma_dora_han_bound(c4: Seq<u8>, dora: Seq<Name>)
    ensures
        0 <= dora_han(c4, dora) <= 255 * dora.len(),
    decreases dora.len(),
{
    if dora.len() > 0 {
        lemma_dora_han_bound(c4, dora.drop_last());
    }
}

/// Adding the tiles of one more quad to the counts.
proof fn lemma_with_kans_step(c: Seq<u8>, kan: Seq<Name>, i: int, k: int, r0: Seq<u8>, r1: Seq<u8>)
    requires
        c.len() == 34,
        0 <= i < kan.len(),
        0 <= name_pai(kan[i]) < 34,
        r0 == with_kans(c, kan.take(i), k),
        r0[name_pai(kan[i])] + k == c[name_pai(kan[i])] + k * kan_tally(kan.take(i), name_pai(kan[i]))
            + k,
        c[name_pai(kan[i])] + k * kan_tally(kan.take(i), name_pai(kan[i])) + k <= 255,
        k >= 0,
        r1 == r0.update(name_pai(kan[i]), (r0[name_pai(kan[i])] + k) as u8),
    ensures
        r1 == with_kans(c, kan.take(i + 1), k),
{
    let p = name_pai(kan[i]);
    let t0 = kan.take(i);
    let t1 = kan.take(i + 1);
    assert(t1.drop_last() =~= t0);
    assert forall|q: int| 0 <= q < 34 implies #[trigger] r1[q] == (c[q] + k * kan_tally(t1, q)) as u8 by {
        assert(kan_tally(t1, q) == kan_tally(t0, q) + if p == q {
            1nat
        } else {
            0nat
        });
        if q == p {
            assert(k * kan_tally(t1, q) == k * kan_tally(t0, q) + k) by (nonlinear_arith)
                requires
                    kan_tally(t1, q) == kan_tally(t0, q) + 1,
            ;
        } else {
            assert(r1[q] == r0[q]);
        }
    }
    assert(r1 =~= with_kans(c, t1, k));
}

/// The counts with `k` more tiles for each quad (`k` of 3 or 4).
fn add_kans_k(count: &Count, kans: &Vec<Name>, k: u8) -> (r: Count)
    requires
        k == 3 || k == 4,
        forall|i: int| 0 <= i < kans@.len() ==> valid_name(#[trigger] kans@[i]),
        forall|p: int| 0 <= p < 34 ==> count@[p] + k * #[trigger] kan_tally(kans@, p) <= 255,
    ensures
        r@ == with_kans(count@, kans@, k as int),
{
    let ghost c = count@;
    let ghost kan = kans@;
    let mut r = *count;
    let mut i: usize = 0;
    assert(r@ =~= with_kans(c, kan.take(0), k as int));
    while i < kans.len()
        invariant
            c == count@,
            kan == kans@,
            k == 3 || k == 4,
            forall|j: int| 0 <= j < kan.len() ==> valid_name(#[trigger] kan[j]),
            forall|p: int| 0 <= p < 34 ==> c[p] + k * #[trigger] kan_tally(kan, p) <= 255,
            0 <= i <= kan.len(),
            r@ == with_kans(c, kan.take(i as int), k as int),
        decreases kan.len() - i,
    {
        let kk = kans[i];
        let ghost p = name_pai(kk);
        proof {
            assert(valid_name(kan[i as int]));
            assert(kan.take(i + 1).drop_last() =~= kan.take(i as int));
            assert(kan.take(i + 1).last() == kk);
            assert(kan_tally(kan.take(i + 1), p) == kan_tally(kan.take(i as int), p) + 1);
            lemma_kan_tally_prefix(kan, i + 1, p);
            assert(c[p] + k * kan_tally(kan, p) <= 255);
            assert(k * kan_tally(kan.take(i as int), p) + k <= k * kan_tally(kan, p)) by (nonlinear_arith)
                requires
                    kan_tally(kan.take(i as int), p) + 1 <= kan_tally(kan, p),
                    k >= 0,
            ;
            assert(r@[p] == c[p] + k * kan_tally(kan.take(i as int), p));
        }
        let ghost r0 = r@;
        add_at(&mut r, kk.0 as usize * 9 + kk.1, k);
        proof {
            lemma_with_kans_step(c, kan, i as int, k as int, r0, r@);
        }
        i = i + 1;
    }
    assert(kan.take(kan.len() as int) =~= kan);
    r
}

/// Dora han: the counts (quads included) of the dora kinds.
fn dora_count(c4: &Count, dora: &[Name]) -> (r: usize)
    requires
        forall|i: int| 0 <= i < dora@.len() ==> valid_name(#[trigger] dora@[i]),
        dora@.len() * 255 + 200 <= usize::MAX,
    ensures
        r == dora_han(c4@, dora@),
        r <= 255 * dora@.len(),
{
    let ghost cc = c4@;
    let mut h: usize = 0;
    let mut i: usize = 0;
    while i < dora.len()
        invariant
            cc == c4@,
            cc.len() == 34,
            forall|i: int| 0 <= i < dora@.len() ==> valid_name(#[trigger] dora@[i]),
            dora@.len() * 255 + 200 <= usize::MAX,
            0 <= i <= dora@.len(),
            h == dora_han(cc, dora@.take(i as int)),
            0 <= h <= 255 * i,
        decreases dora@.len() - i,
    {
        let d = dora[i];
        assert(valid_name(dora@[i as int]));
        assert(dora@.take(i + 1).drop_last() =~= dora@.take(i as int));
        h = h + count_at(c4, d.0 as usize * 9 + d.1) as usize;
        i = i + 1;
    }
    assert(dora@.take(dora@.len() as int) =~= dora@);
    h
}

/// Whether some 1 or 9 is held.
fn terminal_check(c4: &Count) -> (r: bool)
    requires
        c4@[0] + c4@[8] + c4@[9] + c4@[17] + c4@[18] + c4@[26] <= 255,
    ensures
        r == terminal_held(c4@),
{
    let ghost cc = c4@;
    let js = count_at(c4, 0) + count_at(c4, 8) + count_at(c4, 9) + count_at(c4, 17) + count_at(c4, 18)
        + count_at(c4, 26) > 0;
    proof {
        if js {
            if cc[0] > 0 {
            } else if cc[8] > 0 {
            } else if cc[9] > 0 {
            } else if cc[17] > 0 {
            } else if cc[18] > 0 {
            } else {
                assert(cc[26] > 0);
            }
            assert(terminal_held(cc));
        } else {
            assert forall|p: int| 0 <= p < 27 && (p % 9 == 0 || p % 9 == 8) implies !(#[trigger] cc[p]
                > 0) by {
                assert(p == 0 || p == 8 || p == 9 || p == 17 || p == 18 || p == 26);
            }
        }
    }
    js
}

/// Whether some 2 to 8 is held.
fn middle_check(c4: &Count) -> (r: bool)
    requires
        middle_sum(c4@) <= 255,
    ensures
        r == middle_held(c4@),
{
    let ghost cc = c4@;
    proof {
        lemma_seq_sum_positive(cc.subrange(1, 8));
        lemma_seq_sum_positive(cc.subrange(10, 17));
        lemma_seq_sum_positive(cc.subrange(19, 26));
    }
    let ts = count_sum(c4, 1, 8) + count_sum(c4, 10, 17) + count_sum(c4, 19, 26) > 0;
    proof {
        if ts {
            if seq_sum(cc.subrange(1, 8)) > 0 {
                let i = choose|i: int| 0 <= i < 7 && cc.subrange(1, 8)[i] > 0;
                assert(cc[1 + i] > 0 && middle_pai(1 + i));
            } else if seq_sum(cc.subrange(10, 17)) > 0 {
                let i = choose|i: int| 0 <= i < 7 && cc.subrange(10, 17)[i] > 0;
                assert(cc[10 + i] > 0 && middle_pai(10 + i));
            } else {
                let i = choose|i: int| 0 <= i < 7 && cc.subrange(19, 26)[i] > 0;
                assert(cc[19 + i] > 0 && middle_pai(19 + i));
            }
            assert(middle_held(cc));
        } else {
            assert forall|p: int| 0 <= p < 34 && middle_pai(p) implies !(#[trigger] cc[p] > 0) by {
                if p < 9 {
                    assert(cc.subrange(1, 8)[p - 1] == cc[p]);
                } else if p < 18 {
                    assert(cc.subrange(10, 17)[p - 10] == cc[p]);
                } else {
                    assert(cc.subrange(19, 26)[p - 19] == cc[p]);
                }
            }
        }
    }
    ts
}

/// Whether a tile of suit `md` is held.
fn suit_check(c4: &Count, md: usize) -> (r: u8)
    requires
        md < 4,
        seq_sum(suit_of(c4@, md as int)) <= 255,
    ensures
        r == flag(suit_held(c4@, md as int)),
{
    let total = if md < 3 {
        assert(suit_of(c4@, md as int) == c4@.subrange(9 * md, 9 * md + 9));
        count_sum(c4, 9 * md, 9 * md + 9)
    } else {
        count_sum(c4, 27, 34)
    };
    if total > 0 {
        1
    } else {
        0
    }
}

/// Han by the suits held.
#[verifier::spinoff_prover]
fn suit_han_exec(c4: &Count) -> (r: usize)
    requires
        forall|md: int| 0 <= md < 4 ==> #[trigger] seq_sum(suit_of(c4@, md)) <= 255,
        c4@[0] + c4@[8] + c4@[9] + c4@[17] + c4@[18] + c4@[26] <= 255,
        middle_sum(c4@) <= 255,
    ensures
        r == suit_han(c4@),
{
    let ghost cc = c4@;
    assert(seq_sum(suit_of(cc, 0)) <= 255 && seq_sum(suit_of(cc, 1)) <= 255 && seq_sum(suit_of(cc, 2))
        <= 255 && seq_sum(suit_of(cc, 3)) <= 255);
    let s0 = suit_check(c4, 0);
    let s1 = suit_check(c4, 1);
    let s2 = suit_check(c4, 2);
    let s3 = suit_check(c4, 3);
    let js = terminal_check(c4);
    let ts = middle_check(c4);
    let mut h: usize = 0;
    if s0 + s1 + s2 == 1 {
        h = h + 3;  // honitsu
        if s3 == 0 {
            h = h + 3;  // chinitsu
        }
    }
    if s3 == 0 && !js {
        h = h + 1;  // tanyao
    }
    if !ts {
        h = h + 2;  // honroutou
    }
    h
}

/// Han for the red fives held.
fn aka_count(stand: &Vec<u8>) -> (r: usize)
    ensures
        r == aka_han(stand@),
{
    let mut h: usize = 0;
    if contains_u8(stand, 16) {
        h = h + 1;
    }
    if contains_u8(stand, 36 + 16) {
        h = h + 1;
    }
    if contains_u8(stand, 36 * 2 + 16) {
        h = h + 1;
    }
    h
}

/// The base han.
#[verifier::spinoff_prover]
fn base_han_exec(
    stand: &Vec<u8>,
    count: &Count,
    kans: &Vec<Name>,
    reach: bool,
    double: bool,
    ippatsu: bool,
    haitei: bool,
    rinshan: bool,
    dora: &[Name],
) -> (r: usize)
    requires
        base_computable(count@, kans@, dora@),
    ensures
        r == base_han(stand@, count@, kans@, reach, double, ippatsu, haitei, rinshan, dora@),
{
    let mut han_base: usize = 1 + if reach { 1 } else { 0 } + if double { 1 } else { 0 } + if ippatsu {
        1
    } else {
        0
    } + if haitei { 1 } else { 0 } + if rinshan { 1 } else { 0 };
    let c4 = add_kans_k(count, kans, 4);
    // dora
    han_base = han_base + dora_count(&c4, dora);
    // aka
    han_base = han_base + aka_count(stand);
    // isshoku, tanyao, honroutou
    han_base = han_base + suit_han_exec(&c4);
    han_base
}

/// The first of the scores with the highest payment from each non-dealer.
fn best_of(scores: &Vec<Score>) -> (r: Score)
    requires
        scores@.len() > 0,
    ensures
        r == best_score(scores@),
{
    let mut ans = scores[0];
    let mut i: usize = 1;
    assert(scores@.take(1) =~= seq![scores@[0]]);
    while i < scores.len()
        invariant
            1 <= i <= scores@.len(),
            ans == best_score(scores@.take(i as int)),
        decreases scores@.len() - i,
    {
        assert(scores@.take(i + 1).drop_last() =~= scores@.take(i as int));
        if ans.children < scores[i].children {
            ans = scores[i];
        }
        i = i + 1;
    }
    assert(scores@.take(scores@.len() as int) =~= scores@);
    ans
}

/// All readings of the decomposition `vm` with head `hi`.
#[verifier::spinoff_prover]
fn decomp_scores_exec(
    vm: &Vec<Mentsu>,
    naki: &Naki,
    hi: Name,
    tsumo: Name,
    han_base: usize,
    ba: usize,
    cha: usize,
) -> (r: Vec<Score>)
    requires
        melds_ok(vm@, 6885),
        forall|i: int| 0 <= i < naki.kan@.len() ==> valid_name(#[trigger] naki.kan@[i]),
        naki.kan@.len() + 2295 <= usize::MAX,
        han_base + 71 <= usize::MAX,
    ensures
        r@ == decomp_scores(vm@, naki.kan@, hi, tsumo, han_base as int, ba, cha),
{
    let ghost kan = naki.kan@;
    let ghost hb = han_base as int;
    let ghost vmv = vm@;
    proof {
        assert(han_countable(vmv, kan));
        if vmv.len() + kan.len() == 4 {
            lemma_han_bound(vmv, kan, hi, hb, ba, cha);
        }
    }
    let mut scores: Vec<Score> = Vec::new();
    if hi.0 == tsumo.0 && hi.1 == tsumo.1 {
        match Calc::new(vm.as_slice(), None, naki.duplicate(), hi, tsumo, han_base, ba, cha) {
            Ok(ca) => {
                scores.push(ca.score());
            },
            Err(_) => {},
        }
    }
    assert(scores@ =~= head_score(vmv, kan, hi, tsumo, hb, ba, cha));
    let ghost after_head = scores@;
    let mut mi: usize = 0;
    assert(scores@ =~= after_head + meld_scores(vmv, 0, kan, hi, tsumo, hb, ba, cha));
    while mi < vm.len()
        invariant
            kan == naki.kan@,
            hb == han_base as int,
            vmv == vm@,
            han_countable(vmv, kan),
            vmv.len() + kan.len() == 4 ==> han_base + 70 >= crate::calc::han_of(vmv, kan, hi, hb, ba, cha),
            kan.len() + 2295 <= usize::MAX,
            vmv.len() <= 2295,
            han_base + 71 <= usize::MAX,
            0 <= mi <= vmv.len(),
            scores@ == after_head + meld_scores(vmv, mi as int, kan, hi, tsumo, hb, ba, cha),
        decreases vmv.len() - mi,
    {
        let m = vm[mi];
        if m.mode == tsumo.0 && (m.num[0] == tsumo.1 || m.num[1] == tsumo.1 || m.num[2] == tsumo.1) {
            match Calc::new(vm.as_slice(), Some(m), naki.duplicate(), hi, tsumo, han_base, ba, cha) {
                Ok(ca) => {
                    scores.push(ca.score());
                },
                Err(_) => {},
            }
        }
        mi = mi + 1;
        assert(scores@ =~= after_head + meld_scores(vmv, mi as int, kan, hi, tsumo, hb, ba, cha));
    }
    scores
}

/// `a` followed by `b`.
fn append_scores(a: &mut Vec<Score>, b: &Vec<Score>)
    ensures
        final(a)@ == old(a)@ + b@,
{
    let ghost a0 = a@;
    let mut i: usize = 0;
    while i < b.len()
        invariant
            0 <= i <= b@.len(),
            a@ == a0 + b@.take(i as int),
        decreases b@.len() - i,
    {
        a.push(b[i]);
        i = i + 1;
        assert(a@ =~= a0 + b@.take(i as int));
    }
    assert(b@.take(b@.len() as int) =~= b@);
}

/// Every reading of the hand, in order.
#[verifier::spinoff_prover]
#[verifier::rlimit(50)]
fn collect_scores(hc: &HandCount, tsumo: Name, han_base: usize, ba: usize, cha: usize) -> (r: Vec<Score>)
    requires
        forall|i: int| 0 <= i < hc@.1.len() ==> valid_name(#[trigger] hc@.1[i]),
        hc@.1.len() + 2295 <= usize::MAX,
        han_base + 71 <= usize::MAX,
    ensures
        r@ == hand_scores(hc@.0, hc@.1, tsumo, han_base as int, ba, cha),
{
    let ghost c = hc@.0;
    let ghost kan = hc@.1;
    let ghost hb = han_base as int;
    let mut scores: Vec<Score> = Vec::new();
    if hc.count.is_7toitsu() {
        proof {
            vstd::arithmetic::power2::lemma2_to64();
            assert(score_computable(25, han_base + 2));
        }
        scores.push(Score::new(25, han_base + 2, cha == 0));
    }
    let ghost pre = scores@;
    assert(pre == (if seven_pairs(c) {
        seq![score_of(25, hb + 2, cha == 0)]
    } else {
        Seq::<Score>::empty()
    }));
    let heads = hc.count.find_head();
    let ghost hp = head_pais(c, 34);
    let mut hi_idx: usize = 0;
    assert(scores@ =~= pre + heads_scores(c, hp, 0, kan, tsumo, hb, ba, cha));
    while hi_idx < heads.len()
        invariant
            c == hc@.0,
            kan == hc@.1,
            hb == han_base as int,
            forall|i: int| 0 <= i < kan.len() ==> valid_name(#[trigger] kan[i]),
            kan.len() + 2295 <= usize::MAX,
            han_base + 71 <= usize::MAX,
            hp == head_pais(c, 34),
            head_cands(heads@, c),
            0 <= hi_idx <= heads@.len(),
            scores@ == pre + heads_scores(c, hp, hi_idx as int, kan, tsumo, hb, ba, cha),
        decreases heads@.len() - hi_idx,
    {
        let hi = heads[hi_idx].0;
        let vms = decompose(&heads[hi_idx].1);
        let ghost rest = without_head(c, hp[hi_idx as int]);
        let ghost vs = decompositions(rest);
        proof {
            assert(heads@[hi_idx as int].1@ == rest);
            assert(hi == pai_name(hp[hi_idx as int]));
            assert(rest.len() == 34);
            lemma_decompositions_ok(rest);
            assert(melds_view(vms@).len() == vms@.len());
        }
        let ghost before = scores@;
        let mut vi: usize = 0;
        assert(scores@ =~= before + decomps_scores(vs, 0, kan, hi, tsumo, hb, ba, cha));
        while vi < vms.len()
            invariant
                kan == hc@.1,
                hb == han_base as int,
                forall|i: int| 0 <= i < kan.len() ==> valid_name(#[trigger] kan[i]),
                kan.len() + 2295 <= usize::MAX,
                han_base + 71 <= usize::MAX,
                vs == melds_view(vms@),
                vs.len() == vms@.len(),
                forall|k: int| 0 <= k < vs.len() ==> melds_ok(#[trigger] vs[k], 6885),
                0 <= vi <= vms@.len(),
                scores@ == before + decomps_scores(vs, vi as int, kan, hi, tsumo, hb, ba, cha),
            decreases vms@.len() - vi,
        {
            proof {
                assert(vs[vi as int] == vms@[vi as int]@);
                assert(melds_ok(vs[vi as int], 6885));
            }
            let part = decomp_scores_exec(&vms[vi], &hc.naki, hi, tsumo, han_base, ba, cha);
            append_scores(&mut scores, &part);
            vi = vi + 1;
            assert(scores@ =~= before + decomps_scores(vs, vi as int, kan, hi, tsumo, hb, ba, cha));
        }
        hi_idx = hi_idx + 1;
        assert(scores@ =~= pre + heads_scores(c, hp, hi_idx as int, kan, tsumo, hb, ba, cha));
    }
    scores
}

impl Hand {
    /// Scores the hand won by self-draw on the tile kind `tsumo`, with the
    /// given circumstances of the win, the dora kinds, and the round (`ba`)
    /// and seat (`cha`, 0 for the dealer) winds. None unless a winning shape.
    pub fn score(
        &self,
        tenhou: bool,
        reach: bool,
        double: bool,
        ippatsu: bool,
        haitei: bool,
        rinshan: bool,
        dora: &[Name],
        tsumo: Name,
        ba: usize,
        cha: usize,
    ) -> (r: Option<Score>)
        requires
            scorable(
                self.stand@,
                self.naki.kan@,
                tenhou,
                reach,
                double,
                ippatsu,
                haitei,
                rinshan,
                dora@,
                tsumo,
                ba,
                cha,
            ),
        ensures
            r == hand_score(
                self.stand@,
                self.naki.kan@,
                tenhou,
                reach,
                double,
                ippatsu,
                haitei,
                rinshan,
                dora@,
                tsumo,
                ba,
                cha,
            ),
    {
        let hc = self.to_count();
        if !hc.is_agari() {
            return None;
        }
        let bai = hc.yakuman(tenhou, tsumo);
        if bai > 0 {
            assert(bai <= 20);
            return Some(
                Score {
                    parent: if cha == 0 { None } else { Some(16000 * bai) },
                    children: if cha == 0 { 16000 * bai } else { 8000 * bai },
                    fu: 0,
                    han: bai,
                },
            );
        }
        let han_base = base_han_exec(
            &self.stand,
            &hc.count,
            &hc.naki.kan,
            reach,
            double,
            ippatsu,
            haitei,
            rinshan,
            dora,
        );
        proof {
            lemma_dora_han_bound(with_kans(hc@.0, hc@.1, 4), dora@);
        }
        let scores = collect_scores(&hc, tsumo, han_base, ba, cha);
        let ans = best_of(&scores);
        Some(ans)
    }
}


// ---------------------------------------------------------------- laws

/// Drawing a tile puts it in the hand, and discarding it again gives back the
/// tiles held before.
pub proof fn law_tsumo_then_dahai(before: Seq<u8>, after: Seq<u8>, pai: u8)
    requires
        after.to_multiset() == before.to_multiset().insert(pai),
    ensures
        exists|pos: int| 0 <= pos < after.len() && after[pos] == pai,
        forall|pos: int|
            0 <= pos < after.len() && after[pos] == pai ==> after.remove(pos).to_multiset()
                == before.to_multiset(),
{
    broadcast use vstd::seq_lib::group_to_multiset_ensures;
    broadcast use vstd::multiset::group_multiset_axioms;

    assert(after.to_multiset().count(pai) > 0);
    assert(after.contains(pai));
    assert forall|pos: int| 0 <= pos < after.len() && after[pos] == pai implies after.remove(
        pos,
    ).to_multiset() == before.to_multiset() by {
        vstd::seq_lib::to_multiset_remove(after, pos);
        assert(after.remove(pos).to_multiset() =~= before.to_multiset());
    }
}

/// A hand is scored exactly when it has a winning shape.
pub proof fn law_score_iff_agari(
    stand: Seq<u8>,
    kan: Seq<Name>,
    tenhou: bool,
    reach: bool,
    double: bool,
    ippatsu: bool,
    haitei: bool,
    rinshan: bool,
    dora: Seq<Name>,
    tsumo: Name,
    ba: usize,
    cha: usize,
)
    ensures
        hand_score(stand, kan, tenhou, reach, double, ippatsu, haitei, rinshan, dora, tsumo, ba, cha)
            is Some <==> agari_counts(counts_of(stand)),
{
}

/// A winning hand on the first draw (tenhou) is always scored as a yakuman
/// hand, of at least one yakuman, whatever else it holds.
pub proof fn law_tenhou_is_yakuman(
    stand: Seq<u8>,
    kan: Seq<Name>,
    reach: bool,
    double: bool,
    ippatsu: bool,
    haitei: bool,
    rinshan: bool,
    dora: Seq<Name>,
    tsumo: Name,
    ba: usize,
    cha: usize,
)
    requires
        agari_counts(counts_of(stand)),
    ensures
        yakuman_of(counts_of(stand), kan, true, tsumo) >= 1,
        hand_score(stand, kan, true, reach, double, ippatsu, haitei, rinshan, dora, tsumo, ba, cha)
            == Some(yakuman_score(yakuman_of(counts_of(stand), kan, true, tsumo), cha)),
{
}

/// Some tile of kind `lo` up to (not including) `hi` is held.
proof fn lemma_suit_held_raw(c: Seq<u8>, md: int)
    requires
        c.len() == 34,
        0 <= md < 4,
    ensures
        suit_held(c, md) <==> exists|p: int|
            (if md == 3 { 27 } else { 9 * md }) <= p < (if md == 3 { 34 } else { 9 * md + 9 }) && #[trigger] c[p]
                > 0,
{
    let lo = if md == 3 { 27 } else { 9 * md };
    let t = suit_of(c, md);
    lemma_seq_sum_positive(t);
    if suit_held(c, md) {
        let i = choose|i: int| 0 <= i < t.len() && t[i] > 0;
        assert(c[lo + i] > 0);
    }
    if exists|p: int|
        (if md == 3 { 27 } else { 9 * md }) <= p < (if md == 3 { 34 } else { 9 * md + 9 }) && #[trigger] c[p] > 0 {
        let p = choose|p: int|
            (if md == 3 { 27 } else { 9 * md }) <= p < (if md == 3 { 34 } else { 9 * md + 9 }) && #[trigger] c[p]
                > 0;
        assert(t[p - lo] > 0);
    }
}

/// The han that depend only on the kinds held (quads counted as four tiles):
/// honitsu, 3 when a single numbered suit is held, and chinitsu, 3 more when
/// no honour is held either; tanyao, 1 when no terminal and no honour is
/// held; honroutou, 2 when no 2 to 8 is held.
pub proof fn law_suit_han(c4: Seq<u8>)
    requires
        c4.len() == 34,
    ensures
        suit_han(c4) == (if flag(exists|p: int| 0 <= p < 9 && #[trigger] c4[p] > 0) + flag(
            exists|p: int| 9 <= p < 18 && #[trigger] c4[p] > 0,
        ) + flag(exists|p: int| 18 <= p < 27 && #[trigger] c4[p] > 0) == 1 {
            3 + if forall|p: int| 27 <= p < 34 ==> #[trigger] c4[p] == 0 {
                3int
            } else {
                0int
            }
        } else {
            0int
        }) + (if forall|p: int|
            0 <= p < 34 && (p >= 27 || p % 9 == 0 || p % 9 == 8) ==> #[trigger] c4[p] == 0 {
            1int
        } else {
            0int
        }) + (if forall|p: int| 0 <= p < 27 && p % 9 != 0 && p % 9 != 8 ==> #[trigger] c4[p] == 0 {
            2int
        } else {
            0int
        }),
{
    lemma_suit_held_raw(c4, 0);
    lemma_suit_held_raw(c4, 1);
    lemma_suit_held_raw(c4, 2);
    lemma_suit_held_raw(c4, 3);
    assert(suit_held(c4, 0) == exists|p: int| 0 <= p < 9 && #[trigger] c4[p] > 0);
    assert(suit_held(c4, 1) == exists|p: int| 9 <= p < 18 && #[trigger] c4[p] > 0);
    assert(suit_held(c4, 2) == exists|p: int| 18 <= p < 27 && #[trigger] c4[p] > 0);
    assert(!suit_held(c4, 3) == forall|p: int| 27 <= p < 34 ==> #[trigger] c4[p] == 0);
    assert((!suit_held(c4, 3) && !terminal_held(c4)) == forall|p: int|
        0 <= p < 34 && (p >= 27 || p % 9 == 0 || p % 9 == 8) ==> #[trigger] c4[p] == 0);
    assert(!middle_held(c4) == forall|p: int|
        0 <= p < 27 && p % 9 != 0 && p % 9 != 8 ==> #[trigger] c4[p] == 0);
}

/// Each yakuman pattern held counts at least once: a first-draw win, four
/// quads, thirteen orphans, all green, the three dragon triplets, eleven or
/// more wind tiles (little four winds) and twelve (big four winds, once more),
/// all honours, all terminals (quads counting three tiles).
pub proof fn law_each_yakuman_counts(c: Seq<u8>, kan: Seq<Name>, tenhou: bool, tsumo: Name)
    requires
        c.len() == 34,
    ensures
        ({
            let c2 = with_kans(c, kan, 3);
            let w = c2[27] + c2[28] + c2[29] + c2[30];
            yakuman_of(c, kan, tenhou, tsumo) >= (if tenhou {
                1int
            } else {
                0int
            }) + (if kan.len() == 4 {
                1int
            } else {
                0int
            }) + (if forall|p: int|
                0 <= p < 34 && (p >= 27 || p % 9 == 0 || p % 9 == 8) ==> #[trigger] c[p] == 1 || c[p] == 2 {
                1int
            } else {
                0int
            }) + (if forall|p: int|
                0 <= p < 34 && #[trigger] c2[p] > 0 ==> p == 19 || p == 20 || p == 21 || p == 23 || p == 25
                    || p == 32 {
                1int
            } else {
                0int
            }) + (if c2[31] == 3 && c2[32] == 3 && c2[33] == 3 {
                1int
            } else {
                0int
            }) + (if w >= 11 {
                1int
            } else {
                0int
            }) + (if w == 12 {
                1int
            } else {
                0int
            }) + (if forall|p: int| 0 <= p < 27 ==> #[trigger] c2[p] == 0 {
                1int
            } else {
                0int
            }) + (if forall|p: int|
                0 <= p < 34 && (p >= 27 || (p % 9 != 0 && p % 9 != 8)) ==> #[trigger] c2[p] == 0 {
                1int
            } else {
                0int
            })
        }),
{
    let c2 = with_kans(c, kan, 3);
    if kokushi(c) {
        assert forall|p: int| 0 <= p < 34 && (p >= 27 || p % 9 == 0 || p % 9 == 8) implies #[trigger] c[p]
            == 1 || c[p] == 2 by {
            assert(yaochu_pai(p));
        }
    }
    if forall|p: int|
        0 <= p < 34 && (p >= 27 || p % 9 == 0 || p % 9 == 8) ==> #[trigger] c[p] == 1 || c[p] == 2 {
        assert forall|p: int| 0 <= p < 34 && yaochu_pai(p) implies c[p] == 1 || c[p] == 2 by {
            assert(p >= 27 || p % 9 == 0 || p % 9 == 8);
        }
        assert(kokushi(c));
    }
    assert(only_terminals(c2) == forall|p: int|
        0 <= p < 34 && (p >= 27 || (p % 9 != 0 && p % 9 != 8)) ==> #[trigger] c2[p] == 0);
}

/// Only numbered suit `md` is held, with three or more of its 1 and of its 9.
pub open spec fn lone_suit_with_ends(c: Seq<u8>, md: int) -> bool {
    &&& 0 <= md < 3
    &&& c[9 * md] >= 3
    &&& c[9 * md + 8] >= 3
    &&& forall|p: int| 0 <= p < 34 && (p < 9 * md || p >= 9 * md + 9) ==> #[trigger] c[p] == 0
}

/// No yakuman is counted without its pattern, and none more than twice: the
/// count is at most the first-draw win, four quads, thirteen orphans (twice),
/// nine gates (twice, and only with a single numbered suit holding three or
/// more of its 1 and of its 9), all green, the three dragon triplets, eleven
/// and twelve wind tiles, all honours, every kind held two or three times
/// (twice) and all terminals (quads counting three tiles).
pub proof fn law_yakuman_needs_pattern(c: Seq<u8>, kan: Seq<Name>, tenhou: bool, tsumo: Name)
    requires
        c.len() == 34,
    ensures
        ({
            let c2 = with_kans(c, kan, 3);
            let w = c2[27] + c2[28] + c2[29] + c2[30];
            yakuman_of(c, kan, tenhou, tsumo) <= (if tenhou {
                1int
            } else {
                0int
            }) + (if kan.len() == 4 {
                1int
            } else {
                0int
            }) + (if forall|p: int|
                0 <= p < 34 && (p >= 27 || p % 9 == 0 || p % 9 == 8) ==> #[trigger] c[p] == 1 || c[p] == 2 {
                2int
            } else {
                0int
            }) + (if exists|md: int| #[trigger] lone_suit_with_ends(c, md) {
                2int
            } else {
                0int
            }) + (if forall|p: int|
                0 <= p < 34 && #[trigger] c2[p] > 0 ==> p == 19 || p == 20 || p == 21 || p == 23 || p == 25
                    || p == 32 {
                1int
            } else {
                0int
            }) + (if c2[31] == 3 && c2[32] == 3 && c2[33] == 3 {
                1int
            } else {
                0int
            }) + (if w >= 11 {
                1int
            } else {
                0int
            }) + (if w == 12 {
                1int
            } else {
                0int
            }) + (if forall|p: int| 0 <= p < 27 ==> #[trigger] c2[p] == 0 {
                1int
            } else {
                0int
            }) + (if forall|p: int| 0 <= p < 34 ==> #[trigger] c2[p] == 2 || c2[p] == 3 {
                2int
            } else {
                0int
            }) + (if forall|p: int|
                0 <= p < 34 && (p >= 27 || (p % 9 != 0 && p % 9 != 8)) ==> #[trigger] c2[p] == 0 {
                1int
            } else {
                0int
            })
        }),
{
    let c2 = with_kans(c, kan, 3);
    if kokushi(c) {
        assert forall|p: int| 0 <= p < 34 && (p >= 27 || p % 9 == 0 || p % 9 == 8) implies #[trigger] c[p]
            == 1 || c[p] == 2 by {
            assert(yaochu_pai(p));
        }
    }
    assert(only_terminals(c2) == forall|p: int|
        0 <= p < 34 && (p >= 27 || (p % 9 != 0 && p % 9 != 8)) ==> #[trigger] c2[p] == 0);
    match single_suit(c) {
        Some(md) => {
            let c9 = suit_of(c, md);
            if chuuren_shape(c9) {
                lemma_suit_held_raw(c, 0);
                lemma_suit_held_raw(c, 1);
                lemma_suit_held_raw(c, 2);
                lemma_suit_held_raw(c, 3);
                assert(0 <= md < 3);
                assert(c9[0] == c[9 * md] && c9[8] == c[9 * md + 8]);
                assert forall|p: int| 0 <= p < 34 && (p < 9 * md || p >= 9 * md + 9) implies #[trigger] c[p]
                    == 0 by {
                    if p >= 27 {
                        assert(!suit_held(c, 3));
                    } else if p < 9 {
                        assert(md != 0);
                        assert(!suit_held(c, 0));
                    } else if p < 18 {
                        assert(md != 1);
                        assert(!suit_held(c, 1));
                    } else {
                        assert(md != 2);
                        assert(!suit_held(c, 2));
                    }
                }
                assert(lone_suit_with_ends(c, md));
            }
        },
        None => {},
    }
    assert(kokushi_bonus(c, tsumo) <= (if forall|p: int|
        0 <= p < 34 && (p >= 27 || p % 9 == 0 || p % 9 == 8) ==> #[trigger] c[p] == 1 || c[p] == 2 {
        2int
    } else {
        0int
    }));
    assert(chuuren_bonus(c, tsumo) <= (if exists|md: int| #[trigger] lone_suit_with_ends(c, md) {
        2int
    } else {
        0int
    }));
    assert(suuankou_bonus(c2, tsumo) <= (if forall|p: int| 0 <= p < 34 ==> #[trigger] c2[p] == 2 || c2[p]
        == 3 {
        2int
    } else {
        0int
    }));
    if all_green(c2) {
        assert forall|p: int| 0 <= p < 34 && #[trigger] c2[p] > 0 implies p == 19 || p == 20 || p == 21
            || p == 23 || p == 25 || p == 32 by {
            assert(green_pai(p));
        }
    }
    assert(only_honours(c2) == forall|p: int| 0 <= p < 27 ==> #[trigger] c2[p] == 0);
}

/// A hand is tenpai exactly when drawing a tile of some kind among the first
/// 33 (every numbered kind and honour but the red dragon) that is not used up
/// (four held, or declared as a quad) makes a winning shape.
pub proof fn law_tenpai_any_draw(c: Seq<u8>, kan: Seq<Name>)
    requires
        c.len() == 34,
    ensures
        tenpai_counts(c, kan) <==> exists|p: int|
            0 <= p < 33 && c[p] != 4 && !kan.contains(pai_name(p)) && #[trigger] agari_counts(
                c.update(p, (c[p] + 1) as u8),
            ),
{
    assert forall|p: int| 0 <= p < 33 implies full(c, kan, pai_name(p)) == (c[p] == 4 || kan.contains(
        pai_name(p),
    )) by {
        assert(slot(pai_name(p)) == p);
    }
    if tenpai_counts(c, kan) {
        let p = choose|p: int|
            0 <= p < 33 && !full(c, kan, pai_name(p)) && #[trigger] agari_counts(drawn(c, p));
        assert(agari_counts(c.update(p, (c[p] + 1) as u8)));
    }
    if exists|p: int|
        0 <= p < 33 && c[p] != 4 && !kan.contains(pai_name(p)) && #[trigger] agari_counts(
            c.update(p, (c[p] + 1) as u8),
        ) {
        let p = choose|p: int|
            0 <= p < 33 && c[p] != 4 && !kan.contains(pai_name(p)) && #[trigger] agari_counts(
                c.update(p, (c[p] + 1) as u8),
            );
        assert(agari_counts(drawn(c, p)));
    }
}

proof fn lemma_drop_kind_tally(s: Seq<u8>, p: int, q: int)
    ensures
        drop_kind(s, p).len() + tally(s, p) == s.len(),
        tally(drop_kind(s, p), p) == 0,
        q != p ==> tally(drop_kind(s, p), q) == tally(s, q),
    decreases s.len(),
{
    if s.len() > 0 {
        lemma_drop_kind_tally(s.drop_last(), p, q);
        if s.last() / 4 != p {
            assert(drop_kind(s, p).drop_last() == drop_kind(s.drop_last(), p));
        }
    }
}

/// A quad is declared when the hand holds exactly four tiles of the kind: the
/// hand keeps every other tile and none of that kind.
pub proof fn law_kan_counts(s: Seq<u8>, p: int)
    requires
        drop_kind(s, p).len() + 4 == s.len(),
    ensures
        tally(s, p) == 4,
        tally(drop_kind(s, p), p) == 0,
        forall|q: int| q != p ==> #[trigger] tally(drop_kind(s, p), q) == tally(s, q),
{
    lemma_drop_kind_tally(s, p, p);
    assert forall|q: int| q != p implies #[trigger] tally(drop_kind(s, p), q) == tally(s, q) by {
        lemma_drop_kind_tally(s, p, q);
    }
}

} // verus!
