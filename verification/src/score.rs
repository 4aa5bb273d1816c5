use vstd::prelude::*;

use vstd::arithmetic::power2::{pow2, lemma2_to64, lemma_pow2_strictly_increases};

verus! {

/// Points of a winning hand: what the dealer (`parent`, none when the winner
/// is the dealer) and each other player (`children`) pay, with the fu and han.
#[derive(Clone, Copy)]
pub struct Score {
    pub parent: Option<usize>,
    pub children: usize,
    pub fu: usize,
    pub han: usize,
}

/// `x` rounded up to a multiple of `u`; a 25 rounded to tens stays 25.
pub open spec fn round_up(x: int, u: int) -> int {
    if x == 25 && u == 10 {
        x
    } else {
        (x + (u - 1)) / u * u
    }
}

/// Basic points for `fu` and `han`: doubled for each han from 20 fu times four,
/// capped at 2000 (mangan), then fixed steps from 6 han up to 8000 at 13 han.
pub open spec fn base_points(fu: int, han: int) -> int {
    if han >= 13 {
        8000
    } else if han >= 11 {
        6000
    } else if han >= 8 {
        4000
    } else if han >= 6 {
        3000
    } else {
        let c = round_up(fu, 10) * pow2((han + 2) as nat);
        if c >= 2000 {
            2000
        } else {
            c
        }
    }
}

/// The score of a hand of `fu` and `han`, won by the dealer when `oya`.
pub open spec fn score_of(fu: int, han: int, oya: bool) -> Score {
    let core = base_points(fu, han);
    Score {
        parent: if oya {
            None
        } else {
            Some(round_up(core * 2, 100) as usize)
        },
        children: (if oya {
            round_up(core * 2, 100)
        } else {
            round_up(core, 100)
        }) as usize,
        fu: fu as usize,
        han: han as usize,
    }
}

/// Whether `score_of(fu, han, _)` is computed without overflow.
pub open spec fn score_computable(fu: int, han: int) -> bool {
    &&& fu + 9 <= usize::MAX
    &&& (han < 6 ==> round_up(fu, 10) * pow2((han + 2) as nat) <= usize::MAX)
}

/// Rounds `x` up to a multiple of `u`; 25 fu (seven pairs) is not rounded.
pub fn marume(x: usize, u: usize) -> (r: usize)
    requires
        u > 0,
        x + (u - 1) <= usize::MAX,
    ensures
        r == round_up(x as int, u as int),
{
    if x == 25 && u == 10 {
        x
    } else {
        let ghost t: int = x + u - 1;
        assert((t / (u as int)) * (u as int) <= t) by (nonlinear_arith)
            requires
                u > 0,
                t >= 0,
        ;
        (x + (u - 1)) / u * u
    }
}

/// Rounding up to a multiple gives the least multiple of `u` that is at least `x`.
pub proof fn law_round_up_least_multiple(x: int, u: int)
    requires
        u > 0,
        x >= 0,
        !(x == 25 && u == 10),
    ensures
        round_up(x, u) % u == 0,
        x <= round_up(x, u) < x + u,
{
    let q = (x + u - 1) / u;
    let r = (x + u - 1) % u;
    assert(x + u - 1 == q * u + r && 0 <= r < u) by (nonlinear_arith)
        requires
            u > 0,
            q == (x + u - 1) / u,
            r == (x + u - 1) % u,
    ;
    assert((q * u) % u == 0) by (nonlinear_arith)
        requires
            u > 0,
    ;
}

proof fn lemma_round_up_mono(x: int, y: int, u: int)
    requires
        0 <= x <= y,
        u > 0,
        !(x == 25 && u == 10),
        !(y == 25 && u == 10),
    ensures
        round_up(x, u) <= round_up(y, u),
{
    vstd::arithmetic::div_mod::lemma_div_is_ordered(x + u - 1, y + u - 1, u);
    let qx = (x + u - 1) / u;
    let qy = (y + u - 1) / u;
    assert(qx * u <= qy * u) by (nonlinear_arith)
        requires
            qx <= qy,
            u > 0,
    ;
}

proof fn lemma_base_points_mono(fu: int, h1: int, h2: int)
    requires
        0 <= fu,
        0 <= h1 <= h2,
    ensures
        0 <= base_points(fu, h1) <= base_points(fu, h2) <= 8000,
{
    lemma2_to64();
    let ru = round_up(fu, 10);
    if fu != 25 {
        law_round_up_least_multiple(fu, 10);
    }
    assert(ru >= 0);
    if h2 < 6 {
        let p1 = pow2((h1 + 2) as nat);
        let p2 = pow2((h2 + 2) as nat);
        if h1 < h2 {
            lemma_pow2_strictly_increases((h1 + 2) as nat, (h2 + 2) as nat);
        }
        assert(ru * p1 <= ru * p2) by (nonlinear_arith)
            requires
                ru >= 0,
                p1 <= p2,
        ;
        assert(0 <= ru * p1) by (nonlinear_arith)
            requires
                ru >= 0,
                p1 >= 0,
        ;
    } else if h1 < 6 {
        let p1 = pow2((h1 + 2) as nat);
        assert(0 <= ru * p1) by (nonlinear_arith)
            requires
                ru >= 0,
                p1 >= 0,
        ;
    }
}

/// More han never pays less, for the dealer or another winner.
pub proof fn law_more_han_pays_more(fu: usize, h1: usize, h2: usize, oya: bool)
    requires
        h1 <= h2,
    ensures
        score_of(fu as int, h1 as int, oya).children <= score_of(fu as int, h2 as int, oya).children,
{
    lemma_base_points_mono(fu as int, h1 as int, h2 as int);
    let c1 = base_points(fu as int, h1 as int);
    let c2 = base_points(fu as int, h2 as int);
    lemma_round_up_mono(c1 * 2, c2 * 2, 100);
    lemma_round_up_mono(c1, c2, 100);
    law_round_up_least_multiple(c2 * 2, 100);
    law_round_up_least_multiple(c2, 100);
    law_round_up_least_multiple(c1 * 2, 100);
    law_round_up_least_multiple(c1, 100);
}

/// On a dealer's win each other player pays what the dealer pays on another
/// player's win.
pub proof fn law_dealer_win_payment(fu: int, han: int)
    ensures
        score_of(fu, han, false).parent == Some(score_of(fu, han, true).children),
        score_of(fu, han, true).parent is None,
{
}

impl Score {
    /// The payments for a self-drawn win of `fu` and `han`, by the dealer when `oya`.
    pub fn new(fu: usize, han: usize, oya: bool) -> (r: Self)
        requires
            score_computable(fu as int, han as int),
        ensures
            r == score_of(fu as int, han as int, oya),
    {
        let f = marume(fu, 10);
        let core = if han >= 13 {
            8000
        } else if han >= 11 {
            6000
        } else if han >= 8 {
            4000
        } else if han >= 6 {
            3000
        } else {
            let mut p: usize = 4;
            let mut k: usize = 0;
            proof {
                lemma2_to64();
            }
            while k < han
                invariant
                    han < 6,
                    0 <= k <= han,
                    p == pow2((k + 2) as nat),
                    p <= 128,
                decreases han - k,
            {
                proof {
                    lemma2_to64();
                }
                p = p * 2;
                k = k + 1;
            }
            proof {
                assert(f * p <= usize::MAX);
            }
            let c = f * p;
            if c >= 2000 {
                2000
            } else {
                c
            }
        };
        assert(core == base_points(fu as int, han as int));
        let (parent, children) = if oya {
            (None, marume(core * 2, 100))
        } else {
            (Some(marume(core * 2, 100)), marume(core, 100))
        };
        Self { parent, children, han, fu }
    }
}

} // verus!
