use vstd::prelude::*;

use crate::agari::{is_agari, standard_agari};
use crate::index::{index2name, pai_name, name_pai, valid_name, yaochu_pai, Name};

verus! {

/// How many tiles of each kind a hand holds, suit by suit.
#[derive(Clone, Copy)]
pub struct Count {
    pub manzu: [u8; 9],
    pub pinzu: [u8; 9],
    pub souzu: [u8; 9],
    pub zupai: [u8; 7],
}

impl View for Count {
    type V = Seq<u8>;

    /// The 34 counts, ordered by tile kind.
    open spec fn view(&self) -> Seq<u8> {
        self.manzu@ + self.pinzu@ + self.souzu@ + self.zupai@
    }
}

/// Number of tile indices in `s` that belong to kind `p`.
pub open spec fn tally(s: Seq<u8>, p: int) -> nat
    decreases s.len(),
{
    if s.len() == 0 {
        0
    } else {
        tally(s.drop_last(), p) + if s.last() / 4 == p { 1nat } else { 0nat }
    }
}

/// Number of kinds held exactly twice.
pub open spec fn num_pairs(s: Seq<u8>) -> nat
    decreases s.len(),
{
    if s.len() == 0 {
        0
    } else {
        num_pairs(s.drop_last()) + if s.last() == 2 { 1nat } else { 0nat }
    }
}

/// Seven kinds held exactly twice.
pub open spec fn seven_pairs(s: Seq<u8>) -> bool {
    num_pairs(s) == 7
}

/// Every terminal and honour kind held once or twice.
pub open spec fn kokushi(s: Seq<u8>) -> bool {
    forall|p: int| 0 <= p < 34 && yaochu_pai(p) ==> s[p] == 1 || s[p] == 2
}

/// The counts with two tiles of kind `p` set aside as the head.
pub open spec fn without_head(s: Seq<u8>, p: int) -> Seq<u8> {
    s.update(p, (s[p] - 2) as u8)
}

/// Kinds among the first `n` that are held at least twice, in increasing order.
pub open spec fn head_pais(s: Seq<u8>, n: int) -> Seq<int>
    decreases n,
{
    if n <= 0 {
        Seq::empty()
    } else if s[n - 1] >= 2 {
        head_pais(s, n - 1).push(n - 1)
    } else {
        head_pais(s, n - 1)
    }
}

/// `v` lists the head candidates among the first `n` kinds of `s`, in order:
/// each with its name and the counts that remain once the head is set aside.
pub open spec fn head_cands_upto(v: Seq<(Name, Count)>, s: Seq<u8>, n: int) -> bool {
    &&& v.len() == head_pais(s, n).len()
    &&& forall|k: int|
        0 <= k < v.len() ==> (#[trigger] v[k]).0 == pai_name(head_pais(s, n)[k]) && v[k].1@
            == without_head(s, head_pais(s, n)[k])
}

/// `v` lists all head candidates of `s`.
pub open spec fn head_cands(v: Seq<(Name, Count)>, s: Seq<u8>) -> bool {
    head_cands_upto(v, s, 34)
}

/// Pairs of a concatenation add up.
pub proof fn lemma_num_pairs_concat(a: Seq<u8>, b: Seq<u8>)
    ensures
        num_pairs(a + b) == num_pairs(a) + num_pairs(b),
    decreases b.len(),
{
    if b.len() > 0 {
        lemma_num_pairs_concat(a, b.drop_last());
        assert((a + b).drop_last() =~= a + b.drop_last());
    } else {
        assert(a + b =~= a);
    }
}

/// A prefix holds no more tiles of a kind than the whole.
pub proof fn lemma_tally_prefix(s: Seq<u8>, k: int, p: int)
    requires
        0 <= k <= s.len(),
    ensures
        tally(s.take(k), p) <= tally(s, p),
    decreases s.len(),
{
    if k < s.len() {
        lemma_tally_prefix(s.drop_last(), k, p);
        assert(s.drop_last().take(k) =~= s.take(k));
    } else {
        assert(s.take(k) =~= s);
    }
}

/// Members of `head_pais` are exactly the kinds held at least twice, each once, in order.
pub proof fn lemma_head_pais(s: Seq<u8>, n: int)
    requires
        0 <= n <= s.len(),
    ensures
        forall|k: int|
            0 <= k < head_pais(s, n).len() ==> 0 <= #[trigger] head_pais(s, n)[k] < n && s[head_pais(
                s,
                n,
            )[k]] >= 2,
        forall|k: int, l: int|
            0 <= k < l < head_pais(s, n).len() ==> head_pais(s, n)[k] < head_pais(s, n)[l],
        forall|p: int| 0 <= p < n && s[p] >= 2 ==> #[trigger] head_pais(s, n).contains(p),
    decreases n,
{
    if n > 0 {
        lemma_head_pais(s, n - 1);
        let prev = head_pais(s, n - 1);
        if s[n - 1] >= 2 {
            assert(head_pais(s, n) == prev.push(n - 1));
            assert forall|p: int| 0 <= p < n && s[p] >= 2 implies #[trigger] head_pais(
                s,
                n,
            ).contains(p) by {
                if p < n - 1 {
                    assert(prev.contains(p));
                    let k = choose|k: int| 0 <= k < prev.len() && prev[k] == p;
                    assert(head_pais(s, n)[k] == p);
                } else {
                    assert(head_pais(s, n)[prev.len() as int] == p);
                }
            }
        } else {
            assert(head_pais(s, n) == prev);
            assert forall|p: int| 0 <= p < n && s[p] >= 2 implies #[trigger] head_pais(
                s,
                n,
            ).contains(p) by {
                assert(prev.contains(p));
            }
        }
    }
}

fn _remove(v: &mut [u8], pos: usize, count: u8) -> (r: Result<(), ()>)
    requires
        pos < old(v)@.len(),
    ensures
        r is Ok <==> old(v)@[pos as int] >= count,
        r is Ok ==> final(v)@ == old(v)@.update(pos as int, (old(v)@[pos as int] - count) as u8),
        r is Err ==> final(v)@ == old(v)@,
{
    if v[pos] < count {
        Err(())
    } else {
        v[pos] = v[pos] - count;
        Ok(())
    }
}

/// Pushes the head candidates of one suit, whose counts `u` are those of `count`.
fn _find_head_part(count: &Count, v: &mut Vec<(Name, Count)>, u: &[u8], mode: u8)
    requires
        mode <= 3,
        u@ == count@.subrange(9 * mode, 9 * mode + u@.len()),
        u@.len() == (if mode == 3 { 7int } else { 9int }),
        head_cands_upto(old(v)@, count@, 9 * mode),
    ensures
        head_cands_upto(final(v)@, count@, 9 * mode + u@.len()),
{
    let n = u.len();
    let mut i: usize = 0;
    while i < n
        invariant
            mode <= 3,
            n == u@.len(),
            n == (if mode == 3 { 7int } else { 9int }),
            u@ == count@.subrange(9 * mode, 9 * mode + n),
            0 <= i <= n,
            head_cands_upto(v@, count@, 9 * mode + i),
        decreases n - i,
    {
        let ghost p = 9 * mode + i;
        let ghost old_v = v@;
        assert(count@[p] == u@[i as int]);
        if u[i] >= 2 {
            let name: Name = (mode, i);
            assert(name_pai(name) == p);
            assert(pai_name(p) == name);
            let rest = count.remove_head(name).unwrap();
            v.push((name, rest));
            assert(head_pais(count@, p + 1) == head_pais(count@, p).push(p));
            assert(v@[v@.len() - 1] == (name, rest));
        } else {
            assert(head_pais(count@, p + 1) == head_pais(count@, p));
        }
        i = i + 1;
    }
}

/// Counts the kinds of one suit that are held exactly twice.
fn count_pairs(a: &[u8]) -> (r: u8)
    requires
        a@.len() <= 9,
    ensures
        r == num_pairs(a@),
        r <= a@.len(),
{
    let mut r: u8 = 0;
    let mut i: usize = 0;
    while i < a.len()
        invariant
            a@.len() <= 9,
            0 <= i <= a@.len(),
            r == num_pairs(a@.take(i as int)),
            r <= i,
        decreases a@.len() - i,
    {
        assert(a@.take(i + 1).drop_last() =~= a@.take(i as int));
        if a[i] == 2 {
            r = r + 1;
        }
        i = i + 1;
    }
    assert(a@.take(a@.len() as int) =~= a@);
    r
}

impl Count {
    /// No tiles at all.
    pub fn empty() -> (r: Self)
        ensures
            r@ == Seq::new(34, |i: int| 0u8),
    {
        let r = Self { manzu: [0;9], pinzu: [0;9], souzu: [0;9], zupai: [0;7] };
        assert(r@ =~= Seq::new(34, |i: int| 0u8));
        r
    }

    /// Counts the kinds of the given tile indices. Indices from 144 up stand
    /// for no kind and are passed over.
    pub fn from_indices(indices: &[u8]) -> (r: Self)
        requires
            forall|i: int| 0 <= i < indices@.len() ==> !(136 <= #[trigger] indices@[i] < 144),
            forall|p: int| 0 <= p < 34 ==> #[trigger] tally(indices@, p) <= 255,
        ensures
            forall|p: int| 0 <= p < 34 ==> #[trigger] r@[p] == tally(indices@, p),
    {
        let mut c = Self::empty();
        let mut k: usize = 0;
        while k < indices.len()
            invariant
                0 <= k <= indices@.len(),
                forall|i: int| 0 <= i < indices@.len() ==> !(136 <= #[trigger] indices@[i] < 144),
                forall|p: int| 0 <= p < 34 ==> #[trigger] tally(indices@, p) <= 255,
                c@.len() == 34,
                forall|p: int| 0 <= p < 34 ==> #[trigger] c@[p] == tally(indices@.take(k as int), p),
            decreases indices@.len() - k,
        {
            let index = indices[k];
            let ghost old_c = c@;
            let ghost pk = index / 4;
            proof {
                assert(indices@.take(k + 1).drop_last() =~= indices@.take(k as int));
                assert(indices@.take(k + 1).last() == index);
                if pk < 34 {
                    lemma_tally_prefix(indices@, k + 1, pk as int);
                    assert(tally(indices@.take(k + 1), pk as int) == tally(indices@.take(k as int), pk as int) + 1);
                }
            }
            let name = index2name(index);
            proof {
                if pk < 34 {
                    assert(c@[pk as int] < 255);
                    assert(name_pai(name) == pk);
                    assert(c.manzu@ =~= c@.subrange(0, 9));
                    assert(c.pinzu@ =~= c@.subrange(9, 18));
                    assert(c.souzu@ =~= c@.subrange(18, 27));
                    assert(c.zupai@ =~= c@.subrange(27, 34));
                }
            }
            if name.0 == 0 {
                c.manzu[name.1] = c.manzu[name.1] + 1;
            }
            if name.0 == 1 {
                c.pinzu[name.1] = c.pinzu[name.1] + 1;
            }
            if name.0 == 2 {
                c.souzu[name.1] = c.souzu[name.1] + 1;
            }
            if name.0 == 3 {
                c.zupai[name.1] = c.zupai[name.1] + 1;
            }
            proof {
                if pk < 34 {
                    assert(c@ =~= old_c.update(pk as int, (old_c[pk as int] + 1) as u8));
                } else {
                    assert(c@ =~= old_c);
                }
            }
            k = k + 1;
        }
        assert(indices@.take(indices@.len() as int) =~= indices@);
        c
    }

    /// Sets two tiles of the named kind aside. Names of suit 4 and above name
    /// no kind and leave the counts as they are.
    pub fn remove_head(&self, name: Name) -> (r: Result<Self, ()>)
        requires
            name.0 <= 3 ==> valid_name(name),
        ensures
            r is Err <==> (name.0 <= 3 && self@[name_pai(name)] < 2),
            r matches Ok(c) ==> c@ == (if name.0 <= 3 {
                without_head(self@, name_pai(name))
            } else {
                self@
            }),
    {
        let mut manzu = self.manzu;
        let mut pinzu = self.pinzu;
        let mut souzu = self.souzu;
        let mut zupai = self.zupai;
        if name.0 == 0 {
            _remove(&mut manzu, name.1, 2)?;
        }
        if name.0 == 1 {
            _remove(&mut pinzu, name.1, 2)?;
        }
        if name.0 == 2 {
            _remove(&mut souzu, name.1, 2)?;
        }
        if name.0 == 3 {
            _remove(&mut zupai, name.1, 2)?;
        }
        let r = Self { manzu, pinzu, souzu, zupai };
        proof {
            if name.0 <= 3 {
                assert(r@ =~= without_head(self@, name_pai(name)));
            } else {
                assert(r@ =~= self@);
            }
        }
        Ok(r)
    }

    /// Seven kinds held exactly twice (other kinds are not looked at).
    pub fn is_7toitsu(&self) -> (r: bool)
        ensures
            r == seven_pairs(self@),
    {
        let mut count: u8 = 0;
        count = count + count_pairs(&self.manzu);
        count = count + count_pairs(&self.pinzu);
        count = count + count_pairs(&self.souzu);
        count = count + count_pairs(&self.zupai);
        proof {
            lemma_num_pairs_concat(self.manzu@, self.pinzu@);
            lemma_num_pairs_concat(self.manzu@ + self.pinzu@, self.souzu@);
            lemma_num_pairs_concat(self.manzu@ + self.pinzu@ + self.souzu@, self.zupai@);
        }
        count == 7
    }

    /// Each of the thirteen terminal and honour kinds held once or twice.
    pub fn is_kokushi(&self) -> (r: bool)
        ensures
            r == kokushi(self@),
    {
        let ends: [usize; 2] = [0, 8];
        let mut k: usize = 0;
        while k < 2
            invariant
                0 <= k <= 2,
                ends@ == seq![0usize, 8usize],
                forall|p: int|
                    0 <= p < 27 && ((p % 9 == 0 && k >= 1) || (p % 9 == 8 && k >= 2)) ==> self@[p]
                        == 1 || self@[p] == 2,
            decreases 2 - k,
        {
            let i = ends[k];
            assert(yaochu_pai(i as int) && yaochu_pai(9 + i) && yaochu_pai(18 + i));
            if self.manzu[i] != 1 && self.manzu[i] != 2 {
                assert(self@[i as int] == self.manzu@[i as int]);
                return false;
            }
            if self.pinzu[i] != 1 && self.pinzu[i] != 2 {
                assert(self@[9 + i] == self.pinzu@[i as int]);
                return false;
            }
            if self.souzu[i] != 1 && self.souzu[i] != 2 {
                assert(self@[18 + i] == self.souzu@[i as int]);
                return false;
            }
            assert(self@[i as int] == self.manzu@[i as int]);
            assert(self@[9 + i] == self.pinzu@[i as int]);
            assert(self@[18 + i] == self.souzu@[i as int]);
            k = k + 1;
        }
        let mut i: usize = 0;
        while i < 7
            invariant
                0 <= i <= 7,
                forall|p: int|
                    0 <= p < 27 && (p % 9 == 0 || p % 9 == 8) ==> self@[p] == 1 || self@[p] == 2,
                forall|p: int| 27 <= p < 27 + i ==> self@[p] == 1 || self@[p] == 2,
            decreases 7 - i,
        {
            assert(self@[27 + i] == self.zupai@[i as int]);
            assert(yaochu_pai(27 + i));
            if self.zupai[i] != 1 && self.zupai[i] != 2 {
                return false;
            }
            i = i + 1;
        }
        true
    }

    /// Every way to set a head aside: for each kind held at least twice, in
    /// increasing order, its name and the counts that remain.
    pub fn find_head(&self) -> (r: Vec<(Name, Self)>)
        ensures
            head_cands(r@, self@),
    {
        let mut v = Vec::new();
        proof {
            assert(self.manzu@ =~= self@.subrange(0, 9));
            assert(self.pinzu@ =~= self@.subrange(9, 18));
            assert(self.souzu@ =~= self@.subrange(18, 27));
            assert(self.zupai@ =~= self@.subrange(27, 34));
        }
        _find_head_part(self, &mut v, &self.manzu, 0);
        _find_head_part(self, &mut v, &self.pinzu, 1);
        _find_head_part(self, &mut v, &self.souzu, 2);
        _find_head_part(self, &mut v, &self.zupai, 3);
        v
    }

    /// A winning shape: seven pairs, thirteen orphans, or a head and melds.
    pub fn is_agari(&self) -> (r: bool)
        ensures
            r == (seven_pairs(self@) || kokushi(self@) || standard_agari(self@)),
    {
        self.is_7toitsu() || self.is_kokushi() || is_agari(self)
    }
}

} // verus!
