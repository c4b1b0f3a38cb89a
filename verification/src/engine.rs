//! The per-region backend state machine: the key-value state that applied
//! commands mutate. The replication core treats the real storage engine as
//! an opaque collaborator; this model holds exactly what the apply pipeline
//! reads and writes of it, viewed as a map from keys to values.

use vstd::prelude::*;
use crate::keys::{bytes_eq, bytes_lt, clone_bytes, lex_lt};

verus! {

/// The key-value state of one region.
pub struct Backend {
    pub pairs: Vec<(Vec<u8>, Vec<u8>)>,
}

/// The map a sequence of write pairs denotes: later pairs shadow earlier
/// ones with the same key.
pub open spec fn kv_map(s: Seq<(Seq<u8>, Seq<u8>)>) -> Map<Seq<u8>, Seq<u8>>
    decreases s.len(),
{
    if s.len() == 0 {
        Map::empty()
    } else {
        kv_map(s.drop_last()).insert(s.last().0, s.last().1)
    }
}

/// `s` with every pair keyed `k` removed.
pub open spec fn erase_key(s: Seq<(Seq<u8>, Seq<u8>)>, k: Seq<u8>) -> Seq<(Seq<u8>, Seq<u8>)>
    decreases s.len(),
{
    if s.len() == 0 {
        s
    } else if s.last().0 == k {
        erase_key(s.drop_last(), k)
    } else {
        erase_key(s.drop_last(), k).push(s.last())
    }
}

/// The pairs of `s` whose key is lexicographically below `sk`.
pub open spec fn pairs_below(s: Seq<(Seq<u8>, Seq<u8>)>, sk: Seq<u8>) -> Seq<(Seq<u8>, Seq<u8>)>
    decreases s.len(),
{
    if s.len() == 0 {
        s
    } else if lex_lt(s.last().0, sk) {
        pairs_below(s.drop_last(), sk).push(s.last())
    } else {
        pairs_below(s.drop_last(), sk)
    }
}

/// The pairs of `s` whose key is at or above `sk`.
pub open spec fn pairs_at_or_above(s: Seq<(Seq<u8>, Seq<u8>)>, sk: Seq<u8>) -> Seq<(Seq<u8>, Seq<u8>)>
    decreases s.len(),
{
    if s.len() == 0 {
        s
    } else if lex_lt(s.last().0, sk) {
        pairs_at_or_above(s.drop_last(), sk)
    } else {
        pairs_at_or_above(s.drop_last(), sk).push(s.last())
    }
}

/// Erasing a key removes exactly that key from the denoted map.
pub proof fn lemma_kv_map_erase(s: Seq<(Seq<u8>, Seq<u8>)>, k: Seq<u8>)
    ensures
        kv_map(erase_key(s, k)) == kv_map(s).remove(k),
    decreases s.len(),
{
    if s.len() == 0 {
        assert(kv_map(erase_key(s, k)) =~= kv_map(s).remove(k));
    } else {
        lemma_kv_map_erase(s.drop_last(), k);
        if s.last().0 == k {
            assert(kv_map(erase_key(s, k)) =~= kv_map(s).remove(k));
        } else {
            assert(erase_key(s, k).len() > 0);
            assert(erase_key(s, k).last() == s.last());
            assert(erase_key(s, k).drop_last() =~= erase_key(s.drop_last(), k));
            assert(kv_map(erase_key(s, k)) =~= kv_map(s).remove(k));
        }
    }
}

/// Restricting the pairs to keys below `sk` restricts the denoted map to
/// those keys.
pub proof fn lemma_kv_map_below(s: Seq<(Seq<u8>, Seq<u8>)>, sk: Seq<u8>)
    ensures
        kv_map(pairs_below(s, sk)) == kv_map(s).restrict(Set::new(|k: Seq<u8>| lex_lt(k, sk))),
    decreases s.len(),
{
    let keys = Set::new(|k: Seq<u8>| lex_lt(k, sk));
    if s.len() == 0 {
        assert(kv_map(pairs_below(s, sk)) =~= kv_map(s).restrict(keys));
    } else {
        lemma_kv_map_below(s.drop_last(), sk);
        if lex_lt(s.last().0, sk) {
            assert(pairs_below(s, sk).len() > 0);
            assert(pairs_below(s, sk).last() == s.last());
            assert(pairs_below(s, sk).drop_last() =~= pairs_below(s.drop_last(), sk));
            assert(kv_map(pairs_below(s, sk)) =~= kv_map(s).restrict(keys));
        } else {
            assert(kv_map(pairs_below(s, sk)) =~= kv_map(s).restrict(keys));
        }
    }
}

/// Restricting the pairs to keys at or above `sk` restricts the denoted
/// map to those keys.
pub proof fn lemma_kv_map_at_or_above(s: Seq<(Seq<u8>, Seq<u8>)>, sk: Seq<u8>)
    ensures
        kv_map(pairs_at_or_above(s, sk)) == kv_map(s).restrict(
            Set::new(|k: Seq<u8>| !lex_lt(k, sk)),
        ),
    decreases s.len(),
{
    let keys = Set::new(|k: Seq<u8>| !lex_lt(k, sk));
    if s.len() == 0 {
        assert(kv_map(pairs_at_or_above(s, sk)) =~= kv_map(s).restrict(keys));
    } else {
        lemma_kv_map_at_or_above(s.drop_last(), sk);
        if !lex_lt(s.last().0, sk) {
            assert(pairs_at_or_above(s, sk).len() > 0);
            assert(pairs_at_or_above(s, sk).last() == s.last());
            assert(pairs_at_or_above(s, sk).drop_last() =~= pairs_at_or_above(s.drop_last(), sk));
            assert(kv_map(pairs_at_or_above(s, sk)) =~= kv_map(s).restrict(keys));
        } else {
            assert(kv_map(pairs_at_or_above(s, sk)) =~= kv_map(s).restrict(keys));
        }
    }
}

/// When no pair at or after position `i` has key `k`, the pairs before
/// `i` alone decide whether the map holds `k`, and with which value.
proof fn lemma_kv_map_no_match_from(s: Seq<(Seq<u8>, Seq<u8>)>, k: Seq<u8>, i: int)
    requires
        0 <= i <= s.len(),
        forall|j: int| i <= j < s.len() ==> (#[trigger] s[j]).0 != k,
    ensures
        kv_map(s).contains_key(k) == kv_map(s.take(i)).contains_key(k),
        kv_map(s).contains_key(k) ==> kv_map(s)[k] == kv_map(s.take(i))[k],
    decreases s.len() - i,
{
    if i < s.len() {
        lemma_kv_map_no_match_from(s, k, i + 1);
        let t = s.take(i + 1);
        assert(t.drop_last() =~= s.take(i));
        assert(t.last() == s[i]);
    } else {
        assert(s.take(i) =~= s);
    }
}

/// The pair at position `i` is the last one with key `k`, so it gives the
/// map's value at `k`.
proof fn lemma_kv_map_last_match(s: Seq<(Seq<u8>, Seq<u8>)>, k: Seq<u8>, i: int)
    requires
        0 <= i < s.len(),
        s[i].0 == k,
        forall|j: int| i < j < s.len() ==> (#[trigger] s[j]).0 != k,
    ensures
        kv_map(s).contains_key(k),
        kv_map(s)[k] == s[i].1,
{
    lemma_kv_map_no_match_from(s, k, i + 1);
    let t = s.take(i + 1);
    assert(t.drop_last() =~= s.take(i));
    assert(t.last() == s[i]);
}

/// No pair has key `k`, so the map does not hold it.
proof fn lemma_kv_map_no_match(s: Seq<(Seq<u8>, Seq<u8>)>, k: Seq<u8>)
    requires
        forall|j: int| 0 <= j < s.len() ==> (#[trigger] s[j]).0 != k,
    ensures
        !kv_map(s).contains_key(k),
{
    lemma_kv_map_no_match_from(s, k, 0);
    assert(s.take(0) =~= Seq::<(Seq<u8>, Seq<u8>)>::empty());
}

impl Backend {
    /// The pairs as mathematical values.
    pub open spec fn pairs_view(self) -> Seq<(Seq<u8>, Seq<u8>)> {
        self.pairs@.map(|i: int, p: (Vec<u8>, Vec<u8>)| (p.0@, p.1@))
    }

    /// An empty backend state.
    pub fn empty() -> (r: Backend)
        ensures
            r@ == Map::<Seq<u8>, Seq<u8>>::empty(),
            r.pairs_view() == Seq::<(Seq<u8>, Seq<u8>)>::empty(),
    {
        let r = Backend { pairs: Vec::new() };
        proof {
            assert(r.pairs_view() =~= Seq::<(Seq<u8>, Seq<u8>)>::empty());
        }
        r
    }

    /// Reads the value at `k`, if the state holds one.
    pub fn get(&self, k: &Vec<u8>) -> (r: Option<Vec<u8>>)
        ensures
            match r {
                Some(v) => self@.contains_key(k@) && v@ == self@[k@],
                None => !self@.contains_key(k@),
            },
    {
        let mut i: usize = self.pairs.len();
        while i > 0
            invariant
                i <= self.pairs.len(),
                forall|j: int|
                    i <= j < self.pairs@.len() ==> (#[trigger] self.pairs_view()[j]).0 != k@,
            decreases i,
        {
            i = i - 1;
            if bytes_eq(&self.pairs[i].0, k) {
                let v = clone_bytes(&self.pairs[i].1);
                proof {
                    lemma_kv_map_last_match(self.pairs_view(), k@, i as int);
                }
                return Some(v);
            }
        }
        proof {
            lemma_kv_map_no_match(self.pairs_view(), k@);
        }
        None
    }

    /// Writes `v` at `k`.
    pub fn put(&mut self, k: Vec<u8>, v: Vec<u8>)
        ensures
            final(self)@ == old(self)@.insert(k@, v@),
            final(self).pairs_view() == old(self).pairs_view().push((k@, v@)),
    {
        let ghost gk = k@;
        let ghost gv = v@;
        self.pairs.push((k, v));
        proof {
            assert(self.pairs_view() =~= old(self).pairs_view().push((gk, gv)));
            assert(self.pairs_view().drop_last() =~= old(self).pairs_view());
        }
    }

    /// Removes the value at `k`, if any.
    pub fn delete(&mut self, k: &Vec<u8>)
        ensures
            final(self)@ == old(self)@.remove(k@),
            final(self).pairs_view() == erase_key(old(self).pairs_view(), k@),
    {
        let mut kept: Vec<(Vec<u8>, Vec<u8>)> = Vec::new();
        let mut i: usize = 0;
        proof {
            assert(erase_key(self.pairs_view().take(0), k@) =~= Seq::<(Seq<u8>, Seq<u8>)>::empty());
            assert(kept@.map(|j: int, p: (Vec<u8>, Vec<u8>)| (p.0@, p.1@)) =~= Seq::<(
                Seq<u8>,
                Seq<u8>,
            )>::empty());
        }
        while i < self.pairs.len()
            invariant
                i <= self.pairs@.len(),
                kept@.map(|j: int, p: (Vec<u8>, Vec<u8>)| (p.0@, p.1@)) == erase_key(
                    self.pairs_view().take(i as int),
                    k@,
                ),
            decreases self.pairs@.len() - i,
        {
            let ghost pre = kept@.map(|j: int, p: (Vec<u8>, Vec<u8>)| (p.0@, p.1@));
            if !bytes_eq(&self.pairs[i].0, k) {
                let kk = clone_bytes(&self.pairs[i].0);
                let vv = clone_bytes(&self.pairs[i].1);
                kept.push((kk, vv));
                proof {
                    assert(kept@.map(|j: int, p: (Vec<u8>, Vec<u8>)| (p.0@, p.1@)) =~= pre.push(
                        self.pairs_view()[i as int]));
                }
            }
            proof {
                let t = self.pairs_view().take(i + 1);
                assert(t.drop_last() =~= self.pairs_view().take(i as int));
                assert(t.last() == self.pairs_view()[i as int]);
                assert(kept@.map(|j: int, p: (Vec<u8>, Vec<u8>)| (p.0@, p.1@)) =~= erase_key(
                    t,
                    k@,
                ));
            }
            i = i + 1;
        }
        proof {
            assert(self.pairs_view().take(self.pairs@.len() as int) =~= self.pairs_view());
            lemma_kv_map_erase(self.pairs_view(), k@);
        }
        self.pairs = kept;
    }

    /// Splits the state at `sk`: the returned state receives the keys
    /// below `sk`, `self` keeps the keys at or above it. No key is lost
    /// and none ends up on both sides.
    pub fn take_below(&mut self, sk: &Vec<u8>) -> (below: Backend)
        ensures
            below@ == old(self)@.restrict(Set::new(|k: Seq<u8>| lex_lt(k, sk@))),
            final(self)@ == old(self)@.restrict(Set::new(|k: Seq<u8>| !lex_lt(k, sk@))),
    {
        let mut lo: Vec<(Vec<u8>, Vec<u8>)> = Vec::new();
        let mut hi: Vec<(Vec<u8>, Vec<u8>)> = Vec::new();
        let mut i: usize = 0;
        proof {
            assert(pairs_below(self.pairs_view().take(0), sk@) =~= Seq::<(
                Seq<u8>,
                Seq<u8>,
            )>::empty());
            assert(pairs_at_or_above(self.pairs_view().take(0), sk@) =~= Seq::<(
                Seq<u8>,
                Seq<u8>,
            )>::empty());
            assert(lo@.map(|j: int, p: (Vec<u8>, Vec<u8>)| (p.0@, p.1@)) =~= Seq::<(
                Seq<u8>,
                Seq<u8>,
            )>::empty());
            assert(hi@.map(|j: int, p: (Vec<u8>, Vec<u8>)| (p.0@, p.1@)) =~= Seq::<(
                Seq<u8>,
                Seq<u8>,
            )>::empty());
        }
        while i < self.pairs.len()
            invariant
                i <= self.pairs@.len(),
                lo@.map(|j: int, p: (Vec<u8>, Vec<u8>)| (p.0@, p.1@)) == pairs_below(
                    self.pairs_view().take(i as int),
                    sk@,
                ),
                hi@.map(|j: int, p: (Vec<u8>, Vec<u8>)| (p.0@, p.1@)) == pairs_at_or_above(
                    self.pairs_view().take(i as int),
                    sk@,
                ),
            decreases self.pairs@.len() - i,
        {
            let ghost pre_lo = lo@.map(|j: int, p: (Vec<u8>, Vec<u8>)| (p.0@, p.1@));
            let ghost pre_hi = hi@.map(|j: int, p: (Vec<u8>, Vec<u8>)| (p.0@, p.1@));
            let kk = clone_bytes(&self.pairs[i].0);
            let vv = clone_bytes(&self.pairs[i].1);
            if bytes_lt(&kk, sk) {
                lo.push((kk, vv));
                proof {
                    assert(lo@.map(|j: int, p: (Vec<u8>, Vec<u8>)| (p.0@, p.1@)) =~= pre_lo.push(
                        self.pairs_view()[i as int]));
                }
            } else {
                hi.push((kk, vv));
                proof {
                    assert(hi@.map(|j: int, p: (Vec<u8>, Vec<u8>)| (p.0@, p.1@)) =~= pre_hi.push(
                        self.pairs_view()[i as int]));
                }
            }
            proof {
                let t = self.pairs_view().take(i + 1);
                assert(t.drop_last() =~= self.pairs_view().take(i as int));
                assert(t.last() == self.pairs_view()[i as int]);
                assert(lo@.map(|j: int, p: (Vec<u8>, Vec<u8>)| (p.0@, p.1@)) =~= pairs_below(
                    t,
                    sk@,
                ));
                assert(hi@.map(|j: int, p: (Vec<u8>, Vec<u8>)| (p.0@, p.1@)) =~= pairs_at_or_above(
                    t,
                    sk@,
                ));
            }
            i = i + 1;
        }
        proof {
            assert(self.pairs_view().take(self.pairs@.len() as int) =~= self.pairs_view());
            lemma_kv_map_below(self.pairs_view(), sk@);
            lemma_kv_map_at_or_above(self.pairs_view(), sk@);
        }
        self.pairs = hi;
        Backend { pairs: lo }
    }

    /// Copies the whole state.
    pub fn clone_all(&self) -> (r: Backend)
        ensures
            r@ == self@,
            r.pairs_view() == self.pairs_view(),
    {
        let mut out: Vec<(Vec<u8>, Vec<u8>)> = Vec::new();
        let mut i: usize = 0;
        proof {
            assert(out@.map(|j: int, p: (Vec<u8>, Vec<u8>)| (p.0@, p.1@)) =~= self.pairs_view()
                .take(0));
        }
        while i < self.pairs.len()
            invariant
                i <= self.pairs@.len(),
                out@.map(|j: int, p: (Vec<u8>, Vec<u8>)| (p.0@, p.1@)) == self.pairs_view().take(
                    i as int,
                ),
            decreases self.pairs@.len() - i,
        {
            let ghost pre = out@.map(|j: int, p: (Vec<u8>, Vec<u8>)| (p.0@, p.1@));
            let kk = clone_bytes(&self.pairs[i].0);
            let vv = clone_bytes(&self.pairs[i].1);
            out.push((kk, vv));
            proof {
                assert(out@.map(|j: int, p: (Vec<u8>, Vec<u8>)| (p.0@, p.1@)) =~= pre.push(
                    self.pairs_view()[i as int]));
                assert(pre.push(self.pairs_view()[i as int]) =~= self.pairs_view().take(i + 1));
            }
            i = i + 1;
        }
        proof {
            assert(self.pairs_view().take(self.pairs@.len() as int) =~= self.pairs_view());
        }
        Backend { pairs: out }
    }
}

impl View for Backend {
    type V = Map<Seq<u8>, Seq<u8>>;

    open spec fn view(&self) -> Map<Seq<u8>, Seq<u8>> {
        kv_map(self.pairs_view())
    }
}

} // verus!
