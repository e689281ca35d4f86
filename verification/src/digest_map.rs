//! The path-to-digest map, kept sorted by path.
//!
//! The map stores one digest per enumerated file and iterates its entries in
//! the total order on paths. Keeping the representation canonical — strictly
//! sorted, keys unique — is what makes every result derived from the map
//! independent of the order in which entries arrived.

use vstd::prelude::*;
use crate::path::{lex_lt, lemma_lex_lt_asymmetric, lemma_lex_lt_connected, lemma_lex_lt_transitive,
    FilePath};

verus! {

/// One file together with its content digest.
pub struct MapEntry {
    pub path: FilePath,
    pub digest: Vec<u8>,
}

impl View for MapEntry {
    type V = (Seq<u8>, Seq<u8>);

    open spec fn view(&self) -> (Seq<u8>, Seq<u8>) {
        (self.path@, self.digest@)
    }
}

/// The abstract entries of a sequence of map entries: (path, digest) pairs.
pub open spec fn entries_view(s: Seq<MapEntry>) -> Seq<(Seq<u8>, Seq<u8>)> {
    s.map_values(|e: MapEntry| e@)
}

/// Entry pairs in strictly increasing path order: sorted, and keys unique.
pub open spec fn strict_sorted(s: Seq<(Seq<u8>, Seq<u8>)>) -> bool {
    forall|i: int, j: int| 0 <= i < j < s.len() ==> lex_lt(s[i].0, s[j].0)
}

/// Whether some entry of `s` carries the path `k`.
pub open spec fn has_key(s: Seq<(Seq<u8>, Seq<u8>)>, k: Seq<u8>) -> bool {
    exists|i: int| 0 <= i < s.len() && s[i].0 == k
}

/// A mapping from file paths to content digests, one entry per path, held in
/// strictly increasing path order.
pub struct DigestMap {
    entries: Vec<MapEntry>,
}

impl View for DigestMap {
    type V = Seq<(Seq<u8>, Seq<u8>)>;

    closed spec fn view(&self) -> Seq<(Seq<u8>, Seq<u8>)> {
        entries_view(self.entries@)
    }
}

impl DigestMap {
    /// The representation invariant: entries in strictly increasing path
    /// order, so keys are unique and iteration order is canonical.
    pub open spec fn wf(&self) -> bool {
        strict_sorted(self@)
    }

    /// The empty map.
    pub fn new() -> (m: DigestMap)
        ensures
            m@ == Seq::<(Seq<u8>, Seq<u8>)>::empty(),
            m.wf(),
    {
        let m = DigestMap { entries: Vec::new() };
        proof {
            assert(m@ =~= Seq::<(Seq<u8>, Seq<u8>)>::empty());
        }
        m
    }

    /// How many files the map holds.
    pub fn len(&self) -> (n: usize)
        ensures
            n == self@.len(),
    {
        self.entries.len()
    }

    /// The path of the entry at position `i` in path order.
    pub fn path_at(&self, i: usize) -> (p: &FilePath)
        requires
            i < self@.len(),
        ensures
            p@ == self@[i as int].0,
    {
        &self.entries[i].path
    }

    /// The digest of the entry at position `i` in path order.
    pub fn digest_at(&self, i: usize) -> (d: &Vec<u8>)
        requires
            i < self@.len(),
        ensures
            d@ == self@[i as int].1,
    {
        &self.entries[i].digest
    }

    /// Where a new path belongs: the first position whose entry is not below
    /// `path`.
    fn find_insert_pos(&self, path: &FilePath) -> (pos: usize)
        requires
            self.wf(),
        ensures
            pos <= self@.len(),
            forall|j: int| 0 <= j < pos ==> lex_lt(self@[j].0, path@),
            forall|j: int| pos <= j < self@.len() ==> !lex_lt(self@[j].0, path@),
    {
        let n = self.entries.len();
        let mut pos: usize = 0;
        while pos < n
            invariant
                self.wf(),
                n == self@.len(),
                pos <= n,
                forall|j: int| 0 <= j < pos ==> lex_lt(self@[j].0, path@),
            decreases n - pos,
        {
            if !self.entries[pos].path.lt(path) {
                proof {
                    assert(self@[pos as int].0 == self.entries@[pos as int].path@);
                    assert forall|j: int| pos <= j < self@.len() implies !lex_lt(
                        self@[j].0,
                        path@,
                    ) by {
                        if j > pos {
                            assert(lex_lt(self@[pos as int].0, self@[j].0));
                            if lex_lt(self@[j].0, path@) {
                                lemma_lex_lt_transitive(self@[pos as int].0, self@[j].0, path@);
                            }
                        }
                    }
                }
                return pos;
            }
            pos += 1;
        }
        pos
    }

    /// Adds one file's digest under a path the map does not hold yet, keeping
    /// the entries in path order.
    pub fn insert(&mut self, path: FilePath, digest: Vec<u8>)
        requires
            old(self).wf(),
            !has_key(old(self)@, path@),
        ensures
            final(self).wf(),
            final(self)@.len() == old(self)@.len() + 1,
            final(self)@.to_multiset() == old(self)@.to_multiset().insert((path@, digest@)),
            forall|k: Seq<u8>|
                has_key(final(self)@, k) <==> (has_key(old(self)@, k) || k == path@),
    {
        let ghost ov = self@;
        let ghost pair = (path@, digest@);
        let pos = self.find_insert_pos(&path);
        proof {
            assert forall|j: int| pos <= j < ov.len() implies lex_lt(path@, ov[j].0) by {
                lemma_lex_lt_connected(path@, ov[j].0);
                assert(ov[j].0 != path@);
            }
        }
        self.entries.insert(pos, MapEntry { path, digest });
        proof {
            let nv = self@;
            assert(nv =~= ov.insert(pos as int, pair));
            ov.insert_ensures(pos as int, pair);
            lemma_to_multiset_insert(ov, pos as int, pair);
            assert forall|i: int, j: int| 0 <= i < j < nv.len() implies lex_lt(
                nv[i].0,
                nv[j].0,
            ) by {
                if j < pos {
                    assert(nv[i] == ov[i] && nv[j] == ov[j]);
                } else if j == pos {
                    assert(nv[i] == ov[i]);
                } else if i == pos {
                    assert(nv[j] == ov[j - 1]);
                } else if i < pos {
                    // i is left of the new entry and j right of it, so i < j - 1
                    assert(nv[i] == ov[i] && nv[j] == ov[j - 1]);
                    assert(lex_lt(ov[i].0, ov[j - 1].0));
                } else {
                    assert(nv[i] == ov[i - 1] && nv[j] == ov[j - 1]);
                }
            }
            assert forall|k: Seq<u8>| has_key(nv, k) <==> (has_key(ov, k) || k == pair.0) by {
                if has_key(nv, k) {
                    let idx = choose|idx: int| 0 <= idx < nv.len() && nv[idx].0 == k;
                    if idx < pos {
                        assert(ov[idx].0 == k);
                    } else if idx == pos {
                        assert(k == pair.0);
                    } else {
                        assert(ov[idx - 1].0 == k);
                    }
                }
                if has_key(ov, k) {
                    let idx = choose|idx: int| 0 <= idx < ov.len() && ov[idx].0 == k;
                    if idx < pos {
                        assert(nv[idx].0 == k);
                    } else {
                        assert(nv[idx + 1].0 == k);
                    }
                }
                if k == pair.0 {
                    assert(nv[pos as int].0 == k);
                }
            }
        }
    }
}

/// Inserting an element anywhere in a sequence adds exactly that element to
/// its multiset.
pub proof fn lemma_to_multiset_insert(s: Seq<(Seq<u8>, Seq<u8>)>, i: int, x: (Seq<u8>, Seq<u8>))
    requires
        0 <= i <= s.len(),
    ensures
        s.insert(i, x).to_multiset() == s.to_multiset().insert(x),
{
    let t = s.insert(i, x);
    t.to_multiset_ensures();
    s.insert_ensures(i, x);
    assert(t.remove(i) =~= s);
    assert(t[i] == x);
    assert(t.remove(i).to_multiset() == t.to_multiset().remove(t[i]));
    assert(t.contains(x));
    assert(t.to_multiset().count(x) > 0);
    assert(t.to_multiset() =~= s.to_multiset().insert(x));
}

/// Two strictly sorted entry sequences holding the same entries are the same
/// sequence: the sorted form of a digest map is canonical.
pub proof fn lemma_strict_sorted_unique(s1: Seq<(Seq<u8>, Seq<u8>)>, s2: Seq<(Seq<u8>, Seq<u8>)>)
    requires
        strict_sorted(s1),
        strict_sorted(s2),
        s1.to_multiset() == s2.to_multiset(),
    ensures
        s1 == s2,
    decreases s1.len(),
{
    s1.to_multiset_ensures();
    s2.to_multiset_ensures();
    assert(s1.len() == s1.to_multiset().len());
    assert(s2.len() == s2.to_multiset().len());
    if s1.len() == 0 {
        assert(s1 =~= s2);
    } else {
        let e1 = s1[0];
        let e2 = s2[0];
        assert(s1.contains(e1));
        assert(s2.contains(e2));
        assert(s2.to_multiset().count(e1) > 0);
        assert(s2.contains(e1));
        assert(s1.to_multiset().count(e2) > 0);
        assert(s1.contains(e2));
        let j = choose|j: int| 0 <= j < s2.len() && s2[j] == e1;
        let i = choose|i: int| 0 <= i < s1.len() && s1[i] == e2;
        if e1 != e2 {
            assert(j != 0 && i != 0);
            assert(lex_lt(s2[0].0, s2[j].0));
            assert(lex_lt(s1[0].0, s1[i].0));
            lemma_lex_lt_asymmetric(e1.0, e2.0);
            assert(false);
        }
        let t1 = s1.drop_first();
        let t2 = s2.drop_first();
        assert(s1.remove(0) =~= t1);
        assert(s2.remove(0) =~= t2);
        assert(s1.remove(0).to_multiset() == s1.to_multiset().remove(s1[0]));
        assert(s2.remove(0).to_multiset() == s2.to_multiset().remove(s2[0]));
        assert(t1.to_multiset() == t2.to_multiset());
        assert(strict_sorted(t1)) by {
            assert(forall|i: int, j: int|
                0 <= i < j < t1.len() ==> t1[i] == s1[i + 1] && t1[j] == s1[j + 1]);
        }
        assert(strict_sorted(t2)) by {
            assert(forall|i: int, j: int|
                0 <= i < j < t2.len() ==> t2[i] == s2[i + 1] && t2[j] == s2[j + 1]);
        }
        lemma_strict_sorted_unique(t1, t2);
        assert(s1 =~= s2) by {
            assert(forall|k: int| 1 <= k < s1.len() ==> s1[k] == t1[k - 1] && s2[k] == t2[k - 1]);
        }
    }
}

} // verus!
