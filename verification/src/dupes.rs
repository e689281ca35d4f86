//! Grouping files that share a content digest.

use vstd::prelude::*;
use crate::digest_map::{strict_sorted, DigestMap};
use crate::path::{bytes_eq, copy_bytes, lex_lt, lemma_lex_lt_asymmetric, paths_of, FilePath};

verus! {

/// A digest value together with the paths of all files that produced it;
/// only digests shared by at least two files form a group.
pub struct DuplicateGroup {
    pub digest: Vec<u8>,
    pub paths: Vec<FilePath>,
}

/// The paths among the entries `s` whose digest is `d`, in the order the
/// entries stand in `s`.
pub open spec fn paths_with_digest(s: Seq<(Seq<u8>, Seq<u8>)>, d: Seq<u8>) -> Seq<Seq<u8>> {
    s.filter(|e: (Seq<u8>, Seq<u8>)| e.1 == d).map_values(|e: (Seq<u8>, Seq<u8>)| e.0)
}

/// How a digest's path group grows entry by entry.
proof fn lemma_paths_with_digest_unfold(s: Seq<(Seq<u8>, Seq<u8>)>, d: Seq<u8>)
    requires
        s.len() > 0,
    ensures
        paths_with_digest(s, d) == if s.last().1 == d {
            paths_with_digest(s.drop_last(), d).push(s.last().0)
        } else {
            paths_with_digest(s.drop_last(), d)
        },
{
    reveal(Seq::filter);
    if s.last().1 == d {
        assert(paths_with_digest(s, d) =~= paths_with_digest(s.drop_last(), d).push(s.last().0));
    } else {
        assert(paths_with_digest(s, d) =~= paths_with_digest(s.drop_last(), d));
    }
}

/// A path found in a digest's group names an entry carrying exactly that
/// digest.
proof fn lemma_filter_member(s: Seq<(Seq<u8>, Seq<u8>)>, d: Seq<u8>, k: Seq<u8>)
    requires
        paths_with_digest(s, d).contains(k),
    ensures
        exists|i: int| 0 <= i < s.len() && s[i].0 == k && s[i].1 == d,
    decreases s.len(),
{
    if s.len() == 0 {
        reveal(Seq::filter);
        assert(paths_with_digest(s, d).len() == 0);
        assert(false);
    } else {
        lemma_paths_with_digest_unfold(s, d);
        let rest = s.drop_last();
        let idx = choose|idx: int|
            0 <= idx < paths_with_digest(s, d).len() && paths_with_digest(s, d)[idx] == k;
        if s.last().1 == d && idx == paths_with_digest(s, d).len() - 1 {
            assert(s[s.len() - 1].0 == k && s[s.len() - 1].1 == d);
        } else {
            assert(paths_with_digest(rest, d)[idx] == k);
            assert(paths_with_digest(rest, d).contains(k));
            lemma_filter_member(rest, d, k);
            let i = choose|i: int| 0 <= i < rest.len() && rest[i].0 == k && rest[i].1 == d;
            assert(s[i] == rest[i]);
        }
    }
}

/// Duplicate groups are disjoint: the map holds one digest per path, so a
/// path that belongs to one digest's group belongs to no other's.
pub proof fn lemma_groups_disjoint(
    m: Seq<(Seq<u8>, Seq<u8>)>,
    d1: Seq<u8>,
    d2: Seq<u8>,
    k: Seq<u8>,
)
    requires
        strict_sorted(m),
        d1 != d2,
        paths_with_digest(m, d1).contains(k),
    ensures
        !paths_with_digest(m, d2).contains(k),
{
    lemma_filter_member(m, d1, k);
    if paths_with_digest(m, d2).contains(k) {
        lemma_filter_member(m, d2, k);
        let i1 = choose|i: int| 0 <= i < m.len() && m[i].0 == k && m[i].1 == d1;
        let i2 = choose|i: int| 0 <= i < m.len() && m[i].0 == k && m[i].1 == d2;
        assert(i1 != i2);
        if i1 < i2 {
            assert(lex_lt(m[i1].0, m[i2].0));
        } else {
            assert(lex_lt(m[i2].0, m[i1].0));
        }
        lemma_lex_lt_asymmetric(k, k);
        assert(false);
    }
}

/// Finds every digest shared by two or more entries of the map. Each such
/// digest appears in exactly one group, whose members are all of its paths in
/// map (that is, path) order; files with a unique digest appear in no group.
pub fn find_duplicates(m: &DigestMap) -> (groups: Vec<DuplicateGroup>)
    ensures
        forall|g: int|
            0 <= g < groups@.len() ==> paths_of(#[trigger] groups@[g].paths@)
                == paths_with_digest(m@, groups@[g].digest@) && paths_with_digest(
                m@,
                groups@[g].digest@,
            ).len() >= 2,
        forall|g1: int, g2: int|
            0 <= g1 < g2 < groups@.len() ==> groups@[g1].digest@ != groups@[g2].digest@,
        forall|i: int|
            0 <= i < m@.len() && paths_with_digest(m@, #[trigger] m@[i].1).len() >= 2
                ==> exists|g: int| 0 <= g < groups@.len() && groups@[g].digest@ == m@[i].1,
{
    let n = m.len();
    let mut groups: Vec<DuplicateGroup> = Vec::new();
    let mut i: usize = 0;
    while i < n
        invariant
            n == m@.len(),
            i <= n,
            forall|g: int|
                0 <= g < groups@.len() ==> paths_of(#[trigger] groups@[g].paths@)
                    == paths_with_digest(m@, groups@[g].digest@) && paths_with_digest(
                    m@,
                    groups@[g].digest@,
                ).len() >= 2,
            forall|g: int|
                0 <= g < groups@.len() ==> exists|k: int|
                    0 <= k < i && m@[k].1 == #[trigger] groups@[g].digest@,
            forall|g1: int, g2: int|
                0 <= g1 < g2 < groups@.len() ==> groups@[g1].digest@ != groups@[g2].digest@,
            forall|k: int|
                0 <= k < i && paths_with_digest(m@, #[trigger] m@[k].1).len() >= 2 ==> exists|
                    g: int,
                |
                    0 <= g < groups@.len() && groups@[g].digest@ == m@[k].1,
        decreases n - i,
    {
        let d = m.digest_at(i);
        let mut seen = false;
        let mut j: usize = 0;
        while j < i
            invariant
                n == m@.len(),
                i < n,
                j <= i,
                d@ == m@[i as int].1,
                seen == exists|k: int| 0 <= k < j && m@[k].1 == m@[i as int].1,
            decreases i - j,
        {
            if bytes_eq(m.digest_at(j), d) {
                seen = true;
            }
            j += 1;
        }
        if !seen {
            let mut paths: Vec<FilePath> = Vec::new();
            let mut j2: usize = 0;
            proof {
                reveal(Seq::filter);
                assert(m@.take(0) =~= Seq::<(Seq<u8>, Seq<u8>)>::empty());
                assert(paths_of(paths@) =~= paths_with_digest(m@.take(0), m@[i as int].1));
            }
            while j2 < n
                invariant
                    n == m@.len(),
                    i < n,
                    j2 <= n,
                    d@ == m@[i as int].1,
                    paths_of(paths@) == paths_with_digest(m@.take(j2 as int), m@[i as int].1),
                decreases n - j2,
            {
                let ghost prefix = m@.take(j2 as int);
                let ghost next = m@.take(j2 as int + 1);
                let ghost old_paths = paths@;
                if bytes_eq(m.digest_at(j2), d) {
                    paths.push(m.path_at(j2).duplicate());
                }
                proof {
                    reveal(Seq::filter);
                    let p = |e: (Seq<u8>, Seq<u8>)| e.1 == m@[i as int].1;
                    assert(next.drop_last() =~= prefix);
                    assert(next.last() == m@[j2 as int]);
                    if p(m@[j2 as int]) {
                        assert(next.filter(p) == prefix.filter(p).push(m@[j2 as int]));
                        assert(paths@ == old_paths.push(paths@.last()));
                        assert(paths@.last()@ == m@[j2 as int].0);
                        assert(paths_of(paths@) =~= paths_of(old_paths).push(
                            m@[j2 as int].0,
                        ));
                        assert(paths_with_digest(next, m@[i as int].1) =~= paths_with_digest(
                            prefix,
                            m@[i as int].1,
                        ).push(m@[j2 as int].0));
                        assert(paths_of(paths@) == paths_with_digest(next, m@[i as int].1));
                    } else {
                        assert(next.filter(p) == prefix.filter(p));
                        assert(paths_of(paths@) =~= paths_with_digest(next, m@[i as int].1));
                    }
                }
                j2 += 1;
            }
            proof {
                assert(m@.take(n as int) =~= m@);
            }
            if paths.len() >= 2 {
                let ghost old_groups = groups@;
                groups.push(DuplicateGroup { digest: copy_bytes(d), paths });
                proof {
                    assert(groups@.len() == old_groups.len() + 1);
                    assert(groups@[old_groups.len() as int].digest@ == m@[i as int].1);
                    assert(forall|g: int|
                        0 <= g < old_groups.len() ==> groups@[g] == old_groups[g]);
                    assert forall|g1: int, g2: int|
                        0 <= g1 < g2 < groups@.len() implies groups@[g1].digest@
                        != groups@[g2].digest@ by {
                        if g2 == old_groups.len() {
                            let k = choose|k: int|
                                0 <= k < i && m@[k].1 == groups@[g1].digest@;
                            assert(m@[k].1 != m@[i as int].1);
                        }
                    }
                }
            }
        } else {
            proof {
                let k = choose|k: int| 0 <= k < i && m@[k].1 == m@[i as int].1;
                assert(paths_with_digest(m@, m@[k].1).len() == paths_with_digest(
                    m@,
                    m@[i as int].1,
                ).len());
            }
        }
        i += 1;
    }
    groups
}

} // verus!
