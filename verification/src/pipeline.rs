//! The hashing pipeline: enumerated paths in, digests, aggregate and groups
//! out.
//!
//! Per-file hashing may run in any order and on any number of workers; the
//! functions here take the per-file outcomes as plain values and are proved to
//! give one canonical result whatever that order was. The aggregate digest is
//! always the digest of the per-file digests concatenated in path order.

use vstd::prelude::*;
use crate::digest_map::{has_key, lemma_strict_sorted_unique, strict_sorted, DigestMap};
use crate::hashing::{blake2_of, hash_bytes, StreamingHasher};
use crate::hexenc::{hex_encode, hex_of};
use crate::path::{copy_bytes, lex_lt, lemma_lex_lt_connected, lemma_lex_lt_transitive, paths_of,
    FilePath};

verus! {

/// Why the pipeline failed: the root does not exist, the root's metadata
/// cannot be read, or one file could not be opened or read. A per-file
/// failure names the file.
pub enum PipelineError {
    NotFound,
    PermissionDenied,
    IoError(FilePath),
}

/// One file of the snapshot handed to the pipeline: its path and its content.
pub struct FileInput {
    pub path: FilePath,
    pub content: Vec<u8>,
}

/// One worker's outcome for one file: its digest, or nothing if the file
/// could not be read.
pub struct HashResult {
    pub path: FilePath,
    pub digest: Option<Vec<u8>>,
}

/// What the whole pipeline returns: the per-file digest map and the aggregate
/// digest of the tree.
pub struct PipelineOutput {
    pub digest_map: DigestMap,
    pub aggregate: Vec<u8>,
}

/// No two inputs name the same file.
pub open spec fn distinct_paths(s: Seq<FileInput>) -> bool {
    forall|i: int, j: int| 0 <= i < j < s.len() ==> s[i].path@ != s[j].path@
}

/// No two worker outcomes name the same file.
pub open spec fn distinct_result_paths(s: Seq<HashResult>) -> bool {
    forall|i: int, j: int| 0 <= i < j < s.len() ==> s[i].path@ != s[j].path@
}

/// The (path, digest) pairs that a snapshot must map to: each file's path
/// with the digest of its content.
pub open spec fn digest_entries(s: Seq<FileInput>) -> Seq<(Seq<u8>, Seq<u8>)> {
    s.map_values(|f: FileInput| (f.path@, blake2_of(f.content@)))
}

/// The (path, digest) pairs carried by a sequence of successful outcomes.
pub open spec fn result_entries(s: Seq<HashResult>) -> Seq<(Seq<u8>, Seq<u8>)> {
    s.map_values(|r: HashResult| (r.path@, r.digest->Some_0@))
}

/// Path byte strings in strictly increasing order.
pub open spec fn paths_strictly_sorted(s: Seq<Seq<u8>>) -> bool {
    forall|i: int, j: int| 0 <= i < j < s.len() ==> lex_lt(s[i], s[j])
}

/// All per-file digests of the map, concatenated in the map's (path) order.
pub open spec fn concat_digests(s: Seq<(Seq<u8>, Seq<u8>)>) -> Seq<u8>
    decreases s.len(),
{
    if s.len() == 0 {
        Seq::empty()
    } else {
        concat_digests(s.drop_last()) + s.last().1
    }
}

/// Appending an element to a path list adds exactly it to the list's set.
proof fn lemma_to_set_push(s: Seq<Seq<u8>>, x: Seq<u8>)
    ensures
        s.push(x).to_set() == s.to_set().insert(x),
{
    assert forall|k: Seq<u8>|
        s.push(x).to_set().contains(k) <==> s.to_set().insert(x).contains(k) by {
        if s.push(x).to_set().contains(k) {
            let idx = choose|idx: int| 0 <= idx < s.push(x).len() && s.push(x)[idx] == k;
            if idx < s.len() {
                assert(s[idx] == k);
                assert(s.contains(k));
            } else {
                assert(k == x);
            }
        }
        if s.to_set().contains(k) {
            let idx = choose|idx: int| 0 <= idx < s.len() && s[idx] == k;
            assert(s.push(x)[idx] == k);
            assert(s.push(x).contains(k));
        }
        if k == x {
            assert(s.push(x)[s.len() as int] == k);
            assert(s.push(x).contains(k));
        }
    }
    assert(s.push(x).to_set() =~= s.to_set().insert(x));
}

/// Inserting an element anywhere in a path list adds exactly it to the list's
/// set.
proof fn lemma_to_set_seq_insert(s: Seq<Seq<u8>>, i: int, x: Seq<u8>)
    requires
        0 <= i <= s.len(),
    ensures
        s.insert(i, x).to_set() == s.to_set().insert(x),
{
    let t = s.insert(i, x);
    s.insert_ensures(i, x);
    assert forall|k: Seq<u8>| t.to_set().contains(k) <==> s.to_set().insert(x).contains(k) by {
        if t.to_set().contains(k) {
            let idx = choose|idx: int| 0 <= idx < t.len() && t[idx] == k;
            if idx < i {
                assert(s[idx] == k);
                assert(s.contains(k));
            } else if idx == i {
                assert(k == x);
            } else {
                assert(s[idx - 1] == k);
                assert(s.contains(k));
            }
        }
        if s.to_set().contains(k) {
            let idx = choose|idx: int| 0 <= idx < s.len() && s[idx] == k;
            if idx < i {
                assert(t[idx] == k);
            } else {
                assert(t[idx + 1] == k);
            }
            assert(t.contains(k));
        }
        if k == x {
            assert(t[i] == k);
            assert(t.contains(k));
        }
    }
    assert(t.to_set() =~= s.to_set().insert(x));
}

/// Where `p` belongs in the sorted path list: the first position whose entry
/// is not below it.
fn find_path_pos(v: &Vec<FilePath>, p: &FilePath) -> (pos: usize)
    requires
        paths_strictly_sorted(paths_of(v@)),
    ensures
        pos <= v@.len(),
        forall|j: int| 0 <= j < pos ==> lex_lt(v@[j]@, p@),
        forall|j: int| pos <= j < v@.len() ==> !lex_lt(v@[j]@, p@),
{
    let n = v.len();
    let mut pos: usize = 0;
    while pos < n
        invariant
            paths_strictly_sorted(paths_of(v@)),
            n == v@.len(),
            pos <= n,
            forall|j: int| 0 <= j < pos ==> lex_lt(v@[j]@, p@),
        decreases n - pos,
    {
        if !v[pos].lt(p) {
            proof {
                assert forall|j: int| pos <= j < v@.len() implies !lex_lt(v@[j]@, p@) by {
                    if j > pos {
                        assert(lex_lt(paths_of(v@)[pos as int], paths_of(v@)[j]));
                        if lex_lt(v@[j]@, p@) {
                            lemma_lex_lt_transitive(v@[pos as int]@, v@[j]@, p@);
                        }
                    }
                }
            }
            return pos;
        }
        pos += 1;
    }
    pos
}

/// Turns the enumerated paths into the snapshot's path set: every path once,
/// in strictly increasing order. Paths reached more than once are merged.
pub fn build_file_tree(paths: &Vec<FilePath>) -> (out: Vec<FilePath>)
    ensures
        paths_strictly_sorted(paths_of(out@)),
        paths_of(out@).to_set() == paths_of(paths@).to_set(),
{
    let n = paths.len();
    let mut out: Vec<FilePath> = Vec::new();
    let mut i: usize = 0;
    proof {
        assert(paths_of(out@).to_set() =~= paths_of(paths@.take(0)).to_set());
    }
    while i < n
        invariant
            n == paths@.len(),
            i <= n,
            paths_strictly_sorted(paths_of(out@)),
            paths_of(out@).to_set() == paths_of(paths@.take(i as int)).to_set(),
        decreases n - i,
    {
        let ghost old_out = out@;
        let p = paths[i].duplicate();
        let pos = find_path_pos(&out, &p);
        let dup = pos < out.len() && out[pos].same_as(&p);
        if !dup {
            proof {
                assert forall|j: int| pos <= j < old_out.len() implies lex_lt(
                    p@,
                    old_out[j]@,
                ) by {
                    if j == pos {
                        lemma_lex_lt_connected(p@, old_out[j]@);
                    } else {
                        lemma_lex_lt_connected(p@, old_out[pos as int]@);
                        assert(lex_lt(paths_of(old_out)[pos as int], paths_of(old_out)[j]));
                        lemma_lex_lt_transitive(p@, old_out[pos as int]@, old_out[j]@);
                    }
                }
            }
            out.insert(pos, p);
            proof {
                old_out.insert_ensures(pos as int, out@[pos as int]);
                assert(out@[pos as int]@ == paths@[i as int]@);
                assert forall|a: int, b: int|
                    0 <= a < b < out@.len() implies lex_lt(
                    paths_of(out@)[a],
                    paths_of(out@)[b],
                ) by {
                    let ov = old_out;
                    if b < pos {
                        assert(out@[a] == ov[a] && out@[b] == ov[b]);
                        assert(lex_lt(paths_of(ov)[a], paths_of(ov)[b]));
                    } else if b == pos {
                        assert(out@[a] == ov[a]);
                    } else if a == pos {
                        assert(out@[b] == ov[b - 1]);
                    } else if a < pos {
                        // a is left of the new entry and b right of it, so a < b - 1
                        assert(out@[a] == ov[a] && out@[b] == ov[b - 1]);
                        assert(lex_lt(paths_of(ov)[a], paths_of(ov)[b - 1]));
                    } else {
                        assert(out@[a] == ov[a - 1] && out@[b] == ov[b - 1]);
                        assert(lex_lt(paths_of(ov)[a - 1], paths_of(ov)[b - 1]));
                    }
                }
            }
        }
        proof {
            let pv = paths@[i as int]@;
            let prev_seq = paths_of(paths@.take(i as int));
            let next_seq = paths_of(paths@.take(i as int + 1));
            assert(paths@.take(i as int + 1).drop_last() =~= paths@.take(i as int));
            assert(next_seq =~= prev_seq.push(pv));
            lemma_to_set_push(prev_seq, pv);
            if !dup {
                old_out.insert_ensures(pos as int, out@[pos as int]);
                paths_of(old_out).insert_ensures(pos as int, pv);
                assert(paths_of(out@) =~= paths_of(old_out).insert(pos as int, pv));
                lemma_to_set_seq_insert(paths_of(old_out), pos as int, pv);
                assert(paths_of(out@).to_set() =~= next_seq.to_set());
            } else {
                assert(out@[pos as int]@ == pv);
                assert(paths_of(out@)[pos as int] == pv);
                assert(paths_of(out@).contains(pv));
                assert(paths_of(out@).to_set().contains(pv));
                assert(paths_of(out@).to_set() =~= next_seq.to_set());
            }
        }
        i += 1;
    }
    proof {
        assert(paths@.take(n as int) =~= paths@);
    }
    out
}

/// Digests every file of an in-memory snapshot and returns the map from path
/// to digest. The map holds exactly one entry per file, whatever order the
/// inputs came in.
pub fn calculate_hashes(files: &Vec<FileInput>) -> (m: DigestMap)
    requires
        distinct_paths(files@),
    ensures
        m.wf(),
        m@.to_multiset() == digest_entries(files@).to_multiset(),
        forall|k: Seq<u8>|
            has_key(m@, k) <==> exists|i: int| 0 <= i < files@.len() && files@[i].path@ == k,
{
    let n = files.len();
    let mut m = DigestMap::new();
    let mut i: usize = 0;
    proof {
        digest_entries(files@.take(0)).to_multiset_ensures();
        assert(digest_entries(files@.take(0)) =~= Seq::<(Seq<u8>, Seq<u8>)>::empty());
        assert(m@.to_multiset() =~= digest_entries(files@.take(0)).to_multiset());
    }
    while i < n
        invariant
            distinct_paths(files@),
            n == files@.len(),
            i <= n,
            m.wf(),
            m@.to_multiset() == digest_entries(files@.take(i as int)).to_multiset(),
            forall|k: Seq<u8>|
                has_key(m@, k) <==> exists|j: int| 0 <= j < i && files@[j].path@ == k,
        decreases n - i,
    {
        let d = hash_bytes(files[i].content.as_slice());
        proof {
            if has_key(m@, files@[i as int].path@) {
                let j = choose|j: int| 0 <= j < i && files@[j].path@ == files@[i as int].path@;
                assert(false);
            }
        }
        m.insert(files[i].path.duplicate(), d);
        proof {
            let prefix = digest_entries(files@.take(i as int));
            let next = digest_entries(files@.take(i as int + 1));
            assert(files@.take(i as int + 1).drop_last() =~= files@.take(i as int));
            assert(next =~= prefix.push(
                (files@[i as int].path@, blake2_of(files@[i as int].content@)),
            ));
            prefix.to_multiset_ensures();
            assert(next.to_multiset() =~= prefix.to_multiset().insert(
                (files@[i as int].path@, blake2_of(files@[i as int].content@)),
            ));
        }
        i += 1;
    }
    proof {
        assert(files@.take(n as int) =~= files@);
    }
    m
}

/// Folds all per-file digests, in path order, into the one aggregate digest
/// of the tree: the digest of the digests' concatenation. An empty map yields
/// the digest of the empty byte sequence.
pub fn merge_hashes(m: &DigestMap) -> (d: Vec<u8>)
    ensures
        d@ == blake2_of(concat_digests(m@)),
        d@.len() == 64,
{
    let n = m.len();
    let mut h = StreamingHasher::new();
    let mut i: usize = 0;
    proof {
        assert(m@.take(0) =~= Seq::<(Seq<u8>, Seq<u8>)>::empty());
        assert(h.bytes_fed() =~= concat_digests(m@.take(0)));
    }
    while i < n
        invariant
            n == m@.len(),
            i <= n,
            h.bytes_fed() == concat_digests(m@.take(i as int)),
        decreases n - i,
    {
        h.update(m.digest_at(i).as_slice());
        proof {
            assert(m@.take(i as int + 1).drop_last() =~= m@.take(i as int));
            assert(m@.take(i as int + 1).last() == m@[i as int]);
        }
        i += 1;
    }
    proof {
        assert(m@.take(n as int) =~= m@);
    }
    h.finalize()
}

/// Merges the workers' per-file outcomes into the digest map, atomically: if
/// any file failed, the whole call fails with that file's name and no map at
/// all is returned; otherwise the map holds exactly the successful entries.
pub fn collect_digests(results: &Vec<HashResult>) -> (out: Result<DigestMap, PipelineError>)
    requires
        distinct_result_paths(results@),
    ensures
        out is Ok <==> (forall|i: int| 0 <= i < results@.len() ==> results@[i].digest is Some),
        out matches Ok(m) ==> m.wf() && m@.to_multiset() == result_entries(results@).to_multiset(),
        out matches Err(e) ==> (e matches PipelineError::IoError(p) && exists|i: int|
            0 <= i < results@.len() && (#[trigger] results@[i].digest) is None && p@
                == results@[i].path@ && (forall|j: int| 0 <= j < i ==> results@[j].digest is Some)),
{
    let n = results.len();
    let mut i: usize = 0;
    while i < n
        invariant
            n == results@.len(),
            i <= n,
            forall|j: int| 0 <= j < i ==> results@[j].digest is Some,
        decreases n - i,
    {
        if results[i].digest.is_none() {
            return Err(PipelineError::IoError(results[i].path.duplicate()));
        }
        i += 1;
    }
    let mut m = DigestMap::new();
    let mut k: usize = 0;
    proof {
        result_entries(results@.take(0)).to_multiset_ensures();
        assert(result_entries(results@.take(0)) =~= Seq::<(Seq<u8>, Seq<u8>)>::empty());
        assert(m@.to_multiset() =~= result_entries(results@.take(0)).to_multiset());
    }
    while k < n
        invariant
            distinct_result_paths(results@),
            forall|j: int| 0 <= j < n ==> results@[j].digest is Some,
            n == results@.len(),
            k <= n,
            m.wf(),
            m@.to_multiset() == result_entries(results@.take(k as int)).to_multiset(),
            forall|key: Seq<u8>|
                has_key(m@, key) <==> exists|j: int| 0 <= j < k && results@[j].path@ == key,
        decreases n - k,
    {
        proof {
            if has_key(m@, results@[k as int].path@) {
                let j = choose|j: int|
                    0 <= j < k && results@[j].path@ == results@[k as int].path@;
                assert(false);
            }
        }
        match &results[k].digest {
            Some(d) => {
                m.insert(results[k].path.duplicate(), copy_bytes(d));
            },
            None => {
                proof {
                    assert(false);
                }
            },
        }
        proof {
            let prefix = result_entries(results@.take(k as int));
            let next = result_entries(results@.take(k as int + 1));
            assert(results@.take(k as int + 1).drop_last() =~= results@.take(k as int));
            assert(next =~= prefix.push(
                (results@[k as int].path@, results@[k as int].digest->Some_0@),
            ));
            prefix.to_multiset_ensures();
            assert(next.to_multiset() =~= prefix.to_multiset().insert(
                (results@[k as int].path@, results@[k as int].digest->Some_0@),
            ));
        }
        k += 1;
    }
    proof {
        assert(results@.take(n as int) =~= results@);
    }
    Ok(m)
}

/// Runs the whole pipeline over an in-memory snapshot: digest every file,
/// then fold the digests in path order into the aggregate digest.
pub fn run_pipeline(files: &Vec<FileInput>) -> (r: PipelineOutput)
    requires
        distinct_paths(files@),
    ensures
        r.digest_map.wf(),
        r.digest_map@.to_multiset() == digest_entries(files@).to_multiset(),
        r.aggregate@ == blake2_of(concat_digests(r.digest_map@)),
        r.aggregate@.len() == 64,
{
    let digest_map = calculate_hashes(files);
    let aggregate = merge_hashes(&digest_map);
    PipelineOutput { digest_map, aggregate }
}

/// One map entry rendered for display.
pub struct HexEntry {
    pub path: FilePath,
    pub hex: String,
}

/// Renders every digest of the map as a lowercase hexadecimal string, in the
/// map's (path) order.
pub fn print_hashes(m: &DigestMap) -> (out: Vec<HexEntry>)
    ensures
        out@.len() == m@.len(),
        forall|i: int|
            0 <= i < out@.len() ==> (#[trigger] out@[i].path@) == m@[i].0 && out@[i].hex@
                == hex_of(m@[i].1),
{
    let n = m.len();
    let mut out: Vec<HexEntry> = Vec::new();
    let mut i: usize = 0;
    while i < n
        invariant
            n == m@.len(),
            i <= n,
            out@.len() == i,
            forall|j: int|
                0 <= j < i ==> (#[trigger] out@[j].path@) == m@[j].0 && out@[j].hex@ == hex_of(
                    m@[j].1,
                ),
        decreases n - i,
    {
        let hex = hex_encode(m.digest_at(i).as_slice());
        out.push(HexEntry { path: m.path_at(i).duplicate(), hex });
        i += 1;
    }
    out
}

/// Mapping a snapshot to its digest entries respects permutation: snapshots
/// holding the same files in any order demand the same set of map entries.
pub proof fn lemma_digest_entries_permutation(f1: Seq<FileInput>, f2: Seq<FileInput>)
    requires
        f1.to_multiset() == f2.to_multiset(),
    ensures
        digest_entries(f1).to_multiset() == digest_entries(f2).to_multiset(),
    decreases f1.len(),
{
    f1.to_multiset_ensures();
    f2.to_multiset_ensures();
    digest_entries(f1).to_multiset_ensures();
    digest_entries(f2).to_multiset_ensures();
    if f1.len() == 0 {
        assert(f2.len() == 0);
        assert(digest_entries(f1) =~= digest_entries(f2));
    } else {
        let e = f1.last();
        let pair = (e.path@, blake2_of(e.content@));
        assert(f1[f1.len() - 1] == e);
        assert(f1.contains(e));
        assert(f2.to_multiset().count(e) > 0);
        assert(f2.contains(e));
        let j = choose|j: int| 0 <= j < f2.len() && f2[j] == e;
        let f1r = f1.drop_last();
        let f2r = f2.remove(j);
        assert(f1.remove(f1.len() - 1) =~= f1r);
        assert(f1r.to_multiset() =~= f1.to_multiset().remove(e));
        assert(f2r.to_multiset() =~= f2.to_multiset().remove(e));
        lemma_digest_entries_permutation(f1r, f2r);
        digest_entries(f1r).to_multiset_ensures();
        digest_entries(f2).to_multiset_ensures();
        assert(digest_entries(f1) =~= digest_entries(f1r).push(pair));
        assert(digest_entries(f1).to_multiset() =~= digest_entries(f1r).to_multiset().insert(
            pair,
        ));
        assert(digest_entries(f2).remove(j) =~= digest_entries(f2r));
        assert(digest_entries(f2)[j] == pair);
        assert(digest_entries(f2).remove(j).to_multiset() =~= digest_entries(
            f2,
        ).to_multiset().remove(pair));
        assert(digest_entries(f2).contains(pair));
        assert(digest_entries(f2).to_multiset().count(pair) > 0);
        assert(digest_entries(f1).to_multiset() =~= digest_entries(f2).to_multiset());
    }
}

/// Determinism of the pipeline: the contract of `run_pipeline` pins its
/// result down. Any two digest maps built from the same snapshot are the same
/// map, entry for entry, and so carry the same aggregate digest — however the
/// per-file work was scheduled.
pub proof fn lemma_pipeline_deterministic(
    files: Seq<FileInput>,
    m1: Seq<(Seq<u8>, Seq<u8>)>,
    m2: Seq<(Seq<u8>, Seq<u8>)>,
)
    requires
        strict_sorted(m1),
        strict_sorted(m2),
        m1.to_multiset() == digest_entries(files).to_multiset(),
        m2.to_multiset() == digest_entries(files).to_multiset(),
    ensures
        m1 == m2,
        blake2_of(concat_digests(m1)) == blake2_of(concat_digests(m2)),
{
    lemma_strict_sorted_unique(m1, m2);
}

/// Order-independence of aggregation: snapshots holding the same files, fed
/// in any two orders, yield the same digest map and the same aggregate
/// digest, because the map re-sorts by path before the fold.
pub proof fn lemma_aggregate_order_independent(
    f1: Seq<FileInput>,
    f2: Seq<FileInput>,
    m1: Seq<(Seq<u8>, Seq<u8>)>,
    m2: Seq<(Seq<u8>, Seq<u8>)>,
)
    requires
        f1.to_multiset() == f2.to_multiset(),
        strict_sorted(m1),
        strict_sorted(m2),
        m1.to_multiset() == digest_entries(f1).to_multiset(),
        m2.to_multiset() == digest_entries(f2).to_multiset(),
    ensures
        m1 == m2,
        blake2_of(concat_digests(m1)) == blake2_of(concat_digests(m2)),
{
    lemma_digest_entries_permutation(f1, f2);
    lemma_strict_sorted_unique(m1, m2);
}

/// An empty snapshot's aggregate is the digest of the empty byte sequence.
pub proof fn lemma_empty_aggregate(m: Seq<(Seq<u8>, Seq<u8>)>)
    requires
        m.len() == 0,
    ensures
        blake2_of(concat_digests(m)) == blake2_of(Seq::<u8>::empty()),
{
    assert(concat_digests(m) == Seq::<u8>::empty());
}

/// A file's digest depends on its content alone: two files holding the same
/// bytes get the same digest, whatever their paths.
pub proof fn lemma_digest_depends_on_content(c1: Seq<u8>, c2: Seq<u8>)
    requires
        c1 == c2,
    ensures
        blake2_of(c1) == blake2_of(c2),
{
}

} // verus!
