//! File paths as byte strings with a total lexicographic order.
//!
//! Every map in this crate is iterated in this order, which is what makes the
//! aggregate digest of a tree independent of the order in which per-file
//! results arrive.

use vstd::prelude::*;

verus! {

/// An identifier for a regular file: the bytes of its textual form.
pub struct FilePath {
    bytes: Vec<u8>,
}

impl View for FilePath {
    type V = Seq<u8>;

    closed spec fn view(&self) -> Seq<u8> {
        self.bytes@
    }
}

/// Lexicographic order on byte strings: a proper prefix comes first, otherwise
/// the first differing byte decides.
pub open spec fn lex_lt(a: Seq<u8>, b: Seq<u8>) -> bool
    decreases a.len(),
{
    if b.len() == 0 {
        false
    } else if a.len() == 0 {
        true
    } else if a[0] != b[0] {
        a[0] < b[0]
    } else {
        lex_lt(a.skip(1), b.skip(1))
    }
}

/// Any two byte strings are related by `lex_lt` one way or the other, or equal.
pub proof fn lemma_lex_lt_connected(a: Seq<u8>, b: Seq<u8>)
    ensures
        lex_lt(a, b) || lex_lt(b, a) || a == b,
    decreases a.len(),
{
    if a.len() == 0 && b.len() == 0 {
        assert(a =~= b);
    } else if a.len() > 0 && b.len() > 0 && a[0] == b[0] {
        lemma_lex_lt_connected(a.skip(1), b.skip(1));
        if !lex_lt(a, b) && !lex_lt(b, a) {
            assert(a.skip(1) == b.skip(1));
            assert(a =~= b) by {
                assert(forall|i: int|
                    1 <= i < a.len() ==> a[i] == a.skip(1)[i - 1] && b[i] == b.skip(1)[i - 1]);
            }
        }
    }
}

/// `lex_lt` cannot hold in both directions at once.
pub proof fn lemma_lex_lt_asymmetric(a: Seq<u8>, b: Seq<u8>)
    ensures
        !(lex_lt(a, b) && lex_lt(b, a)),
    decreases a.len(),
{
    if a.len() > 0 && b.len() > 0 && a[0] == b[0] {
        lemma_lex_lt_asymmetric(a.skip(1), b.skip(1));
    }
}

/// `lex_lt` is transitive.
pub proof fn lemma_lex_lt_transitive(a: Seq<u8>, b: Seq<u8>, c: Seq<u8>)
    requires
        lex_lt(a, b),
        lex_lt(b, c),
    ensures
        lex_lt(a, c),
    decreases a.len(),
{
    if a.len() > 0 && b.len() > 0 && c.len() > 0 && a[0] == b[0] && b[0] == c[0] {
        lemma_lex_lt_transitive(a.skip(1), b.skip(1), c.skip(1));
    }
}

/// Dropping a common prefix of length `i` does not change how two byte
/// strings compare.
proof fn lemma_lex_lt_common_prefix(a: Seq<u8>, b: Seq<u8>, i: int)
    requires
        0 <= i <= a.len(),
        i <= b.len(),
        forall|j: int| 0 <= j < i ==> a[j] == b[j],
    ensures
        lex_lt(a, b) == lex_lt(a.skip(i), b.skip(i)),
    decreases i,
{
    if i > 0 {
        assert(a[0] == b[0]);
        assert(a.len() > 0 && b.len() > 0);
        assert(forall|j: int| 0 <= j < i - 1 ==> a.skip(1)[j] == a[j + 1] && b.skip(1)[j] == b[j
            + 1]);
        lemma_lex_lt_common_prefix(a.skip(1), b.skip(1), i - 1);
        assert(a.skip(1).skip(i - 1) =~= a.skip(i));
        assert(b.skip(1).skip(i - 1) =~= b.skip(i));
        assert(lex_lt(a, b) == lex_lt(a.skip(1), b.skip(1)));
    } else {
        assert(a.skip(0) =~= a);
        assert(b.skip(0) =~= b);
    }
}

impl FilePath {
    /// Wraps the bytes of a path's textual form.
    pub fn new(bytes: Vec<u8>) -> (p: FilePath)
        ensures
            p@ == bytes@,
    {
        FilePath { bytes }
    }

    /// The bytes this path was built from.
    pub fn as_bytes(&self) -> (b: &Vec<u8>)
        ensures
            b@ == self@,
    {
        &self.bytes
    }

    /// Decides the lexicographic order between two paths.
    pub fn lt(&self, other: &FilePath) -> (r: bool)
        ensures
            r == lex_lt(self@, other@),
    {
        proof {
            assert(self@ == self.bytes@);
            assert(other@ == other.bytes@);
        }
        let a = &self.bytes;
        let b = &other.bytes;
        let n: usize = if a.len() < b.len() {
            a.len()
        } else {
            b.len()
        };
        let mut i: usize = 0;
        while i < n
            invariant
                a@ == self@,
                b@ == other@,
                n <= a@.len(),
                n <= b@.len(),
                n == a@.len() || n == b@.len(),
                i <= n,
                forall|j: int| 0 <= j < i ==> a@[j] == b@[j],
            decreases n - i,
        {
            let x = a[i];
            let y = b[i];
            if x != y {
                proof {
                    lemma_lex_lt_common_prefix(a@, b@, i as int);
                    assert(a@.skip(i as int).len() == a@.len() - i);
                    assert(b@.skip(i as int).len() == b@.len() - i);
                    assert(a@.skip(i as int)[0] == a@[i as int]);
                    assert(b@.skip(i as int)[0] == b@[i as int]);
                    assert(lex_lt(a@.skip(i as int), b@.skip(i as int)) == (a@[i as int] < b@[
                        i as int]));
                }
                return x < y;
            }
            i += 1;
        }
        proof {
            lemma_lex_lt_common_prefix(a@, b@, n as int);
            assert(a@.skip(n as int).len() == a@.len() - n);
            assert(b@.skip(n as int).len() == b@.len() - n);
        }
        a.len() < b.len()
    }

    /// A fresh path holding the same bytes.
    pub fn duplicate(&self) -> (p: FilePath)
        ensures
            p@ == self@,
    {
        FilePath { bytes: copy_bytes(&self.bytes) }
    }

    /// Decides whether two paths are the same byte string.
    pub fn same_as(&self, other: &FilePath) -> (r: bool)
        ensures
            r == (self@ == other@),
    {
        bytes_eq(&self.bytes, &other.bytes)
    }
}

/// The byte strings of a sequence of paths.
pub open spec fn paths_of(s: Seq<FilePath>) -> Seq<Seq<u8>> {
    s.map_values(|p: FilePath| p@)
}

/// A fresh vector holding the same bytes.
pub fn copy_bytes(v: &Vec<u8>) -> (r: Vec<u8>)
    ensures
        r@ == v@,
{
    vstd::slice::slice_to_vec(v.as_slice())
}

/// Decides equality of two byte vectors.
pub fn bytes_eq(a: &Vec<u8>, b: &Vec<u8>) -> (r: bool)
    ensures
        r == (a@ == b@),
{
    if a.len() != b.len() {
        proof {
            assert(a@.len() != b@.len());
        }
        return false;
    }
    let mut i: usize = 0;
    while i < a.len()
        invariant
            a@.len() == b@.len(),
            i <= a@.len(),
            forall|j: int| 0 <= j < i ==> a@[j] == b@[j],
        decreases a@.len() - i,
    {
        if a[i] != b[i] {
            return false;
        }
        i += 1;
    }
    proof {
        assert(a@ =~= b@);
    }
    true
}

} // verus!
