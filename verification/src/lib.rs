//! Content fingerprints for a file tree: a digest per file, one deterministic
//! aggregate digest for the whole tree, and the groups of byte-identical
//! files.
//!
//! The library is the verified engine. It works on plain values — path byte
//! strings and file contents or per-file digests — and proves that its
//! results are canonical: whatever order per-file work finishes in, the
//! digest map, the aggregate digest and the duplicate groups come out the
//! same. Enumerating and reading the file system, and scheduling the per-file
//! work, are left to the caller.

pub mod digest_map;
pub mod dupes;
pub mod hashing;
pub mod hexenc;
pub mod path;
pub mod pipeline;
