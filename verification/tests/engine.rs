use blake2::{Blake2b, Digest};
use rayon::iter::{IntoParallelRefIterator, ParallelIterator};
use hashtree::digest_map::DigestMap;
use hashtree::dupes::find_duplicates;
use hashtree::hashing::{hash_bytes, StreamingHasher};
use hashtree::path::FilePath;
use hashtree::pipeline::{
    build_file_tree, calculate_hashes, collect_digests, merge_hashes, print_hashes, run_pipeline,
    FileInput, HashResult, PipelineError,
};

fn fp(s: &str) -> FilePath {
    FilePath::new(s.as_bytes().to_vec())
}

fn fi(path: &str, content: &[u8]) -> FileInput {
    FileInput { path: fp(path), content: content.to_vec() }
}

fn reference_digest(data: &[u8]) -> Vec<u8> {
    let mut h = Blake2b::new();
    h.update(data);
    h.finalize().to_vec()
}

#[test]
fn find_common() {
    let shared = "48656c6c6f20776f726c6421".as_bytes().to_vec();
    let mut m = DigestMap::new();
    m.insert(fp("hello"), shared.clone());
    m.insert(fp("hello_world"), shared.clone());
    m.insert(fp("Hello, world!"), shared.clone());
    let groups = find_duplicates(&m);
    assert_eq!(groups.len(), 1);
    assert_eq!(groups[0].digest, shared);
    let names: Vec<&[u8]> = groups[0].paths.iter().map(|p| p.as_bytes().as_slice()).collect();
    assert_eq!(
        names,
        vec![
            "Hello, world!".as_bytes(),
            "hello".as_bytes(),
            "hello_world".as_bytes()
        ]
    );
}

#[test]
fn hash_matches_primitive() {
    let data = b"Hello, world!";
    assert_eq!(hash_bytes(data), reference_digest(data));
}

#[test]
fn hash_large_input_in_chunks() {
    let data: Vec<u8> = (0..5000u32).map(|i| (i % 251) as u8).collect();
    assert_eq!(hash_bytes(&data), reference_digest(&data));
}

#[test]
fn streaming_matches_one_shot() {
    let mut h = StreamingHasher::new();
    h.update(b"Hello, ");
    h.update(b"world!");
    assert_eq!(h.finalize(), reference_digest(b"Hello, world!"));
}

#[test]
fn empty_content_digest() {
    assert_eq!(hash_bytes(&[]), reference_digest(b""));
}

#[test]
fn empty_tree_aggregate() {
    let out = run_pipeline(&Vec::new());
    assert_eq!(out.digest_map.len(), 0);
    assert_eq!(out.aggregate, reference_digest(b""));
}

#[test]
fn deterministic_across_input_orders() {
    let a = || fi("a.txt", b"alpha");
    let b = || fi("b.txt", b"beta");
    let c = || fi("c.txt", b"gamma");
    let out1 = run_pipeline(&vec![a(), b(), c()]);
    let out2 = run_pipeline(&vec![c(), a(), b()]);
    let out3 = run_pipeline(&vec![b(), c(), a()]);
    assert_eq!(out1.aggregate, out2.aggregate);
    assert_eq!(out2.aggregate, out3.aggregate);
    assert_eq!(out1.digest_map.len(), 3);
    for i in 0..3 {
        assert_eq!(out1.digest_map.path_at(i).as_bytes(), out2.digest_map.path_at(i).as_bytes());
        assert_eq!(out1.digest_map.digest_at(i), out2.digest_map.digest_at(i));
    }
}

#[test]
fn deterministic_across_pool_sizes() {
    let files: Vec<(String, Vec<u8>)> =
        (0..20u8).map(|i| (format!("file{:02}", i), vec![i; 100])).collect();
    let mut aggregates = Vec::new();
    for threads in [1usize, 2, 8] {
        let pool = rayon::ThreadPoolBuilder::new()
            .num_threads(threads)
            .build()
            .unwrap_or_else(|_| panic!("pool construction failed"));
        let results: Vec<HashResult> = pool.install(|| {
            files
                .par_iter()
                .map(|(p, c)| HashResult {
                    path: FilePath::new(p.as_bytes().to_vec()),
                    digest: Some(hash_bytes(c)),
                })
                .collect()
        });
        let m = collect_digests(&results).unwrap_or_else(|_| panic!("hashing failed"));
        aggregates.push(merge_hashes(&m));
    }
    assert_eq!(aggregates[0], aggregates[1]);
    assert_eq!(aggregates[1], aggregates[2]);
}

#[test]
fn aggregation_order_independent() {
    let m1 = calculate_hashes(&vec![fi("x", b"1"), fi("y", b"2")]);
    let m2 = calculate_hashes(&vec![fi("y", b"2"), fi("x", b"1")]);
    assert_eq!(merge_hashes(&m1), merge_hashes(&m2));
}

#[test]
fn aggregate_is_digest_of_sorted_digests() {
    let out = run_pipeline(&vec![fi("b", b"second"), fi("a", b"first")]);
    let mut folded = Vec::new();
    folded.extend_from_slice(&reference_digest(b"first"));
    folded.extend_from_slice(&reference_digest(b"second"));
    assert_eq!(out.aggregate, reference_digest(&folded));
}

#[test]
fn duplicate_grouping() {
    let files = vec![
        fi("one.txt", b"Hello, world!"),
        fi("two.txt", b"Hello, world!"),
        fi("three.txt", b"Hello, world!"),
        fi("other.txt", b"something else"),
    ];
    let m = calculate_hashes(&files);
    let groups = find_duplicates(&m);
    assert_eq!(groups.len(), 1);
    assert_eq!(groups[0].digest, reference_digest(b"Hello, world!"));
    let names: Vec<&[u8]> = groups[0].paths.iter().map(|p| p.as_bytes().as_slice()).collect();
    assert_eq!(
        names,
        vec![
            "one.txt".as_bytes(),
            "three.txt".as_bytes(),
            "two.txt".as_bytes()
        ]
    );
}

#[test]
fn unique_digests_give_no_groups() {
    let m = calculate_hashes(&vec![fi("a", b"one"), fi("b", b"two")]);
    assert!(find_duplicates(&m).is_empty());
}

#[test]
fn single_file_root() {
    let out = run_pipeline(&vec![fi("only.bin", b"payload")]);
    assert_eq!(out.digest_map.len(), 1);
    assert_eq!(out.digest_map.path_at(0).as_bytes().as_slice(), "only.bin".as_bytes());
    assert_eq!(out.digest_map.digest_at(0), &reference_digest(b"payload"));
}

#[test]
fn failure_atomicity() {
    let results = vec![
        HashResult { path: fp("a"), digest: Some(reference_digest(b"a")) },
        HashResult { path: fp("b"), digest: None },
        HashResult { path: fp("c"), digest: Some(reference_digest(b"c")) },
    ];
    match collect_digests(&results) {
        Err(PipelineError::IoError(p)) => {
            assert_eq!(p.as_bytes().as_slice(), "b".as_bytes());
        }
        _ => panic!("one unreadable file must fail the whole computation"),
    }
}

#[test]
fn all_successes_are_collected() {
    let results = vec![
        HashResult { path: fp("b"), digest: Some(reference_digest(b"2")) },
        HashResult { path: fp("a"), digest: Some(reference_digest(b"1")) },
    ];
    let m = collect_digests(&results).unwrap_or_else(|_| panic!("no failure was reported"));
    assert_eq!(m.len(), 2);
    assert_eq!(m.path_at(0).as_bytes().as_slice(), "a".as_bytes());
    assert_eq!(m.digest_at(0), &reference_digest(b"1"));
    assert_eq!(m.path_at(1).as_bytes().as_slice(), "b".as_bytes());
    assert_eq!(m.digest_at(1), &reference_digest(b"2"));
}

#[test]
fn round_trip_same_content_same_digest() {
    let content = b"identical bytes";
    let m = calculate_hashes(&vec![fi("first/copy", content), fi("second/copy", content)]);
    assert_eq!(m.digest_at(0), m.digest_at(1));

    let mut longer = content.to_vec();
    longer.push(b'!');
    assert_ne!(hash_bytes(content), hash_bytes(&longer));
}

#[test]
fn hex_rendering() {
    let mut m = DigestMap::new();
    m.insert(fp("f"), vec![0u8, 255u8, 16u8]);
    let rendered = print_hashes(&m);
    assert_eq!(rendered.len(), 1);
    assert_eq!(rendered[0].path.as_bytes().as_slice(), "f".as_bytes());
    assert_eq!(rendered[0].hex, "00ff10");
}

#[test]
fn hex_matches_reference_encoder() {
    let m = calculate_hashes(&vec![fi("a", b"abc")]);
    let rendered = print_hashes(&m);
    assert_eq!(rendered[0].hex, hex::encode(reference_digest(b"abc")));
}

#[test]
fn tree_merges_and_sorts_paths() {
    let input = vec![fp("b"), fp("a"), fp("b"), fp("c"), fp("a")];
    let tree = build_file_tree(&input);
    let names: Vec<&[u8]> = tree.iter().map(|p| p.as_bytes().as_slice()).collect();
    assert_eq!(names, vec!["a".as_bytes(), "b".as_bytes(), "c".as_bytes()]);
}

#[test]
fn path_order_is_lexicographic() {
    let tree = build_file_tree(&vec![fp("ab"), fp("a"), fp("Z")]);
    let names: Vec<&[u8]> = tree.iter().map(|p| p.as_bytes().as_slice()).collect();
    assert_eq!(names, vec!["Z".as_bytes(), "a".as_bytes(), "ab".as_bytes()]);
}
