// Round-trip, tamper and interoperability tests of the two Merkle layouts.

use std::collections::BTreeMap;

use stwo_vcs::grouped::{grouped_commit, grouped_decommit, grouped_verify, GroupedDecommitment,
    GroupedError};
use stwo_vcs::lifted::{lifted_commit, lifted_decommit, lifted_verify, LiftedDecommitment,
    LiftedError};

fn grouped_setup(
    sizes: Vec<u32>,
    columns: Vec<Vec<u32>>,
    queries: Vec<Vec<usize>>,
) -> (Vec<u8>, Vec<u32>, Vec<Vec<usize>>, Vec<u32>, GroupedDecommitment) {
    let tree = grouped_commit(sizes.clone(), columns);
    let root = tree.root();
    let (queried_values, decommitment) = grouped_decommit(&tree, &queries);
    (root, sizes, queries, queried_values, decommitment)
}

#[test]
fn grouped_round_trip_small() {
    let (root, sizes, queries, qv, dec) = grouped_setup(
        vec![1, 2],
        vec![vec![7, 9], vec![1, 2, 3, 4]],
        vec![vec![], vec![0], vec![2]],
    );
    let r = grouped_verify(&root, &sizes, &queries, &qv, &dec);
    assert_eq!(r, Ok(()));
}

#[test]
fn grouped_round_trip_many_columns() {
    let columns = vec![
        vec![5, 6],
        vec![10, 20, 30, 40],
        vec![11, 21, 31, 41],
        vec![1, 2, 3, 4, 5, 6, 7, 8],
    ];
    let sizes = vec![1, 2, 2, 3];
    let queries = vec![vec![], vec![1], vec![0, 3], vec![5]];
    let (root, sizes, queries, qv, dec) = grouped_setup(sizes, columns, queries);
    let r = grouped_verify(&root, &sizes, &queries, &qv, &dec);
    assert_eq!(r, Ok(()));
}

#[test]
fn grouped_root_flip_rejected() {
    let (root, sizes, queries, qv, dec) = grouped_setup(
        vec![1, 2],
        vec![vec![7, 9], vec![1, 2, 3, 4]],
        vec![vec![], vec![0], vec![2]],
    );
    let mut bad_root = root.clone();
    bad_root[0] ^= 1;
    let r = grouped_verify(&bad_root, &sizes, &queries, &qv, &dec);
    assert_eq!(r, Err(GroupedError::RootMismatch));
}

#[test]
fn grouped_witness_too_short() {
    let (root, sizes, queries, qv, mut dec) = grouped_setup(
        vec![1, 2],
        vec![vec![7, 9], vec![1, 2, 3, 4]],
        vec![vec![], vec![0], vec![2]],
    );
    assert!(!dec.hash_witness.is_empty());
    dec.hash_witness.pop();
    let r = grouped_verify(&root, &sizes, &queries, &qv, &dec);
    assert_eq!(r, Err(GroupedError::WitnessTooShort));
}

#[test]
fn grouped_witness_too_long() {
    let (root, sizes, queries, qv, mut dec) = grouped_setup(
        vec![1, 2],
        vec![vec![7, 9], vec![1, 2, 3, 4]],
        vec![vec![], vec![0], vec![2]],
    );
    dec.hash_witness.push(vec![0u8; 32]);
    let r = grouped_verify(&root, &sizes, &queries, &qv, &dec);
    assert_eq!(r, Err(GroupedError::WitnessTooLong));
}

#[test]
fn grouped_too_many_queried_values() {
    let (root, sizes, queries, mut qv, dec) = grouped_setup(
        vec![1, 2],
        vec![vec![7, 9], vec![1, 2, 3, 4]],
        vec![vec![], vec![0], vec![2]],
    );
    qv.push(0);
    let r = grouped_verify(&root, &sizes, &queries, &qv, &dec);
    assert_eq!(r, Err(GroupedError::TooManyQueriedValues));
}

// Grouped commitment over log-sizes 1 and 2, queries {0} at log-size 1 and
// {2} at log-size 2: dropping the log-size-1 query's value must be rejected
// as too few queried values.
#[test]
fn grouped_omitted_value_too_few() {
    let (root, sizes, queries, qv, dec) = grouped_setup(
        vec![1, 2],
        vec![vec![7, 9], vec![1, 2, 3, 4]],
        vec![vec![], vec![0], vec![2]],
    );
    // Traversal order: the log-size-2 layer first, the log-size-1 layer last,
    // so the log-size-1 query's value is the final entry.
    assert_eq!(qv.len(), 2);
    let mut short = qv.clone();
    short.pop();
    let r = grouped_verify(&root, &sizes, &queries, &short, &dec);
    assert_eq!(r, Err(GroupedError::TooFewQueriedValues));
}

#[test]
fn grouped_commit_idempotent() {
    let sizes = vec![1, 2];
    let cols = vec![vec![7, 9], vec![1, 2, 3, 4]];
    let t1 = grouped_commit(sizes.clone(), cols.clone());
    let t2 = grouped_commit(sizes, cols);
    assert_eq!(t1.root(), t2.root());
}

#[test]
fn grouped_matches_external_hasher() {
    // One column of log-size 1: the root must equal the digest the external
    // hasher computes directly.
    let tree = grouped_commit(vec![1], vec![vec![123, 456]]);
    let root = tree.root();
    let l0 = <stwo::core::vcs::blake2_merkle::Blake2sMerkleHasher as stwo::core::vcs::MerkleHasher>::hash_node(None, &[stwo::core::fields::m31::M31::from_u32_unchecked(123)]);
    let l1 = <stwo::core::vcs::blake2_merkle::Blake2sMerkleHasher as stwo::core::vcs::MerkleHasher>::hash_node(None, &[stwo::core::fields::m31::M31::from_u32_unchecked(456)]);
    let expected = <stwo::core::vcs::blake2_merkle::Blake2sMerkleHasher as stwo::core::vcs::MerkleHasher>::hash_node(Some((l0, l1)), &[]);
    assert_eq!(root, expected.0.to_vec());
}

#[test]
fn grouped_accepted_by_external_verifier() {
    let (root, sizes, queries, qv, dec) = grouped_setup(
        vec![1, 2],
        vec![vec![7, 9], vec![1, 2, 3, 4]],
        vec![vec![], vec![0], vec![2]],
    );
    let mut queries_map = BTreeMap::new();
    for (log_size, qs) in queries.iter().enumerate() {
        if !qs.is_empty() {
            queries_map.insert(log_size as u32, qs.clone());
        }
    }
    let external = stwo::core::vcs::verifier::MerkleVerifier::<stwo::core::vcs::blake2_merkle::Blake2sMerkleHasher>::new(
        stwo::core::vcs::blake2_hash::Blake2sHash::from(&root[..]),
        sizes.clone(),
    );
    let decommitment = stwo::core::vcs::verifier::MerkleDecommitment::<stwo::core::vcs::blake2_merkle::Blake2sMerkleHasher> {
        hash_witness: dec.hash_witness.iter().map(|d| stwo::core::vcs::blake2_hash::Blake2sHash::from(&d[..])).collect(),
        column_witness: dec
            .column_witness
            .iter()
            .map(|v| stwo::core::fields::m31::M31::from_u32_unchecked(*v))
            .collect(),
    };
    let values = qv.iter().map(|v| stwo::core::fields::m31::M31::from_u32_unchecked(*v)).collect();
    assert_eq!(external.verify(&queries_map, values, decommitment), Ok(()));
}

#[test]
fn lifted_round_trip_mixed_widths() {
    let sizes = vec![2, 1, 3];
    let cols = vec![
        vec![1, 2, 3, 4],
        vec![9, 8],
        vec![10, 11, 12, 13, 14, 15, 16, 17],
    ];
    let tree = lifted_commit(sizes.clone(), cols);
    let root = tree.root();
    let queries = vec![0usize, 5, 6];
    let (qv, dec) = lifted_decommit(&tree, &queries);
    let r = lifted_verify(&root, &sizes, &queries, &qv, &dec);
    assert_eq!(r, Ok(()));
}

// A single column of log-size 2 committed alone, querying position 1: the
// revealed values are exactly [b], and the hash witness starts with the
// digest of leaf 0; querying the full pair {0, 1} leaves no leaf-layer
// witness entry.
#[test]
fn lifted_single_column_pair_scenario() {
    let (a, b, c, d) = (11u32, 22u32, 33u32, 44u32);
    let tree = lifted_commit(vec![2], vec![vec![a, b, c, d]]);
    let root = tree.root();

    // Query {1} alone: reveal b, witness the sibling leaf 0 first.
    let queries = vec![1usize];
    let (qv, dec) = lifted_decommit(&tree, &queries);
    assert_eq!(qv, vec![vec![b]]);
    assert_eq!(dec.hash_witness.len(), 2);
    assert_eq!(dec.hash_witness[0], tree.layers[2][0]);
    assert_eq!(lifted_verify(&root, &vec![2], &queries, &qv, &dec), Ok(()));

    // Query the full pair {0, 1}: no leaf-layer witness is needed.
    let queries = vec![0usize, 1];
    let (qv, dec) = lifted_decommit(&tree, &queries);
    assert_eq!(qv, vec![vec![a, b]]);
    assert_eq!(dec.hash_witness.len(), 1);
    assert_eq!(dec.hash_witness[0], tree.layers[1][1]);
    assert_eq!(lifted_verify(&root, &vec![2], &queries, &qv, &dec), Ok(()));
}

#[test]
fn lifted_root_flip_rejected() {
    let tree = lifted_commit(vec![2], vec![vec![1, 2, 3, 4]]);
    let root = tree.root();
    let queries = vec![1usize];
    let (qv, dec) = lifted_decommit(&tree, &queries);
    let mut bad = root.clone();
    bad[31] ^= 0x80;
    assert_eq!(
        lifted_verify(&bad, &vec![2], &queries, &qv, &dec),
        Err(LiftedError::RootMismatch)
    );
}

#[test]
fn lifted_witness_too_short_and_long() {
    let tree = lifted_commit(vec![2], vec![vec![1, 2, 3, 4]]);
    let root = tree.root();
    let queries = vec![1usize];
    let (qv, dec) = lifted_decommit(&tree, &queries);

    let mut short = LiftedDecommitment { hash_witness: dec.hash_witness.clone() };
    short.hash_witness.pop();
    assert_eq!(
        lifted_verify(&root, &vec![2], &queries, &qv, &short),
        Err(LiftedError::WitnessTooShort)
    );

    let mut long = LiftedDecommitment { hash_witness: dec.hash_witness.clone() };
    long.hash_witness.push(vec![0u8; 32]);
    assert_eq!(
        lifted_verify(&root, &vec![2], &queries, &qv, &long),
        Err(LiftedError::WitnessTooLong)
    );
}

#[test]
fn lifted_commit_idempotent() {
    let sizes = vec![1, 2];
    let cols = vec![vec![3, 4], vec![5, 6, 7, 8]];
    let t1 = lifted_commit(sizes.clone(), cols.clone());
    let t2 = lifted_commit(sizes, cols);
    assert_eq!(t1.root(), t2.root());
}

#[test]
fn lifted_leaf_matches_external_hasher() {
    // Two columns, log-sizes 1 and 2: leaf 0 absorbs the narrow column's
    // value 30 and the wide column's value 1.
    let tree = lifted_commit(vec![2, 1], vec![vec![1, 2, 3, 4], vec![30, 40]]);
    let mut h = stwo::core::vcs_lifted::blake2_merkle::Blake2sMerkleHasher::default();
    stwo::core::vcs_lifted::MerkleHasherLifted::update_leaf(&mut h, &[stwo::core::fields::m31::M31::from_u32_unchecked(30), stwo::core::fields::m31::M31::from_u32_unchecked(1)]);
    let leaf0 = stwo::core::vcs_lifted::MerkleHasherLifted::finalize(h);
    assert_eq!(tree.layers[2][0], leaf0.0.to_vec());
}

#[test]
fn lifted_accepted_by_external_verifier() {
    let sizes = vec![2u32, 1];
    let tree = lifted_commit(sizes.clone(), vec![vec![1, 2, 3, 4], vec![30, 40]]);
    let root = tree.root();
    let queries = vec![1usize, 2];
    let (qv, dec) = lifted_decommit(&tree, &queries);
    assert_eq!(lifted_verify(&root, &sizes, &queries, &qv, &dec), Ok(()));

    let external = stwo::core::vcs_lifted::verifier::MerkleVerifierLifted::<stwo::core::vcs_lifted::blake2_merkle::Blake2sMerkleHasher>::new(
        stwo::core::vcs::blake2_hash::Blake2sHash::from(&root[..]),
        sizes,
        None,
    );
    let values: Vec<Vec<stwo::core::fields::m31::M31>> = qv
        .iter()
        .map(|col| col.iter().map(|v| stwo::core::fields::m31::M31::from_u32_unchecked(*v)).collect())
        .collect();
    let decommitment = stwo::core::vcs_lifted::verifier::MerkleDecommitmentLifted::<stwo::core::vcs_lifted::blake2_merkle::Blake2sMerkleHasher> {
        hash_witness: dec.hash_witness.iter().map(|d| stwo::core::vcs::blake2_hash::Blake2sHash::from(&d[..])).collect(),
    };
    assert_eq!(external.verify(&queries, values, decommitment), Ok(()));
}

#[test]
fn digest_helpers() {
    let a = vec![1u8, 2, 3];
    let b = vec![1u8, 2, 3];
    let c = vec![1u8, 2, 4];
    assert!(stwo_vcs::hashing::digests_equal(&a, &b));
    assert!(!stwo_vcs::hashing::digests_equal(&a, &c));
    let flipped = stwo_vcs::cases::flip_first_bit(&a);
    assert_ne!(flipped, a);
    assert_eq!(flipped[1..], a[1..]);
}

#[test]
fn grouped_value_flip_rejected() {
    let (root, sizes, queries, mut qv, dec) = grouped_setup(
        vec![1, 2],
        vec![vec![7, 9], vec![1, 2, 3, 4]],
        vec![vec![], vec![0], vec![2]],
    );
    qv[0] ^= 1;
    let r = grouped_verify(&root, &sizes, &queries, &qv, &dec);
    assert_eq!(r, Err(GroupedError::RootMismatch));
}

#[test]
fn grouped_witness_entry_flip_rejected() {
    let (root, sizes, queries, qv, mut dec) = grouped_setup(
        vec![1, 2],
        vec![vec![7, 9], vec![1, 2, 3, 4]],
        vec![vec![], vec![0], vec![2]],
    );
    assert!(!dec.hash_witness.is_empty());
    dec.hash_witness[0][5] ^= 1;
    let r = grouped_verify(&root, &sizes, &queries, &qv, &dec);
    assert_eq!(r, Err(GroupedError::RootMismatch));
}

#[test]
fn lifted_witness_entry_flip_rejected() {
    let tree = lifted_commit(vec![2], vec![vec![1, 2, 3, 4]]);
    let root = tree.root();
    let queries = vec![1usize];
    let (qv, mut dec) = lifted_decommit(&tree, &queries);
    dec.hash_witness[0][0] ^= 1;
    assert_eq!(
        lifted_verify(&root, &vec![2], &queries, &qv, &dec),
        Err(LiftedError::RootMismatch)
    );
}

#[test]
fn lifted_value_flip_rejected() {
    let tree = lifted_commit(vec![2], vec![vec![1, 2, 3, 4]]);
    let root = tree.root();
    let queries = vec![1usize];
    let (mut qv, dec) = lifted_decommit(&tree, &queries);
    qv[0][0] ^= 1;
    assert_eq!(
        lifted_verify(&root, &vec![2], &queries, &qv, &dec),
        Err(LiftedError::RootMismatch)
    );
}

// A zero-column lifted commitment: the root is the digest of the hash
// primitive's empty initial state, and the verifier accepts it vacuously.
#[test]
fn lifted_zero_columns_commitment() {
    let tree = lifted_commit(Vec::new(), Vec::new());
    let root = tree.root();
    let mut h = stwo::core::vcs_lifted::blake2_merkle::Blake2sMerkleHasher::default();
    stwo::core::vcs_lifted::MerkleHasherLifted::update_leaf(&mut h, &[]);
    let expected = stwo::core::vcs_lifted::MerkleHasherLifted::finalize(h);
    assert_eq!(root, expected.0.to_vec());
    let r = lifted_verify(
        &root,
        &Vec::new(),
        &Vec::new(),
        &Vec::new(),
        &LiftedDecommitment { hash_witness: Vec::new() },
    );
    assert_eq!(r, Ok(()));
}
