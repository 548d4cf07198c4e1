// Tests of the fold-step decommitter and its boundary behaviour.

use stwo_vcs::fri::{compute_fri_decommit_outputs, compute_fri_layer_decommit_outputs, FriError,
    SecureEval};
use stwo_vcs::lifted::{lifted_commit, lifted_decommit};

fn se(a: u32) -> SecureEval {
    SecureEval { a, b: a + 1, c: a + 2, d: a + 3 }
}

fn column8() -> Vec<SecureEval> {
    (0..8u32).map(|i| se(10 * i)).collect()
}

#[test]
fn fold_groups_whole_subsets() {
    // Fold step 1 over eight evaluations, queries {2, 5}: subsets {2,3} and
    // {4,5}; unqueried members 3 and 4 join the witness.
    let column = column8();
    let out = compute_fri_decommit_outputs(&column, &vec![2, 5], 1).unwrap();
    assert_eq!(out.decommitment_positions, vec![2, 3, 4, 5]);
    assert_eq!(out.value_map_positions, vec![2, 3, 4, 5]);
    assert_eq!(out.witness_evals, vec![se(30), se(40)]);
    assert_eq!(out.value_map_values, vec![se(20), se(30), se(40), se(50)]);
}

// Fold step zero: exactly the queried positions are decommitted and no fold
// witness is needed.
#[test]
fn fold_step_zero_reveals_queries_only() {
    let column = column8();
    let out = compute_fri_decommit_outputs(&column, &vec![1, 4, 6], 0).unwrap();
    assert_eq!(out.decommitment_positions, vec![1, 4, 6]);
    assert!(out.witness_evals.is_empty());
    assert_eq!(out.value_map_values, vec![se(10), se(40), se(60)]);
}

// Fold step equal to the column's log-size: the whole column is one subset.
#[test]
fn fold_step_full_reveals_whole_column() {
    let column = column8();
    let out = compute_fri_decommit_outputs(&column, &vec![5], 3).unwrap();
    assert_eq!(out.decommitment_positions, (0..8usize).collect::<Vec<_>>());
    assert_eq!(out.value_map_values, column);
    assert_eq!(out.witness_evals.len(), 7);
}

#[test]
fn fold_step_too_large_rejected() {
    let column = column8();
    let r = compute_fri_decommit_outputs(&column, &vec![1], usize::BITS);
    assert_eq!(r.err(), Some(FriError::FoldStepTooLarge));
}

#[test]
fn fold_query_out_of_range_rejected() {
    let column = column8();
    let r = compute_fri_decommit_outputs(&column, &vec![1, 9], 0);
    assert_eq!(r.err(), Some(FriError::QueryOutOfRange));
}

#[test]
fn fold_subset_expansion_out_of_range_rejected() {
    // A fold step above the log-size expands the subset past the column.
    let column = column8();
    let r = compute_fri_decommit_outputs(&column, &vec![1], 4);
    assert_eq!(r.err(), Some(FriError::QueryOutOfRange));
}

#[test]
fn fold_layer_commitment_matches_lifted_tree() {
    // The fold-layer commitment is the lifted root over the four coordinate
    // columns, and its hash witness is the lifted decommitment for the
    // decommitted positions.
    let column = column8();
    let out = compute_fri_layer_decommit_outputs(&column, 3, &vec![2, 5], 1).unwrap();

    let c0: Vec<u32> = column.iter().map(|e| e.a).collect();
    let c1: Vec<u32> = column.iter().map(|e| e.b).collect();
    let c2: Vec<u32> = column.iter().map(|e| e.c).collect();
    let c3: Vec<u32> = column.iter().map(|e| e.d).collect();
    let tree = lifted_commit(vec![3, 3, 3, 3], vec![c0, c1, c2, c3]);
    assert_eq!(out.commitment, tree.root());

    let (_revealed, dec) = lifted_decommit(&tree, &out.decommitment_positions);
    assert_eq!(out.hash_witness, dec.hash_witness);
    assert_eq!(out.decommitment_positions, vec![2, 3, 4, 5]);
    assert_eq!(out.fri_witness, vec![se(30), se(40)]);
}

#[test]
fn fold_layer_errors_propagate() {
    let column = column8();
    let r = compute_fri_layer_decommit_outputs(&column, 3, &vec![1], usize::BITS);
    assert_eq!(r.err(), Some(FriError::FoldStepTooLarge));
    let r = compute_fri_layer_decommit_outputs(&column, 3, &vec![1, 9], 0);
    assert_eq!(r.err(), Some(FriError::QueryOutOfRange));
}
