// Tests of the fixture generators, the deterministic stream and the wire
// conversions.

use stwo_vcs::air_derive::generate_vectors;
use stwo_vcs::cases::{build_fri_decommit_cases, build_fri_layer_decommit_cases,
    build_vcs_base_case, build_vcs_lifted_base_case, build_vcs_lifted_verifier_cases,
    build_vcs_verifier_cases, generate_example_xor_is_first_vectors,
    generate_fri_decommit_vectors, generate_fri_layer_decommit_vectors,
    generate_vcs_lifted_prover_vectors, generate_vcs_lifted_verifier_vectors,
    generate_vcs_prover_vectors, generate_vcs_verifier_vectors, VectorCase};
use stwo_vcs::grouped::{grouped_verify, GroupedError};
use stwo_vcs::lifted::LiftedError;
use stwo_vcs::planner::next_decommitment_node_for_prover;
use stwo_vcs::rng::{fill_bytes, next_u64, sample_scalar_u128};
use stwo_vcs::wire::{blake_n_columns, blake_next_seed, blake_validate_statement, checked_pow2,
    plonk_statement_from_wire, plonk_statement_to_wire, poseidon_log_n_rows,
    poseidon_statement_from_wire, poseidon_statement_to_wire, prove_mode_from_str,
    prove_mode_to_str, wide_fibonacci_statement_from_wire, wide_fibonacci_statement_to_wire,
    xor_statement_from_wire, xor_statement_to_wire, BlakeStatement, PlonkStatement,
    PoseidonStatement, ProveMode, WideFibonacciStatement, XorStatement};

#[test]
fn xorshift_stream_is_deterministic() {
    let mut s1 = 0x243f_6a88_85a3_08d3u64;
    let mut s2 = 0x243f_6a88_85a3_08d3u64;
    let a = next_u64(&mut s1);
    let b = next_u64(&mut s2);
    assert_eq!(a, b);
    assert_eq!(s1, s2);
    assert_ne!(next_u64(&mut s1), a);
}

#[test]
fn fill_bytes_len_and_scalar() {
    let mut s = 7u64;
    let bytes = fill_bytes(&mut s, 13);
    assert_eq!(bytes.len(), 13);
    let mut s1 = 99u64;
    let mut s2 = 99u64;
    let hi = next_u64(&mut s1);
    let lo = next_u64(&mut s1);
    let scalar = sample_scalar_u128(&mut s2);
    assert_eq!(scalar, ((hi as u128) << 64) | (lo as u128));
}

#[test]
fn grouped_base_case_round_trips() {
    let mut s = 0x243f_6a88_85a3_08d3u64;
    let base = build_vcs_base_case(&mut s).unwrap();
    let r = grouped_verify(
        &base.root,
        &base.column_log_sizes,
        &base.queries_per_log_size,
        &base.queried_values,
        &base.decommitment,
    );
    assert_eq!(r, Ok(()));
}

#[test]
fn grouped_verifier_cases_verdicts() {
    let mut s = 1u64;
    let cases = build_vcs_verifier_cases(&mut s);
    assert!(cases.len() >= 3);
    for case in &cases {
        match case.case {
            VectorCase::Valid => assert_eq!(case.expected, Ok(())),
            VectorCase::RootMismatch => {
                assert_eq!(case.expected, Err(GroupedError::RootMismatch))
            },
            VectorCase::WitnessTooShort => assert!(case.expected.is_err()),
            VectorCase::WitnessTooLong => assert!(case.expected.is_err()),
            VectorCase::QueriedValuesTooShort => assert!(case.expected.is_err()),
            VectorCase::QueriedValuesTooLong => {
                assert_eq!(case.expected, Err(GroupedError::TooManyQueriedValues))
            },
            _ => panic!("unexpected grouped case"),
        }
    }
}

#[test]
fn lifted_verifier_cases_verdicts() {
    let mut s = 2u64;
    let cases = build_vcs_lifted_verifier_cases(&mut s);
    assert!(cases.len() >= 3);
    for case in &cases {
        match case.case {
            VectorCase::Valid => assert_eq!(case.expected, Ok(())),
            VectorCase::RootMismatch => {
                assert_eq!(case.expected, Err(LiftedError::RootMismatch))
            },
            VectorCase::WitnessTooShort => assert!(case.expected.is_err()),
            VectorCase::WitnessTooLong => {
                assert_eq!(case.expected, Err(LiftedError::WitnessTooLong))
            },
            VectorCase::QueriedValuesMismatch => {
                assert_eq!(case.expected, Err(LiftedError::RootMismatch))
            },
            _ => panic!("unexpected lifted case"),
        }
    }
}

#[test]
fn lifted_base_case_counts() {
    let mut s = 3u64;
    let base = build_vcs_lifted_base_case(&mut s).unwrap();
    assert_eq!(base.queried_values.len(), base.column_log_sizes.len());
    for col in &base.queried_values {
        assert_eq!(col.len(), base.query_positions.len());
    }
}

#[test]
fn generators_hit_requested_counts() {
    let mut s = 4u64;
    assert_eq!(generate_vcs_verifier_vectors(&mut s, 7).len(), 7);
    assert_eq!(generate_vcs_prover_vectors(&mut s, 2).len(), 2);
    assert_eq!(generate_vcs_lifted_verifier_vectors(&mut s, 6).len(), 6);
    assert_eq!(generate_vcs_lifted_prover_vectors(&mut s, 2).len(), 2);
    assert_eq!(generate_fri_decommit_vectors(&mut s, 5).len(), 5);
    assert_eq!(generate_fri_layer_decommit_vectors(&mut s, 4).len(), 4);
}

#[test]
fn fri_cases_cover_all_outcomes() {
    let mut s = 5u64;
    let cases = build_fri_decommit_cases(&mut s);
    assert_eq!(cases.len(), 3);
    assert_eq!(cases[0].case, VectorCase::Valid);
    assert_eq!(cases[0].expected, Ok(()));
    assert_eq!(cases[1].case, VectorCase::QueryOutOfRange);
    assert_eq!(
        cases[1].expected,
        Err(stwo_vcs::fri::FriError::QueryOutOfRange)
    );
    assert_eq!(cases[2].case, VectorCase::FoldStepTooLarge);
    assert_eq!(
        cases[2].expected,
        Err(stwo_vcs::fri::FriError::FoldStepTooLarge)
    );
    let layer_cases = build_fri_layer_decommit_cases(&mut s);
    assert_eq!(layer_cases.len(), 3);
    assert_eq!(layer_cases[0].expected, Ok(()));
    assert_eq!(layer_cases[0].commitment.len(), 32);
}

#[test]
fn xor_is_first_shape() {
    let mut s = 6u64;
    let vectors = generate_example_xor_is_first_vectors(&mut s, 5);
    assert_eq!(vectors.len(), 5);
    for v in &vectors {
        assert_eq!(v.values.len(), 1usize << v.log_size);
        assert_eq!(v.values[0], 1);
        assert!(v.values[1..].iter().all(|x| *x == 0));
    }
}

#[test]
fn mixed_row_updates_match_formulas() {
    let mut s = 0x7f4a_7c15_39de_2b11u64;
    let file = generate_vectors(&mut s, 4);
    assert_eq!(file.sample_count, 4);
    assert_eq!(file.mixed_row_updates.len(), 4);
    assert_eq!(file.invalid_shape_cases.len(), 2);
    for v in &file.mixed_row_updates {
        assert_eq!(v.initial_a.len(), v.len);
        for i in 0..v.len {
            assert_eq!(v.expected_a[i], v.initial_a[i] ^ (i as u32).wrapping_mul(7));
            assert_eq!(v.expected_b0[i], v.initial_b0[i].wrapping_add(i as u16));
            assert_eq!(
                v.expected_b1[i],
                v.initial_b1[i] ^ (i as u16).wrapping_mul(3).wrapping_add(1)
            );
        }
    }
    assert_eq!(file.invalid_shape_cases[0].b1_len, 7);
    assert_eq!(file.invalid_shape_cases[1].a_len, 4);
}

#[test]
fn planner_picks_smaller_head() {
    let prev = vec![4usize, 7];
    let layer = vec![3usize];
    // The parent of 4 is 2, smaller than the query 3.
    assert_eq!(next_decommitment_node_for_prover(&prev, 0, &layer, 0), Some(2));
    assert_eq!(next_decommitment_node_for_prover(&prev, 2, &layer, 0), Some(3));
    assert_eq!(next_decommitment_node_for_prover(&prev, 2, &layer, 1), None);
}

#[test]
fn wire_round_trips() {
    let xor = XorStatement { log_size: 5, log_step: 2, offset: 3 };
    let w = xor_statement_to_wire(xor).unwrap();
    assert_eq!(w.offset, 3);
    assert_eq!(xor_statement_from_wire(&w).unwrap(), xor);

    let wf = WideFibonacciStatement { log_n_rows: 5, sequence_len: 16 };
    let w = wide_fibonacci_statement_to_wire(wf);
    assert_eq!(wide_fibonacci_statement_from_wire(&w).unwrap(), wf);

    let plonk = PlonkStatement { log_n_rows: 5 };
    assert_eq!(
        plonk_statement_from_wire(&plonk_statement_to_wire(plonk)).unwrap(),
        plonk
    );

    let poseidon = PoseidonStatement { log_n_instances: 8 };
    assert_eq!(
        poseidon_statement_from_wire(&poseidon_statement_to_wire(poseidon)).unwrap(),
        poseidon
    );
}

#[test]
fn prove_mode_names() {
    assert_eq!(prove_mode_to_str(ProveMode::Prove), "prove");
    assert_eq!(prove_mode_to_str(ProveMode::ProveEx), "prove_ex");
    assert_eq!(prove_mode_from_str(&"prove".to_string()), Some(ProveMode::Prove));
    assert_eq!(prove_mode_from_str(&"prove_ex".to_string()), Some(ProveMode::ProveEx));
    assert_eq!(prove_mode_from_str(&"verify".to_string()), None);
}

#[test]
fn statement_validators() {
    assert_eq!(checked_pow2(4), Ok(16));
    assert!(checked_pow2(usize::BITS).is_err());

    assert_eq!(
        poseidon_log_n_rows(PoseidonStatement { log_n_instances: 8 }),
        Ok(5)
    );
    assert!(poseidon_log_n_rows(PoseidonStatement { log_n_instances: 2 }).is_err());
    assert!(poseidon_log_n_rows(PoseidonStatement { log_n_instances: 34 }).is_err());

    let good = BlakeStatement { log_n_rows: 5, n_rounds: 10 };
    assert_eq!(blake_validate_statement(good), Ok(()));
    assert_eq!(blake_n_columns(good), Ok(11520));
    assert!(blake_validate_statement(BlakeStatement { log_n_rows: 0, n_rounds: 10 }).is_err());
    assert!(blake_validate_statement(BlakeStatement { log_n_rows: 31, n_rounds: 10 }).is_err());
    assert!(blake_validate_statement(BlakeStatement { log_n_rows: 5, n_rounds: 0 }).is_err());

    assert_eq!(blake_next_seed(1), {
        let mut x = 1u64;
        x ^= x << 13;
        x ^= x >> 7;
        x ^= x << 17;
        x
    });
}
