//! Fold-step decommitment for a FRI-style protocol.
//!
//! A column of secure-field evaluations (4-tuples of base-field coordinates)
//! is queried at a set of positions.  The fold step `f` groups positions into
//! subsets sharing `position >> f`; every position of a touched subset is
//! decommitted, and the evaluations of the unqueried subset members form the
//! fold witness.  The full position set then drives a lifted-layout Merkle
//! decommitment over the column's four coordinate columns.

use vstd::prelude::*;

use vstd::arithmetic::power2::pow2;

use crate::planner::contains_idx;
use crate::planner::seq_contains;
use crate::planner::strictly_sorted;

verus! {

/// One secure-field evaluation: four base-field coordinates.
#[derive(Clone, Copy, Debug, PartialEq, Eq, Structural)]
pub struct SecureEval {
    /// First coordinate.
    pub a: u32,
    /// Second coordinate.
    pub b: u32,
    /// Third coordinate.
    pub c: u32,
    /// Fourth coordinate.
    pub d: u32,
}

/// The ways a fold-step decommitment is rejected.
#[derive(Clone, Copy, Debug, PartialEq, Eq, Structural)]
pub enum FriError {
    /// The fold step cannot be used as a shift of a native index.
    FoldStepTooLarge,
    /// A queried or subset-expanded position lies outside the column.
    QueryOutOfRange,
}

/// The fold subset key of a position: the position shifted right by the fold
/// step.
pub open spec fn fold_key(q: usize, f: u32) -> nat {
    q as nat / pow2(f as nat)
}

/// The length of the leading run of queries sharing the first query's fold
/// key.
pub open spec fn run_count(queries: Seq<usize>, f: u32) -> nat
    decreases queries.len(),
{
    if queries.len() == 0 {
        0
    } else if queries.len() >= 2 && fold_key(queries[1], f) == fold_key(queries[0], f) {
        1 + run_count(queries.skip(1), f)
    } else {
        1
    }
}

/// Walks the positions `start .. start + count` of one fold subset in
/// increasing order: every position is decommitted and its evaluation
/// recorded; a position not in the query set `allq` also joins the fold
/// witness.  A position outside the column rejects the walk.
pub open spec fn range_walk(
    column: Seq<SecureEval>,
    allq: Seq<usize>,
    start: nat,
    count: nat,
) -> Result<(Seq<usize>, Seq<SecureEval>, Seq<SecureEval>), FriError>
    decreases count,
{
    if count == 0 {
        Ok((Seq::empty(), Seq::empty(), Seq::empty()))
    } else {
        match range_walk(column, allq, start, (count - 1) as nat) {
            Err(e) => Err(e),
            Ok((ps, ws, vs)) => {
                let position = start + count - 1;
                if position >= column.len() {
                    Err(FriError::QueryOutOfRange)
                } else {
                    let eval = column[position as int];
                    Ok(
                        (
                            ps.push(position as usize),
                            if contains_idx(allq, position as int) {
                                ws
                            } else {
                                ws.push(eval)
                            },
                            vs.push(eval),
                        ),
                    )
                }
            },
        }
    }
}

/// Walks every fold subset touched by the remaining queries, in increasing
/// order, concatenating the per-subset outputs: the decommitted positions,
/// the fold witness and the evaluations of all decommitted positions.  `allq`
/// is the full query set, against which positions are classified.
pub open spec fn fri_walk(
    column: Seq<SecureEval>,
    allq: Seq<usize>,
    queries: Seq<usize>,
    f: u32,
) -> Result<(Seq<usize>, Seq<SecureEval>, Seq<SecureEval>), FriError>
    decreases queries.len(),
        via fri_walk_decreases
{
    if queries.len() == 0 {
        Ok((Seq::empty(), Seq::empty(), Seq::empty()))
    } else {
        let rc = run_count(queries, f);
        let key = fold_key(queries[0], f);
        match range_walk(column, allq, key * pow2(f as nat), pow2(f as nat)) {
            Err(e) => Err(e),
            Ok((ps, ws, vs)) => match fri_walk(column, allq, queries.skip(rc as int), f) {
                Err(e) => Err(e),
                Ok((ps2, ws2, vs2)) => Ok((ps + ps2, ws + ws2, vs + vs2)),
            },
        }
    }
}

/// A nonempty query list has a leading run of between one query and all of
/// them.
pub proof fn lemma_run_count_bounds(queries: Seq<usize>, f: u32)
    ensures
        queries.len() > 0 ==> 1 <= run_count(queries, f) <= queries.len(),
    decreases queries.len(),
{
    if queries.len() >= 2 && fold_key(queries[1], f) == fold_key(queries[0], f) {
        lemma_run_count_bounds(queries.skip(1), f);
    }
}

#[via_fn]
proof fn fri_walk_decreases(column: Seq<SecureEval>, allq: Seq<usize>, queries: Seq<usize>, f: u32) {
    lemma_run_count_bounds(queries, f);
}

/// The outcome of a fold-step decommitment walk: the walk over the subsets,
/// unless the fold step itself is unusable as a shift.
pub open spec fn fri_decommit_spec(column: Seq<SecureEval>, queries: Seq<usize>, f: u32) -> Result<
    (Seq<usize>, Seq<SecureEval>, Seq<SecureEval>),
    FriError,
> {
    if f >= usize::BITS {
        Err(FriError::FoldStepTooLarge)
    } else {
        fri_walk(column, queries, queries, f)
    }
}

/// A leading same-key run of length `m` is exactly what [`run_count`] finds.
pub proof fn lemma_run_count(queries: Seq<usize>, f: u32, m: nat)
    requires
        0 < m <= queries.len(),
        forall|j: int| 0 <= j < m ==> fold_key(#[trigger] queries[j], f) == fold_key(queries[0], f),
        m == queries.len() || fold_key(queries[m as int], f) != fold_key(queries[0], f),
    ensures
        run_count(queries, f) == m,
    decreases m,
{
    if m == 1 {
        if queries.len() >= 2 {
            assert(fold_key(queries[1], f) != fold_key(queries[0], f));
        }
    } else {
        let rest = queries.skip(1);
        assert(forall|j: int| 0 <= j < rest.len() ==> rest[j] == queries[j + 1]);
        lemma_run_count(rest, f, (m - 1) as nat);
    }
}

/// Once a prefix of a subset walk fails, the whole subset walk fails.
pub proof fn lemma_range_walk_err(
    column: Seq<SecureEval>,
    allq: Seq<usize>,
    start: nat,
    count: nat,
    full: nat,
    e: FriError,
)
    requires
        count <= full,
        range_walk(column, allq, start, count) == Err::<
            (Seq<usize>, Seq<SecureEval>, Seq<SecureEval>),
            FriError,
        >(e),
    ensures
        range_walk(column, allq, start, full) == Err::<
            (Seq<usize>, Seq<SecureEval>, Seq<SecureEval>),
            FriError,
        >(e),
    decreases full - count,
{
    if count < full {
        lemma_range_walk_err(column, allq, start, count + 1, full, e);
    }
}

/// The decommitment data of one fold-step walk.
pub struct FriDecommitOutputs {
    /// Every position of every touched subset, in increasing order.
    pub decommitment_positions: Vec<usize>,
    /// The evaluations of the unqueried subset members, in position order.
    pub witness_evals: Vec<SecureEval>,
    /// The positions of the recorded evaluations (one per decommitted
    /// position).
    pub value_map_positions: Vec<usize>,
    /// The recorded evaluations, in position order.
    pub value_map_values: Vec<SecureEval>,
}

/// Classifies every position of every fold subset touched by the queries:
/// queried positions are revealed, the rest join the fold witness, and all of
/// them are decommitted.  Rejects a fold step no native shift can express and
/// any subset that leaves the column.
#[verifier::spinoff_prover]
pub fn compute_fri_decommit_outputs(
    column: &Vec<SecureEval>,
    query_positions: &Vec<usize>,
    fold_step: u32,
) -> (r: Result<FriDecommitOutputs, FriError>)
    requires
        strictly_sorted(query_positions@),
    ensures
        match fri_decommit_spec(column@, query_positions@, fold_step) {
            Ok((ps, ws, vs)) => {
                &&& r is Ok
                &&& r->Ok_0.decommitment_positions@ == ps
                &&& r->Ok_0.witness_evals@ == ws
                &&& r->Ok_0.value_map_positions@ == ps
                &&& r->Ok_0.value_map_values@ == vs
            },
            Err(e) => r == Err::<FriDecommitOutputs, FriError>(e),
        },
        r is Ok ==> strictly_sorted(r->Ok_0.decommitment_positions@) && crate::planner::all_below(
            r->Ok_0.decommitment_positions@,
            column@.len(),
        ),
{
    let ghost colv = column@;
    let ghost qp = query_positions@;
    if fold_step >= usize::BITS {
        return Err(FriError::FoldStepTooLarge);
    }
    let subset_len = crate::columns::pow2_usize(fold_step);
    proof {
        vstd::arithmetic::power2::lemma_pow2_pos(fold_step as nat);
    }
    let clen = column.len();
    let mut dp: Vec<usize> = Vec::new();
    let mut we: Vec<SecureEval> = Vec::new();
    let mut vv: Vec<SecureEval> = Vec::new();
    let mut si: usize = 0;
    proof {
        assert(qp.skip(0) =~= qp);
        match fri_walk(colv, qp, qp, fold_step) {
            Err(e) => {},
            Ok((ps, ws, vs)) => {
                assert(dp@ + ps =~= ps);
                assert(we@ + ws =~= ws);
                assert(vv@ + vs =~= vs);
            },
        }
    }
    while si < query_positions.len()
        invariant
            si <= qp.len(),
            qp == query_positions@,
            colv == column@,
            clen == colv.len(),
            strictly_sorted(qp),
            fold_step < usize::BITS,
            subset_len == pow2(fold_step as nat),
            subset_len >= 1,
            strictly_sorted(dp@),
            crate::planner::all_below(dp@, colv.len()),
            si < qp.len() && dp@.len() > 0 ==> dp@.last() < fold_key(qp[si as int], fold_step)
                * pow2(fold_step as nat),
            match fri_walk(colv, qp, qp.skip(si as int), fold_step) {
                Err(e) => fri_walk(colv, qp, qp, fold_step) == Err::<
                    (Seq<usize>, Seq<SecureEval>, Seq<SecureEval>),
                    FriError,
                >(e),
                Ok((ps, ws, vs)) => fri_walk(colv, qp, qp, fold_step) == Ok::<
                    (Seq<usize>, Seq<SecureEval>, Seq<SecureEval>),
                    FriError,
                >((dp@ + ps, we@ + ws, vv@ + vs)),
            },
        decreases qp.len() - si,
    {
        let q0 = query_positions[si];
        let key = q0 / subset_len;
        proof {
            assert(key * subset_len <= q0) by (nonlinear_arith)
                requires
                    subset_len >= 1,
                    key == q0 / subset_len,
            ;
            assert(key == fold_key(qp[si as int], fold_step));
        }
        let start = key * subset_len;
        // Find the end of this subset's run of queries.
        let mut se: usize = si + 1;
        while se < query_positions.len() && query_positions[se] / subset_len == key
            invariant
                si < se <= qp.len(),
                qp == query_positions@,
                subset_len == pow2(fold_step as nat),
                subset_len >= 1,
                key == fold_key(qp[si as int], fold_step),
                forall|j: int|
                    si <= j < se ==> fold_key(#[trigger] qp[j], fold_step) == fold_key(
                        qp[si as int],
                        fold_step,
                    ),
            decreases qp.len() - se,
        {
            se += 1;
        }
        proof {
            let run = qp.skip(si as int);
            assert(forall|j: int| 0 <= j < run.len() ==> run[j] == qp[j + si]);
            lemma_run_count(run, fold_step, (se - si) as nat);
            assert(run_count(run, fold_step) == se - si);
        }
        // Walk the subset's full position range.
        let ghost dp0 = dp@;
        let ghost we0 = we@;
        let ghost vv0 = vv@;
        let mut i: usize = 0;
        proof {
            assert(dp@.skip(dp0.len() as int) =~= Seq::<usize>::empty());
            assert(we@.skip(we0.len() as int) =~= Seq::<SecureEval>::empty());
            assert(vv@.skip(vv0.len() as int) =~= Seq::<SecureEval>::empty());
        }
        while i < subset_len
            invariant
                i <= subset_len,
                qp == query_positions@,
                colv == column@,
                clen == colv.len(),
                strictly_sorted(qp),
                fold_step < usize::BITS,
                subset_len == pow2(fold_step as nat),
                subset_len >= 1,
                si < qp.len(),
                key == fold_key(qp[si as int], fold_step),
                start == key * subset_len,
                start <= qp[si as int],
                i > 0 ==> start + i <= clen,
                strictly_sorted(dp@),
                crate::planner::all_below(dp@, colv.len()),
                dp@.len() == dp0.len() + i,
                dp0.len() > 0 ==> dp0.last() < start,
                i > 0 ==> dp@.last() == start + i - 1,
                dp0.len() <= dp@.len(),
                we0.len() <= we@.len(),
                vv0.len() <= vv@.len(),
                dp0 == dp@.take(dp0.len() as int),
                we0 == we@.take(we0.len() as int),
                vv0 == vv@.take(vv0.len() as int),
                range_walk(colv, qp, start as nat, i as nat) == Ok::<
                    (Seq<usize>, Seq<SecureEval>, Seq<SecureEval>),
                    FriError,
                >((dp@.skip(dp0.len() as int), we@.skip(we0.len() as int), vv@.skip(
                    vv0.len() as int,
                ))),
                match fri_walk(colv, qp, qp.skip(si as int), fold_step) {
                    Err(e) => fri_walk(colv, qp, qp, fold_step) == Err::<
                        (Seq<usize>, Seq<SecureEval>, Seq<SecureEval>),
                        FriError,
                    >(e),
                    Ok((ps, ws, vs)) => fri_walk(colv, qp, qp, fold_step) == Ok::<
                        (Seq<usize>, Seq<SecureEval>, Seq<SecureEval>),
                        FriError,
                    >((dp0 + ps, we0 + ws, vv0 + vs)),
                },
            decreases subset_len - i,
        {
            let position = start + i;
            if position >= clen {
                proof {
                    assert(range_walk(colv, qp, start as nat, (i + 1) as nat) == Err::<
                        (Seq<usize>, Seq<SecureEval>, Seq<SecureEval>),
                        FriError,
                    >(FriError::QueryOutOfRange));
                    lemma_range_walk_err(
                        colv,
                        qp,
                        start as nat,
                        (i + 1) as nat,
                        pow2(fold_step as nat),
                        FriError::QueryOutOfRange,
                    );
                    let run = qp.skip(si as int);
                    assert(run[0] == qp[si as int]);
                    assert(fri_walk(colv, qp, run, fold_step) == Err::<
                        (Seq<usize>, Seq<SecureEval>, Seq<SecureEval>),
                        FriError,
                    >(FriError::QueryOutOfRange));
                }
                return Err(FriError::QueryOutOfRange);
            }
            let eval = column[position];
            let ghost dpre = dp@;
            let ghost wpre = we@;
            let ghost vpre = vv@;
            dp.push(position);
            vv.push(eval);
            let queried = seq_contains(query_positions, position);
            if !queried {
                we.push(eval);
            }
            proof {
                assert(qp.contains(position) == contains_idx(qp, position as int));
                assert(dpre.len() >= dp0.len() && vpre.len() >= vv0.len() && wpre.len()
                    >= we0.len());
                assert(strictly_sorted(dp@)) by {
                    assert(dpre.len() > 0 ==> dpre.last() < position);
                    assert forall|a: int, b: int| 0 <= a < b < dp@.len() implies dp@[a]
                        < dp@[b] by {
                        if b == dp@.len() - 1 {
                            assert(dp@[a] == dpre[a]);
                            assert(dpre[a] <= dpre.last());
                        }
                    }
                }
                assert(dp@.skip(dp0.len() as int) =~= dpre.skip(dp0.len() as int).push(position));
                assert(vv@.skip(vv0.len() as int) =~= vpre.skip(vv0.len() as int).push(eval));
                if !contains_idx(qp, position as int) {
                    assert(we@.skip(we0.len() as int) =~= wpre.skip(we0.len() as int).push(eval));
                }
                assert(dp0 =~= dp@.take(dp0.len() as int));
                assert(we0 =~= we@.take(we0.len() as int));
                assert(vv0 =~= vv@.take(vv0.len() as int));
            }
            i += 1;
        }
        proof {
            // The walked subset is exactly the next step of the spec walk.
            let run = qp.skip(si as int);
            assert(run[0] == qp[si as int]);
            assert(run.skip((se - si) as int) =~= qp.skip(se as int));
            match fri_walk(colv, qp, qp.skip(se as int), fold_step) {
                Err(e) => {
                    assert(fri_walk(colv, qp, run, fold_step) == Err::<
                        (Seq<usize>, Seq<SecureEval>, Seq<SecureEval>),
                        FriError,
                    >(e));
                },
                Ok((ps2, ws2, vs2)) => {
                    assert(fri_walk(colv, qp, run, fold_step) == Ok::<
                        (Seq<usize>, Seq<SecureEval>, Seq<SecureEval>),
                        FriError,
                    >(
                        (
                            dp@.skip(dp0.len() as int) + ps2,
                            we@.skip(we0.len() as int) + ws2,
                            vv@.skip(vv0.len() as int) + vs2,
                        ),
                    ));
                    assert(dp0 + (dp@.skip(dp0.len() as int) + ps2) =~= dp@ + ps2);
                    assert(we0 + (we@.skip(we0.len() as int) + ws2) =~= we@ + ws2);
                    assert(vv0 + (vv@.skip(vv0.len() as int) + vs2) =~= vv@ + vs2);
                },
            }
            if se < qp.len() {
                let k2 = fold_key(qp[se as int], fold_step);
                assert(fold_key(qp[se - 1], fold_step) == key);
                assert(k2 != key);
                assert(qp[si as int] < qp[se as int]);
                assert(key <= k2) by {
                    vstd::arithmetic::div_mod::lemma_div_is_ordered(
                        qp[si as int] as int,
                        qp[se as int] as int,
                        pow2(fold_step as nat) as int,
                    );
                }
                assert(k2 * pow2(fold_step as nat) >= (key + 1) * pow2(fold_step as nat))
                    by (nonlinear_arith)
                    requires
                        k2 >= key + 1,
                ;
                assert((key + 1) * pow2(fold_step as nat) == key * pow2(fold_step as nat) + pow2(
                    fold_step as nat,
                )) by (nonlinear_arith);
                assert(dp@.len() > 0 && dp@.last() == start + subset_len - 1);
                assert(dp@.last() < k2 * pow2(fold_step as nat));
            }
        }
        si = se;
    }
    proof {
        assert(qp.skip(qp.len() as int) =~= Seq::<usize>::empty());
        match fri_walk(colv, qp, qp, fold_step) {
            Err(e) => {
                assert(false);
            },
            Ok((ps, ws, vs)) => {
                assert(dp@ + Seq::<usize>::empty() =~= dp@);
                assert(we@ + Seq::<SecureEval>::empty() =~= we@);
                assert(vv@ + Seq::<SecureEval>::empty() =~= vv@);
            },
        }
    }
    let vmp = crate::planner::copy_indices(&dp);
    Ok(
        FriDecommitOutputs {
            decommitment_positions: dp,
            witness_evals: we,
            value_map_positions: vmp,
            value_map_values: vv,
        },
    )
}

/// All coordinates of a secure column are canonical field residues.
pub open spec fn secure_column_wf(column: Seq<SecureEval>) -> bool {
    forall|i: int|
        0 <= i < column.len() ==> (#[trigger] column[i]).a < crate::hashing::FIELD_MODULUS
            && column[i].b < crate::hashing::FIELD_MODULUS && column[i].c
            < crate::hashing::FIELD_MODULUS && column[i].d < crate::hashing::FIELD_MODULUS
}

/// The four base-field coordinate columns of a secure column.
pub open spec fn base_cols_of(column: Seq<SecureEval>) -> Seq<Seq<u32>> {
    seq![
        column.map_values(|e: SecureEval| e.a),
        column.map_values(|e: SecureEval| e.b),
        column.map_values(|e: SecureEval| e.c),
        column.map_values(|e: SecureEval| e.d),
    ]
}

/// The log-sizes of the four coordinate columns.
pub open spec fn four_sizes(log_size: u32) -> Seq<u32> {
    seq![log_size, log_size, log_size, log_size]
}

/// The commitment of one fold layer: the lifted-layout root over the four
/// coordinate columns.
pub open spec fn fri_layer_commitment_spec(column: Seq<SecureEval>, log_size: u32) -> Seq<u8> {
    crate::lifted::lifted_root_spec(four_sizes(log_size), base_cols_of(column))
}

/// Fold boundary, small end: with a fold step of zero every subset is a
/// single position, so the walk decommits exactly the queried positions and
/// needs no fold witness.
#[verifier::spinoff_prover]
pub proof fn lemma_fold_step_zero(column: Seq<SecureEval>, queries: Seq<usize>, k: int)
    requires
        strictly_sorted(queries),
        crate::planner::all_below(queries, column.len()),
        0 <= k <= queries.len(),
    ensures
        fri_walk(column, queries, queries.skip(k), 0) == Ok::<_, FriError>(
            (
                queries.skip(k),
                Seq::<SecureEval>::empty(),
                Seq::new((queries.len() - k) as nat, |j: int| column[queries[j + k] as int]),
            ),
        ),
    decreases queries.len() - k,
{
    let s = queries.skip(k);
    assert(pow2(0) == 1) by {
        vstd::arithmetic::power2::lemma2_to64();
    }
    if s.len() == 0 {
        assert(s =~= Seq::<usize>::empty());
        assert(Seq::new((queries.len() - k) as nat, |j: int| column[queries[j + k] as int])
            =~= Seq::<SecureEval>::empty());
    } else {
        assert forall|x: usize| #[trigger] fold_key(x, 0) == x as nat by {
            vstd::arithmetic::div_mod::lemma_div_basics(x as int);
        }
        assert(run_count(s, 0) == 1) by {
            if s.len() >= 2 {
                assert(s[0] == queries[k] && s[1] == queries[k + 1]);
                assert(s[0] < s[1]);
                assert(fold_key(s[1], 0) != fold_key(s[0], 0));
            }
        }
        let q0 = s[0];
        assert(fold_key(q0, 0) * pow2(0) == q0);
        assert(range_walk(column, queries, q0 as nat, 0) == Ok::<_, FriError>(
            (Seq::<usize>::empty(), Seq::<SecureEval>::empty(), Seq::<SecureEval>::empty()),
        ));
        assert(range_walk(column, queries, q0 as nat, 1) == Ok::<_, FriError>(
            (seq![q0], Seq::<SecureEval>::empty(), seq![column[q0 as int]]),
        )) by {
            assert(q0 < column.len());
            assert(contains_idx(queries, q0 as int)) by {
                assert(queries[k] == q0);
            }
            assert(Seq::<SecureEval>::empty().push(column[q0 as int]) =~= seq![column[q0 as int]]);
            assert(Seq::<usize>::empty().push(q0) =~= seq![q0]);
        }
        assert(s.skip(1) =~= queries.skip(k + 1));
        lemma_fold_step_zero(column, queries, k + 1);
        assert(seq![q0] + queries.skip(k + 1) =~= s);
        assert(Seq::<SecureEval>::empty() + Seq::<SecureEval>::empty()
            =~= Seq::<SecureEval>::empty());
        assert(seq![column[q0 as int]] + Seq::new(
            (queries.len() - (k + 1)) as nat,
            |j: int| column[queries[j + (k + 1)] as int],
        ) =~= Seq::new((queries.len() - k) as nat, |j: int| column[queries[j + k] as int]));
    }
}

/// With a fold step of zero the decommitment reveals exactly the queried
/// positions and carries no fold witness.
pub proof fn lemma_fold_boundary_zero(column: Seq<SecureEval>, queries: Seq<usize>)
    requires
        strictly_sorted(queries),
        crate::planner::all_below(queries, column.len()),
    ensures
        fri_decommit_spec(column, queries, 0) == Ok::<_, FriError>(
            (
                queries,
                Seq::<SecureEval>::empty(),
                Seq::new(queries.len(), |j: int| column[queries[j] as int]),
            ),
        ),
{
    lemma_fold_step_zero(column, queries, 0);
    assert(queries.skip(0) =~= queries);
    assert(Seq::new((queries.len() - 0) as nat, |j: int| column[queries[j + 0] as int]) =~= Seq::new(
        queries.len(),
        |j: int| column[queries[j] as int],
    ));
}

/// A subset walk over in-range positions decommits exactly that range and
/// records exactly the column's evaluations over it.
pub proof fn lemma_range_walk_full(
    column: Seq<SecureEval>,
    allq: Seq<usize>,
    start: nat,
    count: nat,
)
    requires
        start + count <= column.len(),
    ensures
        range_walk(column, allq, start, count) is Ok,
        range_walk(column, allq, start, count)->Ok_0.0 == Seq::new(
            count,
            |i: int| (start + i) as usize,
        ),
        range_walk(column, allq, start, count)->Ok_0.2 == column.subrange(
            start as int,
            (start + count) as int,
        ),
    decreases count,
{
    if count == 0 {
        assert(Seq::new(0nat, |i: int| (start + i) as usize) =~= Seq::<usize>::empty());
        assert(column.subrange(start as int, start as int) =~= Seq::<SecureEval>::empty());
    } else {
        lemma_range_walk_full(column, allq, start, (count - 1) as nat);
        assert(Seq::new((count - 1) as nat, |i: int| (start + i) as usize).push(
            (start + count - 1) as usize,
        ) =~= Seq::new(count, |i: int| (start + i) as usize));
        assert(column.subrange(start as int, (start + count - 1) as int).push(
            column[start + count - 1],
        ) =~= column.subrange(start as int, (start + count) as int));
    }
}

/// Fold boundary, large end: with a fold step equal to the column's log-size
/// every query falls in the single subset covering the whole column, so the
/// walk decommits every position and records every evaluation.
#[verifier::spinoff_prover]
pub proof fn lemma_fold_boundary_full(column: Seq<SecureEval>, queries: Seq<usize>, log_size: u32)
    requires
        strictly_sorted(queries),
        queries.len() > 0,
        column.len() == pow2(log_size as nat),
        crate::planner::all_below(queries, pow2(log_size as nat)),
        log_size < usize::BITS,
    ensures
        fri_decommit_spec(column, queries, log_size) is Ok,
        fri_decommit_spec(column, queries, log_size)->Ok_0.0 == Seq::new(
            pow2(log_size as nat),
            |i: int| i as usize,
        ),
        fri_decommit_spec(column, queries, log_size)->Ok_0.2 == column,
{
    let n = pow2(log_size as nat);
    assert forall|j: int| 0 <= j < queries.len() implies fold_key(queries[j], log_size) == 0 by {
        assert(queries[j] < n);
        vstd::arithmetic::div_mod::lemma_basic_div(queries[j] as int, n as int);
    }
    lemma_run_count(queries, log_size, queries.len() as nat);
    lemma_range_walk_full(column, queries, 0, n);
    assert(fold_key(queries[0], log_size) * n == 0);
    assert(queries.skip(queries.len() as int) =~= Seq::<usize>::empty());
    assert(fri_walk(column, queries, Seq::<usize>::empty(), log_size) == Ok::<_, FriError>(
        (Seq::<usize>::empty(), Seq::<SecureEval>::empty(), Seq::<SecureEval>::empty()),
    ));
    match fri_walk(column, queries, queries, log_size) {
        Err(e) => {
            assert(false);
        },
        Ok((ps, ws, vs)) => {
            let full = range_walk(column, queries, 0, n)->Ok_0;
            assert(ps =~= full.0 + Seq::<usize>::empty());
            assert(ps =~= Seq::new(n, |i: int| (0 + i) as usize));
            assert(Seq::new(n, |i: int| (0 + i) as usize) =~= Seq::new(n, |i: int| i as usize));
            assert(vs =~= full.2 + Seq::<SecureEval>::empty());
            assert(column.subrange(0, n as int) =~= column);
        },
    }
}

/// A subset walk that succeeds stayed inside the column.
pub proof fn lemma_range_walk_ok_bound(
    column: Seq<SecureEval>,
    allq: Seq<usize>,
    start: nat,
    count: nat,
)
    requires
        range_walk(column, allq, start, count) is Ok,
        count > 0,
    ensures
        start + count <= column.len(),
    decreases count,
{
    if count > 1 {
        lemma_range_walk_ok_bound(column, allq, start, (count - 1) as nat);
    }
}

/// Success is owed: with a fold step at most the column's log-size and every
/// query inside the column, the fold-step walk is accepted.
pub proof fn lemma_fold_accepts_in_range(
    column: Seq<SecureEval>,
    allq: Seq<usize>,
    queries: Seq<usize>,
    f: u32,
    log_size: u32,
)
    requires
        column.len() == pow2(log_size as nat),
        f <= log_size,
        log_size < usize::BITS,
        crate::planner::all_below(queries, column.len()),
    ensures
        fri_walk(column, allq, queries, f) is Ok,
    decreases queries.len(),
{
    if queries.len() > 0 {
        let key = fold_key(queries[0], f);
        let sl = pow2(f as nat);
        let half = pow2((log_size - f) as nat);
        vstd::arithmetic::power2::lemma_pow2_pos(f as nat);
        vstd::arithmetic::power2::lemma_pow2_adds(f as nat, (log_size - f) as nat);
        assert(column.len() == sl * half);
        assert(key < half) by {
            vstd::arithmetic::div_mod::lemma_multiply_divide_lt(
                queries[0] as int,
                sl as int,
                half as int,
            );
        }
        assert(key * sl + sl <= column.len()) by (nonlinear_arith)
            requires
                key + 1 <= half,
                sl > 0,
                column.len() == sl * half,
        ;
        lemma_range_walk_full(column, allq, key * sl, sl);
        let rc = run_count(queries, f);
        lemma_run_count_bounds(queries, f);
        let rest = queries.skip(rc as int);
        assert(crate::planner::all_below(rest, column.len())) by {
            assert(forall|i: int| 0 <= i < rest.len() ==> rest[i] == queries[i + rc]);
        }
        lemma_fold_accepts_in_range(column, allq, rest, f, log_size);
    }
}

/// Rejection is owed: a query at or beyond the column's end makes the walk
/// fail with an out-of-range verdict.
pub proof fn lemma_fold_rejects_out_of_range(
    column: Seq<SecureEval>,
    allq: Seq<usize>,
    queries: Seq<usize>,
    f: u32,
    bad: int,
)
    requires
        f < usize::BITS,
        0 <= bad < queries.len(),
        queries[bad] >= column.len(),
    ensures
        fri_walk(column, allq, queries, f) == Err::<
            (Seq<usize>, Seq<SecureEval>, Seq<SecureEval>),
            FriError,
        >(FriError::QueryOutOfRange),
    decreases queries.len(),
{
    let key = fold_key(queries[0], f);
    let sl = pow2(f as nat);
    vstd::arithmetic::power2::lemma_pow2_pos(f as nat);
    let rc = run_count(queries, f);
    lemma_run_count_bounds(queries, f);
    lemma_run_count_keys(queries, f);
    if bad < rc {
        // The offending query lies inside the first subset's range, so its
        // walk cannot stay inside the column.
        let q = queries[bad];
        assert(fold_key(q, f) == key);
        assert(key * sl <= q < key * sl + sl) by {
            vstd::arithmetic::div_mod::lemma_fundamental_div_mod(q as int, sl as int);
            vstd::arithmetic::div_mod::lemma_mod_bound(q as int, sl as int);
            assert(q as int == (sl as int) * ((q as int) / (sl as int)) + (q as int) % (sl as int));
            assert((q as int) / (sl as int) == key as int);
        }
        match range_walk(column, allq, key * sl, sl) {
            Err(e) => {
                assert(e == FriError::QueryOutOfRange) by {
                    lemma_range_walk_err_value(column, allq, key * sl, sl);
                }
            },
            Ok(o) => {
                lemma_range_walk_ok_bound(column, allq, key * sl, sl);
                assert(q < column.len());
                assert(false);
            },
        }
    } else {
        let rest = queries.skip(rc as int);
        assert(rest[bad - rc] == queries[bad]);
        lemma_fold_rejects_out_of_range(column, allq, rest, f, bad - rc);
        match range_walk(column, allq, key * sl, sl) {
            Err(e) => {
                assert(e == FriError::QueryOutOfRange) by {
                    lemma_range_walk_err_value(column, allq, key * sl, sl);
                }
            },
            Ok(o) => {},
        }
    }
}

/// The only rejection a subset walk produces is the out-of-range verdict.
pub proof fn lemma_range_walk_err_value(
    column: Seq<SecureEval>,
    allq: Seq<usize>,
    start: nat,
    count: nat,
)
    ensures
        range_walk(column, allq, start, count) is Err ==> range_walk(
            column,
            allq,
            start,
            count,
        )->Err_0 == FriError::QueryOutOfRange,
    decreases count,
{
    if count > 0 {
        lemma_range_walk_err_value(column, allq, start, (count - 1) as nat);
    }
}

/// Every query of the leading run shares the first query's fold key.
pub proof fn lemma_run_count_keys(queries: Seq<usize>, f: u32)
    ensures
        forall|j: int|
            0 <= j < run_count(queries, f) ==> fold_key(#[trigger] queries[j], f) == fold_key(
                queries[0],
                f,
            ),
    decreases queries.len(),
{
    if queries.len() >= 2 && fold_key(queries[1], f) == fold_key(queries[0], f) {
        lemma_run_count_keys(queries.skip(1), f);
        lemma_run_count_bounds(queries, f);
        lemma_run_count_bounds(queries.skip(1), f);
        assert forall|j: int|
            0 <= j < run_count(queries, f) implies fold_key(#[trigger] queries[j], f) == fold_key(
            queries[0],
            f,
        ) by {
            if j >= 1 {
                assert(queries.skip(1)[j - 1] == queries[j]);
            }
        }
    }
}

/// The decommitment data of one fold layer.
pub struct FriLayerDecommitOutputs {
    /// The lifted-layout commitment over the four coordinate columns.
    pub commitment: Vec<u8>,
    /// Every position of every touched subset, in increasing order.
    pub decommitment_positions: Vec<usize>,
    /// The evaluations of the unqueried subset members, in position order.
    pub fri_witness: Vec<SecureEval>,
    /// The lifted-layout hash witness for the decommitted positions.
    pub hash_witness: Vec<Vec<u8>>,
    /// The positions of the recorded evaluations.
    pub value_map_positions: Vec<usize>,
    /// The recorded evaluations, in position order.
    pub value_map_values: Vec<SecureEval>,
}

/// The four identical log-sizes have their common value as maximum.
proof fn lemma_four_sizes_max(log_size: u32)
    ensures
        crate::columns::max_log_size(four_sizes(log_size)) == log_size,
{
    let s4 = four_sizes(log_size);
    let s3 = s4.drop_last();
    let s2 = s3.drop_last();
    let s1 = s2.drop_last();
    let s0 = s1.drop_last();
    assert(s0.len() == 0);
    assert(s1.last() == log_size && s2.last() == log_size && s3.last() == log_size && s4.last()
        == log_size);
    assert(crate::columns::max_log_size(s0) == 0);
    assert(crate::columns::max_log_size(s1) == log_size);
    assert(crate::columns::max_log_size(s2) == log_size);
    assert(crate::columns::max_log_size(s3) == log_size);
}

/// Builds the full fold-layer decommitment: the subset walk of
/// [`compute_fri_decommit_outputs`], the lifted commitment over the column's
/// four coordinate columns, and the lifted hash witness for the decommitted
/// positions.
#[verifier::spinoff_prover]
pub fn compute_fri_layer_decommit_outputs(
    column: &Vec<SecureEval>,
    log_size: u32,
    query_positions: &Vec<usize>,
    fold_step: u32,
) -> (r: Result<FriLayerDecommitOutputs, FriError>)
    requires
        strictly_sorted(query_positions@),
        1 <= log_size <= crate::columns::MAX_LOG_SIZE,
        column@.len() == pow2(log_size as nat),
        secure_column_wf(column@),
    ensures
        match fri_decommit_spec(column@, query_positions@, fold_step) {
            Ok((ps, ws, vs)) => {
                &&& r is Ok
                &&& r->Ok_0.commitment@ == fri_layer_commitment_spec(column@, log_size)
                &&& crate::hashing::is_digest(r->Ok_0.commitment@)
                &&& r->Ok_0.decommitment_positions@ == ps
                &&& r->Ok_0.fri_witness@ == ws
                &&& crate::hashing::digests_view(r->Ok_0.hash_witness@)
                    == crate::lifted::lifted_decommit_hw(
                    four_sizes(log_size),
                    base_cols_of(column@),
                    ps,
                )
                &&& forall|i: int|
                    0 <= i < r->Ok_0.hash_witness@.len() ==> crate::hashing::is_digest(
                        (#[trigger] r->Ok_0.hash_witness@[i])@,
                    )
                &&& r->Ok_0.value_map_positions@ == ps
                &&& r->Ok_0.value_map_values@ == vs
            },
            Err(e) => r == Err::<FriLayerDecommitOutputs, FriError>(e),
        },
{
    let ghost colv = column@;
    let helper = match compute_fri_decommit_outputs(column, query_positions, fold_step) {
        Ok(h) => h,
        Err(e) => {
            return Err(e);
        },
    };
    // Split the secure column into its four coordinate columns.
    let mut c0: Vec<u32> = Vec::new();
    let mut c1: Vec<u32> = Vec::new();
    let mut c2: Vec<u32> = Vec::new();
    let mut c3: Vec<u32> = Vec::new();
    let mut i: usize = 0;
    while i < column.len()
        invariant
            i <= colv.len(),
            colv == column@,
            c0@.len() == i && c1@.len() == i && c2@.len() == i && c3@.len() == i,
            forall|j: int| 0 <= j < i ==> #[trigger] c0@[j] == colv[j].a,
            forall|j: int| 0 <= j < i ==> #[trigger] c1@[j] == colv[j].b,
            forall|j: int| 0 <= j < i ==> #[trigger] c2@[j] == colv[j].c,
            forall|j: int| 0 <= j < i ==> #[trigger] c3@[j] == colv[j].d,
        decreases colv.len() - i,
    {
        let e = column[i];
        c0.push(e.a);
        c1.push(e.b);
        c2.push(e.c);
        c3.push(e.d);
        i += 1;
    }
    proof {
        assert(c0@ =~= colv.map_values(|e: SecureEval| e.a));
        assert(c1@ =~= colv.map_values(|e: SecureEval| e.b));
        assert(c2@ =~= colv.map_values(|e: SecureEval| e.c));
        assert(c3@ =~= colv.map_values(|e: SecureEval| e.d));
    }
    let mut sizes: Vec<u32> = Vec::new();
    sizes.push(log_size);
    sizes.push(log_size);
    sizes.push(log_size);
    sizes.push(log_size);
    let mut cols: Vec<Vec<u32>> = Vec::new();
    cols.push(c0);
    cols.push(c1);
    cols.push(c2);
    cols.push(c3);
    proof {
        assert(sizes@ =~= four_sizes(log_size));
        assert(crate::columns::view2(cols@) =~= base_cols_of(colv));
        lemma_four_sizes_max(log_size);
        assert(crate::lifted::lifted_columns_wf(sizes@, crate::columns::view2(cols@)));
    }
    let tree = crate::lifted::lifted_commit(sizes, cols);
    let commitment = tree.root();
    proof {
        assert(tree.spec_max_l() == log_size);
        assert(strictly_sorted(helper.decommitment_positions@));
        assert(crate::planner::all_below(helper.decommitment_positions@, pow2(log_size as nat)));
    }
    let (_revealed, dec) = crate::lifted::lifted_decommit(&tree, &helper.decommitment_positions);
    Ok(
        FriLayerDecommitOutputs {
            commitment,
            decommitment_positions: helper.decommitment_positions,
            fri_witness: helper.witness_evals,
            hash_witness: dec.hash_witness,
            value_map_positions: helper.value_map_positions,
            value_map_values: helper.value_map_values,
        },
    )
}

} // verus!
