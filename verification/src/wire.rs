//! Statements of the example constraint systems and their wire forms.
//!
//! A statement carries the public parameters of one example system; its wire
//! form holds the same data in fixed-width integers for serialization.  The
//! conversions here are exact and reversible; validation helpers bound the
//! parameters before any trace is generated.

use vstd::prelude::*;

verus! {

/// The number of base-field values one hash-function round consumes.
pub const BLAKE_ROUND_INPUT_FELTS: usize = 1152;

/// The log-number of hash instances packed into one trace row.
pub const POSEIDON_LOG_INSTANCES_PER_ROW: u32 = 3;

/// How a proof is produced.
#[derive(Clone, Copy, Debug, PartialEq, Eq, Structural)]
pub enum ProveMode {
    /// The plain proving entry point.
    Prove,
    /// The extended proving entry point.
    ProveEx,
}

/// The wire name of a prove mode.
pub fn prove_mode_to_str(mode: ProveMode) -> (r: &'static str)
    ensures
        mode == ProveMode::Prove ==> r@ == "prove"@,
        mode == ProveMode::ProveEx ==> r@ == "prove_ex"@,
{
    match mode {
        ProveMode::Prove => "prove",
        ProveMode::ProveEx => "prove_ex",
    }
}

/// Parses a prove mode from its wire name.
pub fn prove_mode_from_str(value: &String) -> (r: Option<ProveMode>)
    ensures
        value@ == "prove"@ ==> r == Some(ProveMode::Prove),
        value@ == "prove_ex"@ ==> r == Some(ProveMode::ProveEx),
        r is None <==> value@ != "prove"@ && value@ != "prove_ex"@,
{
    proof {
        // The two names have different lengths, so the branches exclude each
        // other.
        reveal_strlit("prove");
        reveal_strlit("prove_ex");
        assert("prove"@.len() == 5);
        assert("prove_ex"@.len() == 8);
    }
    let prove = "prove".to_owned();
    let prove_ex = "prove_ex".to_owned();
    if *value == prove {
        Some(ProveMode::Prove)
    } else if *value == prove_ex {
        Some(ProveMode::ProveEx)
    } else {
        None
    }
}

/// `2^log_size` as a machine size, or an error when it does not fit.
pub fn checked_pow2(log_size: u32) -> (r: Result<usize, ()>)
    ensures
        r is Ok <==> log_size < usize::BITS,
        r is Ok ==> r->Ok_0 == vstd::arithmetic::power2::pow2(log_size as nat),
{
    if log_size >= usize::BITS {
        return Err(());
    }
    Ok(crate::columns::pow2_usize(log_size))
}

/// The xor example's statement.
#[derive(Clone, Copy, Debug, PartialEq, Eq, Structural)]
pub struct XorStatement {
    /// Log-size of the trace.
    pub log_size: u32,
    /// Log-size of the step pattern.
    pub log_step: u32,
    /// Offset of the step pattern.
    pub offset: usize,
}

/// The xor statement in wire form.
#[derive(Clone, Copy, Debug, PartialEq, Eq, Structural)]
pub struct XorStatementWire {
    /// Log-size of the trace.
    pub log_size: u32,
    /// Log-size of the step pattern.
    pub log_step: u32,
    /// Offset of the step pattern, widened for the wire.
    pub offset: u64,
}

/// Converts an xor statement to its wire form.
pub fn xor_statement_to_wire(statement: XorStatement) -> (r: Result<XorStatementWire, ()>)
    ensures
        r is Ok,
        r->Ok_0.log_size == statement.log_size,
        r->Ok_0.log_step == statement.log_step,
        r->Ok_0.offset == statement.offset as u64,
{
    Ok(
        XorStatementWire {
            log_size: statement.log_size,
            log_step: statement.log_step,
            offset: statement.offset as u64,
        },
    )
}

/// Reads an xor statement back from its wire form; the offset must fit a
/// machine size.
pub fn xor_statement_from_wire(wire: &XorStatementWire) -> (r: Result<XorStatement, ()>)
    ensures
        r is Ok <==> wire.offset <= usize::MAX,
        r is Ok ==> r->Ok_0 == (XorStatement {
            log_size: wire.log_size,
            log_step: wire.log_step,
            offset: wire.offset as usize,
        }),
{
    if wire.offset > usize::MAX as u64 {
        return Err(());
    }
    Ok(
        XorStatement {
            log_size: wire.log_size,
            log_step: wire.log_step,
            offset: wire.offset as usize,
        },
    )
}

/// The wide-Fibonacci example's statement.
#[derive(Clone, Copy, Debug, PartialEq, Eq, Structural)]
pub struct WideFibonacciStatement {
    /// Log-number of trace rows.
    pub log_n_rows: u32,
    /// Length of the sequence in each row.
    pub sequence_len: u32,
}

/// The wide-Fibonacci statement in wire form.
#[derive(Clone, Copy, Debug, PartialEq, Eq, Structural)]
pub struct WideFibonacciStatementWire {
    /// Log-number of trace rows.
    pub log_n_rows: u32,
    /// Length of the sequence in each row.
    pub sequence_len: u32,
}

/// Converts a wide-Fibonacci statement to its wire form.
pub fn wide_fibonacci_statement_to_wire(statement: WideFibonacciStatement) -> (r:
    WideFibonacciStatementWire)
    ensures
        r.log_n_rows == statement.log_n_rows,
        r.sequence_len == statement.sequence_len,
{
    WideFibonacciStatementWire {
        log_n_rows: statement.log_n_rows,
        sequence_len: statement.sequence_len,
    }
}

/// Reads a wide-Fibonacci statement back from its wire form.
pub fn wide_fibonacci_statement_from_wire(wire: &WideFibonacciStatementWire) -> (r: Result<
    WideFibonacciStatement,
    (),
>)
    ensures
        r is Ok,
        r->Ok_0.log_n_rows == wire.log_n_rows,
        r->Ok_0.sequence_len == wire.sequence_len,
{
    Ok(
        WideFibonacciStatement {
            log_n_rows: wire.log_n_rows,
            sequence_len: wire.sequence_len,
        },
    )
}

/// The Plonk-like example's statement.
#[derive(Clone, Copy, Debug, PartialEq, Eq, Structural)]
pub struct PlonkStatement {
    /// Log-number of trace rows.
    pub log_n_rows: u32,
}

/// The Plonk-like statement in wire form.
#[derive(Clone, Copy, Debug, PartialEq, Eq, Structural)]
pub struct PlonkStatementWire {
    /// Log-number of trace rows.
    pub log_n_rows: u32,
}

/// Converts a Plonk-like statement to its wire form.
pub fn plonk_statement_to_wire(statement: PlonkStatement) -> (r: PlonkStatementWire)
    ensures
        r.log_n_rows == statement.log_n_rows,
{
    PlonkStatementWire { log_n_rows: statement.log_n_rows }
}

/// Reads a Plonk-like statement back from its wire form.
pub fn plonk_statement_from_wire(wire: &PlonkStatementWire) -> (r: Result<PlonkStatement, ()>)
    ensures
        r is Ok,
        r->Ok_0.log_n_rows == wire.log_n_rows,
{
    Ok(PlonkStatement { log_n_rows: wire.log_n_rows })
}

/// The hash-permutation example's statement.
#[derive(Clone, Copy, Debug, PartialEq, Eq, Structural)]
pub struct PoseidonStatement {
    /// Log-number of permutation instances.
    pub log_n_instances: u32,
}

/// The hash-permutation statement in wire form.
#[derive(Clone, Copy, Debug, PartialEq, Eq, Structural)]
pub struct PoseidonStatementWire {
    /// Log-number of permutation instances.
    pub log_n_instances: u32,
}

/// Converts a hash-permutation statement to its wire form.
pub fn poseidon_statement_to_wire(statement: PoseidonStatement) -> (r: PoseidonStatementWire)
    ensures
        r.log_n_instances == statement.log_n_instances,
{
    PoseidonStatementWire { log_n_instances: statement.log_n_instances }
}

/// Reads a hash-permutation statement back from its wire form.
pub fn poseidon_statement_from_wire(wire: &PoseidonStatementWire) -> (r: Result<
    PoseidonStatement,
    (),
>)
    ensures
        r is Ok,
        r->Ok_0.log_n_instances == wire.log_n_instances,
{
    Ok(PoseidonStatement { log_n_instances: wire.log_n_instances })
}

/// The number of trace rows the hash-permutation example needs, or an error
/// when the instance count is unusable.
pub fn poseidon_log_n_rows(statement: PoseidonStatement) -> (r: Result<u32, ()>)
    ensures
        r is Ok <==> POSEIDON_LOG_INSTANCES_PER_ROW <= statement.log_n_instances
            && statement.log_n_instances < 31 + POSEIDON_LOG_INSTANCES_PER_ROW,
        r is Ok ==> r->Ok_0 == statement.log_n_instances - POSEIDON_LOG_INSTANCES_PER_ROW,
{
    if statement.log_n_instances < POSEIDON_LOG_INSTANCES_PER_ROW {
        return Err(());
    }
    let log_n_rows = statement.log_n_instances - POSEIDON_LOG_INSTANCES_PER_ROW;
    if log_n_rows >= 31 {
        return Err(());
    }
    Ok(log_n_rows)
}

/// The compression-function example's statement.
#[derive(Clone, Copy, Debug, PartialEq, Eq, Structural)]
pub struct BlakeStatement {
    /// Log-number of trace rows.
    pub log_n_rows: u32,
    /// Number of rounds proven.
    pub n_rounds: u32,
}

/// The compression-function statement in wire form.
#[derive(Clone, Copy, Debug, PartialEq, Eq, Structural)]
pub struct BlakeStatementWire {
    /// Log-number of trace rows.
    pub log_n_rows: u32,
    /// Number of rounds proven.
    pub n_rounds: u32,
}

/// Converts a compression-function statement to its wire form.
pub fn blake_statement_to_wire(statement: BlakeStatement) -> (r: BlakeStatementWire)
    ensures
        r.log_n_rows == statement.log_n_rows,
        r.n_rounds == statement.n_rounds,
{
    BlakeStatementWire { log_n_rows: statement.log_n_rows, n_rounds: statement.n_rounds }
}

/// Reads a compression-function statement back from its wire form.
pub fn blake_statement_from_wire(wire: &BlakeStatementWire) -> (r: Result<BlakeStatement, ()>)
    ensures
        r is Ok,
        r->Ok_0.log_n_rows == wire.log_n_rows,
        r->Ok_0.n_rounds == wire.n_rounds,
{
    Ok(BlakeStatement { log_n_rows: wire.log_n_rows, n_rounds: wire.n_rounds })
}

/// The number of trace columns the compression-function example needs, or an
/// error when the count overflows a machine size.
pub fn blake_n_columns(statement: BlakeStatement) -> (r: Result<usize, ()>)
    ensures
        r is Ok <==> statement.n_rounds * BLAKE_ROUND_INPUT_FELTS <= usize::MAX,
        r is Ok ==> r->Ok_0 == statement.n_rounds * BLAKE_ROUND_INPUT_FELTS,
{
    if statement.n_rounds as u64 > (usize::MAX as u64) / (BLAKE_ROUND_INPUT_FELTS as u64) {
        proof {
            let q = (usize::MAX as u64) / (BLAKE_ROUND_INPUT_FELTS as u64);
            assert(statement.n_rounds * BLAKE_ROUND_INPUT_FELTS > usize::MAX) by (nonlinear_arith)
                requires
                    statement.n_rounds > q,
                    q == (usize::MAX as u64) / (BLAKE_ROUND_INPUT_FELTS as u64),
                    BLAKE_ROUND_INPUT_FELTS == 1152,
                    usize::MAX >= 0xffff_ffff,
            ;
        }
        return Err(());
    }
    proof {
        let q = (usize::MAX as u64) / (BLAKE_ROUND_INPUT_FELTS as u64);
        assert(statement.n_rounds * BLAKE_ROUND_INPUT_FELTS <= usize::MAX) by (nonlinear_arith)
            requires
                statement.n_rounds <= q,
                q == (usize::MAX as u64) / (BLAKE_ROUND_INPUT_FELTS as u64),
                BLAKE_ROUND_INPUT_FELTS == 1152,
                usize::MAX >= 0xffff_ffff,
        ;
    }
    Ok((statement.n_rounds as usize) * BLAKE_ROUND_INPUT_FELTS)
}

/// Validates a compression-function statement: the trace must be nonempty
/// and small enough, the round count positive and its column count
/// representable.
pub fn blake_validate_statement(statement: BlakeStatement) -> (r: Result<(), ()>)
    ensures
        r is Ok <==> 0 < statement.log_n_rows < 31 && statement.n_rounds > 0 && statement.n_rounds
            * BLAKE_ROUND_INPUT_FELTS <= usize::MAX,
{
    if statement.log_n_rows == 0 || statement.log_n_rows >= 31 {
        return Err(());
    }
    if statement.n_rounds == 0 {
        return Err(());
    }
    match blake_n_columns(statement) {
        Ok(_) => Ok(()),
        Err(_) => Err(()),
    }
}

/// The next seed of the trace sampler: one xorshift step with the classic
/// 13/7/17 shifts.
pub fn blake_next_seed(seed: u64) -> (r: u64)
    ensures
        r == ({
            let a = seed ^ (seed << 13);
            let b = a ^ (a >> 7);
            b ^ (b << 17)
        }),
{
    let mut x = seed;
    x = x ^ (x << 13u64);
    x = x ^ (x >> 7u64);
    x = x ^ (x << 17u64);
    x
}

} // verus!
