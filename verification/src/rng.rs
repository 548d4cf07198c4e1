//! A deterministic xorshift64* stream.
//!
//! Sample data for the commitment engine is drawn from a small deterministic
//! generator so that independently produced fixtures agree bit for bit.  The
//! stream is a pure function of its 64-bit state; nothing here is random in
//! the cryptographic sense.

use vstd::prelude::*;

verus! {

/// The multiplier of the xorshift64* output stage.
pub const OUTPUT_MULTIPLIER: u64 = 0x2545_f491_4f6c_dd1d;

/// The state that follows `s` in the xorshift64* stream.
pub open spec fn xorshift_next(s: u64) -> u64 {
    let a = s ^ (s >> 12);
    let b = a ^ (a << 25);
    b ^ (b >> 27)
}

/// The output word produced while stepping from state `s`.
pub open spec fn xorshift_out(s: u64) -> u64 {
    xorshift_next(s).wrapping_mul(OUTPUT_MULTIPLIER)
}

/// Advances the xorshift64* state once and returns the output word.
pub fn next_u64(state: &mut u64) -> (r: u64)
    ensures
        *final(state) == xorshift_next(*old(state)),
        r == xorshift_out(*old(state)),
{
    let mut x = *state;
    x = x ^ (x >> 12u64);
    x = x ^ (x << 25u64);
    x = x ^ (x >> 27u64);
    *state = x;
    x.wrapping_mul(OUTPUT_MULTIPLIER)
}

/// The first `c` little-endian bytes of a 64-bit word (`c <= 8`).
pub open spec fn le_bytes_of(x: u64, c: nat) -> Seq<u8> {
    Seq::new(c, |j: int| (x >> (8 * j) as u64) as u8)
}

/// The next `n` bytes of the stream from state `s`: successive output words
/// serialized little-endian, the last word truncated to the remainder.
pub open spec fn stream_bytes(s: u64, n: nat) -> Seq<u8>
    decreases n,
{
    if n == 0 {
        Seq::empty()
    } else if n >= 8 {
        le_bytes_of(xorshift_out(s), 8) + stream_bytes(xorshift_next(s), (n - 8) as nat)
    } else {
        le_bytes_of(xorshift_out(s), n)
    }
}

/// The state left behind after drawing `n` bytes: one step per started block
/// of eight bytes.
pub open spec fn stream_bytes_state(s: u64, n: nat) -> u64
    decreases n,
{
    if n == 0 {
        s
    } else if n >= 8 {
        stream_bytes_state(xorshift_next(s), (n - 8) as nat)
    } else {
        xorshift_next(s)
    }
}

/// Draws `n` bytes from the stream: the little-endian bytes of successive
/// output words, the last word truncated to the remainder; consumes exactly
/// one draw per started block of eight bytes.
pub fn fill_bytes(state: &mut u64, n: usize) -> (r: Vec<u8>)
    ensures
        r@ == stream_bytes(*old(state), n as nat),
        r@.len() == n,
        *final(state) == stream_bytes_state(*old(state), n as nat),
{
    let ghost s0 = *state;
    let mut r: Vec<u8> = Vec::new();
    proof {
        assert(stream_bytes(s0, 0) =~= Seq::<u8>::empty());
    }
    while r.len() < n
        invariant
            r@.len() <= n,
            stream_bytes(s0, n as nat) == r@ + stream_bytes(*state, (n - r@.len()) as nat),
            stream_bytes_state(s0, n as nat) == stream_bytes_state(
                *state,
                (n - r@.len()) as nat,
            ),
        decreases n - r@.len(),
    {
        let ghost s_here = *state;
        let ghost done = r@.len();
        let ghost rpre = r@;
        let block = next_u64(state);
        let mut j: usize = 0;
        let before = r.len();
        while j < 8 && r.len() < n
            invariant
                before <= r@.len() <= n,
                j <= 8,
                before < n,
                before == rpre.len(),
                r@.len() == before + j,
                block == xorshift_out(s_here),
                r@ == rpre + le_bytes_of(block, j as nat),
            decreases 8 - j,
        {
            let byte = ((block >> ((8 * j) as u64)) & 0xff) as u8;
            proof {
                let jj = (8 * j) as u64;
                assert(((block >> jj) & 0xff) as u8 == (block >> jj) as u8) by (bit_vector);
                assert(rpre + le_bytes_of(block, (j + 1) as nat) =~= (rpre + le_bytes_of(
                    block,
                    j as nat,
                )).push((block >> jj) as u8));
            }
            r.push(byte);
            j += 1;
        }
        proof {
            let taken = (r@.len() - done) as nat;
            // This block contributes exactly the truncated word the stream
            // spec prescribes.
            assert(stream_bytes(s_here, (n - done) as nat) == le_bytes_of(block, taken)
                + stream_bytes(*state, (n - r@.len()) as nat)) by {
                if n - done >= 8 {
                    assert(taken == 8);
                } else {
                    assert(taken == n - done);
                    assert(stream_bytes(*state, 0) =~= Seq::<u8>::empty());
                    assert(le_bytes_of(block, taken) + Seq::<u8>::empty() =~= le_bytes_of(
                        block,
                        taken,
                    ));
                }
            }
            assert(stream_bytes(s0, n as nat) =~= r@ + stream_bytes(
                *state,
                (n - r@.len()) as nat,
            ));
            assert(stream_bytes_state(s0, n as nat) == stream_bytes_state(
                *state,
                (n - r@.len()) as nat,
            )) by {
                if n - done >= 8 {
                    assert(taken == 8);
                } else {
                    assert(taken == n - done);
                    assert(stream_bytes_state(*state, 0) == *state);
                }
            }
        }
    }
    proof {
        assert(stream_bytes(*state, 0) =~= Seq::<u8>::empty());
        assert(stream_bytes(s0, n as nat) =~= r@);
    }
    r
}

/// Draws a 128-bit scalar: the high word first, then the low word; consumes
/// exactly two draws.
pub fn sample_scalar_u128(state: &mut u64) -> (r: u128)
    ensures
        r == ((xorshift_out(*old(state)) as u128) << 64u128) | (xorshift_out(
            xorshift_next(*old(state)),
        ) as u128),
        *final(state) == xorshift_next(xorshift_next(*old(state))),
{
    let hi = next_u64(state);
    let lo = next_u64(state);
    ((hi as u128) << 64u128) | (lo as u128)
}

/// The result and final state of drawing one canonical residue from state
/// `s`, with `fuel` draws left before the clamped fallback: the first
/// 31-bit-masked draw that is neither the modulus nor (under `non_zero`)
/// zero; when every draw in the budget is rejected, one further draw is
/// clamped into range directly.
pub open spec fn sample_m31_spec(s: u64, non_zero: bool, fuel: nat) -> (u32, u64)
    decreases fuel,
{
    if fuel == 0 {
        let f = (xorshift_out(s) as u32) & 0x3fff_ffff;
        (
            if non_zero && f == 0 {
                1
            } else {
                f
            },
            xorshift_next(s),
        )
    } else {
        let c = (xorshift_out(s) as u32) & 0x7fff_ffff;
        if c != 0x7fff_ffff && !(non_zero && c == 0) {
            (c, xorshift_next(s))
        } else {
            sample_m31_spec(xorshift_next(s), non_zero, (fuel - 1) as nat)
        }
    }
}

/// The number of rejected draws tolerated before the fallback clamps.
pub const M31_SAMPLE_FUEL: u32 = 64;

/// Draws a canonical base-field residue; with `non_zero` the residue is also
/// nonzero.  Non-canonical draws are rejected, exactly as
/// [`sample_m31_spec`] prescribes; so that every call terminates, a bounded
/// budget of rejected draws is tolerated before one further draw is clamped
/// into range directly (in an unbounded-retry formulation the clamp would
/// never be reached with overwhelming probability).
pub fn sample_m31(state: &mut u64, non_zero: bool) -> (r: u32)
    ensures
        (r, *final(state)) == sample_m31_spec(*old(state), non_zero, M31_SAMPLE_FUEL as nat),
        r < crate::hashing::FIELD_MODULUS,
        non_zero ==> r != 0,
{
    let ghost s0 = *state;
    let mut attempts: u32 = 0;
    while attempts < M31_SAMPLE_FUEL
        invariant
            attempts <= M31_SAMPLE_FUEL,
            s0 == *old(state),
            sample_m31_spec(s0, non_zero, M31_SAMPLE_FUEL as nat) == sample_m31_spec(
                *state,
                non_zero,
                (M31_SAMPLE_FUEL - attempts) as nat,
            ),
        decreases M31_SAMPLE_FUEL - attempts,
    {
        let ghost s_here = *state;
        let word = next_u64(state);
        let candidate = (word as u32) & 0x7fff_ffff;
        proof {
            assert((word as u32) & 0x7fff_ffff <= 0x7fff_ffff) by (bit_vector);
            assert(candidate == (xorshift_out(s_here) as u32) & 0x7fff_ffff);
        }
        if candidate != 0x7fff_ffff && (!non_zero || candidate != 0) {
            proof {
                assert(sample_m31_spec(s_here, non_zero, (M31_SAMPLE_FUEL - attempts) as nat) == (
                candidate,
                *state,
                ));
            }
            return candidate;
        }
        attempts += 1;
    }
    let ghost s_end = *state;
    let word = next_u64(state);
    let fallback = (word as u32) & 0x3fff_ffff;
    proof {
        assert((word as u32) & 0x3fff_ffff <= 0x3fff_ffff) by (bit_vector);
        assert(fallback == (xorshift_out(s_end) as u32) & 0x3fff_ffff);
        assert(sample_m31_spec(s_end, non_zero, 0) == (
            if non_zero && fallback == 0 {
                1u32
            } else {
                fallback
            },
            *state,
        ));
    }
    if non_zero && fallback == 0 {
        1
    } else {
        fallback
    }
}

/// Draws one secure-field evaluation coordinate-wise.
pub fn sample_secure_eval(state: &mut u64) -> (r: crate::fri::SecureEval)
    ensures
        r.a < crate::hashing::FIELD_MODULUS,
        r.b < crate::hashing::FIELD_MODULUS,
        r.c < crate::hashing::FIELD_MODULUS,
        r.d < crate::hashing::FIELD_MODULUS,
{
    let a = sample_m31(state, false);
    let b = sample_m31(state, false);
    let c = sample_m31(state, false);
    let d = sample_m31(state, false);
    crate::fri::SecureEval { a, b, c, d }
}

/// Draws an arbitrary 32-byte digest.
pub fn sample_digest(state: &mut u64) -> (r: Vec<u8>)
    ensures
        crate::hashing::is_digest(r@),
{
    fill_bytes(state, 32)
}

} // verus!
