//! Deterministic `xorshift64*` pseudo-random generator.
use vstd::prelude::*;

verus! {

/// Multiplier of the `xorshift64*` output scramble.
pub const SCRAMBLE: u64 = 0x2545_F491_4F6C_DD1D;

/// State substituted for a zero seed (`xorshift` degenerates at zero).
pub const SEED_FALLBACK: u64 = 0x9E37_79B9_7F4A_7C15;

/// One `xorshift` state transition: `x ^= x >> 12; x ^= x << 25; x ^= x >> 27`.
pub open spec fn xorshift(x: u64) -> u64 {
    let a = x ^ (x >> 12u64);
    let b = a ^ (a << 25u64);
    b ^ (b >> 27u64)
}

/// The state a seed is mapped to.
pub open spec fn seeded_state(seed: u64) -> u64 {
    if seed == 0 {
        SEED_FALLBACK
    } else {
        seed
    }
}

/// The state after `k` calls of `next_u64` on a generator made from `seed`.
pub open spec fn state_after(seed: u64, k: nat) -> u64
    decreases k,
{
    if k == 0 {
        seeded_state(seed)
    } else {
        xorshift(state_after(seed, (k - 1) as nat))
    }
}

/// What call number `k` (from zero) of `next_u64` returns on a generator
/// made from `seed`.
pub open spec fn output_at(seed: u64, k: nat) -> u64 {
    state_after(seed, k + 1).wrapping_mul(SCRAMBLE)
}

/// Deterministic `xorshift64*` pseudo-random generator.
///
/// A small reproducible PRNG for seeded array initialization; not
/// cryptographically secure. The state is a single non-zero `u64`.
#[derive(Clone, Copy, Debug)]
pub struct Xorshift64 {
    state: u64,
}

impl View for Xorshift64 {
    type V = u64;

    closed spec fn view(&self) -> u64 {
        self.state
    }
}

impl Xorshift64 {
    /// The state is never zero.
    #[verifier::type_invariant]
    spec fn nonzero(self) -> bool {
        self.state != 0
    }

    /// Create a generator from a seed; seed `0` is remapped to a fixed
    /// non-zero constant so the stream is always well-defined.
    pub fn new(seed: u64) -> (r: Self)
        ensures
            r@ == seeded_state(seed),
            r@ != 0,
    {
        let state = if seed == 0 {
            SEED_FALLBACK
        } else {
            seed
        };
        Xorshift64 { state }
    }

    /// Advance the state and return the next 64-bit value.
    pub fn next_u64(&mut self) -> (r: u64)
        ensures
            final(self)@ == xorshift(old(self)@),
            r == final(self)@.wrapping_mul(SCRAMBLE),
            final(self)@ != 0,
            r != 0,
    {
        proof {
            use_type_invariant(&*self);
        }
        let mut x = self.state;
        proof {
            lemma_xorshift_nonzero(x);
        }
        x ^= x >> 12;
        x ^= x << 25;
        x ^= x >> 27;
        self.state = x;
        proof {
            lemma_scramble_nonzero(x);
        }
        x.wrapping_mul(SCRAMBLE)
    }
}

/// The transition maps non-zero states to non-zero states, so a generator
/// never reaches the degenerate all-zero state.
pub proof fn lemma_xorshift_nonzero(x: u64)
    requires
        x != 0,
    ensures
        xorshift(x) != 0,
{
    let a = x ^ (x >> 12u64);
    assert(a != 0) by (bit_vector)
        requires
            x != 0,
            a == x ^ (x >> 12u64),
    ;
    let b = a ^ (a << 25u64);
    assert(b != 0) by (bit_vector)
        requires
            a != 0,
            b == a ^ (a << 25u64),
    ;
    let c = b ^ (b >> 27u64);
    assert(c != 0) by (bit_vector)
        requires
            b != 0,
            c == b ^ (b >> 27u64),
    ;
}

/// The output scramble maps non-zero states to non-zero outputs: the
/// multiplier is odd, hence invertible modulo `2^64`.
pub proof fn lemma_scramble_nonzero(x: u64)
    requires
        x != 0,
    ensures
        x.wrapping_mul(SCRAMBLE) != 0,
{
    let m: int = 0x1_0000_0000_0000_0000;
    let c: int = SCRAMBLE as int;
    let inv: int = 0x59071d96d81ecd35;
    let j: int = 934034299265436267;
    assert(c * inv == 1 + j * m);
    let xi = x as int;
    if (xi * c) % m == 0 {
        let k = (xi * c) / m;
        assert(xi * c == k * m) by (nonlinear_arith)
            requires
                (xi * c) % m == 0,
                k == (xi * c) / m,
                m > 0,
        ;
        assert(xi == (k * inv - xi * j) * m) by (nonlinear_arith)
            requires
                xi * c == k * m,
                c * inv == 1 + j * m,
        ;
        assert(false) by (nonlinear_arith)
            requires
                xi == (k * inv - xi * j) * m,
                0 < xi < m,
        ;
    }
}

/// The stream of a generator depends on its seed alone, a zero seed gives
/// the stream of [`SEED_FALLBACK`], and no state or output of any stream is
/// zero.
pub proof fn lemma_seed_streams(seed: u64, k: nat)
    ensures
        output_at(0, k) == output_at(SEED_FALLBACK, k),
        state_after(seed, k) != 0,
        output_at(seed, k) != 0,
    decreases k,
{
    assert(seeded_state(0) == seeded_state(SEED_FALLBACK));
    assert(state_after(0, k) == state_after(SEED_FALLBACK, k)) by {
        lemma_same_start(k);
    }
    if k > 0 {
        lemma_seed_streams(seed, (k - 1) as nat);
        lemma_xorshift_nonzero(state_after(seed, (k - 1) as nat));
    }
    lemma_xorshift_nonzero(state_after(seed, k));
    lemma_scramble_nonzero(state_after(seed, k + 1));
    lemma_same_start(k + 1);
}

proof fn lemma_same_start(k: nat)
    ensures
        state_after(0, k) == state_after(SEED_FALLBACK, k),
    decreases k,
{
    if k > 0 {
        lemma_same_start((k - 1) as nat);
    }
}

} // verus!
