use vstd::prelude::*;

verus! {

/// Galois-form linear-feedback shift register over an 8-bit state.
///
/// Each step outputs the low bit of the state, then shifts the state right
/// by one and inserts at the top the parity of `state & poly`. The whole
/// stream is a pure function of the polynomial and the seed, which is what
/// makes the descrambler self-synchronizing: two registers built alike
/// produce the same whitening sequence with no side channel.
pub struct LSFR {
    poly: u8,
    state: u8,
}

/// The parity (number of set bits, modulo two) of `x`: the exclusive-or of
/// all eight bits.
pub open spec fn parity8(x: u8) -> bool {
    ((x ^ (x >> 1u8) ^ (x >> 2u8) ^ (x >> 3u8) ^ (x >> 4u8) ^ (x >> 5u8) ^ (x >> 6u8) ^ (x
        >> 7u8)) & 1u8) == 1u8
}

/// The bit a register outputs in a given state: the low bit.
pub open spec fn lfsr_output(state: u8) -> bool {
    (state & 1u8) != 0u8
}

/// The state after one step: shift right, feeding the parity of
/// `state & poly` in at the top.
pub open spec fn lfsr_next_state(poly: u8, state: u8) -> u8 {
    ((if parity8(state & poly) {
        0x80u8
    } else {
        0x00u8
    }) | (state >> 1u8)) as u8
}

/// The state after `n` steps from `seed`.
pub open spec fn lfsr_state_at(poly: u8, seed: u8, n: nat) -> u8
    decreases n,
{
    if n == 0 {
        seed
    } else {
        lfsr_next_state(poly, lfsr_state_at(poly, seed, (n - 1) as nat))
    }
}

/// The `n`-th output bit of a register seeded with `seed`.
pub open spec fn lfsr_bit_at(poly: u8, seed: u8, n: nat) -> bool {
    lfsr_output(lfsr_state_at(poly, seed, n))
}

/// Folding a byte onto itself by half, quarter and single shifts leaves the
/// parity of all eight bits in the low bit.
proof fn lemma_parity_fold(m: u8)
    by (bit_vector)
    ensures
        (((m ^ (m >> 4u8)) ^ ((m ^ (m >> 4u8)) >> 2u8) ^ (((m ^ (m >> 4u8)) ^ ((m ^ (m
            >> 4u8)) >> 2u8)) >> 1u8)) & 1u8) == (if parity8(m) {
            1u8
        } else {
            0u8
        }),
{
}

impl LSFR {
    pub closed spec fn poly(&self) -> u8 {
        self.poly
    }

    pub closed spec fn state(&self) -> u8 {
        self.state
    }

    /// A register with the given generator polynomial mask and seed.
    pub fn new(poly: u8, state: u8) -> (r: Self)
        ensures
            r.poly() == poly,
            r.state() == state,
    {
        Self { poly, state }
    }

    /// One step: returns the current low bit and advances the state.
    pub fn next(&mut self) -> (r: Option<bool>)
        ensures
            r == Some(lfsr_output(old(self).state())),
            final(self).poly() == old(self).poly(),
            final(self).state() == lfsr_next_state(old(self).poly(), old(self).state()),
    {
        let out = (self.state & 1u8) != 0;
        let masked = self.state & self.poly;
        let folded4 = masked ^ (masked >> 4);
        let folded2 = folded4 ^ (folded4 >> 2);
        let folded1 = folded2 ^ (folded2 >> 1);
        let new_bit = folded1 & 1u8;
        proof {
            lemma_parity_fold(masked);
        }
        let shifted = self.state >> 1;
        self.state = (new_bit << 7) | shifted;
        proof {
            assert(forall|s: u8| ((1u8 << 7u8) | s) == ((0x80u8 | s) as u8)) by (bit_vector);
            assert(forall|s: u8| ((0u8 << 7u8) | s) == ((0x00u8 | s) as u8)) by (bit_vector);
        }
        Some(out)
    }
}

/// Two registers constructed with the same polynomial and the same seed
/// produce identical output streams: the `n`-th bit depends on nothing else.
pub proof fn lemma_lfsr_deterministic(poly1: u8, seed1: u8, poly2: u8, seed2: u8, n: nat)
    requires
        poly1 == poly2,
        seed1 == seed2,
    ensures
        lfsr_bit_at(poly1, seed1, n) == lfsr_bit_at(poly2, seed2, n),
{
}

} // verus!
