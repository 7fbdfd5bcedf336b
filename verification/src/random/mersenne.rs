//! The 64-bit Mersenne Twister as a mathematical sequence.
//!
//! A seed fixes an infinite sequence of 64-bit words: the first 312 come from
//! a linear-congruential recurrence over the previous word, every later one
//! from the twist recurrence over three earlier words. The generator's
//! outputs are the tempered words from position 312 on.
use vstd::prelude::*;

verus! {

/// Number of words in one block of the state.
pub const STATE_WORDS: usize = 312;

/// Distance to the word that the twist mixes in.
pub const SHIFT_WORDS: usize = 156;

/// The low 31 bits of a word.
pub const LOWER_MASK: u64 = 0x7FFF_FFFF;

/// The high 33 bits of a word.
pub const UPPER_MASK: u64 = 0xFFFF_FFFF_8000_0000;

/// The twist matrix, XORed in where the combined word is odd.
pub const MATRIX_A: u64 = 0xB502_6F5A_A966_19E9;

/// Multiplier of the seeding recurrence.
pub const SEED_MULTIPLIER: u64 = 6364136223846793005;

/// The seeding recurrence: the word at position `i` from the one before it.
pub open spec fn seed_step(prev: u64, i: nat) -> u64 {
    ((SEED_MULTIPLIER * (prev ^ (prev >> 62)) + i) % 0x1_0000_0000_0000_0000) as u64
}

/// The twist recurrence: the high bits of `first`, the low bits of `second`,
/// shifted down, conditionally XORed with the matrix, and XORed into `far`.
pub open spec fn twist_word(first: u64, second: u64, far: u64) -> u64 {
    let x = (first & UPPER_MASK) | (second & LOWER_MASK);
    if x % 2 != 0 {
        far ^ ((x >> 1) ^ MATRIX_A)
    } else {
        far ^ (x >> 1)
    }
}

/// The four tempering passes that turn a state word into an output.
pub open spec fn temper(word: u64) -> u64 {
    let a = word ^ ((word >> 29) & 0x5555_5555_5555_5555);
    let b = a ^ ((a << 17) & 0x71D6_7FFF_EDA6_0000);
    let c = b ^ ((b << 37) & 0xFFF7_EEE0_0000_0000);
    c ^ (c >> 43)
}

/// The word at position `k` of the sequence that `seed` fixes.
pub open spec fn word(seed: u64, k: nat) -> u64
    decreases k,
{
    if k == 0 {
        seed
    } else if k < STATE_WORDS {
        seed_step(word(seed, (k - 1) as nat), k)
    } else {
        twist_word(
            word(seed, (k - STATE_WORDS) as nat),
            word(seed, (k - STATE_WORDS + 1) as nat),
            word(seed, (k - SHIFT_WORDS) as nat),
        )
    }
}

/// The `i`-th output of a generator seeded with `seed`.
pub open spec fn output(seed: u64, i: nat) -> u64 {
    temper(word(seed, STATE_WORDS as nat + i))
}

/// The whole output stream of a generator seeded with `seed`.
pub open spec fn output_stream(seed: u64) -> spec_fn(nat) -> u64 {
    |i: nat| output(seed, i)
}

} // verus!
