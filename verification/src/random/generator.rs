//! The generator interface, the Mersenne Twister, and the integer sampler.
use crate::math::basic::from_to::{u128i128, u16i16, u32i32, u64i64, u8i8};
use crate::random::integer::{lemma_values_valid, outcome, outcomes, values, SampleInt};
use crate::random::mersenne::{
    output_stream, twist_word, word, LOWER_MASK, MATRIX_A, SEED_MULTIPLIER, STATE_WORDS, UPPER_MASK,
};
use crate::random::model::{
    accept_limit, consecutive, draw, draw_below, draw_distinct, draw_in_range, draw_k,
    draw_positions, draw_repeated, lemma_accept_limit, lemma_draw_k_valid,
    lemma_shuffled_is_permutation, lemma_shuffled_map, lemma_slices_unfold, pointer_width, shuffled,
    slices, swapped, SampleError, SamplerView, Width, RETRY_LIMIT,
};
use crate::random::partition::{
    ascending_order, at_most, clones_of, draw_cuts, lemma_ascending_order_valid,
    lemma_draw_cuts_valid, lemma_map_keeps_permutation, lemma_parts_concatenate,
    lemma_parts_nonempty, lemma_sorted_is_ascending_order, part_start, parts_at,
};
use std::collections::HashSet;
use std::ops::Range;
use std::time::{Duration, SystemTimeError, UNIX_EPOCH};
use vstd::prelude::*;
use vstd::relations::sorted_by;

verus! {

/// A seedable source of pseudorandom 64-bit words.
///
/// A generator stands for a fixed infinite stream of words and a cursor into
/// it. Drawing a word returns the one under the cursor and moves the cursor
/// by one; the stream itself never changes until the generator is reseeded.
/// Cloning a generator duplicates its whole future output.
pub trait Pseudorandom64: Clone {
    /// The representation invariant.
    spec fn wf(&self) -> bool;

    /// The stream of words this generator walks along.
    spec fn stream(&self) -> spec_fn(nat) -> u64;

    /// The number of words drawn since the last seeding.
    spec fn cursor(&self) -> nat;

    /// The stream that a given seed fixes.
    spec fn seeded(seed: u64) -> spec_fn(nat) -> u64;

    /// A clone walks the same stream from the same position.
    proof fn lemma_clone_keeps_stream(&self, other: &Self)
        requires
            self.wf(),
            cloned(*self, *other),
        ensures
            other.wf(),
            other.stream() == self.stream(),
            other.cursor() == self.cursor(),
    ;

    /// Creates a generator from `seed`, or from the system clock where there
    /// is none.
    fn new(seed: Option<u64>) -> (r: Self)
        ensures
            r.wf(),
            r.cursor() == 0,
            seed matches Some(s) ==> r.stream() == Self::seeded(s),
            exists|s: u64| r.stream() == Self::seeded(s),
    ;

    /// Restarts the generator on the stream of `seed`.
    fn seed(&mut self, seed: u64)
        ensures
            final(self).wf(),
            final(self).cursor() == 0,
            final(self).stream() == Self::seeded(seed),
    ;

    /// Draws the next word.
    fn gen(&mut self) -> (r: u64)
        requires
            old(self).wf(),
        ensures
            final(self).wf(),
            final(self).stream() == old(self).stream(),
            final(self).cursor() == old(self).cursor() + 1,
            r == (old(self).stream())(old(self).cursor()),
    ;
}

/// The output that the generator gives at its `i`-th draw from now.
pub open spec fn upcoming<G: Pseudorandom64>(g: G, i: nat) -> u64 {
    (g.stream())(g.cursor() + i)
}

/// Two generators seeded alike, after equally many draws, give the same
/// outputs forever.
pub proof fn lemma_same_seed_same_outputs<G: Pseudorandom64>(a: G, b: G, seed: u64)
    requires
        a.stream() == G::seeded(seed),
        b.stream() == G::seeded(seed),
        a.cursor() == b.cursor(),
    ensures
        forall|i: nat| #[trigger] upcoming(a, i) == upcoming(b, i),
{
}

/// The error of std's clock for a time before the one asked about.
#[verifier::external_type_specification]
#[verifier::external_body]
pub struct ExSystemTimeError(std::time::SystemTimeError);

/// The time since the Unix epoch, by `SystemTime::elapsed` of std on
/// `UNIX_EPOCH`; an error where the system clock stands before the epoch.
/// Nothing is claimed of the value: it differs from call to call.
#[verifier::external_body]
fn since_epoch() -> Result<Duration, SystemTimeError> {
    UNIX_EPOCH.elapsed()
}

/// The whole microseconds of a duration, by `Duration::as_micros` of std.
/// Nothing is claimed of the value.
#[verifier::external_body]
fn whole_micros(d: &Duration) -> u128 {
    d.as_micros()
}

/// A seed from the system clock: the microseconds since the Unix epoch,
/// cut to 64 bits, and 0 where the clock stands before the epoch.
fn clock_micros() -> u64 {
    match since_epoch() {
        Ok(d) => seed_of_micros(Some(whole_micros(&d))),
        Err(_) => seed_of_micros(None),
    }
}

/// The seed that a reading of the clock stands for: the microseconds read,
/// cut to their lowest 64 bits, and 0 where there was nothing to read.
pub open spec fn micros_as_seed(reading: Option<u128>) -> u64 {
    match reading {
        Some(micros) => (micros % 0x1_0000_0000_0000_0000) as u64,
        None => 0,
    }
}

/// Turns a reading of the clock, in microseconds since the Unix epoch, into
/// a seed; a clock that stands before the epoch gives no reading.
pub fn seed_of_micros(reading: Option<u128>) -> (r: u64)
    ensures
        r == micros_as_seed(reading),
{
    match reading {
        Some(micros) => (micros % 0x1_0000_0000_0000_0000) as u64,
        None => 0,
    }
}

/// The 64-bit Mersenne Twister (MT19937-64).
///
/// The state holds one block of 312 consecutive words of the sequence that
/// the seed fixes, and an index into the block. When the block is used up,
/// the twist replaces it in place by the next 312 words.
pub struct MT19937_64 {
    mt: [u64; 312],
    index: usize,
    seed: Ghost<u64>,
    block: Ghost<nat>,
}

impl MT19937_64 {
    /// Position in the word sequence of the first word of the block held.
    closed spec fn block_start(&self) -> nat {
        self.block@ * STATE_WORDS as nat
    }

    /// Replaces the block held by the next one and rewinds the index.
    fn twist(&mut self)
        requires
            old(self).wf(),
            old(self).index == STATE_WORDS,
        ensures
            final(self).wf(),
            final(self).index == 0,
            final(self).seed == old(self).seed,
            final(self).block@ == old(self).block@ + 1,
    {
        let ghost seed = self.seed@;
        let ghost start = self.block_start();
        let mut i: usize = 0;
        while i < 312
            invariant
                i <= 312,
                self.index == old(self).index,
                self.seed == old(self).seed,
                self.block == old(self).block,
                seed == self.seed@,
                start == self.block_start(),
                forall|j: int| 0 <= j < i ==> self.mt[j] == word(seed, (start + 312 + j) as nat),
                forall|j: int| i <= j < 312 ==> self.mt[j] == word(seed, (start + j) as nat),
            decreases 312 - i,
        {
            let first = self.mt[i];
            let second = self.mt[(i + 1) % 312];
            let far = self.mt[(i + 156) % 312];
            let x = (first & UPPER_MASK) | (second & LOWER_MASK);
            let mut x_a = x >> 1;
            if x % 2 != 0 {
                x_a = x_a ^ MATRIX_A;
            }
            proof {
                let k = (start + 312 + i) as nat;
                assert(first == word(seed, (k - 312) as nat));
                assert(second == word(seed, (k - 312 + 1) as nat));
                assert(far == word(seed, (k - 156) as nat));
                assert(word(seed, k) == twist_word(first, second, far));
            }
            self.mt[i] = far ^ x_a;
            i += 1;
        }
        self.index = 0;
        proof {
            self.block@ = self.block@ + 1;
        }
    }
}

impl Clone for MT19937_64 {
    /// The clone is equal to what was cloned: it will produce the same
    /// outputs.
    fn clone(&self) -> (r: Self)
        ensures
            r == *self,
    {
        MT19937_64 { mt: self.mt, index: self.index, seed: self.seed, block: self.block }
    }
}

impl Pseudorandom64 for MT19937_64 {
    closed spec fn wf(&self) -> bool {
        &&& self.index <= STATE_WORDS
        &&& self.block@ == 0 ==> self.index == STATE_WORDS
        &&& forall|j: int|
            0 <= j < STATE_WORDS ==> self.mt[j] == word(self.seed@, (self.block_start() + j) as nat)
    }

    closed spec fn stream(&self) -> spec_fn(nat) -> u64 {
        output_stream(self.seed@)
    }

    closed spec fn cursor(&self) -> nat {
        (self.block_start() + self.index - STATE_WORDS) as nat
    }

    open spec fn seeded(seed: u64) -> spec_fn(nat) -> u64 {
        output_stream(seed)
    }

    proof fn lemma_clone_keeps_stream(&self, other: &Self) {
    }

    fn new(seed: Option<u64>) -> (r: Self) {
        let mut rng = MT19937_64 { mt: [0;312], index: 0, seed: Ghost(0), block: Ghost(0) };
        match seed {
            Some(seed) => rng.seed(seed),
            None => rng.seed(clock_micros()),
        }
        rng
    }

    fn seed(&mut self, seed: u64) {
        self.index = 312;
        self.mt[0] = seed;
        let mut i: usize = 1;
        while i < 312
            invariant
                1 <= i <= 312,
                self.index == 312,
                forall|j: int| 0 <= j < i ==> self.mt[j] == word(seed, j as nat),
            decreases 312 - i,
        {
            let prev = self.mt[i - 1];
            let mixed = prev ^ (prev >> 62);
            let wide: u128 = (SEED_MULTIPLIER as u128) * (mixed as u128) + (i as u128);
            self.mt[i] = (wide % 0x1_0000_0000_0000_0000) as u64;
            i += 1;
        }
        proof {
            self.seed@ = seed;
            self.block@ = 0;
        }
    }

    fn gen(&mut self) -> (r: u64) {
        if self.index >= 312 {
            self.twist();
        }
        let mut y = self.mt[self.index];
        y = y ^ ((y >> 29) & 0x5555_5555_5555_5555);
        y = y ^ ((y << 17) & 0x71D6_7FFF_EDA6_0000);
        y = y ^ ((y << 37) & 0xFFF7_EEE0_0000_0000);
        y = y ^ (y >> 43);
        self.index += 1;
        y
    }
}

/// A generator whose every word is its seed.
///
/// It is the simplest lawful generator, and the one that brings rejection
/// sampling to its retry limit: with a seed that is never accepted, no
/// number of draws helps.
pub struct ConstantSource {
    word: u64,
    drawn: Ghost<nat>,
}

/// The stream that repeats `seed` forever.
pub open spec fn constant_stream(seed: u64) -> spec_fn(nat) -> u64 {
    |i: nat| seed
}

impl Clone for ConstantSource {
    /// The clone is equal to what was cloned.
    fn clone(&self) -> (r: Self)
        ensures
            r == *self,
    {
        ConstantSource { word: self.word, drawn: self.drawn }
    }
}

impl Pseudorandom64 for ConstantSource {
    open spec fn wf(&self) -> bool {
        true
    }

    closed spec fn stream(&self) -> spec_fn(nat) -> u64 {
        constant_stream(self.word)
    }

    closed spec fn cursor(&self) -> nat {
        self.drawn@
    }

    open spec fn seeded(seed: u64) -> spec_fn(nat) -> u64 {
        constant_stream(seed)
    }

    proof fn lemma_clone_keeps_stream(&self, other: &Self) {
    }

    fn new(seed: Option<u64>) -> (r: Self) {
        let word = match seed {
            Some(seed) => seed,
            None => clock_micros(),
        };
        let r = ConstantSource { word, drawn: Ghost(0) };
        assert(r.stream() == Self::seeded(word));
        r
    }

    fn seed(&mut self, seed: u64) {
        self.word = seed;
        self.drawn = Ghost(0);
    }

    fn gen(&mut self) -> (r: u64) {
        proof {
            self.drawn@ = self.drawn@ + 1;
        }
        self.word
    }
}

/// An integer sampler over a generator of its own.
///
/// Construction clones the generator handed in, so the sampler walks its
/// stream independently from then on. Values narrower than a word are cut
/// from a buffered word, one buffer for each narrow width, and a fresh word
/// is drawn only when a buffer is used up.
pub struct IntGenerator<RNG: Pseudorandom64> {
    rng: RNG,
    v_1: u64,
    cnt_1: u8,
    v_2: u64,
    cnt_2: u8,
    v_4: u64,
    cnt_4: u8,
}

impl<RNG: Pseudorandom64> View for IntGenerator<RNG> {
    type V = SamplerView;

    /// The cursor of the generator and what is left in the three buffers.
    closed spec fn view(&self) -> SamplerView {
        SamplerView {
            pos: self.rng.cursor(),
            queue8: slices(self.v_1 as nat / 0x100, 0x100, (8 - self.cnt_1) as nat),
            queue16: slices(self.v_2 as nat / 0x1_0000, 0x1_0000, ((8 - self.cnt_2) / 2) as nat),
            queue32: slices(
                self.v_4 as nat / 0x1_0000_0000,
                0x1_0000_0000,
                ((8 - self.cnt_4) / 4) as nat,
            ),
        }
    }
}

impl<RNG: Pseudorandom64> Clone for IntGenerator<RNG> {
    /// The clone is in the same state: it will give the same samples.
    fn clone(&self) -> (r: Self)
        ensures
            self.wf() ==> r.wf() && r.source() == self.source() && r@ == self@,
    {
        let r = IntGenerator {
            rng: self.rng.clone(),
            v_1: self.v_1,
            cnt_1: self.cnt_1,
            v_2: self.v_2,
            cnt_2: self.cnt_2,
            v_4: self.v_4,
            cnt_4: self.cnt_4,
        };
        proof {
            if self.wf() {
                self.rng.lemma_clone_keeps_stream(&r.rng);
            }
        }
        r
    }
}

impl<RNG: Pseudorandom64> IntGenerator<RNG> {
    /// The representation invariant: the generator is well formed and each
    /// buffer counter is one that the sampler itself can have set.
    pub closed spec fn wf(&self) -> bool {
        &&& self.rng.wf()
        &&& 1 <= self.cnt_1 <= 8
        &&& (self.cnt_2 == 2 || self.cnt_2 == 4 || self.cnt_2 == 6 || self.cnt_2 == 8)
        &&& (self.cnt_4 == 4 || self.cnt_4 == 8)
    }

    /// The stream of words that the sampler's generator walks along.
    pub closed spec fn source(&self) -> spec_fn(nat) -> u64 {
        self.rng.stream()
    }

    /// Creates a sampler over a clone of `rng`, with empty buffers.
    pub fn new(rng: &RNG) -> (r: IntGenerator<RNG>)
        requires
            rng.wf(),
        ensures
            r.wf(),
            r.source() == rng.stream(),
            r@ == (SamplerView {
                pos: rng.cursor(),
                queue8: Seq::empty(),
                queue16: Seq::empty(),
                queue32: Seq::empty(),
            }),
    {
        let own = rng.clone();
        proof {
            rng.lemma_clone_keeps_stream(&own);
        }
        let r = IntGenerator {
            rng: own,
            v_1: 0u64,
            cnt_1: 8,
            v_2: 0u64,
            cnt_2: 8,
            v_4: 0u64,
            cnt_4: 8,
        };
        assert(r@.queue8 =~= Seq::empty());
        assert(r@.queue16 =~= Seq::empty());
        assert(r@.queue32 =~= Seq::empty());
        r
    }

    /// Draws an 8-bit value: the next byte of the buffered word, lowest
    /// first, or the lowest byte of a fresh word.
    pub fn gen_u8(&mut self) -> (r: u8)
        requires
            old(self).wf(),
        ensures
            final(self).wf(),
            final(self).source() == old(self).source(),
            final(self)@ == draw(old(self).source(), old(self)@, Width::W8).0,
            r == draw(old(self).source(), old(self)@, Width::W8).1,
    {
        if self.cnt_1 == 8 {
            self.v_1 = self.rng.gen();
            self.cnt_1 = 1;
            proof {
                lemma_slices_unfold(self.v_1 as nat, 0x100, 8);
            }
        } else {
            proof {
                lemma_slices_unfold(self.v_1 as nat / 0x100, 0x100, (8 - self.cnt_1) as nat);
            }
            self.v_1 = self.v_1 / 0x100;
            self.cnt_1 += 1;
        }
        (self.v_1 % 0x100) as u8
    }

    /// Draws a signed 8-bit value: an unsigned draw shifted down by half the
    /// value space.
    pub fn gen_i8(&mut self) -> (r: i8)
        requires
            old(self).wf(),
        ensures
            final(self).wf(),
            final(self).source() == old(self).source(),
            final(self)@ == draw(old(self).source(), old(self)@, Width::W8).0,
            r == draw(old(self).source(), old(self)@, Width::W8).1 - 0x80,
    {
        u8i8(self.gen_u8())
    }

    /// Draws a 16-bit value: the next quarter of the buffered word, lowest
    /// first, or the lowest quarter of a fresh word.
    pub fn gen_u16(&mut self) -> (r: u16)
        requires
            old(self).wf(),
        ensures
            final(self).wf(),
            final(self).source() == old(self).source(),
            final(self)@ == draw(old(self).source(), old(self)@, Width::W16).0,
            r == draw(old(self).source(), old(self)@, Width::W16).1,
    {
        if self.cnt_2 == 8 {
            self.v_2 = self.rng.gen();
            self.cnt_2 = 2;
            proof {
                lemma_slices_unfold(self.v_2 as nat, 0x1_0000, 4);
            }
        } else {
            proof {
                lemma_slices_unfold(
                    self.v_2 as nat / 0x1_0000,
                    0x1_0000,
                    ((8 - self.cnt_2) / 2) as nat,
                );
            }
            self.v_2 = self.v_2 / 0x1_0000;
            self.cnt_2 += 2;
        }
        (self.v_2 % 0x1_0000) as u16
    }

    /// Draws a signed 16-bit value: an unsigned draw shifted down by half
    /// the value space.
    pub fn gen_i16(&mut self) -> (r: i16)
        requires
            old(self).wf(),
        ensures
            final(self).wf(),
            final(self).source() == old(self).source(),
            final(self)@ == draw(old(self).source(), old(self)@, Width::W16).0,
            r == draw(old(self).source(), old(self)@, Width::W16).1 - 0x8000,
    {
        u16i16(self.gen_u16())
    }

    /// Draws a 32-bit value: the high half of the buffered word, or the low
    /// half of a fresh word.
    pub fn gen_u32(&mut self) -> (r: u32)
        requires
            old(self).wf(),
        ensures
            final(self).wf(),
            final(self).source() == old(self).source(),
            final(self)@ == draw(old(self).source(), old(self)@, Width::W32).0,
            r == draw(old(self).source(), old(self)@, Width::W32).1,
    {
        if self.cnt_4 == 8 {
            self.v_4 = self.rng.gen();
            self.cnt_4 = 4;
            proof {
                lemma_slices_unfold(self.v_4 as nat, 0x1_0000_0000, 2);
            }
        } else {
            proof {
                lemma_slices_unfold(self.v_4 as nat / 0x1_0000_0000, 0x1_0000_0000, 1);
            }
            self.v_4 = self.v_4 / 0x1_0000_0000;
            self.cnt_4 += 4;
        }
        (self.v_4 % 0x1_0000_0000) as u32
    }

    /// Draws a signed 32-bit value: an unsigned draw shifted down by half
    /// the value space.
    pub fn gen_i32(&mut self) -> (r: i32)
        requires
            old(self).wf(),
        ensures
            final(self).wf(),
            final(self).source() == old(self).source(),
            final(self)@ == draw(old(self).source(), old(self)@, Width::W32).0,
            r == draw(old(self).source(), old(self)@, Width::W32).1 - 0x8000_0000,
    {
        u32i32(self.gen_u32())
    }

    /// Draws a 64-bit value: the next word of the generator.
    pub fn gen_u64(&mut self) -> (r: u64)
        requires
            old(self).wf(),
        ensures
            final(self).wf(),
            final(self).source() == old(self).source(),
            final(self)@ == draw(old(self).source(), old(self)@, Width::W64).0,
            r == draw(old(self).source(), old(self)@, Width::W64).1,
    {
        self.rng.gen()
    }

    /// Draws a signed 64-bit value: an unsigned draw shifted down by half
    /// the value space.
    pub fn gen_i64(&mut self) -> (r: i64)
        requires
            old(self).wf(),
        ensures
            final(self).wf(),
            final(self).source() == old(self).source(),
            final(self)@ == draw(old(self).source(), old(self)@, Width::W64).0,
            r == draw(old(self).source(), old(self)@, Width::W64).1 - 0x8000_0000_0000_0000,
    {
        u64i64(self.gen_u64())
    }

    /// Draws a 128-bit value from two words, the first one in the high half.
    pub fn gen_u128(&mut self) -> (r: u128)
        requires
            old(self).wf(),
        ensures
            final(self).wf(),
            final(self).source() == old(self).source(),
            final(self)@ == draw(old(self).source(), old(self)@, Width::W128).0,
            r == draw(old(self).source(), old(self)@, Width::W128).1,
    {
        let high = self.rng.gen();
        let low = self.rng.gen();
        (high as u128) * 0x1_0000_0000_0000_0000 + (low as u128)
    }

    /// Draws a signed 128-bit value: an unsigned draw shifted down by half
    /// the value space.
    pub fn gen_i128(&mut self) -> (r: i128)
        requires
            old(self).wf(),
        ensures
            final(self).wf(),
            final(self).source() == old(self).source(),
            final(self)@ == draw(old(self).source(), old(self)@, Width::W128).0,
            r == draw(old(self).source(), old(self)@, Width::W128).1
                - 0x8000_0000_0000_0000_0000_0000_0000_0000,
    {
        u128i128(self.gen_u128())
    }

    /// Draws a pointer-sized value: a 64-bit draw where pointers have 64
    /// bits, a 32-bit draw where they have 32.
    pub fn gen_usize(&mut self) -> (r: usize)
        requires
            old(self).wf(),
        ensures
            final(self).wf(),
            final(self).source() == old(self).source(),
            final(self)@ == draw(old(self).source(), old(self)@, pointer_width()).0,
            r == draw(old(self).source(), old(self)@, pointer_width()).1,
    {
        if usize::BITS == 64 {
            self.gen_u64() as usize
        } else {
            self.gen_u32() as usize
        }
    }
}

impl<RNG: Pseudorandom64> IntGenerator<RNG> {
    /// One raw draw of the given width, widened to 128 bits.
    fn raw(&mut self, w: Width) -> (r: u128)
        requires
            old(self).wf(),
        ensures
            final(self).wf(),
            final(self).source() == old(self).source(),
            final(self)@ == draw(old(self).source(), old(self)@, w).0,
            r == draw(old(self).source(), old(self)@, w).1,
            r < w.modulus(),
    {
        match w {
            Width::W8 => self.gen_u8() as u128,
            Width::W16 => self.gen_u16() as u128,
            Width::W32 => self.gen_u32() as u128,
            Width::W64 => self.gen_u64() as u128,
            Width::W128 => self.gen_u128(),
        }
    }

    /// Rejection sampling below `size`: draws until a raw value lies under
    /// the largest multiple of `size` that fits the width, and reduces it.
    fn sample_below(&mut self, w: Width, size: u128) -> (r: Option<u128>)
        requires
            old(self).wf(),
            0 < size < w.modulus(),
        ensures
            final(self).wf(),
            final(self).source() == old(self).source(),
            final(self)@ == draw_below(
                old(self).source(),
                old(self)@,
                w,
                size as nat,
                RETRY_LIMIT as nat,
            ).0,
            match r {
                Some(x) => x < size && draw_below(
                    old(self).source(),
                    old(self)@,
                    w,
                    size as nat,
                    RETRY_LIMIT as nat,
                ).1 == Some(x as nat),
                None => draw_below(
                    old(self).source(),
                    old(self)@,
                    w,
                    size as nat,
                    RETRY_LIMIT as nat,
                ).1.is_none(),
            },
    {
        let top: u128 = match w {
            Width::W8 => 0xFF,
            Width::W16 => 0xFFFF,
            Width::W32 => 0xFFFF_FFFF,
            Width::W64 => 0xFFFF_FFFF_FFFF_FFFF,
            Width::W128 => u128::MAX,
        };
        proof {
            lemma_accept_limit(w, size as nat);
        }
        let bound: u128 = (top - size + 1) / size * size + (size - 1);
        let mut tries: u32 = 0;
        while tries < RETRY_LIMIT
            invariant
                self.wf(),
                self.source() == old(self).source(),
                tries <= RETRY_LIMIT,
                size > 0,
                bound + 1 == accept_limit(w, size as nat),
                draw_below(self.source(), self@, w, size as nat, (RETRY_LIMIT - tries) as nat)
                    == draw_below(
                    old(self).source(),
                    old(self)@,
                    w,
                    size as nat,
                    RETRY_LIMIT as nat,
                ),
            decreases RETRY_LIMIT - tries,
        {
            let x = self.raw(w);
            if x <= bound {
                return Some(x % size);
            }
            tries += 1;
        }
        None
    }

    /// One sample from `[start, end)`, drawn with the raw width of `T`.
    fn sample_range<T: SampleInt>(&mut self, start: T, end: T) -> (r: Result<T, SampleError>)
        requires
            old(self).wf(),
        ensures
            final(self).wf(),
            final(self).source() == old(self).source(),
            (final(self)@, outcome(r)) == draw_in_range(
                old(self).source(),
                old(self)@,
                T::width(),
                start.value(),
                end.value(),
            ),
            r matches Ok(x) ==> start.value() <= x.value() < end.value(),
            start.value() >= end.value() <==> r == Err::<T, SampleError>(SampleError::InvalidRange),
            end.value() - start.value() == 1 ==> r == Ok::<T, SampleError>(start),
            end.value() - start.value() == 1 ==> final(self)@ == old(self)@,
    {
        if !start.below(end) {
            return Err(SampleError::InvalidRange);
        }
        let size = start.span(end);
        if size == 1 {
            return Ok(start);
        }
        proof {
            start.lemma_value_bounds();
            end.lemma_value_bounds();
        }
        match self.sample_below(T::raw_width(), size) {
            Some(x) => Ok(start.shifted(x)),
            None => Err(SampleError::RetryLimit),
        }
    }
}

impl<RNG: Pseudorandom64> IntGenerator<RNG> {
    /// Draws an 8-bit value from `range` without modulo bias.
    ///
    /// An empty range is refused. A range of one value is answered without
    /// a draw. Otherwise raw draws are taken until one lies under the
    /// largest multiple of the range's size that fits the width; it is
    /// reduced modulo the size and added to the start. After `RETRY_LIMIT`
    /// draws turned down in a row the call gives up.
    pub fn gen_range_u8(&mut self, range: Range<u8>) -> (r: Result<u8, SampleError>)
        requires
            old(self).wf(),
        ensures
            final(self).wf(),
            final(self).source() == old(self).source(),
            (final(self)@, outcome(r)) == draw_in_range(
                old(self).source(),
                old(self)@,
                Width::W8,
                range.start as int,
                range.end as int,
            ),
            r matches Ok(x) ==> range.start <= x < range.end,
            range.start >= range.end <==> r == Err::<u8, SampleError>(SampleError::InvalidRange),
            range.end - range.start == 1 ==> r == Ok::<u8, SampleError>(range.start),
            range.end - range.start == 1 ==> final(self)@ == old(self)@,
    {
        self.sample_range::<u8>(range.start, range.end)
    }

    /// Draws a signed 8-bit value from `range` without modulo bias.
    ///
    /// An empty range is refused. A range of one value is answered without
    /// a draw. Otherwise raw draws are taken until one lies under the
    /// largest multiple of the range's size that fits the width; it is
    /// reduced modulo the size and added to the start. After `RETRY_LIMIT`
    /// draws turned down in a row the call gives up.
    pub fn gen_range_i8(&mut self, range: Range<i8>) -> (r: Result<i8, SampleError>)
        requires
            old(self).wf(),
        ensures
            final(self).wf(),
            final(self).source() == old(self).source(),
            (final(self)@, outcome(r)) == draw_in_range(
                old(self).source(),
                old(self)@,
                Width::W8,
                range.start as int,
                range.end as int,
            ),
            r matches Ok(x) ==> range.start <= x < range.end,
            range.start >= range.end <==> r == Err::<i8, SampleError>(SampleError::InvalidRange),
            range.end - range.start == 1 ==> r == Ok::<i8, SampleError>(range.start),
            range.end - range.start == 1 ==> final(self)@ == old(self)@,
    {
        self.sample_range::<i8>(range.start, range.end)
    }

    /// Draws a 16-bit value from `range` without modulo bias.
    ///
    /// An empty range is refused. A range of one value is answered without
    /// a draw. Otherwise raw draws are taken until one lies under the
    /// largest multiple of the range's size that fits the width; it is
    /// reduced modulo the size and added to the start. After `RETRY_LIMIT`
    /// draws turned down in a row the call gives up.
    pub fn gen_range_u16(&mut self, range: Range<u16>) -> (r: Result<u16, SampleError>)
        requires
            old(self).wf(),
        ensures
            final(self).wf(),
            final(self).source() == old(self).source(),
            (final(self)@, outcome(r)) == draw_in_range(
                old(self).source(),
                old(self)@,
                Width::W16,
                range.start as int,
                range.end as int,
            ),
            r matches Ok(x) ==> range.start <= x < range.end,
            range.start >= range.end <==> r == Err::<u16, SampleError>(SampleError::InvalidRange),
            range.end - range.start == 1 ==> r == Ok::<u16, SampleError>(range.start),
            range.end - range.start == 1 ==> final(self)@ == old(self)@,
    {
        self.sample_range::<u16>(range.start, range.end)
    }

    /// Draws a signed 16-bit value from `range` without modulo bias.
    ///
    /// An empty range is refused. A range of one value is answered without
    /// a draw. Otherwise raw draws are taken until one lies under the
    /// largest multiple of the range's size that fits the width; it is
    /// reduced modulo the size and added to the start. After `RETRY_LIMIT`
    /// draws turned down in a row the call gives up.
    pub fn gen_range_i16(&mut self, range: Range<i16>) -> (r: Result<i16, SampleError>)
        requires
            old(self).wf(),
        ensures
            final(self).wf(),
            final(self).source() == old(self).source(),
            (final(self)@, outcome(r)) == draw_in_range(
                old(self).source(),
                old(self)@,
                Width::W16,
                range.start as int,
                range.end as int,
            ),
            r matches Ok(x) ==> range.start <= x < range.end,
            range.start >= range.end <==> r == Err::<i16, SampleError>(SampleError::InvalidRange),
            range.end - range.start == 1 ==> r == Ok::<i16, SampleError>(range.start),
            range.end - range.start == 1 ==> final(self)@ == old(self)@,
    {
        self.sample_range::<i16>(range.start, range.end)
    }

    /// Draws a 32-bit value from `range` without modulo bias.
    ///
    /// An empty range is refused. A range of one value is answered without
    /// a draw. Otherwise raw draws are taken until one lies under the
    /// largest multiple of the range's size that fits the width; it is
    /// reduced modulo the size and added to the start. After `RETRY_LIMIT`
    /// draws turned down in a row the call gives up.
    pub fn gen_range_u32(&mut self, range: Range<u32>) -> (r: Result<u32, SampleError>)
        requires
            old(self).wf(),
        ensures
            final(self).wf(),
            final(self).source() == old(self).source(),
            (final(self)@, outcome(r)) == draw_in_range(
                old(self).source(),
                old(self)@,
                Width::W32,
                range.start as int,
                range.end as int,
            ),
            r matches Ok(x) ==> range.start <= x < range.end,
            range.start >= range.end <==> r == Err::<u32, SampleError>(SampleError::InvalidRange),
            range.end - range.start == 1 ==> r == Ok::<u32, SampleError>(range.start),
            range.end - range.start == 1 ==> final(self)@ == old(self)@,
    {
        self.sample_range::<u32>(range.start, range.end)
    }

    /// Draws a signed 32-bit value from `range` without modulo bias.
    ///
    /// An empty range is refused. A range of one value is answered without
    /// a draw. Otherwise raw draws are taken until one lies under the
    /// largest multiple of the range's size that fits the width; it is
    /// reduced modulo the size and added to the start. After `RETRY_LIMIT`
    /// draws turned down in a row the call gives up.
    pub fn gen_range_i32(&mut self, range: Range<i32>) -> (r: Result<i32, SampleError>)
        requires
            old(self).wf(),
        ensures
            final(self).wf(),
            final(self).source() == old(self).source(),
            (final(self)@, outcome(r)) == draw_in_range(
                old(self).source(),
                old(self)@,
                Width::W32,
                range.start as int,
                range.end as int,
            ),
            r matches Ok(x) ==> range.start <= x < range.end,
            range.start >= range.end <==> r == Err::<i32, SampleError>(SampleError::InvalidRange),
            range.end - range.start == 1 ==> r == Ok::<i32, SampleError>(range.start),
            range.end - range.start == 1 ==> final(self)@ == old(self)@,
    {
        self.sample_range::<i32>(range.start, range.end)
    }

    /// Draws a 64-bit value from `range` without modulo bias.
    ///
    /// An empty range is refused. A range of one value is answered without
    /// a draw. Otherwise raw draws are taken until one lies under the
    /// largest multiple of the range's size that fits the width; it is
    /// reduced modulo the size and added to the start. After `RETRY_LIMIT`
    /// draws turned down in a row the call gives up.
    pub fn gen_range_u64(&mut self, range: Range<u64>) -> (r: Result<u64, SampleError>)
        requires
            old(self).wf(),
        ensures
            final(self).wf(),
            final(self).source() == old(self).source(),
            (final(self)@, outcome(r)) == draw_in_range(
                old(self).source(),
                old(self)@,
                Width::W64,
                range.start as int,
                range.end as int,
            ),
            r matches Ok(x) ==> range.start <= x < range.end,
            range.start >= range.end <==> r == Err::<u64, SampleError>(SampleError::InvalidRange),
            range.end - range.start == 1 ==> r == Ok::<u64, SampleError>(range.start),
            range.end - range.start == 1 ==> final(self)@ == old(self)@,
    {
        self.sample_range::<u64>(range.start, range.end)
    }

    /// Draws a signed 64-bit value from `range` without modulo bias.
    ///
    /// An empty range is refused. A range of one value is answered without
    /// a draw. Otherwise raw draws are taken until one lies under the
    /// largest multiple of the range's size that fits the width; it is
    /// reduced modulo the size and added to the start. After `RETRY_LIMIT`
    /// draws turned down in a row the call gives up.
    pub fn gen_range_i64(&mut self, range: Range<i64>) -> (r: Result<i64, SampleError>)
        requires
            old(self).wf(),
        ensures
            final(self).wf(),
            final(self).source() == old(self).source(),
            (final(self)@, outcome(r)) == draw_in_range(
                old(self).source(),
                old(self)@,
                Width::W64,
                range.start as int,
                range.end as int,
            ),
            r matches Ok(x) ==> range.start <= x < range.end,
            range.start >= range.end <==> r == Err::<i64, SampleError>(SampleError::InvalidRange),
            range.end - range.start == 1 ==> r == Ok::<i64, SampleError>(range.start),
            range.end - range.start == 1 ==> final(self)@ == old(self)@,
    {
        self.sample_range::<i64>(range.start, range.end)
    }

    /// Draws a 128-bit value from `range` without modulo bias.
    ///
    /// An empty range is refused. A range of one value is answered without
    /// a draw. Otherwise raw draws are taken until one lies under the
    /// largest multiple of the range's size that fits the width; it is
    /// reduced modulo the size and added to the start. After `RETRY_LIMIT`
    /// draws turned down in a row the call gives up.
    pub fn gen_range_u128(&mut self, range: Range<u128>) -> (r: Result<u128, SampleError>)
        requires
            old(self).wf(),
        ensures
            final(self).wf(),
            final(self).source() == old(self).source(),
            (final(self)@, outcome(r)) == draw_in_range(
                old(self).source(),
                old(self)@,
                Width::W128,
                range.start as int,
                range.end as int,
            ),
            r matches Ok(x) ==> range.start <= x < range.end,
            range.start >= range.end <==> r == Err::<u128, SampleError>(SampleError::InvalidRange),
            range.end - range.start == 1 ==> r == Ok::<u128, SampleError>(range.start),
            range.end - range.start == 1 ==> final(self)@ == old(self)@,
    {
        self.sample_range::<u128>(range.start, range.end)
    }

    /// Draws a signed 128-bit value from `range` without modulo bias.
    ///
    /// An empty range is refused. A range of one value is answered without
    /// a draw. Otherwise raw draws are taken until one lies under the
    /// largest multiple of the range's size that fits the width; it is
    /// reduced modulo the size and added to the start. After `RETRY_LIMIT`
    /// draws turned down in a row the call gives up.
    pub fn gen_range_i128(&mut self, range: Range<i128>) -> (r: Result<i128, SampleError>)
        requires
            old(self).wf(),
        ensures
            final(self).wf(),
            final(self).source() == old(self).source(),
            (final(self)@, outcome(r)) == draw_in_range(
                old(self).source(),
                old(self)@,
                Width::W128,
                range.start as int,
                range.end as int,
            ),
            r matches Ok(x) ==> range.start <= x < range.end,
            range.start >= range.end <==> r == Err::<i128, SampleError>(SampleError::InvalidRange),
            range.end - range.start == 1 ==> r == Ok::<i128, SampleError>(range.start),
            range.end - range.start == 1 ==> final(self)@ == old(self)@,
    {
        self.sample_range::<i128>(range.start, range.end)
    }

    /// Draws a pointer-sized value from `range` without modulo bias.
    ///
    /// An empty range is refused. A range of one value is answered without
    /// a draw. Otherwise raw draws are taken until one lies under the
    /// largest multiple of the range's size that fits the width; it is
    /// reduced modulo the size and added to the start. After `RETRY_LIMIT`
    /// draws turned down in a row the call gives up.
    pub fn gen_range_usize(&mut self, range: Range<usize>) -> (r: Result<usize, SampleError>)
        requires
            old(self).wf(),
        ensures
            final(self).wf(),
            final(self).source() == old(self).source(),
            (final(self)@, outcome(r)) == draw_in_range(
                old(self).source(),
                old(self)@,
                pointer_width(),
                range.start as int,
                range.end as int,
            ),
            r matches Ok(x) ==> range.start <= x < range.end,
            range.start >= range.end <==> r == Err::<usize, SampleError>(SampleError::InvalidRange),
            range.end - range.start == 1 ==> r == Ok::<usize, SampleError>(range.start),
            range.end - range.start == 1 ==> final(self)@ == old(self)@,
    {
        self.sample_range::<usize>(range.start, range.end)
    }
}

impl<RNG: Pseudorandom64> IntGenerator<RNG> {
    /// Draws a value of the integer type `T`: a raw draw of the width of
    /// `T`, counted from the smallest value of `T`.
    pub fn gen<T: SampleInt>(&mut self) -> (r: T)
        requires
            old(self).wf(),
        ensures
            final(self).wf(),
            final(self).source() == old(self).source(),
            final(self)@ == draw(old(self).source(), old(self)@, T::width()).0,
            r.value() == T::lowest() + draw(old(self).source(), old(self)@, T::width()).1,
    {
        let raw = self.raw(T::raw_width());
        T::from_raw(raw)
    }

    /// Draws a value of the integer type `T` from `range` without modulo
    /// bias.
    ///
    /// An empty range is refused. A range of one value is answered without
    /// a draw. Otherwise raw draws are taken until one lies under the
    /// largest multiple of the range's size that fits the width; it is
    /// reduced modulo the size and added to the start. After `RETRY_LIMIT`
    /// draws turned down in a row the call gives up.
    pub fn gen_range<T: SampleInt>(&mut self, range: Range<T>) -> (r: Result<T, SampleError>)
        requires
            old(self).wf(),
        ensures
            final(self).wf(),
            final(self).source() == old(self).source(),
            (final(self)@, outcome(r)) == draw_in_range(
                old(self).source(),
                old(self)@,
                T::width(),
                range.start.value(),
                range.end.value(),
            ),
            r matches Ok(x) ==> range.start.value() <= x.value() < range.end.value(),
            range.start.value() >= range.end.value() <==> r == Err::<T, SampleError>(
                SampleError::InvalidRange,
            ),
            range.end.value() - range.start.value() == 1 ==> r == Ok::<T, SampleError>(range.start)
                && final(self)@ == old(self)@,
    {
        self.sample_range::<T>(range.start, range.end)
    }

    /// Draws `k` values of the integer type `T` from `range`.
    ///
    /// With `can_repeat` they are `k` independent samples. Without, they
    /// are pairwise distinct: a range of more than `5 * k` values is sampled
    /// until `k` distinct values are found, a smaller one is written out,
    /// shuffled and cut to its first `k` values. An empty range is refused,
    /// and so is a range with fewer than `k` values where the values must
    /// be distinct.
    pub fn gen_range_k<T: SampleInt>(&mut self, range: Range<T>, k: usize, can_repeat: bool) -> (r:
        Result<Vec<T>, SampleError>)
        requires
            old(self).wf(),
        ensures
            final(self).wf(),
            final(self).source() == old(self).source(),
            (final(self)@, outcomes(r)) == draw_k(
                old(self).source(),
                old(self)@,
                T::width(),
                range.start.value(),
                range.end.value(),
                k as nat,
                can_repeat,
            ),
            r matches Ok(s) ==> {
                &&& s@.len() == k
                &&& forall|i: int|
                    0 <= i < s@.len() ==> range.start.value() <= (#[trigger] s@[i]).value()
                        < range.end.value()
                &&& !can_repeat ==> s@.no_duplicates()
            },
            range.start.value() >= range.end.value() <==> r == Err::<Vec<T>, SampleError>(
                SampleError::InvalidRange,
            ),
            range.start.value() < range.end.value() && !can_repeat && range.end.value()
                - range.start.value() < k <==> r == Err::<Vec<T>, SampleError>(
                SampleError::RangeTooSmall,
            ),
    {
        self.sample_range_k::<T>(range.start, range.end, k, can_repeat)
    }

    /// Shuffles a slice in place by the Fisher-Yates method.
    ///
    /// From the full length down to two, the last value not yet placed is
    /// exchanged with one at a position sampled among those not yet placed.
    /// The slice ends as a permutation of what it was, also where a draw
    /// gives up and the shuffle stops early.
    pub fn random_shuffle<T: Copy>(&mut self, slice: &mut [T]) -> (r: Result<(), SampleError>)
        requires
            old(self).wf(),
        ensures
            final(self).wf(),
            final(self).source() == old(self).source(),
            (final(self)@, final(slice)@, r.err()) == shuffled(
                old(self).source(),
                old(self)@,
                old(slice)@,
                old(slice)@.len(),
            ),
            final(slice)@.len() == old(slice)@.len(),
            final(slice)@.to_multiset() == old(slice)@.to_multiset(),
            r matches Err(e) ==> e == SampleError::RetryLimit,
    {
        proof {
            lemma_shuffled_is_permutation(
                old(self).source(),
                old(self)@,
                old(slice)@,
                old(slice)@.len(),
            );
        }
        let mut i: usize = slice.len();
        while i > 1
            invariant
                self.wf(),
                self.source() == old(self).source(),
                i <= slice@.len(),
                shuffled(self.source(), self@, slice@, i as nat) == shuffled(
                    old(self).source(),
                    old(self)@,
                    old(slice)@,
                    old(slice)@.len(),
                ),
                shuffled(old(self).source(), old(self)@, old(slice)@, old(slice)@.len()).1.len()
                    == old(slice)@.len(),
                shuffled(
                    old(self).source(),
                    old(self)@,
                    old(slice)@,
                    old(slice)@.len(),
                ).1.to_multiset() == old(slice)@.to_multiset(),
                shuffled(
                    old(self).source(),
                    old(self)@,
                    old(slice)@,
                    old(slice)@.len(),
                ).2 matches Some(e) ==> e == SampleError::RetryLimit,
            decreases i,
        {
            let ghost before = slice@;
            let j = match self.gen_range_usize(0..i) {
                Ok(j) => j,
                Err(e) => {
                    return Err(e);
                },
            };
            i -= 1;
            let last = slice[i];
            slice[i] = slice[j];
            slice[j] = last;
            assert(slice@ =~= swapped(before, i as int, j as int));
        }
        Ok(())
    }
}

impl<RNG: Pseudorandom64> IntGenerator<RNG> {
    /// `k` samples from `[start, end)`, drawn with the raw width of `T`.
    #[verifier::loop_isolation(false)]
    fn sample_range_k<T: SampleInt>(&mut self, start: T, end: T, k: usize, can_repeat: bool) -> (r:
        Result<Vec<T>, SampleError>)
        requires
            old(self).wf(),
        ensures
            final(self).wf(),
            final(self).source() == old(self).source(),
            (final(self)@, outcomes(r)) == draw_k(
                old(self).source(),
                old(self)@,
                T::width(),
                start.value(),
                end.value(),
                k as nat,
                can_repeat,
            ),
            r matches Ok(s) ==> {
                &&& s@.len() == k
                &&& forall|i: int|
                    0 <= i < s@.len() ==> start.value() <= (#[trigger] s@[i]).value() < end.value()
                &&& !can_repeat ==> s@.no_duplicates()
            },
            start.value() >= end.value() <==> r == Err::<Vec<T>, SampleError>(
                SampleError::InvalidRange,
            ),
            start.value() < end.value() && !can_repeat && end.value() - start.value() < k <==> r
                == Err::<Vec<T>, SampleError>(SampleError::RangeTooSmall),
    {
        let ghost src = self.source();
        let ghost origin = self@;
        let ghost lo = start.value();
        let ghost hi = end.value();
        proof {
            lemma_draw_k_valid(src, origin, T::width(), lo, hi, k as nat, can_repeat);
            start.lemma_value_bounds();
            end.lemma_value_bounds();
        }
        if !start.below(end) {
            return Err(SampleError::InvalidRange);
        }
        if can_repeat {
            let mut picks: Vec<T> = Vec::new();
            assert(values(picks@) =~= Seq::<int>::empty());
            while picks.len() < k
                invariant
                    self.wf(),
                    self.source() == src,
                    lo == start.value(),
                    hi == end.value(),
                    draw_repeated(src, self@, T::width(), lo, hi, k as nat, values(picks@))
                        == draw_repeated(src, origin, T::width(), lo, hi, k as nat, Seq::empty()),
                decreases k - picks.len(),
            {
                let ghost before = picks@;
                match self.sample_range::<T>(start, end) {
                    Ok(x) => {
                        picks.push(x);
                        assert(values(picks@) =~= values(before).push(x.value()));
                    },
                    Err(e) => {
                        return Err(e);
                    },
                }
            }
            proof {
                lemma_values_valid(picks@, lo, hi, k as nat, can_repeat);
            }
            return Ok(picks);
        }
        let size: u128 = start.span(end);
        if size < k as u128 {
            return Err(SampleError::RangeTooSmall);
        }
        if size > (k as u128) * 5 {
            let mut seen: HashSet<u128> = HashSet::new();
            let mut picks: Vec<T> = Vec::new();
            let mut misses: u32 = 0;
            assert(values(picks@) =~= Seq::<int>::empty());
            while picks.len() < k
                invariant
                    self.wf(),
                    self.source() == src,
                    lo == start.value(),
                    hi == end.value(),
                    misses <= RETRY_LIMIT,
                    forall|o: u128| seen@.contains(o) <==> values(picks@).contains(lo + o),
                    draw_distinct(
                        src,
                        self@,
                        T::width(),
                        lo,
                        hi,
                        k as nat,
                        values(picks@),
                        (RETRY_LIMIT - misses) as nat,
                    ) == draw_distinct(
                        src,
                        origin,
                        T::width(),
                        lo,
                        hi,
                        k as nat,
                        Seq::empty(),
                        RETRY_LIMIT as nat,
                    ),
                decreases k - picks.len(), RETRY_LIMIT - misses,
            {
                let ghost before = picks@;
                let x = match self.sample_range::<T>(start, end) {
                    Ok(x) => x,
                    Err(e) => {
                        return Err(e);
                    },
                };
                let offset = start.span(x);
                if seen.insert(offset) {
                    picks.push(x);
                    misses = 0;
                    proof {
                        assert(values(picks@) =~= values(before).push(x.value()));
                        assert forall|o: u128| seen@.contains(o) <==> values(picks@).contains(
                            lo + o,
                        ) by {
                            if values(before).contains(lo + o) {
                                let i = choose|i: int|
                                    0 <= i < values(before).len() && values(before)[i] == lo + o;
                                assert(values(picks@)[i] == lo + o);
                            }
                            if o == offset {
                                assert(values(picks@)[before.len() as int] == lo + o);
                            }
                        }
                    }
                } else {
                    if misses == RETRY_LIMIT {
                        return Err(SampleError::RetryLimit);
                    }
                    misses += 1;
                }
            }
            proof {
                lemma_values_valid(picks@, lo, hi, k as nat, can_repeat);
            }
            return Ok(picks);
        }
        let mut all: Vec<T> = Vec::new();
        let mut next = start;
        while next.below(end)
            invariant
                lo == start.value(),
                hi == end.value(),
                lo <= next.value() <= hi,
                hi < T::lowest() + T::width().modulus(),
                values(all@) =~= consecutive(lo, (next.value() - lo) as nat),
            decreases hi - next.value(),
        {
            let ghost before = all@;
            all.push(next);
            assert(values(all@) =~= values(before).push(next.value()));
            next = next.shifted(1);
        }
        let ghost full = all@;
        proof {
            lemma_shuffled_map(src, origin, full, full.len(), |x: T| x.value());
        }
        match self.random_shuffle(all.as_mut_slice()) {
            Ok(()) => {},
            Err(e) => {
                return Err(e);
            },
        }
        let ghost mixed = all@;
        all.truncate(k);
        assert(values(all@) =~= values(mixed).take(k as int));
        proof {
            lemma_values_valid(all@, lo, hi, k as nat, can_repeat);
        }
        Ok(all)
    }
}

impl<RNG: Pseudorandom64> IntGenerator<RNG> {
    /// Draws `k` 8-bit values from `range`.
    ///
    /// With `can_repeat` they are `k` independent samples. Without, they
    /// are pairwise distinct: a range of more than `5 * k` values is sampled
    /// until `k` distinct values are found, a smaller one is written out,
    /// shuffled and cut to its first `k` values. An empty range is refused,
    /// and so is a range with fewer than `k` values where the values must
    /// be distinct.
    pub fn gen_range_k_u8(
        &mut self,
        range: Range<u8>,
        k: usize,
        can_repeat: bool,
    ) -> (r: Result<Vec<u8>, SampleError>)
        requires
            old(self).wf(),
        ensures
            final(self).wf(),
            final(self).source() == old(self).source(),
            (final(self)@, outcomes(r)) == draw_k(
                old(self).source(),
                old(self)@,
                Width::W8,
                range.start as int,
                range.end as int,
                k as nat,
                can_repeat,
            ),
            r matches Ok(s) ==> {
                &&& s@.len() == k
                &&& forall|i: int| 0 <= i < s@.len() ==> range.start <= #[trigger] s@[i] < range.end
                &&& !can_repeat ==> s@.no_duplicates()
            },
            range.start >= range.end <==> r == Err::<Vec<u8>, SampleError>(
                SampleError::InvalidRange,
            ),
            range.start < range.end && !can_repeat && range.end - range.start < k <==> r == Err::<
                Vec<u8>,
                SampleError,
            >(SampleError::RangeTooSmall),
    {
        self.sample_range_k::<u8>(range.start, range.end, k, can_repeat)
    }

    /// Draws `k` signed 8-bit values from `range`.
    ///
    /// With `can_repeat` they are `k` independent samples. Without, they
    /// are pairwise distinct: a range of more than `5 * k` values is sampled
    /// until `k` distinct values are found, a smaller one is written out,
    /// shuffled and cut to its first `k` values. An empty range is refused,
    /// and so is a range with fewer than `k` values where the values must
    /// be distinct.
    pub fn gen_range_k_i8(
        &mut self,
        range: Range<i8>,
        k: usize,
        can_repeat: bool,
    ) -> (r: Result<Vec<i8>, SampleError>)
        requires
            old(self).wf(),
        ensures
            final(self).wf(),
            final(self).source() == old(self).source(),
            (final(self)@, outcomes(r)) == draw_k(
                old(self).source(),
                old(self)@,
                Width::W8,
                range.start as int,
                range.end as int,
                k as nat,
                can_repeat,
            ),
            r matches Ok(s) ==> {
                &&& s@.len() == k
                &&& forall|i: int| 0 <= i < s@.len() ==> range.start <= #[trigger] s@[i] < range.end
                &&& !can_repeat ==> s@.no_duplicates()
            },
            range.start >= range.end <==> r == Err::<Vec<i8>, SampleError>(
                SampleError::InvalidRange,
            ),
            range.start < range.end && !can_repeat && range.end - range.start < k <==> r == Err::<
                Vec<i8>,
                SampleError,
            >(SampleError::RangeTooSmall),
    {
        self.sample_range_k::<i8>(range.start, range.end, k, can_repeat)
    }

    /// Draws `k` 16-bit values from `range`.
    ///
    /// With `can_repeat` they are `k` independent samples. Without, they
    /// are pairwise distinct: a range of more than `5 * k` values is sampled
    /// until `k` distinct values are found, a smaller one is written out,
    /// shuffled and cut to its first `k` values. An empty range is refused,
    /// and so is a range with fewer than `k` values where the values must
    /// be distinct.
    pub fn gen_range_k_u16(
        &mut self,
        range: Range<u16>,
        k: usize,
        can_repeat: bool,
    ) -> (r: Result<Vec<u16>, SampleError>)
        requires
            old(self).wf(),
        ensures
            final(self).wf(),
            final(self).source() == old(self).source(),
            (final(self)@, outcomes(r)) == draw_k(
                old(self).source(),
                old(self)@,
                Width::W16,
                range.start as int,
                range.end as int,
                k as nat,
                can_repeat,
            ),
            r matches Ok(s) ==> {
                &&& s@.len() == k
                &&& forall|i: int| 0 <= i < s@.len() ==> range.start <= #[trigger] s@[i] < range.end
                &&& !can_repeat ==> s@.no_duplicates()
            },
            range.start >= range.end <==> r == Err::<Vec<u16>, SampleError>(
                SampleError::InvalidRange,
            ),
            range.start < range.end && !can_repeat && range.end - range.start < k <==> r == Err::<
                Vec<u16>,
                SampleError,
            >(SampleError::RangeTooSmall),
    {
        self.sample_range_k::<u16>(range.start, range.end, k, can_repeat)
    }

    /// Draws `k` signed 16-bit values from `range`.
    ///
    /// With `can_repeat` they are `k` independent samples. Without, they
    /// are pairwise distinct: a range of more than `5 * k` values is sampled
    /// until `k` distinct values are found, a smaller one is written out,
    /// shuffled and cut to its first `k` values. An empty range is refused,
    /// and so is a range with fewer than `k` values where the values must
    /// be distinct.
    pub fn gen_range_k_i16(
        &mut self,
        range: Range<i16>,
        k: usize,
        can_repeat: bool,
    ) -> (r: Result<Vec<i16>, SampleError>)
        requires
            old(self).wf(),
        ensures
            final(self).wf(),
            final(self).source() == old(self).source(),
            (final(self)@, outcomes(r)) == draw_k(
                old(self).source(),
                old(self)@,
                Width::W16,
                range.start as int,
                range.end as int,
                k as nat,
                can_repeat,
            ),
            r matches Ok(s) ==> {
                &&& s@.len() == k
                &&& forall|i: int| 0 <= i < s@.len() ==> range.start <= #[trigger] s@[i] < range.end
                &&& !can_repeat ==> s@.no_duplicates()
            },
            range.start >= range.end <==> r == Err::<Vec<i16>, SampleError>(
                SampleError::InvalidRange,
            ),
            range.start < range.end && !can_repeat && range.end - range.start < k <==> r == Err::<
                Vec<i16>,
                SampleError,
            >(SampleError::RangeTooSmall),
    {
        self.sample_range_k::<i16>(range.start, range.end, k, can_repeat)
    }

    /// Draws `k` 32-bit values from `range`.
    ///
    /// With `can_repeat` they are `k` independent samples. Without, they
    /// are pairwise distinct: a range of more than `5 * k` values is sampled
    /// until `k` distinct values are found, a smaller one is written out,
    /// shuffled and cut to its first `k` values. An empty range is refused,
    /// and so is a range with fewer than `k` values where the values must
    /// be distinct.
    pub fn gen_range_k_u32(
        &mut self,
        range: Range<u32>,
        k: usize,
        can_repeat: bool,
    ) -> (r: Result<Vec<u32>, SampleError>)
        requires
            old(self).wf(),
        ensures
            final(self).wf(),
            final(self).source() == old(self).source(),
            (final(self)@, outcomes(r)) == draw_k(
                old(self).source(),
                old(self)@,
                Width::W32,
                range.start as int,
                range.end as int,
                k as nat,
                can_repeat,
            ),
            r matches Ok(s) ==> {
                &&& s@.len() == k
                &&& forall|i: int| 0 <= i < s@.len() ==> range.start <= #[trigger] s@[i] < range.end
                &&& !can_repeat ==> s@.no_duplicates()
            },
            range.start >= range.end <==> r == Err::<Vec<u32>, SampleError>(
                SampleError::InvalidRange,
            ),
            range.start < range.end && !can_repeat && range.end - range.start < k <==> r == Err::<
                Vec<u32>,
                SampleError,
            >(SampleError::RangeTooSmall),
    {
        self.sample_range_k::<u32>(range.start, range.end, k, can_repeat)
    }

    /// Draws `k` signed 32-bit values from `range`.
    ///
    /// With `can_repeat` they are `k` independent samples. Without, they
    /// are pairwise distinct: a range of more than `5 * k` values is sampled
    /// until `k` distinct values are found, a smaller one is written out,
    /// shuffled and cut to its first `k` values. An empty range is refused,
    /// and so is a range with fewer than `k` values where the values must
    /// be distinct.
    pub fn gen_range_k_i32(
        &mut self,
        range: Range<i32>,
        k: usize,
        can_repeat: bool,
    ) -> (r: Result<Vec<i32>, SampleError>)
        requires
            old(self).wf(),
        ensures
            final(self).wf(),
            final(self).source() == old(self).source(),
            (final(self)@, outcomes(r)) == draw_k(
                old(self).source(),
                old(self)@,
                Width::W32,
                range.start as int,
                range.end as int,
                k as nat,
                can_repeat,
            ),
            r matches Ok(s) ==> {
                &&& s@.len() == k
                &&& forall|i: int| 0 <= i < s@.len() ==> range.start <= #[trigger] s@[i] < range.end
                &&& !can_repeat ==> s@.no_duplicates()
            },
            range.start >= range.end <==> r == Err::<Vec<i32>, SampleError>(
                SampleError::InvalidRange,
            ),
            range.start < range.end && !can_repeat && range.end - range.start < k <==> r == Err::<
                Vec<i32>,
                SampleError,
            >(SampleError::RangeTooSmall),
    {
        self.sample_range_k::<i32>(range.start, range.end, k, can_repeat)
    }

    /// Draws `k` 64-bit values from `range`.
    ///
    /// With `can_repeat` they are `k` independent samples. Without, they
    /// are pairwise distinct: a range of more than `5 * k` values is sampled
    /// until `k` distinct values are found, a smaller one is written out,
    /// shuffled and cut to its first `k` values. An empty range is refused,
    /// and so is a range with fewer than `k` values where the values must
    /// be distinct.
    pub fn gen_range_k_u64(
        &mut self,
        range: Range<u64>,
        k: usize,
        can_repeat: bool,
    ) -> (r: Result<Vec<u64>, SampleError>)
        requires
            old(self).wf(),
        ensures
            final(self).wf(),
            final(self).source() == old(self).source(),
            (final(self)@, outcomes(r)) == draw_k(
                old(self).source(),
                old(self)@,
                Width::W64,
                range.start as int,
                range.end as int,
                k as nat,
                can_repeat,
            ),
            r matches Ok(s) ==> {
                &&& s@.len() == k
                &&& forall|i: int| 0 <= i < s@.len() ==> range.start <= #[trigger] s@[i] < range.end
                &&& !can_repeat ==> s@.no_duplicates()
            },
            range.start >= range.end <==> r == Err::<Vec<u64>, SampleError>(
                SampleError::InvalidRange,
            ),
            range.start < range.end && !can_repeat && range.end - range.start < k <==> r == Err::<
                Vec<u64>,
                SampleError,
            >(SampleError::RangeTooSmall),
    {
        self.sample_range_k::<u64>(range.start, range.end, k, can_repeat)
    }

    /// Draws `k` signed 64-bit values from `range`.
    ///
    /// With `can_repeat` they are `k` independent samples. Without, they
    /// are pairwise distinct: a range of more than `5 * k` values is sampled
    /// until `k` distinct values are found, a smaller one is written out,
    /// shuffled and cut to its first `k` values. An empty range is refused,
    /// and so is a range with fewer than `k` values where the values must
    /// be distinct.
    pub fn gen_range_k_i64(
        &mut self,
        range: Range<i64>,
        k: usize,
        can_repeat: bool,
    ) -> (r: Result<Vec<i64>, SampleError>)
        requires
            old(self).wf(),
        ensures
            final(self).wf(),
            final(self).source() == old(self).source(),
            (final(self)@, outcomes(r)) == draw_k(
                old(self).source(),
                old(self)@,
                Width::W64,
                range.start as int,
                range.end as int,
                k as nat,
                can_repeat,
            ),
            r matches Ok(s) ==> {
                &&& s@.len() == k
                &&& forall|i: int| 0 <= i < s@.len() ==> range.start <= #[trigger] s@[i] < range.end
                &&& !can_repeat ==> s@.no_duplicates()
            },
            range.start >= range.end <==> r == Err::<Vec<i64>, SampleError>(
                SampleError::InvalidRange,
            ),
            range.start < range.end && !can_repeat && range.end - range.start < k <==> r == Err::<
                Vec<i64>,
                SampleError,
            >(SampleError::RangeTooSmall),
    {
        self.sample_range_k::<i64>(range.start, range.end, k, can_repeat)
    }

    /// Draws `k` 128-bit values from `range`.
    ///
    /// With `can_repeat` they are `k` independent samples. Without, they
    /// are pairwise distinct: a range of more than `5 * k` values is sampled
    /// until `k` distinct values are found, a smaller one is written out,
    /// shuffled and cut to its first `k` values. An empty range is refused,
    /// and so is a range with fewer than `k` values where the values must
    /// be distinct.
    pub fn gen_range_k_u128(
        &mut self,
        range: Range<u128>,
        k: usize,
        can_repeat: bool,
    ) -> (r: Result<Vec<u128>, SampleError>)
        requires
            old(self).wf(),
        ensures
            final(self).wf(),
            final(self).source() == old(self).source(),
            (final(self)@, outcomes(r)) == draw_k(
                old(self).source(),
                old(self)@,
                Width::W128,
                range.start as int,
                range.end as int,
                k as nat,
                can_repeat,
            ),
            r matches Ok(s) ==> {
                &&& s@.len() == k
                &&& forall|i: int| 0 <= i < s@.len() ==> range.start <= #[trigger] s@[i] < range.end
                &&& !can_repeat ==> s@.no_duplicates()
            },
            range.start >= range.end <==> r == Err::<Vec<u128>, SampleError>(
                SampleError::InvalidRange,
            ),
            range.start < range.end && !can_repeat && range.end - range.start < k <==> r == Err::<
                Vec<u128>,
                SampleError,
            >(SampleError::RangeTooSmall),
    {
        self.sample_range_k::<u128>(range.start, range.end, k, can_repeat)
    }

    /// Draws `k` signed 128-bit values from `range`.
    ///
    /// With `can_repeat` they are `k` independent samples. Without, they
    /// are pairwise distinct: a range of more than `5 * k` values is sampled
    /// until `k` distinct values are found, a smaller one is written out,
    /// shuffled and cut to its first `k` values. An empty range is refused,
    /// and so is a range with fewer than `k` values where the values must
    /// be distinct.
    pub fn gen_range_k_i128(
        &mut self,
        range: Range<i128>,
        k: usize,
        can_repeat: bool,
    ) -> (r: Result<Vec<i128>, SampleError>)
        requires
            old(self).wf(),
        ensures
            final(self).wf(),
            final(self).source() == old(self).source(),
            (final(self)@, outcomes(r)) == draw_k(
                old(self).source(),
                old(self)@,
                Width::W128,
                range.start as int,
                range.end as int,
                k as nat,
                can_repeat,
            ),
            r matches Ok(s) ==> {
                &&& s@.len() == k
                &&& forall|i: int| 0 <= i < s@.len() ==> range.start <= #[trigger] s@[i] < range.end
                &&& !can_repeat ==> s@.no_duplicates()
            },
            range.start >= range.end <==> r == Err::<Vec<i128>, SampleError>(
                SampleError::InvalidRange,
            ),
            range.start < range.end && !can_repeat && range.end - range.start < k <==> r == Err::<
                Vec<i128>,
                SampleError,
            >(SampleError::RangeTooSmall),
    {
        self.sample_range_k::<i128>(range.start, range.end, k, can_repeat)
    }

    /// Draws `k` pointer-sized values from `range`.
    ///
    /// With `can_repeat` they are `k` independent samples. Without, they
    /// are pairwise distinct: a range of more than `5 * k` values is sampled
    /// until `k` distinct values are found, a smaller one is written out,
    /// shuffled and cut to its first `k` values. An empty range is refused,
    /// and so is a range with fewer than `k` values where the values must
    /// be distinct.
    pub fn gen_range_k_usize(
        &mut self,
        range: Range<usize>,
        k: usize,
        can_repeat: bool,
    ) -> (r: Result<Vec<usize>, SampleError>)
        requires
            old(self).wf(),
        ensures
            final(self).wf(),
            final(self).source() == old(self).source(),
            (final(self)@, outcomes(r)) == draw_k(
                old(self).source(),
                old(self)@,
                pointer_width(),
                range.start as int,
                range.end as int,
                k as nat,
                can_repeat,
            ),
            r matches Ok(s) ==> {
                &&& s@.len() == k
                &&& forall|i: int| 0 <= i < s@.len() ==> range.start <= #[trigger] s@[i] < range.end
                &&& !can_repeat ==> s@.no_duplicates()
            },
            range.start >= range.end <==> r == Err::<Vec<usize>, SampleError>(
                SampleError::InvalidRange,
            ),
            range.start < range.end && !can_repeat && range.end - range.start < k <==> r == Err::<
                Vec<usize>,
                SampleError,
            >(SampleError::RangeTooSmall),
    {
        self.sample_range_k::<usize>(range.start, range.end, k, can_repeat)
    }

    /// Picks one value of `d` at a uniformly sampled position and returns a
    /// clone of it. An empty `d` is refused as an empty range.
    pub fn gen_from_vec<T: Clone>(&mut self, d: &Vec<T>) -> (r: Result<T, SampleError>)
        requires
            old(self).wf(),
        ensures
            final(self).wf(),
            final(self).source() == old(self).source(),
            final(self)@ == draw_in_range(
                old(self).source(),
                old(self)@,
                pointer_width(),
                0,
                d@.len() as int,
            ).0,
            match draw_in_range(
                old(self).source(),
                old(self)@,
                pointer_width(),
                0,
                d@.len() as int,
            ).1 {
                Ok(i) => 0 <= i < d@.len() && (r matches Ok(x) && cloned(d@[i], x)),
                Err(e) => r matches Err(f) && f == e,
            },
            d@.len() == 0 <==> (r matches Err(e) && e == SampleError::InvalidRange),
    {
        match self.gen_range_usize(0..d.len()) {
            Ok(i) => Ok(d[i].clone()),
            Err(e) => Err(e),
        }
    }

    /// Picks `k` values of `d` at sampled positions and returns clones of
    /// them, in the order picked.
    ///
    /// With `can_repeat` the positions are independent samples; without,
    /// they are pairwise distinct, and asking for more values than `d` holds
    /// is refused as a range too small. An empty `d` is refused as an empty
    /// range where it is not refused as too small.
    pub fn gen_from_vec_k<T: Clone>(
        &mut self,
        d: &Vec<T>,
        k: usize,
        can_repeat: bool,
    ) -> (r: Result<Vec<T>, SampleError>)
        requires
            old(self).wf(),
        ensures
            final(self).wf(),
            final(self).source() == old(self).source(),
            final(self)@ == draw_positions(
                old(self).source(),
                old(self)@,
                d@.len(),
                k as nat,
                can_repeat,
            ).0,
            match draw_positions(old(self).source(), old(self)@, d@.len(), k as nat, can_repeat).1 {
                Ok(at) => {
                    &&& at.len() == k
                    &&& !can_repeat ==> at.no_duplicates()
                    &&& r matches Ok(s) && s@.len() == k && forall|j: int|
                        0 <= j < k ==> 0 <= #[trigger] at[j] < d@.len() && cloned(d@[at[j]], s@[j])
                },
                Err(e) => r matches Err(f) && f == e,
            },
            !can_repeat && k > d@.len() ==> (r matches Err(e) && e == SampleError::RangeTooSmall),
    {
        if !can_repeat && k > d.len() {
            return Err(SampleError::RangeTooSmall);
        }
        let at = match self.gen_range_k_usize(0..d.len(), k, can_repeat) {
            Ok(at) => at,
            Err(e) => {
                return Err(e);
            },
        };
        let mut picks: Vec<T> = Vec::new();
        let mut j: usize = 0;
        while j < k
            invariant
                j <= k,
                at@.len() == k,
                picks@.len() == j,
                forall|i: int| 0 <= i < at@.len() ==> 0 <= #[trigger] at@[i] < d@.len(),
                forall|i: int| 0 <= i < j ==> cloned(d@[at@[i] as int], #[trigger] picks@[i]),
            decreases k - j,
        {
            picks.push(d[at[j]].clone());
            j += 1;
        }
        proof {
            let idx = values(at@);
            assert forall|i: int| 0 <= i < k implies 0 <= #[trigger] idx[i] < d@.len() && cloned(
                d@[idx[i]],
                picks@[i],
            ) by {
                assert(idx[i] == at@[i] as int);
            }
            if !can_repeat {
                assert forall|a: int, b: int|
                    0 <= a < idx.len() && 0 <= b < idx.len() && a != b implies idx[a] != idx[b] by {
                    assert(idx[a] == at@[a] as int);
                    assert(idx[b] == at@[b] as int);
                }
            }
        }
        Ok(picks)
    }
}

/// Sorts positions in ascending order with `sort` of std's slices. As its
/// documentation says, the vector afterwards holds the same values as
/// before, in ascending order.
#[verifier::external_body]
fn sort_positions(at: &mut Vec<usize>)
    ensures
        final(at)@.to_multiset() == old(at)@.to_multiset(),
        forall|i: int, j: int| 0 <= i < j < final(at)@.len() ==> final(at)@[i] <= final(at)@[j],
{
    at.sort();
}

/// Clones the values of `d` at the positions from `from` up to `to`.
fn clone_part<T: Clone>(d: &Vec<T>, from: usize, to: usize) -> (part: Vec<T>)
    requires
        from <= to <= d@.len(),
    ensures
        part@.len() == to - from,
        forall|i: int| 0 <= i < to - from ==> cloned(d@[from + i], #[trigger] part@[i]),
{
    let mut part: Vec<T> = Vec::new();
    let mut i: usize = from;
    while i < to
        invariant
            from <= i <= to <= d@.len(),
            part@.len() == i - from,
            forall|j: int| 0 <= j < i - from ==> cloned(d@[from + j], #[trigger] part@[j]),
        decreases to - i,
    {
        part.push(d[i].clone());
        i += 1;
    }
    part
}

impl<RNG: Pseudorandom64> IntGenerator<RNG> {
    /// Splits `d` into `k` consecutive parts at sampled cut points and
    /// returns clones of the parts, in the order of `d`.
    ///
    /// Where parts may be empty, the `k - 1` cut points are samples from
    /// `0..=len`, repeats allowed. Where they may not, a `d` shorter than
    /// `k` is refused, and the cut points are distinct samples from
    /// `1..len`. The cut points are sorted, and each part runs from one cut
    /// point to the next, so that the parts put end to end are `d`.
    pub fn split_vec_k<T: Clone>(
        &mut self,
        d: &Vec<T>,
        k: usize,
        can_empty: bool,
    ) -> (r: Result<Vec<Vec<T>>, SampleError>)
        requires
            old(self).wf(),
            k >= 1,
            can_empty ==> d@.len() < usize::MAX,
        ensures
            final(self).wf(),
            final(self).source() == old(self).source(),
            final(self)@ == draw_cuts(
                old(self).source(),
                old(self)@,
                d@.len(),
                k as nat,
                can_empty,
            ).0,
            match draw_cuts(old(self).source(), old(self)@, d@.len(), k as nat, can_empty).1 {
                Ok(drawn) => {
                    let parts = parts_at(d@, ascending_order(drawn));
                    &&& r matches Ok(s) && clones_of(s@, parts)
                    &&& parts.len() == k
                    &&& parts.flatten() == d@
                    &&& !can_empty ==> forall|j: int| 0 <= j < k ==> (#[trigger] parts[j]).len() > 0
                },
                Err(e) => r matches Err(f) && f == e,
            },
            !can_empty && d@.len() < k <==> (r matches Err(e) && e == SampleError::RangeTooSmall),
    {
        let ghost src = self.source();
        let ghost origin = self@;
        proof {
            lemma_draw_cuts_valid(src, origin, d@.len(), k as nat, can_empty);
        }
        if !can_empty && d.len() < k {
            return Err(SampleError::RangeTooSmall);
        }
        let drawn = if k == 1 {
            Ok(Vec::new())
        } else if can_empty {
            self.gen_range_k_usize(0..d.len() + 1, k - 1, true)
        } else {
            self.gen_range_k_usize(1..d.len(), k - 1, false)
        };
        let mut at = match drawn {
            Ok(at) => at,
            Err(e) => {
                return Err(e);
            },
        };
        let ghost picked = values(at@);
        assert(draw_cuts(src, origin, d@.len(), k as nat, can_empty).1 == Ok::<
            Seq<int>,
            SampleError,
        >(picked)) by {
            if k == 1 {
                assert(picked =~= Seq::<int>::empty());
            }
        }
        let ghost unsorted = at@;
        sort_positions(&mut at);
        let ghost cuts = values(at@);
        proof {
            lemma_map_keeps_permutation(at@, unsorted, |x: usize| x.value());
            assert(sorted_by(cuts, at_most())) by {
                assert forall|i: int, j: int| 0 <= i < j < cuts.len() implies #[trigger] at_most()(
                    cuts[i],
                    cuts[j],
                ) by {
                    assert(cuts[i] == at@[i] as int);
                    assert(cuts[j] == at@[j] as int);
                }
            }
            lemma_sorted_is_ascending_order(picked, cuts);
            lemma_ascending_order_valid(picked, 0, d@.len() as int + 1);
            lemma_parts_concatenate(d@, cuts);
            if !can_empty {
                lemma_ascending_order_valid(picked, 1, d@.len() as int);
                lemma_parts_nonempty(d@, cuts);
            }
            assert forall|i: int|
                0 <= i < at@.len() implies cuts[i] == #[trigger] at@[i] as int by {}
        }
        let ghost model = parts_at(d@, cuts);
        let mut parts: Vec<Vec<T>> = Vec::new();
        let mut start: usize = 0;
        let mut j: usize = 0;
        while j < at.len()
            invariant
                j <= at@.len(),
                at@.len() + 1 == model.len(),
                cuts.len() == at@.len(),
                model == parts_at(d@, cuts),
                sorted_by(cuts, at_most()),
                forall|i: int| 0 <= i < at@.len() ==> cuts[i] == #[trigger] at@[i] as int,
                forall|i: int| 0 <= i < at@.len() ==> 0 <= #[trigger] cuts[i] <= d@.len(),
                start == part_start(cuts, j as int),
                start <= d@.len(),
                parts@.len() == j,
                forall|p: int| 0 <= p < j ==> (#[trigger] parts@[p])@.len() == model[p].len(),
                forall|p: int, i: int|
                    0 <= p < j && 0 <= i < model[p].len() ==> cloned(
                        #[trigger] model[p][i],
                        #[trigger] parts@[p]@[i],
                    ),
            decreases at@.len() - j,
        {
            let cut = at[j];
            proof {
                if j > 0 {
                    assert(at_most()(cuts[j - 1], cuts[j as int]));
                }
            }
            let part = clone_part(d, start, cut);
            parts.push(part);
            start = cut;
            j += 1;
        }
        let part = clone_part(d, start, d.len());
        parts.push(part);
        Ok(parts)
    }
}

} // verus!
