//! Random numbers that follow from a seed.
use vstd::prelude::*;

verus! {

#[verifier::external_type_specification]
#[verifier::external_body]
pub struct ExRand(frand::Rand);

/// What a generator holds between two draws.
pub uninterp spec fn rand_state(rng: frand::Rand) -> u64;

/// The product of two numbers, without what does not fit 64 bits.
pub open spec fn wrapped_product(a: u64, b: u64) -> u64 {
    ((a * b) % 0x1_0000_0000_0000_0000) as u64
}

/// A number with its upper half folded into the lower one.
pub open spec fn folded(a: u64) -> u64 {
    a ^ (a >> 32)
}

/// What a generator made from a seed holds: the seed, folded and multiplied twice.
#[verifier::opaque]
pub open spec fn seeded(seed: u64) -> u64 {
    let once = wrapped_product(folded(seed), 4997996261773036203);
    let twice = wrapped_product(folded(once), 4997996261773036203);
    folded(twice)
}

/// What a generator holds after a draw.
pub open spec fn stepped(state: u64) -> u64 {
    ((state + 12964901029718341801) % 0x1_0000_0000_0000_0000) as u64
}

/// The 32 bits that a generator makes of what it holds after a draw.
pub open spec fn bits_32(state: u64) -> u64 {
    wrapped_product(state, 18162115696561729952 ^ state) >> 32
}

/// The 64 bits that a generator makes of what it holds after a draw.
pub open spec fn bits_64(state: u64) -> u64 {
    folded(wrapped_product(state, 149988720821803190 ^ state))
}

/// What is drawn from a range of 32-bit numbers, and what the generator holds afterwards.
#[verifier::opaque]
pub open spec fn drawn_u32(state: u64, from: u32, to: u32) -> (u32, u64) {
    let held = stepped(state);
    ((from + bits_32(held) as int % (to - from)) as u32, held)
}

/// What is drawn from a range of 64-bit numbers, and what the generator holds afterwards.
#[verifier::opaque]
pub open spec fn drawn_u64(state: u64, from: u64, to: u64) -> (u64, u64) {
    let held = stepped(state);
    ((from + bits_64(held) as int % (to - from)) as u64, held)
}

/// What is drawn from a range of signed 16-bit numbers, and what the generator holds afterwards.
/// The lower half of the 32 bits is used.
#[verifier::opaque]
pub open spec fn drawn_i16(state: u64, from: i16, to: i16) -> (i16, u64) {
    let held = stepped(state);
    ((from + bits_32(held) as int % 65536 % (to - from)) as i16, held)
}

/// `Rand::with_seed`: the new generator holds the mixed seed.
pub assume_specification[ frand::Rand::with_seed ](seed: u64) -> (rng: frand::Rand)
    ensures
        rand_state(rng) == seeded(seed),
;

/// `Rand::gen_range` on `u32`: the generator takes a step, and the number is the first of the
/// range plus the remainder of the bits it makes, divided by the length of the range. So the
/// number lies in the range, and the range must not be empty.
#[verifier::external_body]
pub(crate) fn draw_u32(rng: &mut frand::Rand, from: u32, to: u32) -> (drawn: u32)
    requires
        from < to,
    ensures
        from <= drawn < to,
        (drawn, rand_state(*final(rng))) == drawn_u32(rand_state(*old(rng)), from, to),
{
    rng.gen_range(from..to)
}

/// `Rand::gen_range` on `u64`: the generator takes a step, and the number is the first of the
/// range plus the remainder of the bits it makes, divided by the length of the range. So the
/// number lies in the range, and the range must not be empty.
#[verifier::external_body]
pub(crate) fn draw_u64(rng: &mut frand::Rand, from: u64, to: u64) -> (drawn: u64)
    requires
        from < to,
    ensures
        from <= drawn < to,
        (drawn, rand_state(*final(rng))) == drawn_u64(rand_state(*old(rng)), from, to),
{
    rng.gen_range(from..to)
}

/// `Rand::gen_range` on `i16`: the generator takes a step, and the number is the first of the
/// range plus the remainder of the bits it makes, divided by the length of the range. So the
/// number lies in the range, and the range must not be empty.
#[verifier::external_body]
pub(crate) fn draw_i16(rng: &mut frand::Rand, from: i16, to: i16) -> (drawn: i16)
    requires
        from < to,
    ensures
        from <= drawn < to,
        (drawn, rand_state(*final(rng))) == drawn_i16(rand_state(*old(rng)), from, to),
{
    rng.gen_range(from..to)
}

} // verus!
