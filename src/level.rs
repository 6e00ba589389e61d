use vstd::prelude::*;

verus! {

/// The highest level index a tower may reach.
pub const MAX_LEVEL: usize = 32;

/// Number of levels every sentinel owns: `0..=MAX_LEVEL`.
pub const LEVELS: usize = 33;

/// Number of trailing zero bits of `bits`, capped at `cap`: with uniform
/// random bits this is a geometric draw with `P(level >= L) = 0.5^L`.
pub open spec fn trailing_zeros_capped(bits: nat, cap: nat) -> nat
    decreases cap,
{
    if cap == 0 || bits % 2 == 1 {
        0
    } else {
        1 + trailing_zeros_capped(bits / 2, (cap - 1) as nat)
    }
}

/// The tower height drawn from 64 random bits.
pub fn level_from_bits(bits: u64) -> (r: usize)
    ensures
        r as nat == trailing_zeros_capped(bits as nat, MAX_LEVEL as nat),
        r <= MAX_LEVEL,
{
    let mut b: u64 = bits;
    let mut level: usize = 0;
    while level < MAX_LEVEL && b % 2 == 0
        invariant
            level <= MAX_LEVEL,
            level as nat + trailing_zeros_capped(b as nat, (MAX_LEVEL - level) as nat)
                == trailing_zeros_capped(bits as nat, MAX_LEVEL as nat),
        decreases MAX_LEVEL - level,
    {
        b = b / 2;
        level = level + 1;
    }
    level
}

/// Draws a tower height from the geometric distribution with `p = 1/2`,
/// capped at `MAX_LEVEL`.
pub fn random_level() -> (r: usize)
    ensures
        r <= MAX_LEVEL,
{
    level_from_bits(random_bits())
}

/// Relies on rand::random: 64 bits from the thread-local generator; nothing is
/// promised of their value.
#[verifier::external_body]
fn random_bits() -> (r: u64) {
    rand::random::<u64>()
}

} // verus!
