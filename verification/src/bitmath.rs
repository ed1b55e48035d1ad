use vstd::prelude::*;

verus! {

/// `2^n` over the integers (`1` for `n <= 0`); the control-bit buffer of the
/// encoder and the flag-byte arithmetic of the decoder are stated with it.
pub open spec fn two_pow(n: int) -> int
    decreases n,
{
    if n <= 0 {
        1
    } else {
        2 * two_pow(n - 1)
    }
}

pub proof fn lemma_two_pow_pos(n: int)
    ensures
        two_pow(n) >= 1,
    decreases n,
{
    if n > 0 {
        lemma_two_pow_pos(n - 1);
    }
}

pub proof fn lemma_two_pow_mono(a: int, b: int)
    requires
        a <= b,
    ensures
        two_pow(a) <= two_pow(b),
    decreases b - a,
{
    if a < b {
        lemma_two_pow_mono(a, b - 1);
        lemma_two_pow_pos(b - 1);
    }
}

/// The byte-sized instances that the flag-byte proofs use.
pub proof fn lemma_two_pow_values()
    ensures
        two_pow(0) == 1,
        two_pow(1) == 2,
        two_pow(2) == 4,
        two_pow(3) == 8,
        two_pow(4) == 16,
        two_pow(5) == 32,
        two_pow(6) == 64,
        two_pow(7) == 128,
        two_pow(8) == 256,
{
    reveal_with_fuel(two_pow, 10);
}

} // verus!
