//! Tile values: zero for a free cell, otherwise a power of two from 2 up.

use vstd::arithmetic::power2::{lemma2_to64, lemma_pow2_strictly_increases, lemma_pow2_unfold, pow2};
use vstd::prelude::*;

verus! {

/// The largest tile a cell can hold: 2^31.
pub const TILE_MAX: u32 = 0x8000_0000;

/// A cell value is valid when it is zero (free) or 2^k for some k >= 1.
pub open spec fn is_tile(value: nat) -> bool {
    value == 0 || exists|k: nat| k >= 1 && value == #[trigger] pow2(k)
}

/// The two values a new tile can have are valid.
pub proof fn lemma_new_tiles_are_tiles()
    ensures
        is_tile(2),
        is_tile(4),
{
    lemma2_to64();
    assert(pow2(1) == 2);
    assert(pow2(2) == 4);
}

/// A tile on the board is at least 2, and twice a tile is a tile again.
pub proof fn lemma_double_tile(value: nat)
    requires
        is_tile(value),
        value != 0,
    ensures
        value >= 2,
        is_tile(2 * value),
{
    let k = choose|k: nat| k >= 1 && value == #[trigger] pow2(k);
    lemma2_to64();
    if k > 1 {
        lemma_pow2_strictly_increases(1, k);
    }
    lemma_pow2_unfold(k + 1);
    assert(2 * value == pow2(k + 1));
}

/// A tile that fits 32 bits is at most `TILE_MAX`.
pub proof fn lemma_tile_fits(value: nat)
    requires
        is_tile(value),
        value <= u32::MAX,
    ensures
        value <= TILE_MAX,
{
    if value != 0 {
        let k = choose|k: nat| k >= 1 && value == #[trigger] pow2(k);
        lemma2_to64();
        if k > 32 {
            lemma_pow2_strictly_increases(32, k);
        }
        if k < 31 {
            lemma_pow2_strictly_increases(k, 31);
        }
    }
}

/// Decides whether `value` may be stored in a cell.
pub fn is_valid_tile(value: u32) -> (valid: bool)
    ensures
        valid == is_tile(value as nat),
{
    if value == 0 {
        return true;
    }
    let mut power: u32 = 2;
    let mut exponent: u32 = 1;
    proof {
        lemma2_to64();
    }
    while power < value && exponent < 31
        invariant
            1 <= exponent <= 31,
            power == pow2(exponent as nat),
            forall|k: nat| 1 <= k < exponent ==> #[trigger] pow2(k) < value,
        decreases 31 - exponent,
    {
        proof {
            lemma2_to64();
            lemma_pow2_unfold((exponent + 1) as nat);
            if exponent < 30 {
                lemma_pow2_strictly_increases((exponent + 1) as nat, 31);
            }
        }
        power = power * 2;
        exponent = exponent + 1;
    }
    let valid = power == value;
    proof {
        if !valid {
            assert forall|k: nat| k >= 1 implies value != #[trigger] pow2(k) by {
                if k > exponent {
                    lemma_pow2_strictly_increases(exponent as nat, k);
                    if power < value {
                        lemma2_to64();
                        if k > 32 {
                            lemma_pow2_strictly_increases(32, k);
                        }
                    }
                }
            }
        }
    }
    valid
}

} // verus!
