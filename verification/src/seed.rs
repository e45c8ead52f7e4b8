//! Seed derivation and the pseudo-random generator.
//!
//! A user-supplied byte string becomes a 32-bit seed: short all-digit strings
//! are read as decimal numbers, everything else goes through a polynomial
//! rolling hash. The generator is a 31-bit linear congruential generator whose
//! state the caller owns and threads through calls.

use vstd::prelude::*;

verus! {

/// One step of the polynomial rolling hash: `h*31 + b` with 32-bit wraparound.
pub open spec fn hash_step(h: u32, b: u8) -> u32 {
    vstd::wrapping::u32_specs::wrapping_add(vstd::wrapping::u32_specs::wrapping_mul(h, 31u32), b as u32)
}

/// The rolling hash of a byte sequence, folded left to right from 0.
pub open spec fn hashcode_of(s: Seq<u8>) -> u32
    decreases s.len(),
{
    if s.len() == 0 {
        0u32
    } else {
        hash_step(hashcode_of(s.drop_last()), s.last())
    }
}

/// Polynomial rolling hash over bytes, `h = h*31 + b` with 32-bit wraparound.
pub fn hashcode(s: &[u8]) -> (r: u32)
    ensures
        r == hashcode_of(s@),
{
    let mut h: u32 = 0;
    let n: usize = s.len();
    for i in 0..n
        invariant
            n == s@.len(),
            h == hashcode_of(s@.take(i as int)),
    {
        h = h.wrapping_mul(31).wrapping_add(s[i] as u32);
        proof {
            assert(s@.take(i + 1).drop_last() =~= s@.take(i as int));
            assert(s@.take(i + 1).last() == s@[i as int]);
        }
    }
    proof {
        assert(s@.take(n as int) =~= s@);
    }
    h
}

/// Whether every byte of the sequence is an ASCII decimal digit.
pub open spec fn all_digits(s: Seq<u8>) -> bool {
    forall|i: int| 0 <= i < s.len() ==> 0x30 <= #[trigger] s[i] <= 0x39
}

/// The value of a digit sequence read as a base-10 number, most significant first.
pub open spec fn decimal_value(s: Seq<u8>) -> int
    decreases s.len(),
{
    if s.len() == 0 {
        0
    } else {
        decimal_value(s.drop_last()) * 10 + (s.last() - 0x30)
    }
}

/// What `string_to_seed` returns: byte strings of more than ten bytes, strings
/// with a non-digit byte, and digit strings whose value exceeds `u32::MAX` all
/// fall back to the rolling hash; any other string is read as a decimal number.
pub open spec fn seed_of(s: Seq<u8>) -> u32 {
    if s.len() > 10 {
        hashcode_of(s)
    } else if !all_digits(s) {
        hashcode_of(s)
    } else if decimal_value(s) > u32::MAX {
        hashcode_of(s)
    } else {
        decimal_value(s) as u32
    }
}

spec fn ten_pow(n: nat) -> int
    decreases n,
{
    if n == 0 {
        1
    } else {
        10 * ten_pow((n - 1) as nat)
    }
}

proof fn lemma_ten_pow_mono(a: nat, b: nat)
    requires
        a <= b,
    ensures
        1 <= ten_pow(a) <= ten_pow(b),
    decreases b,
{
    if a < b {
        lemma_ten_pow_mono(a, (b - 1) as nat);
    } else if b > 0 {
        lemma_ten_pow_mono(0, (b - 1) as nat);
    }
}

proof fn lemma_decimal_value_bound(s: Seq<u8>)
    requires
        all_digits(s),
    ensures
        0 <= decimal_value(s) < ten_pow(s.len()),
    decreases s.len(),
{
    if s.len() > 0 {
        assert(all_digits(s.drop_last())) by {
            assert(forall|i: int|
                0 <= i < s.len() - 1 ==> 0x30 <= #[trigger] s.drop_last()[i] <= 0x39);
        }
        lemma_decimal_value_bound(s.drop_last());
    }
}

/// A digit string is worth at least as much as any of its prefixes.
pub proof fn lemma_decimal_prefix_mono(s: Seq<u8>, i: int)
    requires
        all_digits(s),
        0 <= i <= s.len(),
    ensures
        decimal_value(s) >= decimal_value(s.take(i)),
    decreases s.len(),
{
    lemma_decimal_value_bound(s);
    if i < s.len() {
        assert(all_digits(s.drop_last())) by {
            assert(forall|k: int|
                0 <= k < s.len() - 1 ==> 0x30 <= #[trigger] s.drop_last()[k] <= 0x39);
        }
        lemma_decimal_value_bound(s.drop_last());
        lemma_decimal_prefix_mono(s.drop_last(), i);
        assert(s.drop_last().take(i) =~= s.take(i));
    } else {
        assert(s.take(i) =~= s);
    }
}

/// Derives the 32-bit seed from a user byte string: a string of at most ten
/// bytes that is all decimal digits and whose value fits in 32 bits is read as
/// that number; every other string is hashed with `hashcode`.
pub fn string_to_seed(s: &[u8]) -> (r: u32)
    ensures
        r == seed_of(s@),
{
    let n: usize = s.len();
    if n > 10 {
        return hashcode(s);
    }
    let mut res: u64 = 0;
    for i in 0..n
        invariant
            n == s@.len(),
            n <= 10,
            all_digits(s@.take(i as int)),
            res == decimal_value(s@.take(i as int)),
    {
        let b = s[i];
        if b >= 0x30 && b <= 0x39 {
            proof {
                lemma_decimal_value_bound(s@.take(i as int));
                lemma_ten_pow_mono(i as nat, 9);
                assert(ten_pow(9) == 1000000000) by {
                    reveal_with_fuel(ten_pow, 11);
                }
            }
            res = res * 10 + (b - 0x30) as u64;
            proof {
                assert(s@.take(i + 1).drop_last() =~= s@.take(i as int));
                assert(s@.take(i + 1).last() == s@[i as int]);
            }
        } else {
            proof {
                assert(!all_digits(s@));
            }
            return hashcode(s);
        }
    }
    proof {
        assert(s@.take(n as int) =~= s@);
    }
    if res > 0xffffffff {
        return hashcode(s);
    }
    res as u32
}

/// The successor state of the linear congruential generator:
/// `state*1103515245 + 12345` with 32-bit wraparound.
pub open spec fn prng_next(state: u32) -> u32 {
    vstd::wrapping::u32_specs::wrapping_add(
        vstd::wrapping::u32_specs::wrapping_mul(state, 1103515245u32),
        12345u32,
    )
}

/// What one generator step returns: the new state with the top bit cleared,
/// a value in `[0, 2^31 - 1]`.
pub open spec fn prng_out(state: u32) -> u32 {
    prng_next(state) & 0x7fffffff
}

/// Advances the generator state once and returns the new state with the top
/// bit cleared.
pub fn prng(state: &mut u32) -> (r: u32)
    ensures
        *final(state) == prng_next(*old(state)),
        r == prng_out(*old(state)),
        r <= 0x7fffffff,
{
    let new_state = state.wrapping_mul(1103515245).wrapping_add(12345);
    *state = new_state;
    let r = new_state & 0x7fffffff;
    proof {
        assert(r <= 0x7fffffff) by (bit_vector)
            requires
                r == new_state & 0x7fffffff,
        ;
    }
    r
}

} // verus!
