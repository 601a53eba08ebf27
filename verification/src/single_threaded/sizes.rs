//! Size and alignment arithmetic shared by the allocation strategies.
//!
//! All strategies round request sizes up to multiples of the minimum block
//! size (16 bytes) and classify small requests into power-of-two bins. The
//! functions here are pure and stateless, so each carries an exact contract.

use crate::{MAX_PAGES, PAGE_SIZE};
use vstd::arithmetic::div_mod::{
    lemma_fundamental_div_mod, lemma_mod_division_less_than_divisor, lemma_mod_multiples_basic,
    lemma_mod_self_0, lemma_small_mod, lemma_sub_mod_noop,
};
use vstd::prelude::*;

verus! {

/// Minimum block size and the alignment every strategy guarantees, in bytes.
pub const MIN_BLOCK_SIZE: usize = 16;

/// Whether `a` is a power of two.
pub open spec fn is_pow2(a: usize) -> bool {
    a != 0 && a & ((a - 1) as usize) == 0
}

/// `v` rounded up to the next multiple of `inc`.
pub open spec fn spec_round_up(v: int, inc: int) -> int {
    if v % inc == 0 {
        v
    } else {
        v + inc - v % inc
    }
}

/// `v` rounded down to the previous multiple of `inc`.
pub open spec fn spec_multiple_below(v: int, inc: int) -> int {
    v - v % inc
}

/// A request size coerced up to the minimum block size, then rounded to a
/// multiple of it.
pub open spec fn spec_full_size(s: int) -> int {
    spec_round_up(if s < MIN_BLOCK_SIZE { MIN_BLOCK_SIZE as int } else { s }, MIN_BLOCK_SIZE as int)
}

/// The bin index serving a request of `s` bytes, or `None` above the largest
/// class. Classes are 16, 32, 64 and 128 bytes.
pub open spec fn spec_bin_index(s: int) -> Option<usize> {
    if s > 128 {
        None
    } else if s <= 16 {
        Some(0usize)
    } else if s <= 32 {
        Some(1usize)
    } else if s <= 64 {
        Some(2usize)
    } else {
        Some(3usize)
    }
}

/// The byte capacity of bin `i`.
pub open spec fn spec_bin_size(i: int) -> int {
    if i == 0 {
        16
    } else if i == 1 {
        32
    } else if i == 2 {
        64
    } else {
        128
    }
}

/// Every power of two up to 16 divides 16, so a 16-byte-aligned address
/// satisfies any supported alignment.
#[verifier::rlimit(100)]
pub proof fn lemma_align16_covers(x: usize, a: usize)
    by (bit_vector)
    requires
        is_pow2(a),
        a <= 16,
        x % 16 == 0,
    ensures
        x % a == 0,
{
}

/// Two multiples of `inc` within a window narrower than `inc` coincide.
proof fn lemma_multiple_window_unique(r1: int, r2: int, inc: int)
    requires
        inc >= 1,
        r1 % inc == 0,
        r2 % inc == 0,
        r1 - inc < r2 < r1 + inc,
    ensures
        r1 == r2,
{
    lemma_mod_self_0(inc);
    lemma_small_mod(0nat, inc as nat);
    if r1 <= r2 {
        let d = r2 - r1;
        lemma_sub_mod_noop(r2, r1, inc);
        lemma_small_mod(d as nat, inc as nat);
    } else {
        let d = r1 - r2;
        lemma_sub_mod_noop(r1, r2, inc);
        lemma_small_mod(d as nat, inc as nat);
    }
}

/// The characteristic properties of `spec_round_up`.
pub proof fn lemma_round_up_props(v: int, inc: int)
    requires
        inc >= 1,
        v >= 0,
    ensures
        spec_round_up(v, inc) % inc == 0,
        v <= spec_round_up(v, inc) < v + inc,
        spec_round_up(v, inc) <= if v % inc == 0 { v } else { v + inc },
{
    lemma_mod_division_less_than_divisor(v, inc);
    lemma_fundamental_div_mod(v, inc);
    if v % inc == 0 {
    } else {
        let r = v + inc - v % inc;
        assert((v / inc + 1) * inc == (v / inc) * inc + inc) by (nonlinear_arith);
        assert(inc * (v / inc) == (v / inc) * inc) by (nonlinear_arith);
        assert(r == (v / inc + 1) * inc);
        lemma_mod_multiples_basic(v / inc + 1, inc);
    }
}

/// The characteristic properties of `spec_multiple_below`.
pub proof fn lemma_multiple_below_props(v: int, inc: int)
    requires
        inc >= 1,
        v >= 0,
    ensures
        spec_multiple_below(v, inc) % inc == 0,
        spec_multiple_below(v, inc) <= v < spec_multiple_below(v, inc) + inc,
        spec_multiple_below(v, inc) >= 0,
{
    lemma_mod_division_less_than_divisor(v, inc);
    lemma_fundamental_div_mod(v, inc);
    lemma_mod_multiples_basic(v / inc, inc);
    assert(inc * (v / inc) == (v / inc) * inc) by (nonlinear_arith);
    assert(v - v % inc == (v / inc) * inc);
}

/// Rounds `value` down to the nearest multiple of `increment`, which must be
/// a power of two. A `value` already on a multiple stays unchanged.
pub fn multiple_below(value: usize, increment: usize) -> (r: usize)
    requires
        is_pow2(increment),
    ensures
        r == spec_multiple_below(value as int, increment as int),
{
    proof {
        lemma_multiple_below_props(value as int, increment as int);
        lemma_fundamental_div_mod(value as int, increment as int);
        assert((increment as int) * ((value as int) / (increment as int)) == ((value as int) / (
        increment as int)) * (increment as int)) by (nonlinear_arith);
        assert(((value as int) / (increment as int)) * (increment as int) == spec_multiple_below(
            value as int,
            increment as int,
        ));
    }
    (value / increment) * increment
}

/// Rounds `value` up to the nearest multiple of `increment`, which must be a
/// power of two. A `value` already on a multiple stays unchanged.
pub fn round_up(value: usize, increment: usize) -> (r: usize)
    requires
        is_pow2(increment),
        value < increment || increment - 1 <= usize::MAX - value,
    ensures
        r == spec_round_up(value as int, increment as int),
{
    let rem = value % increment;
    if rem == 0 {
        value
    } else if value < increment {
        proof {
            lemma_small_mod(value as nat, increment as nat);
        }
        increment
    } else {
        value + (increment - rem)
    }
}

/// The size actually set aside for a request of `size` bytes: at least the
/// minimum block size, and a multiple of it.
pub fn full_size(size: usize) -> (r: usize)
    requires
        size <= usize::MAX - MIN_BLOCK_SIZE,
    ensures
        r == spec_full_size(size as int),
{
    let grown = if size < MIN_BLOCK_SIZE {
        MIN_BLOCK_SIZE
    } else {
        size
    };
    proof {
        assert(is_pow2(16usize)) by (bit_vector);
    }
    round_up(grown, MIN_BLOCK_SIZE)
}

/// The bin index serving a request of `size` bytes; `None` means the request
/// is above the largest class and bypasses the bins.
pub fn get_index(size: usize) -> (r: Option<usize>)
    ensures
        r == spec_bin_index(size as int),
{
    if size > 128 {
        None
    } else if size <= 16 {
        Some(0)
    } else if size <= 32 {
        Some(1)
    } else if size <= 64 {
        Some(2)
    } else {
        Some(3)
    }
}

/// The number of whole pages requested from the growth primitive to win
/// `needed` more bytes: at least one page, and enough to cover `needed`.
pub open spec fn spec_pages_for(needed: int) -> int {
    let p = (needed + PAGE_SIZE - 1) / (PAGE_SIZE as int);
    if p < 1 {
        1
    } else {
        p
    }
}

/// A page request covers what was needed and wastes less than a page.
pub proof fn lemma_pages_for_props(needed: int)
    requires
        needed >= 1,
    ensures
        spec_pages_for(needed) >= 1,
        spec_pages_for(needed) * PAGE_SIZE >= needed,
        spec_pages_for(needed) * PAGE_SIZE < needed + PAGE_SIZE,
{
    let page = PAGE_SIZE as int;
    let w = needed + page - 1;
    lemma_multiple_below_props(w, page);
    lemma_fundamental_div_mod(w, page);
    assert(page * (w / page) == (w / page) * page) by (nonlinear_arith);
    assert((w / page) * page == spec_multiple_below(w, page));
    lemma_round_up_props(needed, page);
    lemma_multiple_window_unique(spec_multiple_below(w, page), spec_round_up(needed, page), page);
    assert(w / page >= 1);
}

/// Divisibility is transitive: a multiple of a multiple of `b` is a multiple
/// of `b`.
pub proof fn lemma_mod_trans(x: int, a: int, b: int)
    requires
        a > 0,
        b > 0,
        x >= 0,
        x % a == 0,
        a % b == 0,
    ensures
        x % b == 0,
{
    lemma_fundamental_div_mod(x, a);
    lemma_fundamental_div_mod(a, b);
    assert(x == a * (x / a));
    assert(a == b * (a / b));
    assert(x == ((a / b) * (x / a)) * b) by (nonlinear_arith)
        requires
            x == a * (x / a),
            a == b * (a / b),
    ;
    lemma_mod_multiples_basic((a / b) * (x / a), b);
}

/// A power of two no smaller than 16 is a multiple of 16.
#[verifier::rlimit(100)]
pub proof fn lemma_pow2_multiple_of_16(a: usize)
    by (bit_vector)
    requires
        is_pow2(a),
        a >= 16,
    ensures
        a % 16 == 0,
{
}

/// Properties of `spec_full_size` every caller leans on.
pub proof fn lemma_full_size_props(s: int)
    requires
        s >= 0,
    ensures
        spec_full_size(s) >= s,
        spec_full_size(s) >= 16,
        spec_full_size(s) % 16 == 0,
        spec_full_size(s) <= if s < 16 { 16 } else { s + 15 },
{
    let grown = if s < 16 { 16 } else { s };
    lemma_round_up_props(grown, 16);
}

} // verus!
