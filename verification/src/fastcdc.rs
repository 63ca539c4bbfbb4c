//! Multi-phase size-gated chunker (FastCDC style).
//!
//! Wraps the shift-accumulate engine with a chunk-size policy derived from
//! one exponent: boundaries are never taken below `min_size`, are searched
//! with a sparse mask up to `avg_size` and a denser mask up to `max_size`,
//! and are forced unconditionally once a chunk reaches `max_size`.

use crate::gear::{gear_digest_of, Gear};
use crate::{Chunker, RollingHash};
use vstd::arithmetic::power2::{
    lemma2_to64, lemma_pow2_pos, lemma_pow2_strictly_increases, lemma_pow2_unfold, pow2,
};
use vstd::prelude::*;
use vstd::wrapping::u64_specs;

verus! {

/// How far `min_size` and `max_size` spread out from `avg_size`, as a power
/// of two.
pub const SPREAD_BITS: u32 = 3;

/// Iteration budget for the mask-growing procedure. The procedure sets one
/// more mask bit every few steps, so the budget is far beyond what any
/// reachable target needs; it only bounds the loop.
pub const GROW_FUEL: u32 = 100000;

/// The number of one-bits in the binary representation of `n`.
pub open spec fn popcount(n: nat) -> nat
    decreases n,
{
    if n == 0 {
        0
    } else {
        popcount(n / 2) + n % 2
    }
}

proof fn lemma_popcount_bound(n: nat, k: nat)
    requires
        n < pow2(k),
    ensures
        popcount(n) <= k,
    decreases k,
{
    if n > 0 {
        lemma_pow2_pos(k);
        if k == 0 {
            assert(pow2(0) == 1) by {
                lemma2_to64();
            }
        } else {
            lemma_pow2_unfold(k);
            lemma_popcount_bound(n / 2, (k - 1) as nat);
        }
    }
}

proof fn lemma_popcount_pos(n: nat)
    requires
        n > 0,
    ensures
        popcount(n) >= 1,
    decreases n,
{
    if n % 2 == 0 {
        lemma_popcount_pos(n / 2);
    }
}

/// Count the one-bits of `x`.
fn popcount64(x: u64) -> (c: u32)
    ensures
        c as nat == popcount(x as nat),
{
    proof {
        lemma2_to64();
        vstd::arithmetic::power2::lemma2_to64_rest();
        lemma_popcount_bound(x as nat, 64);
    }
    let mut n = x;
    let mut c: u32 = 0;
    #[verifier::loop_isolation(false)]
    while n != 0
        invariant
            c as nat + popcount(n as nat) == popcount(x as nat),
            c <= 64,
        decreases n,
    {
        proof {
            assert(n & 1 == n % 2) by (bit_vector);
            assert(n >> 1 == n / 2) by (bit_vector);
            assert(n >> 1 < n) by (bit_vector)
                requires
                    n != 0u64,
            ;
            lemma_popcount_pos(n as nat);
        }
        c = c + (n & 1) as u32;
        n = n >> 1;
    }
    c
}

/// Rotate `x` left by `s` bit positions.
pub open spec fn rotl64_spec(x: u64, s: u32) -> u64
    recommends
        s < 64,
{
    if s == 0 {
        x
    } else {
        (x << s) | (x >> ((64 - s) as u32))
    }
}

fn rotl64(x: u64, s: u32) -> (r: u64)
    requires
        s < 64,
    ensures
        r == rotl64_spec(x, s),
{
    if s == 0 {
        x
    } else {
        (x << s) | (x >> (64 - s))
    }
}

/// One step of the linear congruential generator that drives the
/// mask-growing procedure.
#[verifier::opaque]
pub open spec fn lcg_next(v: u64) -> u64 {
    u64_specs::wrapping_add(u64_specs::wrapping_mul(v, 6364136223846793005), 1442695040888963407)
}

/// Grow `mask` by rotating in one-bits at pseudorandom positions until it
/// has at least `target` bits set (or the iteration budget runs out);
/// returns the grown mask and the generator state.
pub open spec fn mask_grow(mask: u64, v: u64, target: nat, fuel: nat) -> (u64, u64)
    decreases fuel,
{
    if fuel == 0 || popcount(mask as nat) >= target {
        (mask, v)
    } else {
        let v2 = lcg_next(v);
        mask_grow(rotl64_spec(mask | 1, (v2 & 0x3f) as u32), v2, target, (fuel - 1) as nat)
    }
}

proof fn lemma_popcount_step(x: u64)
    ensures
        popcount(x as nat) == popcount((x >> 1u32) as nat) + ((x & 1) as nat),
{
    assert(x >> 1u32 == x / 2) by (bit_vector);
    assert(x & 1 == x % 2) by (bit_vector);
}

proof fn lemma_popcount_or1(x: u64)
    ensures
        popcount((x | 1) as nat) <= popcount(x as nat) + 1,
{
    assert((x | 1) >> 1u32 == x >> 1u32) by (bit_vector);
    assert((x | 1) & 1 == 1) by (bit_vector);
    lemma_popcount_step(x);
    lemma_popcount_step(x | 1);
}

proof fn lemma_popcount_or_disjoint(a: u64, b: u64)
    requires
        a & b == 0,
    ensures
        popcount((a | b) as nat) == popcount(a as nat) + popcount(b as nat),
    decreases a as nat + b as nat,
{
    if a == 0 && b == 0 {
        assert(0u64 | 0u64 == 0u64) by (bit_vector);
    } else {
        assert((a | b) >> 1u32 == (a >> 1u32) | (b >> 1u32)) by (bit_vector);
        assert((a >> 1u32) & (b >> 1u32) == 0) by (bit_vector)
            requires
                a & b == 0u64,
        ;
        assert(((a | b) & 1) == (a & 1) + (b & 1)) by (bit_vector)
            requires
                a & b == 0u64,
        ;
        assert((a >> 1u32) + (b >> 1u32) < a + b) by (bit_vector)
            requires
                !(a == 0u64 && b == 0u64),
        ;
        lemma_popcount_or_disjoint(a >> 1u32, b >> 1u32);
        lemma_popcount_step(a);
        lemma_popcount_step(b);
        lemma_popcount_step(a | b);
    }
}

proof fn lemma_popcount_shl1(x: u64)
    requires
        x < 0x8000_0000_0000_0000,
    ensures
        popcount((x << 1u32) as nat) == popcount(x as nat),
{
    assert((x << 1u32) >> 1u32 == x) by (bit_vector)
        requires
            x < 0x8000_0000_0000_0000u64,
    ;
    assert((x << 1u32) & 1 == 0) by (bit_vector);
    lemma_popcount_step(x << 1u32);
}

proof fn lemma_popcount_shl(x: u64, s: u32)
    requires
        s < 64,
        x < (1u64 << ((64 - s) as u32)),
    ensures
        popcount((x << s) as nat) == popcount(x as nat),
    decreases s,
{
    if s == 0 {
        assert(x << 0u32 == x) by (bit_vector);
    } else if s == 1 {
        assert(x < 0x8000_0000_0000_0000u64) by (bit_vector)
            requires
                s == 1u32,
                x < (1u64 << ((64 - s) as u32)),
        ;
        lemma_popcount_shl1(x);
        assert(x << 1u32 == x << s) by (bit_vector)
            requires
                s == 1u32,
        ;
    } else {
        assert(x < (1u64 << ((64 - (s - 1)) as u32))) by (bit_vector)
            requires
                2 <= s < 64u32,
                x < (1u64 << ((64 - s) as u32)),
        ;
        lemma_popcount_shl(x, (s - 1) as u32);
        assert(x << ((s - 1) as u32) < 0x8000_0000_0000_0000u64) by (bit_vector)
            requires
                1 <= s < 64u32,
                x < (1u64 << ((64 - s) as u32)),
        ;
        lemma_popcount_shl1(x << ((s - 1) as u32));
        assert((x << ((s - 1) as u32)) << 1u32 == x << s) by (bit_vector)
            requires
                1 <= s < 64u32,
        ;
    }
}

/// Rotation permutes the bits, so it preserves their count.
proof fn lemma_popcount_rotl(x: u64, s: u32)
    requires
        s < 64,
    ensures
        popcount(rotl64_spec(x, s) as nat) == popcount(x as nat),
{
    if s != 0 {
        let k = (64 - s) as u32;
        let hi = x >> k;
        let lo = x & (u64::MAX >> s);
        assert(x == (hi << k) | lo && (hi << k) & lo == 0 && hi < (1u64 << s) && lo < (1u64 << k))
            by (bit_vector)
            requires
                1 <= s < 64u32,
                k == (64 - s) as u32,
                hi == x >> k,
                lo == x & (u64::MAX >> s),
        ;
        lemma_popcount_or_disjoint(hi << k, lo);
        lemma_popcount_shl(hi, k);
        assert(x << s == lo << s && (x << s) & (x >> k) == 0 && (x << s) | (x >> k)
            == rotl64_spec(x, s)) by (bit_vector)
            requires
                1 <= s < 64u32,
                k == (64 - s) as u32,
                lo == x & (u64::MAX >> s),
        ;
        lemma_popcount_or_disjoint(x << s, x >> k);
        lemma_popcount_shl(lo, s);
    }
}

/// Each growth step sets at most one more bit, so a mask that starts at or
/// below the target never overshoots it.
proof fn lemma_mask_grow_bounded(mask: u64, v: u64, target: nat, fuel: nat)
    requires
        popcount(mask as nat) <= target,
    ensures
        popcount(mask_grow(mask, v, target, fuel).0 as nat) <= target,
    decreases fuel,
{
    if fuel != 0 && popcount(mask as nat) < target {
        let v2 = lcg_next(v);
        let s = (v2 & 0x3f) as u32;
        assert(v2 & 0x3f < 64) by (bit_vector);
        lemma_popcount_or1(mask);
        lemma_popcount_rotl(mask | 1, s);
        lemma_mask_grow_bounded(rotl64_spec(mask | 1, s), v2, target, (fuel - 1) as nat);
    }
}

/// Both growth stages of `get_masks_spec` reached their popcount targets
/// within the iteration budget.
pub open spec fn masks_reached(bits: nat, nc_level: nat, seed: u64) -> bool {
    let grown_long = mask_grow(0, seed, (bits - nc_level) as nat, GROW_FUEL as nat);
    let grown_short = mask_grow(
        grown_long.0,
        grown_long.1,
        (bits + nc_level) as nat,
        GROW_FUEL as nat,
    );
    &&& popcount(grown_long.0 as nat) >= (bits - nc_level) as nat
    &&& popcount(grown_short.0 as nat) >= (bits + nc_level) as nat
}

/// A mask never grows past its popcount target, and hits it exactly
/// whenever the budget sufficed.
pub proof fn lemma_masks_popcount(bits: nat, nc_level: nat, seed: u64)
    requires
        nc_level <= bits,
        bits != 13,
    ensures
        popcount(get_masks_spec(bits, nc_level, seed).1 as nat) <= (bits - nc_level) as nat,
        popcount(get_masks_spec(bits, nc_level, seed).0 as nat) <= (bits + nc_level) as nat,
        masks_reached(bits, nc_level, seed) ==> popcount(
            get_masks_spec(bits, nc_level, seed).1 as nat,
        ) == (bits - nc_level) as nat && popcount(get_masks_spec(bits, nc_level, seed).0 as nat)
            == (bits + nc_level) as nat,
{
    let grown_long = mask_grow(0, seed, (bits - nc_level) as nat, GROW_FUEL as nat);
    lemma_mask_grow_bounded(0, seed, (bits - nc_level) as nat, GROW_FUEL as nat);
    lemma_mask_grow_bounded(
        grown_long.0,
        grown_long.1,
        (bits + nc_level) as nat,
        GROW_FUEL as nat,
    );
}

/// The smallest `k` with `2^k >= n` (0 for `n <= 1`).
pub open spec fn log2_ceil(n: nat) -> nat
    decreases n,
{
    if n <= 1 {
        0
    } else {
        1 + log2_ceil((n + 1) / 2)
    }
}

proof fn lemma_log2_ceil_char(n: nat, k: nat)
    requires
        n >= 1,
        pow2(k) >= n,
        k == 0 || pow2((k - 1) as nat) < n,
    ensures
        log2_ceil(n) == k,
    decreases k,
{
    if k == 0 {
        assert(pow2(0) == 1) by {
            lemma2_to64();
        }
    } else {
        lemma_pow2_pos((k - 1) as nat);
        lemma_pow2_unfold(k);
        let m = (n + 1) / 2;
        assert(n >= 2);
        assert(m >= 1);
        assert(pow2((k - 1) as nat) >= m);
        if k >= 2 {
            lemma_pow2_unfold((k - 1) as nat);
            assert(pow2((k - 2) as nat) < m);
        }
        lemma_log2_ceil_char(m, (k - 1) as nat);
    }
}

/// The pair `(mask_short, mask_long)` for a boundary exponent `bits`: the
/// two published constants for the default exponent 13, else masks grown by
/// the fixed pseudorandom procedure, with `nc_level` fewer set bits in the
/// long mask and `nc_level` more in the short one.
pub open spec fn get_masks_spec(bits: nat, nc_level: nat, seed: u64) -> (u64, u64) {
    if bits == 13 {
        (0x0003590703530000u64, 0x0000d90003530000u64)
    } else {
        let grown_long = mask_grow(0, seed, (bits - nc_level) as nat, GROW_FUEL as nat);
        let grown_short = mask_grow(
            grown_long.0,
            grown_long.1,
            (bits + nc_level) as nat,
            GROW_FUEL as nat,
        );
        (grown_short.0, grown_long.0)
    }
}

/// Run the mask-growing procedure to completion (or to its budget).
fn grow_mask(mask0: u64, v0: u64, target: u32) -> (r: (u64, u64))
    ensures
        r == mask_grow(mask0, v0, target as nat, GROW_FUEL as nat),
{
    let mut mask = mask0;
    let mut v = v0;
    let mut fuel: u32 = GROW_FUEL;
    let mut pc = popcount64(mask);
    #[verifier::loop_isolation(false)]
    while fuel > 0 && pc < target
        invariant
            pc as nat == popcount(mask as nat),
            mask_grow(mask0, v0, target as nat, GROW_FUEL as nat) == mask_grow(
                mask,
                v,
                target as nat,
                fuel as nat,
            ),
        decreases fuel,
    {
        proof {
            reveal(lcg_next);
        }
        v = v.wrapping_mul(6364136223846793005).wrapping_add(1442695040888963407);
        let s = (v & 0x3f) as u32;
        proof {
            assert(v & 0x3f < 64) by (bit_vector);
        }
        mask = rotl64(mask | 1, s);
        fuel = fuel - 1;
        pc = popcount64(mask);
    }
    (mask, v)
}

/// Derive the two boundary masks for an average chunk size.
fn get_masks(avg_size: usize, nc_level: usize, seed: u64) -> (r: (u64, u64))
    requires
        2 <= avg_size <= 0x4000_0000,
        nc_level as int <= log2_ceil(avg_size as nat),
        log2_ceil(avg_size as nat) + nc_level as int <= 64,
    ensures
        r == get_masks_spec(log2_ceil(avg_size as nat), nc_level as nat, seed),
{
    let bits = log2_ceil_exec(avg_size);
    if bits == 13 {
        // The published mask pair for the default exponent; using exactly
        // these values keeps chunk boundaries compatible with other
        // implementations.
        return (0x0003590703530000, 0x0000d90003530000);
    }
    let grown_long = grow_mask(0, seed, bits - nc_level as u32);
    let grown_short = grow_mask(grown_long.0, grown_long.1, bits + nc_level as u32);
    (grown_short.0, grown_long.0)
}

/// The smallest power-of-two exponent covering `n`.
fn log2_ceil_exec(n: usize) -> (b: u32)
    requires
        1 <= n <= 0x4000_0000,
    ensures
        b as nat == log2_ceil(n as nat),
        b <= 30,
{
    let mut b: u32 = 0;
    let mut p: usize = 1;
    proof {
        lemma2_to64();
    }
    #[verifier::loop_isolation(false)]
    while p < n
        invariant
            p >= 1,
            p as nat == pow2(b as nat),
            b >= 1 ==> pow2((b - 1) as nat) < n,
            p <= 0x4000_0000,
            b <= 31,
        decreases 32 - b,
    {
        proof {
            if b as nat + 1 > 31 {
                lemma_pow2_strictly_increases(30, b as nat);
            }
            lemma_pow2_unfold((b + 1) as nat);
        }
        p = p * 2;
        b = b + 1;
    }
    proof {
        lemma_log2_ceil_char(n as nat, b as nat);
        if b >= 31 {
            lemma_pow2_strictly_increases(30, (b - 1) as nat);
        }
    }
    b
}

/// A boundary decision of the size-gated chunker: a chunk consisting of the
/// bytes `p` ends at a cut point when it has reached `max_size`, or when
/// the engine digest matches the sparse mask in the sub-average size region
/// or the dense mask in the above-average region.
pub open spec fn fastcdc_cut(
    min_size: u64,
    avg_size: u64,
    max_size: u64,
    mask_short: u64,
    mask_long: u64,
    p: Seq<u8>,
) -> bool {
    ||| p.len() == max_size
    ||| (min_size < p.len() <= avg_size && gear_digest_of(p) & mask_short == 0u64)
    ||| (avg_size < p.len() < max_size && gear_digest_of(p) & mask_long == 0u64)
}

/// Every cut produced under a well-ordered size policy closes a chunk of at
/// least `min_size` and at most `max_size` bytes.
pub proof fn lemma_cut_size_bounds(
    min_size: u64,
    avg_size: u64,
    max_size: u64,
    mask_short: u64,
    mask_long: u64,
    p: Seq<u8>,
)
    requires
        0 < min_size < avg_size < max_size,
        fastcdc_cut(min_size, avg_size, max_size, mask_short, mask_long, p),
    ensures
        min_size <= p.len() <= max_size,
{
}

/// FastCDC chunker: a shift-accumulate engine plus a chunk-size policy.
pub struct FastCDC {
    current_chunk_size: u64,
    gear: Gear,
    mask_short: u64,
    mask_long: u64,
    min_size: u64,
    avg_size: u64,
    max_size: u64,
}

impl FastCDC {
    /// The smallest size at which a chunk may close.
    pub closed spec fn min_size_spec(&self) -> u64 {
        self.min_size
    }

    /// The size at which the boundary mask switches from sparse to dense.
    pub closed spec fn avg_size_spec(&self) -> u64 {
        self.avg_size
    }

    /// The size at which a chunk is closed unconditionally.
    pub closed spec fn max_size_spec(&self) -> u64 {
        self.max_size
    }

    /// The mask used while a chunk is shorter than the average size.
    pub closed spec fn mask_short_spec(&self) -> u64 {
        self.mask_short
    }

    /// The mask used while a chunk is longer than the average size.
    pub closed spec fn mask_long_spec(&self) -> u64 {
        self.mask_long
    }

    /// The size policy is ordered and nontrivial.
    pub open spec fn policy_wf(&self) -> bool {
        0 < self.min_size_spec() < self.avg_size_spec() < self.max_size_spec()
    }

    /// Create a new engine with the default chunking settings
    /// (`chunk_bits = 13`, so chunks average about 8 KiB).
    pub fn new() -> (r: Self)
        ensures
            r.wf(),
            r.pending() == Seq::<u8>::empty(),
            r.min_size_spec() == 2048u64,
            r.avg_size_spec() == 8192u64,
            r.max_size_spec() == 65536u64,
            r.mask_short_spec() == 0x0003590703530000u64,
            r.mask_long_spec() == 0x0000d90003530000u64,
            forall|p: Seq<u8>| #[trigger]
                r.is_cut(p) == fastcdc_cut(
                    2048u64,
                    8192u64,
                    65536u64,
                    0x0003590703530000u64,
                    0x0000d90003530000u64,
                    p,
                ),
    {
        let r = Self::new_with_chunk_bits(13);
        proof {
            assert(pow2(11) == 2048 && pow2(13) == 8192 && pow2(16) == 65536) by {
                lemma2_to64();
            }
        }
        r
    }

    /// Restore the fresh state: an empty chunk and a reset engine.
    fn reset(&mut self)
        requires
            old(self).policy_wf(),
        ensures
            final(self).wf(),
            final(self).pending() == Seq::<u8>::empty(),
            final(self).min_size_spec() == old(self).min_size_spec(),
            final(self).avg_size_spec() == old(self).avg_size_spec(),
            final(self).max_size_spec() == old(self).max_size_spec(),
            final(self).mask_short_spec() == old(self).mask_short_spec(),
            final(self).mask_long_spec() == old(self).mask_long_spec(),
    {
        self.gear.reset();
        self.current_chunk_size = 0;
    }

    /// Create a new engine with a custom boundary exponent: chunks average
    /// `2^chunk_bits` bytes, with at least a quarter and at most eight
    /// times that.
    pub fn new_with_chunk_bits(chunk_bits: u32) -> (r: Self)
        requires
            3 <= chunk_bits <= 30,
        ensures
            r.wf(),
            r.pending() == Seq::<u8>::empty(),
            r.min_size_spec() as nat == pow2((chunk_bits - 2) as nat),
            r.avg_size_spec() as nat == pow2(chunk_bits as nat),
            r.max_size_spec() as nat == pow2((chunk_bits + 3) as nat),
            (r.mask_short_spec(), r.mask_long_spec()) == get_masks_spec(chunk_bits as nat, 2, 0),
            chunk_bits != 13 ==> popcount(r.mask_long_spec() as nat) <= (chunk_bits - 2) as nat
                && popcount(r.mask_short_spec() as nat) <= (chunk_bits + 2) as nat,
            chunk_bits != 13 && masks_reached(chunk_bits as nat, 2, 0) ==> popcount(
                r.mask_long_spec() as nat,
            ) == (chunk_bits - 2) as nat && popcount(r.mask_short_spec() as nat) == (chunk_bits
                + 2) as nat,
            forall|p: Seq<u8>| #[trigger]
                r.is_cut(p) == fastcdc_cut(
                    r.min_size_spec(),
                    r.avg_size_spec(),
                    r.max_size_spec(),
                    r.mask_short_spec(),
                    r.mask_long_spec(),
                    p,
                ),
    {
        proof {
            lemma2_to64();
            lemma_log2_ceil_pow2(chunk_bits as nat);
            if chunk_bits < 30 {
                lemma_pow2_strictly_increases(chunk_bits as nat, 30);
            }
            vstd::bits::lemma_usize_pow2_no_overflow(chunk_bits as nat);
        }
        let avg_usize: usize = 1usize << chunk_bits;
        proof {
            vstd::bits::lemma_usize_shl_is_mul(1usize, chunk_bits as usize);
        }
        let masks = get_masks(avg_usize, 2, 0);
        proof {
            if chunk_bits != 13 {
                lemma_masks_popcount(chunk_bits as nat, 2, 0);
            }
        }
        let shift_min: u64 = (chunk_bits - SPREAD_BITS + 1) as u64;
        let shift_avg: u64 = chunk_bits as u64;
        let shift_max: u64 = (chunk_bits + SPREAD_BITS) as u64;
        let min_size = 1u64 << shift_min;
        let avg_size = 1u64 << shift_avg;
        let max_size = 1u64 << shift_max;
        proof {
            vstd::bits::lemma_u64_pow2_no_overflow((chunk_bits + 3) as nat);
            lemma_pow2_strictly_increases((chunk_bits - 2) as nat, chunk_bits as nat);
            lemma_pow2_strictly_increases(chunk_bits as nat, (chunk_bits + 3) as nat);
            lemma_pow2_strictly_increases((chunk_bits - 2) as nat, (chunk_bits + 3) as nat);
            vstd::bits::lemma_u64_shl_is_mul(1u64, shift_min);
            vstd::bits::lemma_u64_shl_is_mul(1u64, shift_avg);
            vstd::bits::lemma_u64_shl_is_mul(1u64, shift_max);
        }
        FastCDC {
            current_chunk_size: 0,
            gear: Gear::new(),
            mask_short: masks.0,
            mask_long: masks.1,
            min_size,
            avg_size,
            max_size,
        }
    }
}

proof fn lemma_log2_ceil_pow2(k: nat)
    ensures
        log2_ceil(pow2(k)) == k,
{
    lemma_pow2_pos(k);
    if k > 0 {
        lemma_pow2_strictly_increases((k - 1) as nat, k);
    }
    lemma_log2_ceil_char(pow2(k), k);
}

impl Default for FastCDC {
    /// The default chunking settings: the same policy and masks as `new`.
    fn default() -> (r: Self)
        ensures
            r.wf(),
            r.pending() == Seq::<u8>::empty(),
            r.min_size_spec() == 2048u64,
            r.avg_size_spec() == 8192u64,
            r.max_size_spec() == 65536u64,
            r.mask_short_spec() == 0x0003590703530000u64,
            r.mask_long_spec() == 0x0000d90003530000u64,
            forall|p: Seq<u8>| #[trigger]
                r.is_cut(p) == fastcdc_cut(
                    2048u64,
                    8192u64,
                    65536u64,
                    0x0003590703530000u64,
                    0x0000d90003530000u64,
                    p,
                ),
    {
        FastCDC::new()
    }
}

proof fn lemma_prefix_chain(p0: Seq<u8>, buf: Seq<u8>, c: int, j: int)
    requires
        0 <= c,
        0 <= j,
        c + j <= buf.len(),
    ensures
        (p0 + buf.subrange(0, c)) + buf.subrange(c, c + j) == p0 + buf.subrange(0, c + j),
{
    assert((p0 + buf.subrange(0, c)) + buf.subrange(c, c + j) =~= p0 + buf.subrange(0, c + j));
}

proof fn lemma_subrange_of_subrange(buf: Seq<u8>, c: int, t: int, j: int)
    requires
        0 <= c,
        c + t <= buf.len(),
        0 <= j <= t,
    ensures
        buf.subrange(c, c + t).subrange(0, j) == buf.subrange(c, c + j),
{
    assert(buf.subrange(c, c + t).subrange(0, j) =~= buf.subrange(c, c + j));
}

impl Chunker for FastCDC {
    closed spec fn wf(&self) -> bool {
        &&& self.policy_wf()
        &&& self.gear.wf()
        &&& self.current_chunk_size as nat == self.gear.processed().len()
        &&& self.current_chunk_size < self.max_size
    }

    closed spec fn pending(&self) -> Seq<u8> {
        self.gear.processed()
    }

    closed spec fn is_cut(&self, p: Seq<u8>) -> bool {
        fastcdc_cut(self.min_size, self.avg_size, self.max_size, self.mask_short, self.mask_long, p)
    }

    /// Find a chunk edge under the size policy, resuming the chunk carried
    /// over from earlier calls.
    #[verifier::rlimit(100)]
    fn chunk_end(&mut self, whole_buf: &[u8]) -> (r: Option<usize>)
        ensures
            final(self).min_size_spec() == old(self).min_size_spec(),
            final(self).avg_size_spec() == old(self).avg_size_spec(),
            final(self).max_size_spec() == old(self).max_size_spec(),
            final(self).mask_short_spec() == old(self).mask_short_spec(),
            final(self).mask_long_spec() == old(self).mask_long_spec(),
    {
        let n = whole_buf.len();
        let mut consumed: usize = 0;
        let ghost p0 = self.gear.processed();
        let ghost z0 = p0.len() as int;
        let ghost msz = self.min_size;
        let ghost asz = self.avg_size;
        let ghost xsz = self.max_size;
        let ghost msk_s = self.mask_short;
        let ghost msk_l = self.mask_long;
        proof {
            assert(forall|p: Seq<u8>| #[trigger]
                self.is_cut(p) == fastcdc_cut(msz, asz, xsz, msk_s, msk_l, p));
        }

        // Too-small phase: roll without testing while the chunk could not
        // legally end yet.
        if self.current_chunk_size < self.min_size {
            let budget = self.min_size - self.current_chunk_size;
            let take: usize = if budget < n as u64 {
                budget as usize
            } else {
                n
            };
            self.gear.roll(&whole_buf[0..take]);
            self.current_chunk_size = self.current_chunk_size + take as u64;
            consumed = take;
            proof {
                assert(p0 + whole_buf@.subrange(0, take as int) == crate::fed_prefix(
                    p0,
                    whole_buf@,
                    take as int,
                ));
            }
        }
        proof {
            assert(self.gear.processed() == p0 + whole_buf@.subrange(0, consumed as int));
            assert(self.current_chunk_size as int == z0 + consumed);
            assert(self.current_chunk_size <= self.max_size);
            assert(consumed == n || consumed == 0 || self.current_chunk_size == self.min_size);
            assert forall|j: int| 1 <= j <= consumed as int implies !fastcdc_cut(
                msz,
                asz,
                xsz,
                msk_s,
                msk_l,
                #[trigger] crate::fed_prefix(p0, whole_buf@, j),
            ) by {
                assert(crate::fed_prefix(p0, whole_buf@, j).len() == z0 + j);
                assert(z0 + j <= msz as int);
            }
        }

        // Sub-average phase: test each byte against the sparse mask.
        if self.current_chunk_size < self.avg_size {
            let ghost c1 = consumed as int;
            let budget = self.avg_size - self.current_chunk_size;
            let rest = n - consumed;
            let take: usize = if budget < rest as u64 {
                budget as usize
            } else {
                rest
            };
            let mask_short = self.mask_short;
            let cond = |d: u64| -> (b: bool)
                ensures
                    b == (d & mask_short == 0u64),
                { (d & mask_short) == 0 };
            let ghost p1 = self.gear.processed();
            let ghost z1 = z0 + c1;
            let sub = &whole_buf[consumed..consumed + take];
            let r = self.gear.find_chunk_edge_cond(sub, cond);
            proof {
                assert(forall|d: u64, b: bool|
                    #[trigger] call_ensures(cond, (d,), b) ==> b == (d & mask_short == 0u64));
            }
            if let Some(i) = r {
                proof {
                    let e = c1 + i as int;
                    lemma_subrange_of_subrange(whole_buf@, c1, take as int, i as int);
                    lemma_prefix_chain(p0, whole_buf@, c1, i as int);
                    assert(crate::fed_prefix(p1, sub@, i as int) == crate::fed_prefix(
                        p0,
                        whole_buf@,
                        e,
                    ));
                    let p = crate::fed_prefix(p0, whole_buf@, e);
                    assert(gear_digest_of(p) & msk_s == 0u64);
                    assert(p.len() == z0 + e);
                    assert(msz < z0 + e <= asz);
                    assert(fastcdc_cut(msz, asz, xsz, msk_s, msk_l, p));
                    assert forall|j: int| 1 <= j < e implies !fastcdc_cut(
                        msz,
                        asz,
                        xsz,
                        msk_s,
                        msk_l,
                        #[trigger] crate::fed_prefix(p0, whole_buf@, j),
                    ) by {
                        if j > c1 {
                            let j2 = j - c1;
                            lemma_subrange_of_subrange(whole_buf@, c1, take as int, j2);
                            lemma_prefix_chain(p0, whole_buf@, c1, j2);
                            assert(crate::fed_prefix(p1, sub@, j2) == crate::fed_prefix(
                                p0,
                                whole_buf@,
                                j,
                            ));
                            assert(call_ensures(
                                cond,
                                (gear_digest_of(crate::fed_prefix(p1, sub@, j2)),),
                                false,
                            ));
                            let q = crate::fed_prefix(p0, whole_buf@, j);
                            assert(gear_digest_of(q) & msk_s != 0u64);
                            assert(q.len() == z0 + j);
                            assert(msz < z0 + j <= asz);
                        }
                    }
                }
                let end = consumed + i;
                self.reset();
                proof {
                    assert(forall|p: Seq<u8>| #[trigger]
                        self.is_cut(p) == fastcdc_cut(msz, asz, xsz, msk_s, msk_l, p));
                    assert(crate::fed_prefix(p0, whole_buf@, end as int) == old(
                        self,
                    ).pending() + whole_buf@.subrange(0, end as int));
                }
                return Some(end);
            }
            proof {
                assert forall|j: int| c1 < j <= c1 + take as int implies !fastcdc_cut(
                    msz,
                    asz,
                    xsz,
                    msk_s,
                    msk_l,
                    #[trigger] crate::fed_prefix(p0, whole_buf@, j),
                ) by {
                    let j2 = j - c1;
                    lemma_subrange_of_subrange(whole_buf@, c1, take as int, j2);
                    lemma_prefix_chain(p0, whole_buf@, c1, j2);
                    assert(crate::fed_prefix(p1, sub@, j2) == crate::fed_prefix(
                        p0,
                        whole_buf@,
                        j,
                    ));
                    assert(call_ensures(
                        cond,
                        (gear_digest_of(crate::fed_prefix(p1, sub@, j2)),),
                        false,
                    ));
                    let q = crate::fed_prefix(p0, whole_buf@, j);
                    assert(gear_digest_of(q) & msk_s != 0u64);
                    assert(q.len() == z0 + j);
                    assert(msz < z0 + j <= asz);
                }
                lemma_prefix_chain(p0, whole_buf@, c1, take as int);
            }
            self.current_chunk_size = self.current_chunk_size + take as u64;
            consumed = consumed + take;
        }
        proof {
            assert(self.gear.processed() == p0 + whole_buf@.subrange(0, consumed as int));
            assert(self.current_chunk_size as int == z0 + consumed);
            assert(self.current_chunk_size <= self.max_size);
            assert(consumed == n || self.current_chunk_size >= self.avg_size);
            assert(forall|j: int|
                1 <= j <= consumed as int ==> !fastcdc_cut(
                    msz,
                    asz,
                    xsz,
                    msk_s,
                    msk_l,
                    #[trigger] crate::fed_prefix(p0, whole_buf@, j),
                ));
        }

        // Above-average phase: test each byte against the dense mask.
        if self.current_chunk_size < self.max_size {
            let ghost c2 = consumed as int;
            let budget = self.max_size - self.current_chunk_size;
            let rest = n - consumed;
            let take: usize = if budget < rest as u64 {
                budget as usize
            } else {
                rest
            };
            let mask_long = self.mask_long;
            let cond = |d: u64| -> (b: bool)
                ensures
                    b == (d & mask_long == 0u64),
                { (d & mask_long) == 0 };
            let ghost p1 = self.gear.processed();
            let sub = &whole_buf[consumed..consumed + take];
            let r = self.gear.find_chunk_edge_cond(sub, cond);
            proof {
                assert(forall|d: u64, b: bool|
                    #[trigger] call_ensures(cond, (d,), b) ==> b == (d & mask_long == 0u64));
            }
            if let Some(i) = r {
                proof {
                    let e = c2 + i as int;
                    lemma_subrange_of_subrange(whole_buf@, c2, take as int, i as int);
                    lemma_prefix_chain(p0, whole_buf@, c2, i as int);
                    assert(crate::fed_prefix(p1, sub@, i as int) == crate::fed_prefix(
                        p0,
                        whole_buf@,
                        e,
                    ));
                    let p = crate::fed_prefix(p0, whole_buf@, e);
                    assert(gear_digest_of(p) & msk_l == 0u64);
                    assert(p.len() == z0 + e);
                    assert(asz < z0 + e <= xsz);
                    assert(fastcdc_cut(msz, asz, xsz, msk_s, msk_l, p));
                    assert forall|j: int| 1 <= j < e implies !fastcdc_cut(
                        msz,
                        asz,
                        xsz,
                        msk_s,
                        msk_l,
                        #[trigger] crate::fed_prefix(p0, whole_buf@, j),
                    ) by {
                        if j > c2 {
                            let j2 = j - c2;
                            lemma_subrange_of_subrange(whole_buf@, c2, take as int, j2);
                            lemma_prefix_chain(p0, whole_buf@, c2, j2);
                            assert(crate::fed_prefix(p1, sub@, j2) == crate::fed_prefix(
                                p0,
                                whole_buf@,
                                j,
                            ));
                            assert(call_ensures(
                                cond,
                                (gear_digest_of(crate::fed_prefix(p1, sub@, j2)),),
                                false,
                            ));
                            let q = crate::fed_prefix(p0, whole_buf@, j);
                            assert(gear_digest_of(q) & msk_l != 0u64);
                            assert(q.len() == z0 + j);
                            assert(asz < z0 + j < xsz);
                        }
                    }
                }
                let end = consumed + i;
                self.reset();
                proof {
                    assert(forall|p: Seq<u8>| #[trigger]
                        self.is_cut(p) == fastcdc_cut(msz, asz, xsz, msk_s, msk_l, p));
                }
                return Some(end);
            }
            proof {
                assert forall|j: int| c2 < j <= c2 + take as int && z0 + j < xsz
                    implies !fastcdc_cut(
                    msz,
                    asz,
                    xsz,
                    msk_s,
                    msk_l,
                    #[trigger] crate::fed_prefix(p0, whole_buf@, j),
                ) by {
                    let j2 = j - c2;
                    lemma_subrange_of_subrange(whole_buf@, c2, take as int, j2);
                    lemma_prefix_chain(p0, whole_buf@, c2, j2);
                    assert(crate::fed_prefix(p1, sub@, j2) == crate::fed_prefix(
                        p0,
                        whole_buf@,
                        j,
                    ));
                    assert(call_ensures(
                        cond,
                        (gear_digest_of(crate::fed_prefix(p1, sub@, j2)),),
                        false,
                    ));
                    let q = crate::fed_prefix(p0, whole_buf@, j);
                    assert(gear_digest_of(q) & msk_l != 0u64);
                    assert(q.len() == z0 + j);
                    assert(asz < z0 + j < xsz);
                }
                lemma_prefix_chain(p0, whole_buf@, c2, take as int);
            }
            self.current_chunk_size = self.current_chunk_size + take as u64;
            consumed = consumed + take;
        }
        proof {
            assert(self.gear.processed() == p0 + whole_buf@.subrange(0, consumed as int));
            assert(self.current_chunk_size as int == z0 + consumed);
            assert(self.current_chunk_size <= self.max_size);
            assert(consumed == n || self.current_chunk_size == self.max_size);
            assert forall|j: int| 1 <= j <= consumed as int && z0 + j < xsz
                implies !fastcdc_cut(
                msz,
                asz,
                xsz,
                msk_s,
                msk_l,
                #[trigger] crate::fed_prefix(p0, whole_buf@, j),
            ) by {
                assert(crate::fed_prefix(p0, whole_buf@, j).len() == z0 + j);
            }
        }

        // Hard cap: a chunk that has reached the maximum size ends here
        // unconditionally.
        if self.current_chunk_size >= self.max_size {
            proof {
                let p = crate::fed_prefix(p0, whole_buf@, consumed as int);
                assert(p.len() == xsz);
                assert(fastcdc_cut(msz, asz, xsz, msk_s, msk_l, p));
                assert(consumed >= 1);
                assert forall|j: int| 1 <= j < consumed as int implies !fastcdc_cut(
                    msz,
                    asz,
                    xsz,
                    msk_s,
                    msk_l,
                    #[trigger] crate::fed_prefix(p0, whole_buf@, j),
                ) by {}
            }
            let end = consumed;
            self.reset();
            proof {
                assert(forall|p: Seq<u8>| #[trigger]
                    self.is_cut(p) == fastcdc_cut(msz, asz, xsz, msk_s, msk_l, p));
            }
            return Some(end);
        }
        proof {
            assert(whole_buf@.subrange(0, n as int) =~= whole_buf@);
        }
        None
    }
}

} // verus!
