//! Shift-accumulate rolling hash ("gear" style).
//!
//! The state is a single 64-bit accumulator; each byte shifts it left by one
//! bit and adds a table value drawn from a fixed pseudorandom mixing of the
//! byte, with wraparound. The window is implicit: after 64 rolls the oldest
//! byte's influence has been shifted out entirely.

use crate::last_window;
use crate::RollingHash;
use vstd::arithmetic::div_mod::{
    lemma_add_mod_noop, lemma_mod_bound, lemma_mod_multiples_vanish, lemma_mul_mod_noop_right,
    lemma_small_mod,
};
use vstd::arithmetic::power2::{lemma2_to64, lemma2_to64_rest, lemma_pow2_adds, pow2};
use vstd::prelude::*;
use vstd::wrapping::u64_specs;

verus! {

/// The digest type of the shift-accumulate engine.
pub type Digest = u64;

/// The effective window size: the accumulator's bit width.
pub const WINDOW_SIZE: usize = 64;

/// The constant table consumed by the engine, as a function of the byte:
/// a fixed 64-bit finalization mix (xor-shift and multiply rounds) of the
/// byte offset by a fixed seed. These values are this crate's own fixed
/// derivation, chosen once and never changed; two parties interoperate on
/// digests only if both use the same table.
#[verifier::opaque]
pub open spec fn gear_entry_spec(b: u8) -> u64 {
    let x = (b + 0x100) as u64;
    let z0 = u64_specs::wrapping_add(x, 0x9E3779B97F4A7C15);
    let z1 = u64_specs::wrapping_mul(z0 ^ (z0 >> 30), 0xBF58476D1CE4E5B9);
    let z2 = u64_specs::wrapping_mul(z1 ^ (z1 >> 27), 0x94D049BB133111EB);
    z2 ^ (z2 >> 31)
}

/// Compute the table value for one byte.
fn gear_entry(b: u8) -> (r: u64)
    ensures
        r == gear_entry_spec(b),
{
    proof {
        reveal(gear_entry_spec);
    }
    let x = b as u64 + 0x100;
    let z0 = x.wrapping_add(0x9E3779B97F4A7C15);
    let z1 = (z0 ^ (z0 >> 30)).wrapping_mul(0xBF58476D1CE4E5B9);
    let z2 = (z1 ^ (z1 >> 27)).wrapping_mul(0x94D049BB133111EB);
    z2 ^ (z2 >> 31)
}

/// One engine step: shift the accumulator and add the byte's table value,
/// with wraparound.
pub open spec fn gear_step(d: u64, b: u8) -> u64 {
    u64_specs::wrapping_add(d << 1, gear_entry_spec(b))
}

/// The accumulator reached from `d` after stepping over every byte of `s`.
pub open spec fn gear_fold(d: u64, s: Seq<u8>) -> u64
    decreases s.len(),
{
    if s.len() == 0 {
        d
    } else {
        gear_step(gear_fold(d, s.drop_last()), s.last())
    }
}

/// The digest after processing `s` from a fresh engine.
pub open spec fn gear_digest_of(s: Seq<u8>) -> u64 {
    gear_fold(0, s)
}

/// Folding over `a + b` is folding over `a`, then over `b`.
pub proof fn lemma_gear_fold_concat(d: u64, a: Seq<u8>, b: Seq<u8>)
    ensures
        gear_fold(d, a + b) == gear_fold(gear_fold(d, a), b),
    decreases b.len(),
{
    if b.len() == 0 {
        assert(a + b =~= a);
    } else {
        lemma_gear_fold_concat(d, a, b.drop_last());
        assert((a + b).drop_last() =~= a + b.drop_last());
        assert((a + b).last() == b.last());
    }
}

/// Feeding a buffer equals feeding its bytes one at a time: the digest
/// after a history `h` followed by a slice `s` is the per-byte step folded
/// over `s` from the digest after `h`, whatever `h` and `s` are.
pub proof fn lemma_gear_roll_is_byte_steps(h: Seq<u8>, s: Seq<u8>)
    ensures
        gear_digest_of(h + s) == gear_fold(gear_digest_of(h), s),
{
    lemma_gear_fold_concat(0, h, s);
}

/// Closed form of the start state's contribution: after `|s|` steps the
/// start value has been shifted up by `|s|` bits, modulo 2^64.
proof fn lemma_gear_fold_shift(d: u64, s: Seq<u8>)
    ensures
        gear_fold(d, s) == (d * pow2(s.len()) + gear_fold(0, s)) % (pow2(64) as int),
    decreases s.len(),
{
    lemma2_to64();
    lemma2_to64_rest();
    let p64 = pow2(64) as int;
    if s.len() == 0 {
        lemma_small_mod(d as nat, pow2(64));
    } else {
        let f = s.drop_last();
        let b = s.last();
        let n = s.len() as nat;
        lemma_gear_fold_shift(d, f);
        lemma_gear_fold_shift(0, f);
        let xd = gear_fold(d, f);
        let x0 = gear_fold(0, f);
        let g = gear_entry_spec(b);
        // one step is multiplication by two plus the table value, modulo 2^64
        assert((xd << 1) as int == (2 * xd) % 0x1_0000_0000_0000_0000int) by (bit_vector);
        assert((x0 << 1) as int == (2 * x0) % 0x1_0000_0000_0000_0000int) by (bit_vector);
        assert(gear_step(xd, b) as int == ((2 * xd) % p64 + g) % p64);
        assert(gear_step(x0, b) as int == ((2 * x0) % p64 + g) % p64);
        lemma_add_mod_noop(2 * xd, g as int, p64);
        lemma_add_mod_noop(2 * x0, g as int, p64);
        lemma_small_mod(g as nat, pow2(64));
        assert(gear_step(xd, b) as int == (2 * xd + g) % p64);
        assert(gear_step(x0, b) as int == (2 * x0 + g) % p64);
        // substitute the closed form of xd and push the modulus out
        assert(xd as int == (d * pow2((n - 1) as nat) + x0) % p64);
        lemma_mul_mod_noop_right(2, (d * pow2((n - 1) as nat) + x0) as int, p64);
        assert((2 * xd) % p64 == (2 * (d * pow2((n - 1) as nat) + x0)) % p64);
        lemma_add_mod_noop(2 * (d * pow2((n - 1) as nat) + x0), g as int, p64);
        assert(gear_fold(d, s) as int == (2 * (d * pow2((n - 1) as nat) + x0) + g) % p64);
        lemma_pow2_adds(1, (n - 1) as nat);
        assert(2 * (d * pow2((n - 1) as nat) + x0) + g == d * pow2(n) + (2 * x0 + g))
            by (nonlinear_arith)
            requires
                pow2(n) == pow2(1) * pow2((n - 1) as nat),
                pow2(1) == 2,
        ;
        // and the same for the fresh-start fold
        assert(gear_fold(0, s) as int == (2 * x0 + g) % p64);
        lemma_add_mod_noop(d * pow2(n), 2 * x0 + g, p64);
        lemma_mod_bound(d * pow2(n), p64);
        lemma_small_mod((d * pow2(n) % p64) as nat, pow2(64));
        assert((d * pow2(n) + gear_fold(0, s)) % p64 == (d * pow2(n) % p64 + (2 * x0 + g) % p64)
            % p64);
    }
}

/// Once 64 bytes have been stepped over, the start state no longer matters:
/// the accumulator is a function of those 64 bytes alone.
pub proof fn lemma_gear_start_forgotten(d1: u64, d2: u64, s: Seq<u8>)
    requires
        s.len() >= 64,
    ensures
        gear_fold(d1, s) == gear_fold(d2, s),
{
    lemma2_to64();
    lemma2_to64_rest();
    let p64 = pow2(64) as int;
    let n = s.len() as nat;
    lemma_gear_fold_shift(d1, s);
    lemma_gear_fold_shift(d2, s);
    lemma_pow2_adds((n - 64) as nat, 64);
    let f0 = gear_fold(0, s);
    assert(d1 * pow2(n) == (d1 * pow2((n - 64) as nat)) * p64) by (nonlinear_arith)
        requires
            pow2(n) == pow2((n - 64) as nat) * pow2(64),
            p64 == pow2(64),
    ;
    assert(d2 * pow2(n) == (d2 * pow2((n - 64) as nat)) * p64) by (nonlinear_arith)
        requires
            pow2(n) == pow2((n - 64) as nat) * pow2(64),
            p64 == pow2(64),
    ;
    lemma_mod_multiples_vanish(d1 * pow2((n - 64) as nat), f0 as int, p64);
    lemma_mod_multiples_vanish(d2 * pow2((n - 64) as nat), f0 as int, p64);
}

/// Window locality: the digest of a stream depends only on its last 64
/// bytes, so dropping any prefix that leaves at least 64 bytes in place
/// leaves the digest unchanged.
pub proof fn lemma_gear_window_locality(s: Seq<u8>, k: int)
    requires
        0 <= k <= s.len() - 64,
    ensures
        gear_digest_of(s.skip(k)) == gear_digest_of(s),
{
    let t = s.skip(k);
    assert(s =~= s.subrange(0, k) + t);
    lemma_gear_fold_concat(0, s.subrange(0, k), t);
    lemma_gear_start_forgotten(gear_fold(0, s.subrange(0, k)), 0, t);
}

/// Shift-accumulate rolling hash engine.
pub struct Gear {
    digest: u64,
    hist: Ghost<Seq<u8>>,
}

impl Gear {
    /// Create a new engine in the fresh state.
    pub fn new() -> (g: Self)
        ensures
            g.wf(),
            g.processed() == Seq::<u8>::empty(),
    {
        Gear { digest: 0, hist: Ghost(Seq::empty()) }
    }
}

impl Default for Gear {
    /// The fresh engine state.
    fn default() -> (g: Self)
        ensures
            g.wf(),
            g.processed() == Seq::<u8>::empty(),
    {
        Gear::new()
    }
}

impl RollingHash for Gear {
    type Digest = u64;

    closed spec fn wf(&self) -> bool {
        self.digest == gear_digest_of(self.hist@)
    }

    closed spec fn processed(&self) -> Seq<u8> {
        self.hist@
    }

    open spec fn digest_of(s: Seq<u8>) -> u64 {
        gear_digest_of(s)
    }

    fn roll_byte(&mut self, byte: u8) {
        self.digest = (self.digest << 1).wrapping_add(gear_entry(byte));
        proof {
            let h = old(self).hist@;
            self.hist@ = h.push(byte);
            assert(h.push(byte).drop_last() =~= h);
        }
    }

    fn roll(&mut self, buf: &[u8]) {
        let ghost h0 = self.hist@;
        let n = buf.len();
        let start = if n > WINDOW_SIZE {
            n - WINDOW_SIZE
        } else {
            0
        };
        proof {
            assert(h0 + buf@.subrange(start as int, start as int) =~= h0);
        }
        let mut i: usize = start;
        #[verifier::loop_isolation(false)]
        while i < n
            invariant
                start <= i <= n,
                self.wf(),
                self.processed() == h0 + buf@.subrange(start as int, i as int),
            decreases n - i,
        {
            self.roll_byte(buf[i]);
            proof {
                assert((h0 + buf@.subrange(start as int, i as int)).push(buf@[i as int]) =~= h0
                    + buf@.subrange(start as int, i as int + 1));
            }
            i += 1;
        }
        proof {
            assert(buf@.subrange(start as int, n as int) =~= last_window(buf@, 64));
            let lw = last_window(buf@, 64);
            if buf@.len() > 64 {
                let k = buf@.len() - 64;
                assert(lw == buf@.skip(k));
                lemma_gear_fold_concat(0, h0, lw);
                lemma_gear_fold_concat(0, h0 + buf@.subrange(0, k), lw);
                assert((h0 + buf@.subrange(0, k)) + lw =~= h0 + buf@);
                lemma_gear_start_forgotten(
                    gear_fold(0, h0),
                    gear_fold(0, h0 + buf@.subrange(0, k)),
                    lw,
                );
            } else {
                assert(lw == buf@);
            }
            self.hist@ = h0 + buf@;
        }
    }

    fn digest(&self) -> u64 {
        self.digest
    }

    fn reset(&mut self) {
        self.digest = 0;
        proof {
            self.hist@ = Seq::empty();
        }
    }
}

} // verus!
