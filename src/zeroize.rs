//! Strategies for securely wiping memory.
//!
//! Every strategy overwrites a range of bytes with zeros and then passes the
//! memory through an optimisation barrier, so the writes are not removed as
//! dead stores even though nothing reads the memory afterwards. A range is a
//! slice `mem`, a `start` offset and a length `len`; an alignment claim is a
//! claim on `start`, measured from the start of `mem`.

use crate::internals;
use crate::internals::wiped;
use crate::util::{is_aligned, is_pow2, lemma_pow2_large_mult8};
use vstd::arithmetic::power2::pow2;
use vstd::prelude::*;

verus! {

/// Relies on `std::hint::black_box`: the compiler must assume that the bytes
/// behind `mem` are read here, so the writes before it stay.
#[verifier::external_body]
fn optimisation_barrier(mem: &[u8]) {
    std::hint::black_box(mem);
}

/// Relies on `<[u8]>::fill`: every element of `mem` becomes a zero.
#[verifier::external_body]
fn fill_zero(mem: &mut [u8])
    ensures
        final(mem)@ == Seq::new(old(mem)@.len(), |i: int| 0u8),
{
    mem.fill(0u8);
}

/// Zeroizes the range with one bulk fill of the middle part of `mem`.
fn memset_zeroize(mem: &mut [u8], start: usize, len: usize)
    requires
        start + len <= old(mem)@.len(),
    ensures
        wiped(old(mem)@, final(mem)@, start as int, len as int),
{
    let ghost orig = mem@;
    {
        let (head, rest) = mem.split_at_mut(start);
        let (middle, tail) = rest.split_at_mut(len);
        fill_zero(middle);
    }
    assert(mem@ =~= orig.subrange(0, start as int) + Seq::new(len as nat, |i: int| 0u8)
        + orig.subrange(start + len, orig.len() as int));
}

/// Zeroizes the range for the volatile-memset strategy. A volatile memset
/// is a compiler intrinsic of nightly toolchains only; this takes the
/// memset-and-barrier path, which keeps the writes just as well.
pub fn nightly_zeroize_mem(mem: &mut [u8], start: usize, len: usize)
    requires
        start + len <= old(mem)@.len(),
    ensures
        wiped(old(mem)@, final(mem)@, start as int, len as int),
{
    asm_barier_zeroize_mem(mem, start, len)
}

/// Zeroizes the range with a non-volatile memset, followed by an
/// optimisation barrier so the writes cannot be removed.
pub fn asm_barier_zeroize_mem(mem: &mut [u8], start: usize, len: usize)
    requires
        start + len <= old(mem)@.len(),
    ensures
        wiped(old(mem)@, final(mem)@, start as int, len as int),
{
    memset_zeroize(mem, start, len);
    optimisation_barrier(mem);
}

/// Zeroizes the range one byte at a time with plain stores, followed by an
/// optimisation barrier. Slow, but needs nothing of the target.
pub fn fallback_zeroize_mem(mem: &mut [u8], start: usize, len: usize)
    requires
        start + len <= old(mem)@.len(),
    ensures
        wiped(old(mem)@, final(mem)@, start as int, len as int),
{
    internals::volatile_write_zeroize(mem, start, len);
    optimisation_barrier(mem);
}

/// A multiple of `2^k` for `k >= 3` is a multiple of 8.
proof fn lemma_pow2_mult8(x: nat, k: nat)
    requires
        k >= 3,
        x % pow2(k) == 0,
    ensures
        x % 8 == 0,
{
    vstd::arithmetic::power2::lemma2_to64();
    vstd::arithmetic::power2::lemma_pow2_adds(3, (k - 3) as nat);
    vstd::arithmetic::power2::lemma_pow2_pos((k - 3) as nat);
    vstd::arithmetic::div_mod::lemma_mod_mod(x as int, 8, pow2((k - 3) as nat) as int);
}

/// Strategy for securely erasing memory.
///
/// An implementation must keep its writes from being elided by the compiler.
pub trait MemZeroizer {
    /// Zeroizes the `len` bytes of `mem` from `start` on, where `start` is a
    /// multiple of `2^log_align` and `len` a multiple of `2^log_multiple`.
    /// The claims let an implementation pick a wider-word path; the result is
    /// that of [`MemZeroizer::zeroize_mem`].
    fn zeroize_mem_blocks(
        &self,
        mem: &mut [u8],
        start: usize,
        len: usize,
        log_align: u8,
        log_multiple: u8,
    )
        requires
            start + len <= old(mem)@.len(),
            start as nat % pow2(log_align as nat) == 0,
            len as nat % pow2(log_multiple as nat) == 0,
        ensures
            wiped(old(mem)@, final(mem)@, start as int, len as int),
    ;

    /// Zeroizes the `len` bytes of `mem` from `start` on.
    fn zeroize_mem(&self, mem: &mut [u8], start: usize, len: usize)
        requires
            start + len <= old(mem)@.len(),
        ensures
            wiped(old(mem)@, final(mem)@, start as int, len as int),
    {
        proof {
            vstd::arithmetic::power2::lemma2_to64();
        }
        self.zeroize_mem_blocks(mem, start, len, 0, 0)
    }

    /// Zeroizes the `len` bytes of `mem` from `start` on, where `start` is a
    /// multiple of the power of two `align`; an alignment of 8 or more
    /// selects the 8-byte path.
    fn zeroize_mem_minaligned(&self, mem: &mut [u8], start: usize, len: usize, align: usize)
        requires
            start + len <= old(mem)@.len(),
            is_pow2(align as nat),
            start % align == 0,
        ensures
            wiped(old(mem)@, final(mem)@, start as int, len as int),
    {
        proof {
            vstd::arithmetic::power2::lemma2_to64();
        }
        if align >= 8 {
            proof {
                lemma_pow2_large_mult8(align as nat);
                vstd::arithmetic::div_mod::lemma_mod_mod(start as int, 8, align as int / 8);
                assert(align == 8 * (align as int / 8));
            }
            self.zeroize_mem_blocks(mem, start, len, 3, 0)
        } else {
            self.zeroize_mem_blocks(mem, start, len, 0, 0)
        }
    }
}

/// Best strategy available for the target.
pub type DefaultMemZeroizer = MemsetAsmBarierZeroizer;

/// The volatile-memset strategy; see [`nightly_zeroize_mem`].
#[derive(Debug, Copy, Clone, Default)]
pub struct VolatileMemsetZeroizer;

impl MemZeroizer for VolatileMemsetZeroizer {
    fn zeroize_mem_blocks(
        &self,
        mem: &mut [u8],
        start: usize,
        len: usize,
        log_align: u8,
        log_multiple: u8,
    ) {
        nightly_zeroize_mem(mem, start, len);
    }
}

/// Zeroizes with a non-volatile memset followed by an optimisation barrier.
/// Fast, and the barrier keeps the compiler from removing the writes.
#[derive(Debug, Copy, Clone, Default)]
pub struct MemsetAsmBarierZeroizer;

impl MemZeroizer for MemsetAsmBarierZeroizer {
    fn zeroize_mem_blocks(
        &self,
        mem: &mut [u8],
        start: usize,
        len: usize,
        log_align: u8,
        log_multiple: u8,
    ) {
        asm_barier_zeroize_mem(mem, start, len);
    }
}

/// Zeroizes 8 bytes at a time where the range starts 8-byte aligned, with a
/// tail of one 4-byte block and single bytes; byte for byte otherwise. The
/// stores are plain; the optimisation barrier after them keeps them.
///
/// Benefits from [`MemZeroizer::zeroize_mem_blocks`] where an alignment of 8
/// or a length multiple of 8 is known.
#[derive(Debug, Copy, Clone, Default)]
pub struct VolatileWrite8Zeroizer;

impl MemZeroizer for VolatileWrite8Zeroizer {
    fn zeroize_mem_blocks(
        &self,
        mem: &mut [u8],
        start: usize,
        len: usize,
        log_align: u8,
        log_multiple: u8,
    ) {
        let ghost orig = mem@;
        if log_align >= 3 || is_aligned(start, 8) {
            proof {
                if log_align >= 3 {
                    lemma_pow2_mult8(start as nat, log_align as nat);
                }
            }
            let end = internals::zeroize_align8_block8(mem, start, len);
            if log_multiple < 3 {
                let ghost mid = mem@;
                internals::zeroize_align4_tail8(mem, end, len);
                proof {
                    internals::lemma_wiped_concat(
                        orig,
                        mid,
                        mem@,
                        start as int,
                        (len - len % 8) as int,
                        (len % 8) as int,
                    );
                }
            } else {
                proof {
                    lemma_pow2_mult8(len as nat, log_multiple as nat);
                }
            }
        } else {
            internals::volatile_write_zeroize(mem, start, len);
        }
        optimisation_barrier(mem);
    }
}

} // verus!
