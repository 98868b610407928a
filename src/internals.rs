//! Word-wise building blocks of the zeroization strategies. The stores are
//! plain; a strategy passes the memory through an optimisation barrier after
//! them.
//!
//! A memory range is a slice `mem` together with a `start` offset and a
//! length `len`; alignments are those of `start`, measured from the start of
//! `mem`.

use vstd::prelude::*;

verus! {

/// `after` is `before` with the `len` bytes from `start` on set to zero, and
/// every other byte left as it was.
pub open spec fn wiped(before: Seq<u8>, after: Seq<u8>, start: int, len: int) -> bool {
    &&& after.len() == before.len()
    &&& forall|i: int|
        0 <= i < after.len() ==> #[trigger] after[i] == (if start <= i < start + len {
            0u8
        } else {
            before[i]
        })
}

/// Wiping two adjacent ranges one after the other wipes their union.
pub proof fn lemma_wiped_concat(a: Seq<u8>, b: Seq<u8>, c: Seq<u8>, start: int, l1: int, l2: int)
    requires
        wiped(a, b, start, l1),
        wiped(b, c, start + l1, l2),
        0 <= l1,
        0 <= l2,
    ensures
        wiped(a, c, start, l1 + l2),
{
    assert forall|i: int| 0 <= i < c.len() implies #[trigger] c[i] == (if start <= i < start + l1
        + l2 {
        0u8
    } else {
        a[i]
    }) by {
        assert(c[i] == b[i] || (start + l1 <= i < start + l1 + l2));
    }
}

pub proof fn lemma_wiped_empty(a: Seq<u8>, start: int)
    ensures
        wiped(a, a, start, 0),
{
}

/// Sets one byte to zero.
pub fn zero_byte(mem: &mut [u8], at: usize)
    requires
        at < old(mem)@.len(),
    ensures
        wiped(old(mem)@, final(mem)@, at as int, 1),
{
    mem[at] = 0u8;
}

/// Sets the four bytes from `at` on to zero, in one block.
pub fn zero_block4(mem: &mut [u8], at: usize)
    requires
        at + 4 <= old(mem)@.len(),
    ensures
        wiped(old(mem)@, final(mem)@, at as int, 4),
{
    mem[at] = 0u8;
    mem[at + 1] = 0u8;
    mem[at + 2] = 0u8;
    mem[at + 3] = 0u8;
}

/// Sets the eight bytes from `at` on to zero, in one block.
pub fn zero_block8(mem: &mut [u8], at: usize)
    requires
        at + 8 <= old(mem)@.len(),
    ensures
        wiped(old(mem)@, final(mem)@, at as int, 8),
{
    mem[at] = 0u8;
    mem[at + 1] = 0u8;
    mem[at + 2] = 0u8;
    mem[at + 3] = 0u8;
    mem[at + 4] = 0u8;
    mem[at + 5] = 0u8;
    mem[at + 6] = 0u8;
    mem[at + 7] = 0u8;
}

/// Zeroizes the range byte for byte.
pub fn volatile_write_zeroize(mem: &mut [u8], start: usize, len: usize)
    requires
        start + len <= old(mem)@.len(),
    ensures
        wiped(old(mem)@, final(mem)@, start as int, len as int),
{
    let ghost orig = mem@;
    let total: usize = mem.len();
    let mut i: usize = 0;
    while i < len
        invariant
            i <= len,
            orig.len() == total,
            start + len <= orig.len(),
            wiped(orig, mem@, start as int, i as int),
        decreases len - i,
    {
        let ghost before = mem@;
        zero_byte(mem, start + i);
        proof {
            lemma_wiped_concat(orig, before, mem@, start as int, i as int, 1);
        }
        i = i + 1;
    }
}

/// Zeroizes the range rounded down to a multiple of 8 bytes, in blocks of 8,
/// and returns the offset just after the last byte wiped.
pub fn zeroize_align8_block8(mem: &mut [u8], start: usize, len: usize) -> (end: usize)
    requires
        start + len <= old(mem)@.len(),
        start % 8 == 0,
    ensures
        end == start + (len - len % 8),
        end % 8 == 0,
        wiped(old(mem)@, final(mem)@, start as int, (len - len % 8) as int),
{
    let ghost orig = mem@;
    let total: usize = mem.len();
    let nblocks: usize = (len - len % 8) / 8;
    let mut pos: usize = start;
    let mut k: usize = 0;
    while k < nblocks
        invariant
            nblocks * 8 == len - len % 8,
            k <= nblocks,
            pos == start + 8 * k,
            orig.len() == total,
            start + len <= orig.len(),
            start % 8 == 0,
            wiped(orig, mem@, start as int, 8 * k as int),
        decreases nblocks - k,
    {
        let ghost before = mem@;
        zero_block8(mem, pos);
        proof {
            lemma_wiped_concat(orig, before, mem@, start as int, 8 * k as int, 8);
        }
        pos = pos + 8;
        k = k + 1;
    }
    pos
}

/// Zeroizes the `len % 8` bytes from `pos` on: a block of 4 where at least
/// four are left, then the rest byte for byte.
pub fn zeroize_align4_tail8(mem: &mut [u8], pos: usize, len: usize)
    requires
        pos + len % 8 <= old(mem)@.len(),
        pos % 4 == 0,
    ensures
        wiped(old(mem)@, final(mem)@, pos as int, (len % 8) as int),
{
    let ghost orig = mem@;
    let total: usize = mem.len();
    let mut p: usize = pos;
    if len % 8 >= 4 {
        zero_block4(mem, p);
        p = p + 4;
    } else {
        proof {
            lemma_wiped_empty(orig, pos as int);
        }
    }
    let rest: usize = len % 4;
    let ghost mid = mem@;
    assert(p + rest == pos + len % 8);
    let mut i: usize = 0;
    while i < rest
        invariant
            i <= rest,
            p + rest <= orig.len(),
            orig.len() == total,
            p == pos + (len % 8 - rest),
            wiped(orig, mid, pos as int, (p - pos) as int),
            wiped(mid, mem@, p as int, i as int),
        decreases rest - i,
    {
        let ghost before = mem@;
        zero_byte(mem, p + i);
        proof {
            lemma_wiped_concat(mid, before, mem@, p as int, i as int, 1);
        }
        i = i + 1;
    }
    proof {
        lemma_wiped_concat(orig, mid, mem@, pos as int, (p - pos) as int, rest as int);
    }
}

/// Zeroizes the range in blocks of 8 bytes and a shorter tail.
pub fn volatile_write8_zeroize(mem: &mut [u8], start: usize, len: usize)
    requires
        start + len <= old(mem)@.len(),
        start % 8 == 0,
    ensures
        wiped(old(mem)@, final(mem)@, start as int, len as int),
{
    let ghost orig = mem@;
    let end = zeroize_align8_block8(mem, start, len);
    let ghost mid = mem@;
    zeroize_align4_tail8(mem, end, len);
    proof {
        lemma_wiped_concat(orig, mid, mem@, start as int, (len - len % 8) as int, (len % 8) as int);
    }
}

} // verus!
