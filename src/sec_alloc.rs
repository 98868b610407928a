//! An allocator for confidential memory, backed by a single page.
//!
//! Allocation works like a bump allocator over the page. A released block is
//! wiped at once; its space is reused when it was the most recent block on
//! the page (stack order), and otherwise only once every block is released.
//! Blocks are multiples of 8 bytes at offsets that are multiples of 8.
//!
//! The allocator keeps the bookkeeping; the page itself is handed to each
//! operation as a byte slice `mem`, so the same logic serves a heap page or a
//! page mapped and locked by the operating system. [`SecStackSinglePageAlloc::holds`]
//! says what the bytes must be between operations: every byte outside the
//! live blocks is zero.

use crate::internals::wiped;
use crate::layout::Layout;
use crate::mem::{PageAllocError, page_size, valid_page_size};
use crate::util::{
    align_up,
    align_up_usize,
    is_aligned,
    lemma_align_up,
    lemma_mult8_aligned_small,
    lemma_pow2_large_mult8,
    lemma_round8,
    lemma_round8_monotone,
    round8,
    round_up8,
};
use crate::zeroize::{DefaultMemZeroizer, MemZeroizer};
use vstd::prelude::*;

verus! {

/// A block of memory handed out by the allocator: `len` bytes from offset
/// `start` of the page. A zero-length block is never read or written; its
/// `start` is its alignment.
#[derive(Debug, Clone, Copy, PartialEq, Eq, Structural)]
pub struct Region {
    pub start: usize,
    pub len: usize,
}

/// The request does not fit what is left of the page.
#[derive(Debug, Clone, Copy, PartialEq, Eq, Structural)]
pub struct AllocError;

/// A live block as `(start, len)`.
pub type Block = (nat, nat);

/// Offset `i` lies in block `b`.
pub open spec fn in_block(b: Block, i: int) -> bool {
    b.0 <= i < b.0 + b.1
}

/// Offset `i` lies in one of the blocks.
pub open spec fn in_live(live: Seq<Block>, i: int) -> bool {
    exists|k: int| 0 <= k < live.len() && #[trigger] in_block(live[k], i)
}

/// Total length of the blocks.
pub open spec fn live_total(live: Seq<Block>) -> nat
    decreases live.len(),
{
    if live.len() == 0 {
        0
    } else {
        live_total(live.drop_last()) + live.last().1
    }
}

/// The blocks lie in address order, each ending before the next starts.
pub open spec fn ordered(live: Seq<Block>) -> bool {
    forall|j: int, k: int| 0 <= j < k < live.len() ==> live[j].0 + live[j].1 <= live[k].0
}

proof fn lemma_total_push(live: Seq<Block>, b: Block)
    ensures
        live_total(live.push(b)) == live_total(live) + b.1,
{
    assert(live.push(b).drop_last() =~= live);
}

proof fn lemma_total_remove(live: Seq<Block>, k: int)
    requires
        0 <= k < live.len(),
    ensures
        live_total(live.remove(k)) + live[k].1 == live_total(live),
    decreases live.len(),
{
    if k == live.len() - 1 {
        assert(live.remove(k) =~= live.drop_last());
    } else {
        lemma_total_remove(live.drop_last(), k);
        assert(live.remove(k).drop_last() =~= live.drop_last().remove(k));
    }
}

proof fn lemma_total_update(live: Seq<Block>, k: int, b: Block)
    requires
        0 <= k < live.len(),
    ensures
        live_total(live.update(k, b)) + live[k].1 == live_total(live) + b.1,
    decreases live.len(),
{
    if k == live.len() - 1 {
        assert(live.update(k, b).drop_last() =~= live.drop_last());
    } else {
        lemma_total_update(live.drop_last(), k, b);
        assert(live.update(k, b).drop_last() =~= live.drop_last().update(k, b));
    }
}

/// Ordered blocks that end by `n` take at most `n` bytes together.
proof fn lemma_total_bounded(live: Seq<Block>, n: nat)
    requires
        ordered(live),
        forall|k: int| 0 <= k < live.len() ==> live[k].0 + live[k].1 <= n,
    ensures
        live_total(live) <= n,
    decreases live.len(),
{
    if live.len() > 0 {
        let init = live.drop_last();
        let last = live.last();
        assert forall|k: int| 0 <= k < init.len() implies init[k].0 + init[k].1 <= last.0 by {
            assert(live[k] == init[k]);
        }
        lemma_total_bounded(init, last.0);
    }
}

/// Blocks of positive length that take no bytes together are no blocks.
proof fn lemma_total_zero(live: Seq<Block>)
    requires
        forall|k: int| 0 <= k < live.len() ==> live[k].1 > 0,
        live_total(live) == 0,
    ensures
        live.len() == 0,
{
    if live.len() > 0 {
        assert(live[live.len() - 1].1 > 0);
    }
}

proof fn lemma_remove_ordered(live: Seq<Block>, k: int)
    requires
        ordered(live),
        0 <= k < live.len(),
    ensures
        ordered(live.remove(k)),
{
    let r = live.remove(k);
    assert forall|a: int, b: int| 0 <= a < b < r.len() implies r[a].0 + r[a].1 <= r[b].0 by {
        let a2 = if a < k { a } else { a + 1 };
        let b2 = if b < k { b } else { b + 1 };
        assert(r[a] == live[a2] && r[b] == live[b2]);
    }
}

/// An offset in a live block other than block `k` stays live when block `k`
/// is removed.
proof fn lemma_in_live_remove(live: Seq<Block>, k: int, i: int)
    requires
        0 <= k < live.len(),
        in_live(live, i),
        !in_block(live[k], i),
    ensures
        in_live(live.remove(k), i),
{
    let j = choose|j: int| 0 <= j < live.len() && #[trigger] in_block(live[j], i);
    let r = live.remove(k);
    if j < k {
        assert(r[j] == live[j]);
        assert(in_block(r[j], i));
    } else {
        assert(r[j - 1] == live[j]);
        assert(in_block(r[j - 1], i));
    }
}

/// An offset in a live block other than block `k` stays live when block `k`
/// is replaced.
proof fn lemma_in_live_update(live: Seq<Block>, k: int, b: Block, i: int)
    requires
        0 <= k < live.len(),
        in_live(live, i),
        !in_block(live[k], i),
    ensures
        in_live(live.update(k, b), i),
{
    let j = choose|j: int| 0 <= j < live.len() && #[trigger] in_block(live[j], i);
    assert(live.update(k, b)[j] == live[j]);
    assert(in_block(live.update(k, b)[j], i));
}

/// The block that ends at the stack offset is the last one.
proof fn lemma_last_block(live: Seq<Block>, k: int, offset: nat)
    requires
        ordered(live),
        0 <= k < live.len(),
        live[k].0 + live[k].1 == offset,
        forall|j: int| 0 <= j < live.len() ==> #[trigger] live[j].1 > 0 && live[j].0 + live[j].1 <= offset,
    ensures
        k == live.len() - 1,
{
    if k < live.len() - 1 {
        let j = live.len() - 1;
        assert(live[k].0 + live[k].1 <= live[j].0);
        assert(live[j].1 > 0);
    }
}

/// Facts on a layout's size used by the allocator.
proof fn layout_facts(l: Layout)
    requires
        l.wf(),
    ensures
        l.spec_align() > 0,
        l.spec_size() <= isize::MAX,
        round8(l.spec_size()) <= isize::MAX + 8,
        l.spec_size() > 0 ==> round8(l.spec_size()) > 0,
        round8(l.spec_size()) % 8 == 0,
{
    l.lemma_wf();
    lemma_round8(l.spec_size());
}

/// `size` rounded up to a multiple of 8, for a size of a layout.
fn round_size(size: usize) -> (r: usize)
    requires
        size <= isize::MAX,
    ensures
        r == round8(size as nat),
{
    let rem: usize = size % 8;
    if rem == 0 {
        size
    } else {
        size + (8 - rem)
    }
}

/// Where a block of `size` bytes aligned to `align` is placed on a page of
/// `page_size` bytes whose stack offset is `offset`; `None` where it does not
/// fit. The page start is known to be aligned to the page size only, so no
/// larger alignment is served.
pub open spec fn placement(offset: nat, page_size: nat, size: nat, align: nat) -> Option<nat> {
    let start = if align <= 8 {
        offset
    } else {
        align_up(offset, align)
    };
    if align <= page_size && start + round8(size) <= page_size {
        Some(start)
    } else {
        None
    }
}

/// Memory allocator for confidential memory, backed by a single page.
///
/// Allocation works like a bump allocator: stacked use (the latest block is
/// released, shrunk or grown first) reuses memory; otherwise memory is reused
/// once every block is released. Every released byte is wiped with the
/// zeroizer before it can be handed out again.
pub struct SecStackSinglePageAlloc<Z: MemZeroizer = DefaultMemZeroizer> {
    /// Zeroizer used on release.
    zeroizer: Z,
    /// Number of bytes currently allocated.
    bytes: usize,
    /// Size of the page blocks are carved from.
    page_size: usize,
    /// Offset of the first unused byte of the page.
    stack_offset: usize,
    /// The live blocks, in address order.
    live: Ghost<Seq<Block>>,
}

impl<Z: MemZeroizer> SecStackSinglePageAlloc<Z> {
    /// Offset of the first unused byte of the page.
    pub closed spec fn spec_stack_offset(&self) -> nat {
        self.stack_offset as nat
    }

    /// Number of bytes currently allocated.
    pub closed spec fn spec_bytes(&self) -> nat {
        self.bytes as nat
    }

    /// Size of the page.
    pub closed spec fn spec_page_size(&self) -> nat {
        self.page_size as nat
    }

    /// The zeroizer used on release.
    pub closed spec fn spec_zeroizer(&self) -> Z {
        self.zeroizer
    }

    /// The live blocks, in address order.
    pub closed spec fn live(&self) -> Seq<Block> {
        self.live@
    }

    /// The allocator's consistency checks: the stack offset is a multiple of
    /// 8 within the page, the allocated bytes are a multiple of 8 up to the
    /// stack offset, and the page is a positive multiple of 8 bytes long.
    pub open spec fn consistent(&self) -> bool {
        &&& self.spec_stack_offset() % 8 == 0
        &&& self.spec_stack_offset() <= self.spec_page_size()
        &&& valid_page_size(self.spec_page_size())
        &&& self.spec_bytes() <= self.spec_stack_offset()
        &&& self.spec_bytes() % 8 == 0
    }

    /// The allocator's invariant: the consistency checks hold, the live
    /// blocks are ordered multiples of 8 that end by the stack offset and
    /// add up to the allocated bytes, and the stack offset is 0 when nothing
    /// is allocated.
    pub open spec fn wf(&self) -> bool {
        let live = self.live();
        &&& self.consistent()
        &&& self.spec_bytes() == 0 ==> self.spec_stack_offset() == 0
        &&& self.spec_bytes() == live_total(live)
        &&& ordered(live)
        &&& forall|k: int|
            0 <= k < live.len() ==> {
                &&& (#[trigger] live[k]).0 % 8 == 0
                &&& live[k].1 % 8 == 0
                &&& live[k].1 > 0
                &&& live[k].0 + live[k].1 <= self.spec_stack_offset()
            }
    }

    /// `mem` is the allocator's page: it is one page long, and every byte
    /// outside the live blocks is zero.
    pub open spec fn holds(&self, mem: Seq<u8>) -> bool {
        &&& mem.len() == self.spec_page_size()
        &&& forall|i: int| 0 <= i < mem.len() && !in_live(self.live(), i) ==> #[trigger] mem[i] == 0
    }

    /// The outcome of allocating for `layout`: a zero-sized request gets a
    /// zero-sized block and changes nothing; otherwise the block of the size
    /// rounded up to 8 goes where [`placement`] says, zero-filled, or the
    /// request fails and nothing changes.
    pub open spec fn allocate_post(old: Self, new: Self, old_mem: Seq<u8>, new_mem: Seq<u8>, layout: Layout, r: Result<Region, AllocError>) -> bool {
        if layout.spec_size() == 0 {
            r == Ok::<Region, AllocError>(Region { start: layout.spec_align() as usize, len: 0 })
                && (new == old && new_mem == old_mem)
        } else {
            match placement(
                old.spec_stack_offset(),
                old.spec_page_size(),
                layout.spec_size(),
                layout.spec_align(),
            ) {
                Some(start) => {
                    let len = round8(layout.spec_size());
                    &&& r == Ok::<Region, AllocError>(
                        Region { start: start as usize, len: len as usize },
                    )
                    &&& new.spec_page_size() == old.spec_page_size()
                    &&& new.spec_stack_offset() == start + len
                    &&& new.spec_bytes() == old.spec_bytes() + len
                    &&& new_mem == old_mem
                    &&& new.live() == old.live().push((start, len))
                    &&& forall|i: int| start <= i < start + len ==> #[trigger] new_mem[i] == 0
                },
                None => r == Err::<Region, AllocError>(AllocError) && (new == old && new_mem == old_mem),
            }
        }
    }

    /// The state after releasing the live block `(start, len)`: its bytes
    /// are wiped, the allocated bytes drop by `len`, and the stack offset
    /// returns to 0 once nothing is allocated, or rewinds to `start` where
    /// the block was the last one on the page.
    pub open spec fn released(old: Self, new: Self, old_mem: Seq<u8>, new_mem: Seq<u8>, start: nat, len: nat) -> bool {
        &&& wiped(old_mem, new_mem, start as int, len as int)
        &&& new.spec_bytes() == old.spec_bytes() - len
        &&& new.spec_page_size() == old.spec_page_size()
        &&& new.spec_stack_offset() == if new.spec_bytes() == 0 {
            0
        } else if start + len == old.spec_stack_offset() {
            start
        } else {
            old.spec_stack_offset()
        }
        &&& exists|k: int|
            0 <= k < old.live().len() && #[trigger] old.live()[k] == (start, len)
                && new.live() == old.live().remove(k)
    }

    /// The state after moving the live block `(start, old_len)` to a new
    /// block `(new_start, new_len)` placed at the stack offset: the first `n`
    /// bytes are copied over, the old block is wiped, and the stack offset is
    /// the end of the new block.
    pub open spec fn relocated(
        old: Self,
        new: Self,
        old_mem: Seq<u8>,
        new_mem: Seq<u8>,
        start: nat,
        old_len: nat,
        new_start: nat,
        new_len: nat,
        n: nat,
    ) -> bool {
        &&& new.spec_page_size() == old.spec_page_size()
        &&& new.spec_stack_offset() == new_start + new_len
        &&& new.spec_bytes() == old.spec_bytes() + new_len - old_len
        &&& new_mem.len() == old_mem.len()
        &&& forall|i: int|
            0 <= i < new_mem.len() ==> #[trigger] new_mem[i] == if start <= i < start
                + old_len {
                0u8
            } else if new_start <= i < new_start + n {
                old_mem[start + (i - new_start)]
            } else {
                old_mem[i]
            }
        &&& exists|k: int|
            0 <= k < old.live().len() && #[trigger] old.live()[k] == (start, old_len)
                && new.live() == old.live().push((new_start, new_len)).remove(k)
    }

    /// The state after resizing the live block `(start, old_len)` in place
    /// to `new_len` bytes: the bytes given up are wiped, the allocated bytes
    /// change by the difference, and so does the stack offset where the
    /// block is the last one on the page.
    pub open spec fn resized_in_place(old: Self, new: Self, old_mem: Seq<u8>, new_mem: Seq<u8>, start: nat, old_len: nat, new_len: nat) -> bool {
        &&& new.spec_page_size() == old.spec_page_size()
        &&& new.spec_bytes() == old.spec_bytes() - old_len + new_len
        &&& new.spec_stack_offset() == if start + old_len == old.spec_stack_offset() {
            start + new_len
        } else {
            old.spec_stack_offset()
        }
        &&& wiped(
            old_mem,
            new_mem,
            (start + new_len) as int,
            if new_len < old_len {
                old_len - new_len
            } else {
                0
            },
        )
        &&& exists|k: int|
            0 <= k < old.live().len() && #[trigger] old.live()[k] == (start, old_len)
                && new.live() == old.live().update(k, (start, new_len))
    }

    /// The outcome of moving the live block `(start, old_len)` to a fresh
    /// block for `new_layout`, keeping its first `n` bytes; or failure with
    /// nothing changed where the fresh block does not fit.
    pub open spec fn moved(
        old: Self,
        new: Self,
        old_mem: Seq<u8>,
        new_mem: Seq<u8>,
        start: nat,
        old_len: nat,
        new_layout: Layout,
        n: nat,
        r: Result<Region, AllocError>,
    ) -> bool {
        match placement(
            old.spec_stack_offset(),
            old.spec_page_size(),
            new_layout.spec_size(),
            new_layout.spec_align(),
        ) {
            Some(ns) => r == Ok::<Region, AllocError>(
                Region { start: ns as usize, len: round8(new_layout.spec_size()) as usize },
            ) && Self::relocated(old, new, old_mem, new_mem, start, old_len, ns, round8(new_layout.spec_size()), n),
            None => r == Err::<Region, AllocError>(AllocError) && (new == old && new_mem == old_mem),
        }
    }

    /// The outcome of shrinking by moving: a zero-sized new layout releases
    /// the block and yields a zero-sized block; otherwise the block moves,
    /// keeping the new size's worth of bytes.
    pub open spec fn realloc_shrink_post(
        old: Self,
        new: Self,
        old_mem: Seq<u8>,
        new_mem: Seq<u8>,
        start: nat,
        old_layout: Layout,
        new_layout: Layout,
        r: Result<Region, AllocError>,
    ) -> bool {
        if new_layout.spec_size() == 0 {
            &&& r == Ok::<Region, AllocError>(
                Region { start: new_layout.spec_align() as usize, len: 0 },
            )
            &&& old_layout.spec_size() == 0 ==> (new == old && new_mem == old_mem)
            &&& old_layout.spec_size() > 0 ==> Self::released(
                old,
                new,
                old_mem,
                new_mem,
                start,
                round8(old_layout.spec_size()),
            )
        } else {
            Self::moved(
                old,
                new,
                old_mem,
                new_mem,
                start,
                round8(old_layout.spec_size()),
                new_layout,
                new_layout.spec_size(),
                r,
            )
        }
    }

    /// The outcome of growing by moving: from a zero-sized block this is an
    /// allocation; otherwise the block moves, keeping its bytes.
    pub open spec fn realloc_grow_post(
        old: Self,
        new: Self,
        old_mem: Seq<u8>,
        new_mem: Seq<u8>,
        start: nat,
        old_layout: Layout,
        new_layout: Layout,
        r: Result<Region, AllocError>,
    ) -> bool {
        if old_layout.spec_size() == 0 {
            Self::allocate_post(old, new, old_mem, new_mem, new_layout, r)
        } else {
            Self::moved(
                old,
                new,
                old_mem,
                new_mem,
                start,
                round8(old_layout.spec_size()),
                new_layout,
                old_layout.spec_size(),
                r,
            )
        }
    }

    /// The outcome of shrinking: in place where `start` already has the new
    /// alignment, by moving otherwise.
    pub open spec fn shrink_post(
        old: Self,
        new: Self,
        old_mem: Seq<u8>,
        new_mem: Seq<u8>,
        start: nat,
        old_layout: Layout,
        new_layout: Layout,
        r: Result<Region, AllocError>,
    ) -> bool {
        let ro = round8(old_layout.spec_size());
        let rn = round8(new_layout.spec_size());
        if new_layout.spec_size() > 0 && start % new_layout.spec_align() == 0
            && new_layout.spec_align() <= old.spec_page_size() {
            r == Ok::<Region, AllocError>(Region { start: start as usize, len: rn as usize })
                && Self::resized_in_place(old, new, old_mem, new_mem, start, ro, rn)
        } else {
            Self::realloc_shrink_post(old, new, old_mem, new_mem, start, old_layout, new_layout, r)
        }
    }

    /// The outcome of growing: in place where the block is the last one on
    /// the page and `start` already has the new alignment (failing if the
    /// page has no room), by moving otherwise.
    pub open spec fn grow_post(
        old: Self,
        new: Self,
        old_mem: Seq<u8>,
        new_mem: Seq<u8>,
        start: nat,
        old_layout: Layout,
        new_layout: Layout,
        r: Result<Region, AllocError>,
    ) -> bool {
        let ro = round8(old_layout.spec_size());
        let rn = round8(new_layout.spec_size());
        if old_layout.spec_size() > 0 && start % new_layout.spec_align() == 0
            && new_layout.spec_align() <= old.spec_page_size() && start + ro
            == old.spec_stack_offset() {
            if start + rn <= old.spec_page_size() {
                r == Ok::<Region, AllocError>(Region { start: start as usize, len: rn as usize })
                    && Self::resized_in_place(old, new, old_mem, new_mem, start, ro, rn)
            } else {
                r == Err::<Region, AllocError>(AllocError) && (new == old && new_mem == old_mem)
            }
        } else {
            Self::realloc_grow_post(old, new, old_mem, new_mem, start, old_layout, new_layout, r)
        }
    }

    /// The bytes of a grown block past its old length are zero.
    pub open spec fn grown_zeroed(old_layout: Layout, new_mem: Seq<u8>, r: Result<Region, AllocError>) -> bool {
        r matches Ok(g) ==> forall|i: int|
            g.start + round8(old_layout.spec_size()) <= i < g.start + g.len ==> #[trigger] new_mem[i]
                == 0
    }

    /// The consistency checks hold in every state the allocator reaches:
    /// construction establishes the invariant, every operation keeps it, and
    /// the invariant implies the checks.
    pub proof fn lemma_wf_consistent(&self)
        requires
            self.wf(),
        ensures
            self.consistent(),
    {
    }

    /// Stack reuse: allocating a block, releasing it, and allocating for the
    /// same layout again hands out the released block's place.
    pub proof fn lemma_stack_reuse(
        s0: Self,
        s1: Self,
        s2: Self,
        s3: Self,
        m0: Seq<u8>,
        m1: Seq<u8>,
        m2: Seq<u8>,
        m3: Seq<u8>,
        layout: Layout,
        b: Region,
        c: Result<Region, AllocError>,
    )
        requires
            s0.wf(),
            layout.wf(),
            layout.spec_size() > 0,
            Self::allocate_post(s0, s1, m0, m1, layout, Ok(b)),
            Self::released(s1, s2, m1, m2, b.start as nat, round8(layout.spec_size())),
            Self::allocate_post(s2, s3, m2, m3, layout, c),
        ensures
            c == Ok::<Region, AllocError>(b),
    {
        layout_facts(layout);
        let so = s0.spec_stack_offset();
        let start = placement(so, s0.spec_page_size(), layout.spec_size(), layout.spec_align())->0;
        if layout.spec_align() > 8 {
            lemma_align_up(so, layout.spec_align());
        }
        assert(start == b.start);
        if s2.spec_bytes() == 0 {
            assert(so == 0);
        }
    }

    /// Capacity exhaustion: a request for more bytes than are left after the
    /// stack offset fails and leaves the allocator unchanged.
    pub proof fn lemma_capacity_exhaustion(
        s0: Self,
        s1: Self,
        m0: Seq<u8>,
        m1: Seq<u8>,
        layout: Layout,
        r: Result<Region, AllocError>,
    )
        requires
            s0.wf(),
            layout.wf(),
            layout.spec_size() > s0.spec_page_size() - s0.spec_stack_offset(),
            Self::allocate_post(s0, s1, m0, m1, layout, r),
        ensures
            r == Err::<Region, AllocError>(AllocError),
            s1 == s0,
            m1 == m0,
    {
        layout_facts(layout);
        if layout.spec_align() > 8 {
            lemma_align_up(s0.spec_stack_offset(), layout.spec_align());
        }
    }

    /// Zero-size allocation: it always succeeds with a zero-length block at
    /// a non-zero position (the alignment), and changes nothing.
    pub proof fn lemma_zero_size_allocation(
        s0: Self,
        s1: Self,
        m0: Seq<u8>,
        m1: Seq<u8>,
        layout: Layout,
        r: Result<Region, AllocError>,
    )
        requires
            layout.wf(),
            layout.spec_size() == 0,
            Self::allocate_post(s0, s1, m0, m1, layout, r),
        ensures
            r == Ok::<Region, AllocError>(Region { start: layout.spec_align() as usize, len: 0 }),
            layout.spec_align() as usize > 0,
            s1 == s0,
            m1 == m0,
    {
        layout_facts(layout);
        layout.lemma_wf();
    }

    /// Growing the last block on the page in place and shrinking it back to
    /// its layout restores the stack offset and the allocated bytes, and
    /// keeps the block's bytes.
    pub proof fn lemma_grow_shrink_restores(
        s0: Self,
        s1: Self,
        s2: Self,
        m0: Seq<u8>,
        m1: Seq<u8>,
        m2: Seq<u8>,
        start: nat,
        old_layout: Layout,
        new_layout: Layout,
        g: Region,
        h: Result<Region, AllocError>,
    )
        requires
            s0.wf(),
            old_layout.wf(),
            new_layout.wf(),
            0 < old_layout.spec_size() <= new_layout.spec_size(),
            s0.live().contains((start, round8(old_layout.spec_size()))),
            start % old_layout.spec_align() == 0,
            old_layout.spec_align() <= s0.spec_page_size(),
            start + round8(old_layout.spec_size()) == s0.spec_stack_offset(),
            start % new_layout.spec_align() == 0,
            new_layout.spec_align() <= s0.spec_page_size(),
            s0.holds(m0),
            Self::grow_post(s0, s1, m0, m1, start, old_layout, new_layout, Ok(g)),
            Self::shrink_post(s1, s2, m1, m2, g.start as nat, new_layout, old_layout, h),
        ensures
            h == Ok::<Region, AllocError>(
                Region { start: start as usize, len: round8(old_layout.spec_size()) as usize },
            ),
            s2.spec_stack_offset() == s0.spec_stack_offset(),
            s2.spec_bytes() == s0.spec_bytes(),
            forall|i: int|
                0 <= i < old_layout.spec_size() ==> #[trigger] m2[start + i] == m0[start + i],
    {
        layout_facts(old_layout);
        layout_facts(new_layout);
        lemma_round8_monotone(old_layout.spec_size(), new_layout.spec_size());
        assert(g.start == start);
        assert forall|i: int| 0 <= i < old_layout.spec_size() implies #[trigger] m2[start + i]
            == m0[start + i] by {
            assert(m1[start + i] == m0[start + i]);
        }
    }

    /// Bytes at or after the stack offset are zero.
    proof fn lemma_free_zero(&self, mem: Seq<u8>, i: int)
        requires
            self.wf(),
            self.holds(mem),
            self.stack_offset <= i < mem.len(),
        ensures
            mem[i] == 0,
    {
        if in_live(self.live@, i) {
            let k = choose|k: int| 0 <= k < self.live@.len() && #[trigger] in_block(self.live@[k], i);
            assert(self.live@[k].0 + self.live@[k].1 <= self.stack_offset);
        }
    }

    /// An allocator for a page of `page_size` bytes, with every byte free
    /// and wiping with `zeroizer`; refused unless the size is a positive
    /// multiple of 8. Any zero-filled page of that size goes with it.
    pub fn with_page_size(page_size: usize, zeroizer: Z) -> (r: Result<Self, PageAllocError>)
        ensures
            r is Ok <==> valid_page_size(page_size as nat),
            r matches Ok(a) ==> {
                &&& a.wf()
                &&& a.spec_page_size() == page_size
                &&& a.spec_stack_offset() == 0
                &&& a.spec_bytes() == 0
                &&& a.live().len() == 0
                &&& a.spec_zeroizer() == zeroizer
                &&& a.holds(Seq::new(page_size as nat, |i: int| 0u8))
            },
            r matches Err(e) ==> e == PageAllocError::PageSize(page_size),
    {
        if page_size == 0 || page_size % 8 != 0 {
            return Err(PageAllocError::PageSize(page_size));
        }
        Ok(SecStackSinglePageAlloc {
            zeroizer,
            bytes: 0,
            page_size,
            stack_offset: 0,
            live: Ghost(Seq::empty()),
        })
    }

    /// An allocator for a page of the system's page size, wiping with
    /// `zeroizer`.
    pub fn new_with_zeroizer(zeroizer: Z) -> (r: Result<Self, PageAllocError>)
        ensures
            r matches Ok(a) ==> {
                &&& a.wf()
                &&& a.spec_stack_offset() == 0
                &&& a.spec_bytes() == 0
                &&& a.live().len() == 0
                &&& a.spec_zeroizer() == zeroizer
                &&& a.holds(Seq::new(a.spec_page_size(), |i: int| 0u8))
            },
            r matches Err(e) ==> e is PageSize,
    {
        Self::with_page_size(page_size(), zeroizer)
    }

    /// The stack offset: the first unused byte of the page.
    pub fn stack_offset(&self) -> (r: usize)
        ensures
            r == self.spec_stack_offset(),
    {
        self.stack_offset
    }

    /// The number of bytes currently allocated.
    pub fn bytes_allocated(&self) -> (r: usize)
        ensures
            r == self.spec_bytes(),
    {
        self.bytes
    }

    /// The size of the page.
    pub fn page_size(&self) -> (r: usize)
        ensures
            r == self.spec_page_size(),
    {
        self.page_size
    }

    /// The zeroizer used on release.
    pub fn zeroizer(&self) -> (r: &Z)
        ensures
            *r == self.spec_zeroizer(),
    {
        &self.zeroizer
    }

    /// Runs the consistency checks on the allocator's state.
    pub fn consistency_check(&self) -> (r: bool)
        requires
            self.wf(),
        ensures
            r == self.consistent(),
            r,
    {
        let bytes = self.bytes;
        let stack_offset = self.stack_offset;
        let page_size = self.page_size;
        stack_offset % 8 == 0 && stack_offset <= page_size && page_size > 0 && page_size % 8 == 0
            && bytes <= stack_offset && bytes % 8 == 0
    }

    /// The check due before the allocator goes away: nothing is allocated
    /// any more (no leak) and every byte of the page reads as zero (every
    /// release was wiped). By the invariant the second part always holds
    /// once the first does.
    pub fn is_clear(&self, mem: &[u8]) -> (r: bool)
        requires
            self.wf(),
            self.holds(mem@),
        ensures
            r == (self.spec_bytes() == 0),
            r ==> mem@ == Seq::new(mem@.len(), |i: int| 0u8),
    {
        if self.bytes != 0 {
            return false;
        }
        proof {
            lemma_total_zero(self.live@);
        }
        let n = mem.len();
        let mut i: usize = 0;
        while i < n
            invariant
                i <= n,
                n == mem@.len(),
                self.holds(mem@),
                self.wf(),
                self.live@.len() == 0,
                forall|j: int| 0 <= j < i ==> mem@[j] == 0,
            decreases n - i,
        {
            if mem[i] != 0 {
                assert(!in_live(self.live@, i as int));
                return false;
            }
            i = i + 1;
        }
        assert(mem@ =~= Seq::new(mem@.len(), |i: int| 0u8));
        true
    }

    /// Whether the block of `rounded_size` bytes at `start` is the last one on
    /// the page.
    fn ptr_is_last_allocation(&self, start: usize, rounded_size: usize) -> (r: bool)
        requires
            self.wf(),
            start + rounded_size <= self.page_size,
        ensures
            r == (start + rounded_size == self.stack_offset),
    {
        let alloc_end_offset = start + rounded_size;
        alloc_end_offset == self.stack_offset
    }

    /// A zero-sized block for alignment `align`.
    pub fn allocate_zerosized(align: usize) -> (r: Region)
        ensures
            r == (Region { start: align, len: 0 }),
    {
        Region { start: align, len: 0 }
    }

    /// Allocates a block for `layout`. The block is zero-filled, its length
    /// is the size rounded up to a multiple of 8, and it starts at the stack
    /// offset, or at the next multiple of the alignment where that is above
    /// 8. A zero-sized request always succeeds with a zero-sized block and
    /// changes nothing.
    #[verifier::rlimit(40)]
    pub fn allocate_zeroed(&mut self, layout: Layout, mem: &mut [u8]) -> (r: Result<Region, AllocError>)
        requires
            old(self).wf(),
            old(self).holds(old(mem)@),
            layout.wf(),
        ensures
            final(self).wf(),
            final(self).holds(final(mem)@),
            Self::allocate_post(*old(self), *final(self), old(mem)@, final(mem)@, layout, r),
    {
        let size = layout.size();
        let align = layout.align();
        proof {
            layout.lemma_wf();
        }
        if size == 0 {
            return Ok(Self::allocate_zerosized(align));
        }
        let page_size = self.page_size;
        let rounded = match round_up8(size) {
            Some(v) => v,
            None => {
                proof {
                    lemma_round8(size as nat);
                }
                return Err(AllocError);
            },
        };
        proof {
            lemma_round8(size as nat);
        }
        let start: usize;
        if align <= 8 {
            if rounded > page_size - self.stack_offset {
                return Err(AllocError);
            }
            start = self.stack_offset;
            proof {
                lemma_mult8_aligned_small(start as nat, align as nat);
            }
        } else {
            if align > page_size {
                return Err(AllocError);
            }
            start = match align_up_usize(self.stack_offset, align) {
                Some(v) => v,
                None => {
                    return Err(AllocError);
                },
            };
            proof {
                lemma_align_up(self.stack_offset as nat, align as nat);
                lemma_pow2_large_mult8(align as nat);
                vstd::arithmetic::div_mod::lemma_mod_mod(start as int, 8, align as int / 8);
                assert(align == 8 * (align as int / 8));
            }
            if start >= page_size {
                return Err(AllocError);
            }
            if rounded > page_size - start {
                return Err(AllocError);
            }
        }
        let ghost old_self = *self;
        let ghost old_mem = mem@;
        let ghost block: Block = (start as nat, rounded as nat);
        proof {
            lemma_total_push(self.live@, block);
            assert forall|i: int| start <= i < start + rounded implies #[trigger] mem@[i]
                == 0 by {
                old_self.lemma_free_zero(old_mem, i);
            }
        }
        self.stack_offset = start + rounded;
        self.bytes = self.bytes + rounded;
        self.live = Ghost(self.live@.push(block));
        proof {
            let live = self.live@;
            assert forall|i: int|
                0 <= i < mem@.len() && !in_live(live, i) implies #[trigger] mem@[i]
                == 0 by {
                if in_live(old_self.live@, i) {
                    let k = choose|k: int|
                        0 <= k < old_self.live@.len() && #[trigger] in_block(old_self.live@[k], i);
                    assert(live[k] == old_self.live@[k]);
                }
            }
            assert forall|j: int, k: int| 0 <= j < k < live.len() implies live[j].0 + live[j].1
                <= live[k].0 by {
                if k < live.len() - 1 {
                    assert(live[j] == old_self.live@[j]);
                    assert(live[k] == old_self.live@[k]);
                } else {
                    assert(live[j] == old_self.live@[j]);
                }
            }
            assert forall|k: int| 0 <= k < live.len() implies {
                &&& (#[trigger] live[k]).0 % 8 == 0
                &&& live[k].1 % 8 == 0
                &&& live[k].1 > 0
                &&& live[k].0 + live[k].1 <= self.stack_offset
            } by {
                if k < live.len() - 1 {
                    assert(live[k] == old_self.live@[k]);
                }
            }
        }
        Ok(Region { start, len: rounded })
    }

    /// Allocates a block for `layout`; see
    /// [`SecStackSinglePageAlloc::allocate_zeroed`]: every block is
    /// zero-filled.
    pub fn allocate(&mut self, layout: Layout, mem: &mut [u8]) -> (r: Result<Region, AllocError>)
        requires
            old(self).wf(),
            old(self).holds(old(mem)@),
            layout.wf(),
        ensures
            final(self).wf(),
            final(self).holds(final(mem)@),
            Self::allocate_post(*old(self), *final(self), old(mem)@, final(mem)@, layout, r),
    {
        self.allocate_zeroed(layout, mem)
    }

    /// Releases the live block of `rounded` bytes at `start`: wipes it and
    /// rewinds the stack offset where possible.
    #[verifier::rlimit(40)]
    fn release_block(&mut self, start: usize, rounded: usize, mem: &mut [u8])
        requires
            old(self).wf(),
            old(self).holds(old(mem)@),
            old(self).live().contains((start as nat, rounded as nat)),
        ensures
            final(self).wf(),
            final(self).holds(final(mem)@),
            Self::released(*old(self), *final(self), old(mem)@, final(mem)@, start as nat, rounded as nat),
    {
        let ghost old_self = *self;
        let ghost old_mem = mem@;
        let ghost live = self.live@;
        let ghost k = choose|k: int| 0 <= k < live.len() && live[k] == (start as nat, rounded as nat);
        assert(live[k] == (start as nat, rounded as nat));
        proof {
            vstd::arithmetic::power2::lemma2_to64();
            lemma_total_remove(live, k);
            lemma_remove_ordered(live, k);
        }
        self.zeroizer.zeroize_mem_blocks(mem, start, rounded, 3, 3);
        self.bytes = self.bytes - rounded;
        self.live = Ghost(live.remove(k));
        let ghost new_live = live.remove(k);
        proof {
            assert forall|j: int| 0 <= j < new_live.len() implies #[trigger] new_live[j] == live[if j
                < k {
                j
            } else {
                j + 1
            }] by {}
            assert forall|i: int|
                0 <= i < mem@.len() && !in_live(new_live, i) implies #[trigger] mem@[i]
                == 0 by {
                if !in_block(live[k], i) {
                    if in_live(live, i) {
                        lemma_in_live_remove(live, k, i);
                    }
                    assert(mem@[i] == old_mem[i]);
                }
            }
        }
        if self.bytes == 0 {
            self.stack_offset = 0;
            proof {
                lemma_total_zero(new_live);
            }
            return;
        }
        if self.ptr_is_last_allocation(start, rounded) {
            self.stack_offset = start;
            proof {
                assert forall|j: int| 0 <= j < new_live.len() implies new_live[j].0 + new_live[j].1
                    <= start by {
                    if j >= k {
                        assert(new_live[j] == live[j + 1]);
                        assert(live[k].0 + live[k].1 <= live[j + 1].0);
                    } else {
                        assert(new_live[j] == live[j]);
                    }
                }
                lemma_total_bounded(new_live, start as nat);
            }
        }
    }

    /// Releases the block at `start` that was allocated for `layout`: wipes
    /// its bytes (the size rounded up to a multiple of 8), and rewinds the
    /// stack offset to 0 once nothing is allocated, or to `start` where the
    /// block was the last one on the page. A zero-sized block is not touched.
    pub fn deallocate(&mut self, start: usize, layout: Layout, mem: &mut [u8])
        requires
            old(self).wf(),
            old(self).holds(old(mem)@),
            layout.wf(),
            layout.spec_size() > 0 ==> old(self).live().contains(
                (start as nat, round8(layout.spec_size())),
            ),
        ensures
            final(self).wf(),
            final(self).holds(final(mem)@),
            layout.spec_size() == 0 ==> *final(self) == *old(self) && final(mem)@ == old(mem)@,
            layout.spec_size() > 0 ==> Self::released(
                *old(self),
                *final(self),
                old(mem)@,
                final(mem)@,
                start as nat,
                round8(layout.spec_size()),
            ),
    {
        let size = layout.size();
        if size == 0 {
            return;
        }
        proof {
            layout.lemma_wf();
        }
        let rounded = round_size(size);
        self.release_block(start, rounded, mem);
    }

    /// Writes `value` at position `at` of the live block of `len` bytes at
    /// `start`.
    #[verifier::rlimit(40)]
    pub fn write_byte(&mut self, start: usize, len: usize, at: usize, value: u8, mem: &mut [u8])
        requires
            old(self).wf(),
            old(self).holds(old(mem)@),
            old(self).live().contains((start as nat, len as nat)),
            at < len,
        ensures
            final(self).wf(),
            final(self).holds(final(mem)@),
            final(mem)@ == old(mem)@.update(start + at, value),
            final(self).spec_stack_offset() == old(self).spec_stack_offset(),
            final(self).spec_bytes() == old(self).spec_bytes(),
            final(self).spec_page_size() == old(self).spec_page_size(),
            final(self).live() == old(self).live(),
    {
        let ghost live = self.live@;
        let ghost k = choose|k: int| 0 <= k < live.len() && live[k] == (start as nat, len as nat);
        assert(live[k] == (start as nat, len as nat));
        mem[start + at] = value;
        proof {
            assert forall|j: int|
                0 <= j < mem@.len() && !in_live(self.live@, j) implies #[trigger] mem@[j]
                == 0 by {
                if j == start + at {
                    assert(in_block(live[k], j));
                }
            }
        }
    }

    /// Copies `n` bytes from offset `from` to the live block of `to_len`
    /// bytes at `to`, which does not overlap the source.
    #[verifier::rlimit(40)]
    fn copy_block(&mut self, from: usize, to: usize, n: usize, to_len: usize, mem: &mut [u8])
        requires
            old(self).wf(),
            old(self).holds(old(mem)@),
            old(self).live().contains((to as nat, to_len as nat)),
            n <= to_len,
            from + n <= to,
        ensures
            final(self).wf(),
            final(self).holds(final(mem)@),
            final(self).spec_stack_offset() == old(self).spec_stack_offset(),
            final(self).spec_bytes() == old(self).spec_bytes(),
            final(self).live() == old(self).live(),
            final(mem)@.len() == old(mem)@.len(),
            forall|i: int|
                0 <= i < final(mem)@.len() ==> #[trigger] final(mem)@[i] == if to
                    <= i < to + n {
                    old(mem)@[from + (i - to)]
                } else {
                    old(mem)@[i]
                },
    {
        let ghost orig = mem@;
        let ghost live = self.live@;
        let ghost kt = choose|k: int| 0 <= k < live.len() && live[k] == (to as nat, to_len as nat);
        assert(live[kt] == (to as nat, to_len as nat));
        assert(live[kt].0 + live[kt].1 <= self.stack_offset);
        let mut i: usize = 0;
        while i < n
            invariant
                self.wf(),
                self.holds(mem@),
                to + to_len <= orig.len(),
                i <= n,
                n <= to_len,
                from + n <= to,
                0 <= kt < live.len(),
                live[kt] == (to as nat, to_len as nat),
                self.live@ == live,
                self.stack_offset == old(self).stack_offset,
                self.bytes == old(self).bytes,
                mem@.len() == orig.len(),
                forall|j: int|
                    0 <= j < orig.len() ==> #[trigger] mem@[j] == if to <= j < to + i {
                        orig[from + (j - to)]
                    } else {
                        orig[j]
                    },
            decreases n - i,
        {
            let b = mem[from + i];
            mem[to + i] = b;
            proof {
                assert forall|j: int|
                    0 <= j < mem@.len() && !in_live(self.live@, j) implies #[trigger] mem@[j]
                    == 0 by {
                    if j == to + i {
                        assert(in_block(live[kt], j));
                    }
                }
            }
            i = i + 1;
        }
    }

    /// Moves the live block at `start`, allocated for `old_layout`, to a
    /// fresh block for `new_layout`: allocates it, copies the first `n`
    /// bytes over, and releases (wipes) the old block.
    #[verifier::rlimit(40)]
    fn relocate(&mut self, start: usize, old_layout: Layout, new_layout: Layout, n: usize, mem: &mut [u8]) -> (r: Result<Region, AllocError>)
        requires
            old(self).wf(),
            old(self).holds(old(mem)@),
            old_layout.wf(),
            new_layout.wf(),
            old_layout.spec_size() > 0,
            new_layout.spec_size() > 0,
            n <= old_layout.spec_size(),
            n <= new_layout.spec_size(),
            old(self).live().contains((start as nat, round8(old_layout.spec_size()))),
        ensures
            final(self).wf(),
            final(self).holds(final(mem)@),
            match placement(
                old(self).spec_stack_offset(),
                old(self).spec_page_size(),
                new_layout.spec_size(),
                new_layout.spec_align(),
            ) {
                Some(ns) => r == Ok::<Region, AllocError>(
                    Region { start: ns as usize, len: round8(new_layout.spec_size()) as usize },
                ) && Self::relocated(
                    *old(self),
                    *final(self),
                    old(mem)@,
                    final(mem)@,
                    start as nat,
                    round8(old_layout.spec_size()),
                    ns,
                    round8(new_layout.spec_size()),
                    n as nat,
                ),
                None => r == Err::<Region, AllocError>(AllocError) && *final(self) == *old(self)
                    && final(mem)@ == old(mem)@,
            },
    {
        let ghost s0 = *self;
        let ghost ro = round8(old_layout.spec_size());
        let ghost ko = choose|k: int| 0 <= k < s0.live@.len() && s0.live@[k] == (start as nat, ro);
        assert(s0.live@[ko] == (start as nat, ro));
        proof {
            layout_facts(old_layout);
            layout_facts(new_layout);
        }
        let new_region = match self.allocate(new_layout, mem) {
            Ok(region) => region,
            Err(e) => {
                return Err(e);
            },
        };
        let ghost s1 = *self;
        assert(s1.live@.last() == (new_region.start as nat, new_region.len as nat));
        assert(s1.live@.contains((new_region.start as nat, new_region.len as nat)));
        assert(s0.live@[ko].0 + s0.live@[ko].1 <= s0.stack_offset);
        self.copy_block(start, new_region.start, n, new_region.len, mem);
        let ghost s2 = *self;
        assert(s2.live@[ko] == (start as nat, ro));
        let rounded = round_size(old_layout.size());
        self.release_block(start, rounded, mem);
        proof {
            let k = choose|k: int|
                0 <= k < s2.live@.len() && #[trigger] s2.live@[k] == (start as nat, ro)
                    && self.live@ == s2.live@.remove(k);
            assert(k < s0.live@.len());
            assert(s0.live@[k] == (start as nat, ro));
        }
        Ok(new_region)
    }

    /// Shrinks the live block of `old_len` bytes at `start` to `new_len`
    /// bytes in place, wiping the bytes given up.
    #[verifier::rlimit(40)]
    fn shrink_in_place(&mut self, start: usize, old_len: usize, new_len: usize, mem: &mut [u8])
        requires
            old(self).wf(),
            old(self).holds(old(mem)@),
            old(self).live().contains((start as nat, old_len as nat)),
            0 < new_len <= old_len,
            new_len % 8 == 0,
        ensures
            final(self).wf(),
            final(self).holds(final(mem)@),
            Self::resized_in_place(*old(self), *final(self), old(mem)@, final(mem)@, start as nat, old_len as nat, new_len as nat),
    {
        let ghost old_self = *self;
        let ghost old_mem = mem@;
        let ghost live = self.live@;
        let ghost k = choose|k: int| 0 <= k < live.len() && live[k] == (start as nat, old_len as nat);
        assert(live[k] == (start as nat, old_len as nat));
        let ghost new_live = live.update(k, (start as nat, new_len as nat));
        proof {
            vstd::arithmetic::power2::lemma2_to64();
            lemma_total_update(live, k, (start as nat, new_len as nat));
            lemma_total_remove(live, k);
        }
        let decrease: usize = old_len - new_len;
        let is_last = self.ptr_is_last_allocation(start, old_len);
        self.zeroizer.zeroize_mem_blocks(mem, start + new_len, decrease, 3, 3);
        self.bytes = self.bytes - decrease;
        if is_last {
            self.stack_offset = self.stack_offset - decrease;
        }
        self.live = Ghost(new_live);
        proof {
            assert forall|a: int, b: int| 0 <= a < b < new_live.len() implies new_live[a].0
                + new_live[a].1 <= new_live[b].0 by {
                assert(live[a].0 + live[a].1 <= live[b].0);
            }
            assert forall|j: int| 0 <= j < new_live.len() implies {
                &&& (#[trigger] new_live[j]).0 % 8 == 0
                &&& new_live[j].1 % 8 == 0
                &&& new_live[j].1 > 0
                &&& new_live[j].0 + new_live[j].1 <= self.stack_offset
            } by {
                if is_last && j != k {
                    if j > k {
                        assert(live[k].0 + live[k].1 <= live[j].0);
                        assert(live[j].0 + live[j].1 <= old_self.stack_offset);
                    } else {
                        assert(live[j].0 + live[j].1 <= live[k].0);
                    }
                }
            }
            if !is_last {
                lemma_total_bounded(live, old_self.stack_offset as nat);
            }
            assert forall|i: int|
                0 <= i < mem@.len() && !in_live(new_live, i) implies #[trigger] mem@[i]
                == 0 by {
                if !(start + new_len <= i < start + old_len) {
                    if in_block(live[k], i) {
                        assert(in_block(new_live[k], i));
                    } else if in_live(live, i) {
                        lemma_in_live_update(live, k, (start as nat, new_len as nat), i);
                    }
                }
            }
        }
    }

    /// Grows the live block of `old_len` bytes at `start`, the last one on
    /// the page, to `new_len` bytes in place.
    #[verifier::rlimit(40)]
    fn grow_in_place(&mut self, start: usize, old_len: usize, new_len: usize, mem: &mut [u8])
        requires
            old(self).wf(),
            old(self).holds(old(mem)@),
            old(self).live().contains((start as nat, old_len as nat)),
            start + old_len == old(self).spec_stack_offset(),
            old_len <= new_len,
            new_len % 8 == 0,
            start + new_len <= old(self).spec_page_size(),
        ensures
            final(self).wf(),
            final(self).holds(final(mem)@),
            Self::resized_in_place(*old(self), *final(self), old(mem)@, final(mem)@, start as nat, old_len as nat, new_len as nat),
    {
        let ghost old_self = *self;
        let ghost old_mem = mem@;
        let ghost live = self.live@;
        let ghost k = choose|k: int| 0 <= k < live.len() && live[k] == (start as nat, old_len as nat);
        assert(live[k] == (start as nat, old_len as nat));
        let ghost new_live = live.update(k, (start as nat, new_len as nat));
        proof {
            lemma_total_update(live, k, (start as nat, new_len as nat));
            lemma_total_remove(live, k);
            lemma_last_block(live, k, old_self.stack_offset as nat);
        }
        let increase: usize = new_len - old_len;
        self.bytes = self.bytes + increase;
        self.stack_offset = self.stack_offset + increase;
        self.live = Ghost(new_live);
        proof {
            assert(wiped(old_mem, mem@, (start + new_len) as int, 0));
            assert forall|a: int, b: int| 0 <= a < b < new_live.len() implies new_live[a].0
                + new_live[a].1 <= new_live[b].0 by {
                assert(live[a].0 + live[a].1 <= live[b].0);
            }
            assert forall|j: int| 0 <= j < new_live.len() implies {
                &&& (#[trigger] new_live[j]).0 % 8 == 0
                &&& new_live[j].1 % 8 == 0
                &&& new_live[j].1 > 0
                &&& new_live[j].0 + new_live[j].1 <= self.stack_offset
            } by {}
            assert forall|i: int|
                0 <= i < mem@.len() && !in_live(new_live, i) implies #[trigger] mem@[i]
                == 0 by {
                if in_block(live[k], i) {
                    assert(in_block(new_live[k], i));
                } else if in_live(live, i) {
                    lemma_in_live_update(live, k, (start as nat, new_len as nat), i);
                }
            }
        }
    }

    /// Moves the block at `start`, allocated for `old_layout`, to a fresh
    /// block for the smaller `new_layout`, copying the new size's worth of
    /// bytes and releasing the old block. Used by
    /// [`SecStackSinglePageAlloc::shrink`] where the block cannot be reused.
    pub fn realloc_shrink(&mut self, start: usize, old_layout: Layout, new_layout: Layout, mem: &mut [u8]) -> (r:
        Result<Region, AllocError>)
        requires
            old(self).wf(),
            old(self).holds(old(mem)@),
            old_layout.wf(),
            new_layout.wf(),
            new_layout.spec_size() <= old_layout.spec_size(),
            old_layout.spec_size() > 0 ==> old(self).live().contains(
                (start as nat, round8(old_layout.spec_size())),
            ),
        ensures
            final(self).wf(),
            final(self).holds(final(mem)@),
            Self::realloc_shrink_post(*old(self), *final(self), old(mem)@, final(mem)@, start as nat, old_layout, new_layout, r),
    {
        if new_layout.size() == 0 {
            self.deallocate(start, old_layout, mem);
            return Ok(Self::allocate_zerosized(new_layout.align()));
        }
        let n = new_layout.size();
        self.relocate(start, old_layout, new_layout, n, mem)
    }

    /// Moves the block at `start`, allocated for `old_layout`, to a fresh
    /// block for the larger `new_layout`, copying its bytes and releasing the
    /// old block. Used by [`SecStackSinglePageAlloc::grow`] where the block
    /// cannot be grown in place.
    pub fn realloc_grow(&mut self, start: usize, old_layout: Layout, new_layout: Layout, mem: &mut [u8]) -> (r:
        Result<Region, AllocError>)
        requires
            old(self).wf(),
            old(self).holds(old(mem)@),
            old_layout.wf(),
            new_layout.wf(),
            old_layout.spec_size() <= new_layout.spec_size(),
            old_layout.spec_size() > 0 ==> old(self).live().contains(
                (start as nat, round8(old_layout.spec_size())),
            ),
        ensures
            final(self).wf(),
            final(self).holds(final(mem)@),
            Self::realloc_grow_post(*old(self), *final(self), old(mem)@, final(mem)@, start as nat, old_layout, new_layout, r),
            Self::grown_zeroed(old_layout, final(mem)@, r),
    {
        if old_layout.size() == 0 {
            return self.allocate(new_layout, mem);
        }
        let ghost s0 = *self;
        let ghost m0 = mem@;
        let n = old_layout.size();
        let r = self.relocate(start, old_layout, new_layout, n, mem);
        proof {
            layout_facts(old_layout);
            layout_facts(new_layout);
            let ro = round8(old_layout.spec_size());
            let k = choose|k: int| 0 <= k < s0.live().len() && s0.live()[k] == (start as nat, ro);
            assert(s0.live()[k].0 + s0.live()[k].1 <= s0.spec_stack_offset());
            if new_layout.spec_align() > 8 {
                lemma_align_up(s0.spec_stack_offset(), new_layout.spec_align());
            }
            if r is Ok {
                assert forall|i: int|
                    r->Ok_0.start + ro <= i < r->Ok_0.start + r->Ok_0.len implies #[trigger] mem@[i] == 0 by {
                    s0.lemma_free_zero(m0, i);
                }
            }
        }
        r
    }

    /// Shrinks the block at `start`, allocated for `old_layout`, to
    /// `new_layout`. Where `start` already has the new alignment the block
    /// shrinks in place: the bytes given up (in multiples of 8) are wiped and
    /// the stack offset rewinds if the block was the last one. Otherwise the
    /// block moves, see [`SecStackSinglePageAlloc::realloc_shrink`].
    pub fn shrink(&mut self, start: usize, old_layout: Layout, new_layout: Layout, mem: &mut [u8]) -> (r: Result<
        Region,
        AllocError,
    >)
        requires
            old(self).wf(),
            old(self).holds(old(mem)@),
            old_layout.wf(),
            new_layout.wf(),
            new_layout.spec_size() <= old_layout.spec_size(),
            old_layout.spec_size() > 0 ==> old(self).live().contains(
                (start as nat, round8(old_layout.spec_size())),
            ),
        ensures
            final(self).wf(),
            final(self).holds(final(mem)@),
            Self::shrink_post(*old(self), *final(self), old(mem)@, final(mem)@, start as nat, old_layout, new_layout, r),
    {
        proof {
            layout_facts(old_layout);
            layout_facts(new_layout);
            lemma_round8_monotone(new_layout.spec_size(), old_layout.spec_size());
        }
        let new_align = new_layout.align();
        if new_layout.size() > 0 && is_aligned(start, new_align) && new_align <= self.page_size {
            let old_len = round_size(old_layout.size());
            let new_len = round_size(new_layout.size());
            self.shrink_in_place(start, old_len, new_len, mem);
            Ok(Region { start, len: new_len })
        } else {
            self.realloc_shrink(start, old_layout, new_layout, mem)
        }
    }

    /// Grows the block at `start`, allocated for `old_layout`, to
    /// `new_layout`. Where the block is the last one on the page and `start`
    /// already has the new alignment, it grows in place, failing if the page
    /// has no room left. Otherwise the block moves, see
    /// [`SecStackSinglePageAlloc::realloc_grow`]. The added bytes are zero.
    pub fn grow_zeroed(&mut self, start: usize, old_layout: Layout, new_layout: Layout, mem: &mut [u8]) -> (r:
        Result<Region, AllocError>)
        requires
            old(self).wf(),
            old(self).holds(old(mem)@),
            old_layout.wf(),
            new_layout.wf(),
            old_layout.spec_size() <= new_layout.spec_size(),
            old_layout.spec_size() > 0 ==> old(self).live().contains(
                (start as nat, round8(old_layout.spec_size())),
            ),
        ensures
            final(self).wf(),
            final(self).holds(final(mem)@),
            Self::grow_post(*old(self), *final(self), old(mem)@, final(mem)@, start as nat, old_layout, new_layout, r),
            Self::grown_zeroed(old_layout, final(mem)@, r),
    {
        proof {
            layout_facts(old_layout);
            layout_facts(new_layout);
            lemma_round8_monotone(old_layout.spec_size(), new_layout.spec_size());
        }
        let new_align = new_layout.align();
        let page_size = self.page_size;
        if old_layout.size() > 0 && is_aligned(start, new_align) && new_align <= page_size {
            let old_len = round_size(old_layout.size());
            if self.ptr_is_last_allocation(start, old_len) {
                let new_len = round_size(new_layout.size());
                if new_len > page_size - start {
                    return Err(AllocError);
                }
                let ghost s0 = *self;
                let ghost m0 = mem@;
                self.grow_in_place(start, old_len, new_len, mem);
                proof {
                    assert forall|i: int| start + old_len <= i < start + new_len implies #[trigger] mem@[i]
                        == 0 by {
                        s0.lemma_free_zero(m0, i);
                    }
                }
                return Ok(Region { start, len: new_len });
            }
        }
        self.realloc_grow(start, old_layout, new_layout, mem)
    }

    /// Grows the block at `start`; see
    /// [`SecStackSinglePageAlloc::grow_zeroed`]: added bytes are always zero.
    pub fn grow(&mut self, start: usize, old_layout: Layout, new_layout: Layout, mem: &mut [u8]) -> (r: Result<
        Region,
        AllocError,
    >)
        requires
            old(self).wf(),
            old(self).holds(old(mem)@),
            old_layout.wf(),
            new_layout.wf(),
            old_layout.spec_size() <= new_layout.spec_size(),
            old_layout.spec_size() > 0 ==> old(self).live().contains(
                (start as nat, round8(old_layout.spec_size())),
            ),
        ensures
            final(self).wf(),
            final(self).holds(final(mem)@),
            Self::grow_post(*old(self), *final(self), old(mem)@, final(mem)@, start as nat, old_layout, new_layout, r),
            Self::grown_zeroed(old_layout, final(mem)@, r),
    {
        self.grow_zeroed(start, old_layout, new_layout, mem)
    }
}

impl<Z: MemZeroizer + Default> SecStackSinglePageAlloc<Z> {
    /// A new allocator over a fresh page of the system's page size, wiping
    /// with the zeroizer's default value.
    pub fn new() -> (r: Result<Self, PageAllocError>)
        ensures
            r matches Ok(a) ==> a.wf() && a.spec_stack_offset() == 0 && a.spec_bytes() == 0
                && a.live().len() == 0,
            r matches Err(e) ==> e is PageSize,
    {
        Self::new_with_zeroizer(Z::default())
    }
}

} // verus!
