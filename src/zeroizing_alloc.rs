//! An allocator wrapper that zeroizes memory on release.
//!
//! The wrapper holds a backend allocator, which does the actual allocation,
//! and a zeroizer. Before a block goes back to the backend, every byte of it
//! is wiped, so secrets do not survive a release or a move of the data.

use crate::layout::Layout;
use crate::zeroize::{DefaultMemZeroizer, MemZeroizer};
use vstd::prelude::*;

verus! {

/// Wrapper around an allocator that zeroizes memory on release.
#[derive(Debug, Default)]
pub struct ZeroizeAlloc<BackendAlloc, Z: MemZeroizer = DefaultMemZeroizer> {
    /// Allocator used for the actual allocations.
    backend_alloc: BackendAlloc,
    /// Zeroization strategy used on release.
    zeroizer: Z,
}

impl<A, Z: MemZeroizer> ZeroizeAlloc<A, Z> {
    /// The backend allocator.
    pub closed spec fn spec_backend(&self) -> A {
        self.backend_alloc
    }

    /// The zeroization strategy.
    pub closed spec fn spec_zeroizer(&self) -> Z {
        self.zeroizer
    }

    /// A zeroizing allocator using `backend_alloc` for allocations and
    /// `zeroizer` on release.
    pub fn with_zeroizer(backend_alloc: A, zeroizer: Z) -> (r: Self)
        ensures
            r.spec_backend() == backend_alloc,
            r.spec_zeroizer() == zeroizer,
    {
        ZeroizeAlloc { backend_alloc, zeroizer }
    }

    /// The backend allocator.
    pub fn backend(&self) -> (r: &A)
        ensures
            *r == self.spec_backend(),
    {
        &self.backend_alloc
    }

    /// The zeroization strategy.
    pub fn zeroizer(&self) -> (r: &Z)
        ensures
            *r == self.spec_zeroizer(),
    {
        &self.zeroizer
    }

    /// Wipes a block that is about to go back to the backend: `mem` holds
    /// its bytes, and its start has the alignment of `layout`.
    pub fn zeroize_block(&self, mem: &mut [u8], layout: Layout)
        requires
            layout.wf(),
            old(mem)@.len() == layout.spec_size(),
        ensures
            final(mem)@ == Seq::new(old(mem)@.len(), |i: int| 0u8),
    {
        proof {
            layout.lemma_wf();
        }
        let ghost orig = mem@;
        let len = layout.size();
        self.zeroizer.zeroize_mem_minaligned(mem, 0, len, layout.align());
        assert(mem@ =~= Seq::new(orig.len(), |i: int| 0u8));
    }
}

impl<A> ZeroizeAlloc<A> {
    /// A zeroizing allocator using `backend_alloc` for allocations and the
    /// default zeroizer on release.
    pub fn new(backend_alloc: A) -> (r: Self)
        ensures
            r.spec_backend() == backend_alloc,
    {
        ZeroizeAlloc { backend_alloc, zeroizer: DefaultMemZeroizer {} }
    }
}

impl<A, Z: MemZeroizer + Default> ZeroizeAlloc<A, Z> {
    /// A zeroizing allocator using `backend_alloc` for allocations and the
    /// zeroizer's default value on release.
    pub fn with_default_zeroizer(backend_alloc: A) -> (r: Self)
        ensures
            r.spec_backend() == backend_alloc,
    {
        Self::with_zeroizer(backend_alloc, Z::default())
    }
}

} // verus!
