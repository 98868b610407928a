//! The size of a memory page, and a heap page of memory.

use vstd::prelude::*;

verus! {

/// Relies on `rustix::param::page_size`: the page size of the running system.
/// Its source does not bound the value, so nothing is stated of it.
#[verifier::external_body]
pub fn page_size() -> usize {
    rustix::param::page_size()
}

/// Why a page could not be acquired. Mapping and locking a page are done by
/// the operating system; their codes are its error numbers.
#[derive(Debug, Clone, PartialEq, Eq, Structural)]
pub enum PageAllocError {
    /// The page could not be mapped.
    Mmap(i32),
    /// The page could not be locked into physical memory.
    Mlock(i32),
    /// The system reported a page size that is zero or not a multiple of 8.
    PageSize(usize),
}

/// A page size this library can serve allocations from.
pub open spec fn valid_page_size(size: nat) -> bool {
    size > 0 && size % 8 == 0
}

/// A page of memory on the heap, zero-filled when acquired. It is neither
/// mapped on its own nor locked, and its start is only byte-aligned: the
/// alignments an allocator gives its blocks hold relative to the page start.
/// A page mapped and locked by the operating system serves the allocator the
/// same way, through its bytes as a slice.
pub struct Page {
    /// The bytes of the page.
    mem: Vec<u8>,
}

impl View for Page {
    type V = Seq<u8>;

    closed spec fn view(&self) -> Seq<u8> {
        self.mem@
    }
}

impl Page {
    /// A zero-filled page of `page_size` bytes; refused unless the size is a
    /// positive multiple of 8.
    pub fn alloc_new(page_size: usize) -> (r: Result<Page, PageAllocError>)
        ensures
            r is Ok <==> valid_page_size(page_size as nat),
            r matches Ok(p) ==> p@ == Seq::new(page_size as nat, |i: int| 0u8),
            r matches Err(e) ==> e == PageAllocError::PageSize(page_size),
    {
        if page_size == 0 || page_size % 8 != 0 {
            return Err(PageAllocError::PageSize(page_size));
        }
        let mem: Vec<u8> = vec![0u8; page_size];
        assert(mem@ =~= Seq::new(page_size as nat, |i: int| 0u8));
        Ok(Page { mem })
    }

    /// The size of the page in bytes.
    pub fn page_size(&self) -> (r: usize)
        ensures
            r == self@.len(),
    {
        self.mem.len()
    }

    /// The bytes of the page.
    pub fn as_ptr(&self) -> (r: &[u8])
        ensures
            r@ == self@,
    {
        self.mem.as_slice()
    }

    /// The bytes of the page, for writing.
    pub fn as_ptr_mut(&mut self) -> (r: &mut [u8])
        ensures
            r@ == old(self)@,
            final(r)@ == final(self)@,
    {
        self.mem.as_mut_slice()
    }
}

} // verus!
