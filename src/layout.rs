//! Size and alignment of a requested block of memory.

use crate::util::{align_up, is_pow2, is_power_of_two, align_up_usize};
use vstd::prelude::*;

verus! {

/// The size and alignment of a block of memory. The alignment is a power of
/// two, and the size rounded up to the alignment is at most `isize::MAX`.
#[derive(Debug, Clone, Copy, PartialEq, Eq, Structural)]
pub struct Layout {
    size: usize,
    align: usize,
}

/// A size and alignment a `Layout` can hold.
pub open spec fn valid_layout(size: nat, align: nat) -> bool {
    is_pow2(align) && align_up(size, align) <= isize::MAX
}

impl Layout {
    /// The size in bytes.
    pub closed spec fn spec_size(&self) -> nat {
        self.size as nat
    }

    /// The alignment in bytes.
    pub closed spec fn spec_align(&self) -> nat {
        self.align as nat
    }

    /// A `Layout` always holds a valid size and alignment.
    pub closed spec fn wf(&self) -> bool {
        valid_layout(self.size as nat, self.align as nat)
    }

    pub proof fn lemma_wf(&self)
        requires
            self.wf(),
        ensures
            valid_layout(self.spec_size(), self.spec_align()),
            self.spec_align() > 0,
            self.spec_align() <= usize::MAX,
            self.spec_size() <= isize::MAX,
    {
    }

    /// The layout of `size` bytes aligned to `align`; `None` unless `align`
    /// is a power of two and `size` rounded up to it is at most `isize::MAX`.
    pub fn from_size_align(size: usize, align: usize) -> (r: Option<Layout>)
        ensures
            r is Some <==> valid_layout(size as nat, align as nat),
            r matches Some(l) ==> l.wf() && l.spec_size() == size && l.spec_align() == align,
    {
        if !is_power_of_two(align) {
            return None;
        }
        match align_up_usize(size, align) {
            Some(v) => {
                if v <= isize::MAX as usize {
                    Some(Layout { size, align })
                } else {
                    None
                }
            },
            None => None,
        }
    }

    /// The size in bytes.
    pub fn size(&self) -> (r: usize)
        ensures
            r == self.spec_size(),
    {
        self.size
    }

    /// The alignment in bytes.
    pub fn align(&self) -> (r: usize)
        ensures
            r == self.spec_align(),
    {
        self.align
    }
}

} // verus!
