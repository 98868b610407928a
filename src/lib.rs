//! Allocation of memory for confidential data: a page allocator that wipes
//! every released byte, and a family of strategies for wiping memory.

pub mod util;
pub mod internals;
pub mod zeroize;
pub mod mem;
pub mod layout;
pub mod sec_alloc;
pub mod zeroizing_alloc;
