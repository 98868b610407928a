use secmem_alloc::layout::Layout;
use secmem_alloc::mem::Page;
use secmem_alloc::sec_alloc::{AllocError, Region, SecStackSinglePageAlloc};
use secmem_alloc::zeroize::VolatileWrite8Zeroizer;

type A = SecStackSinglePageAlloc<VolatileWrite8Zeroizer>;

fn layout(size: usize, align: usize) -> Layout {
    Layout::from_size_align(size, align).expect("valid layout")
}

fn new_alloc() -> (A, Page) {
    let allocator: A = SecStackSinglePageAlloc::new().expect("allocator creation failed");
    let page = Page::alloc_new(allocator.page_size()).expect("page creation failed");
    (allocator, page)
}

fn page_is_zero(page: &Page) -> bool {
    page.as_ptr().iter().all(|b| *b == 0)
}

#[test]
fn create_consistency() {
    let (allocator, page) = new_alloc();
    assert!(allocator.consistency_check());
}

#[test]
fn sec_alloc_box_allocation_8b() {
    let (mut allocator, mut page) = new_alloc();
    assert!(allocator.consistency_check());
    let l = layout(8, 1);
    let r = allocator.allocate(l, page.as_ptr_mut()).unwrap();
    for i in 0..8 {
        allocator.write_byte(r.start, r.len, i, 1, page.as_ptr_mut());
    }
    assert!(allocator.consistency_check());
    allocator.deallocate(r.start, l, page.as_ptr_mut());
    assert!(allocator.consistency_check());
    assert!(page_is_zero(&page));
    assert_eq!(allocator.bytes_allocated(), 0);
}

#[test]
fn sec_alloc_box_allocation_9b() {
    let (mut allocator, mut page) = new_alloc();
    let l = layout(9, 1);
    let r = allocator.allocate(l, page.as_ptr_mut()).unwrap();
    assert_eq!(r.len, 16);
    for i in 0..9 {
        allocator.write_byte(r.start, r.len, i, 1, page.as_ptr_mut());
    }
    assert!(allocator.consistency_check());
    allocator.deallocate(r.start, l, page.as_ptr_mut());
    assert!(allocator.consistency_check());
    assert!(page_is_zero(&page));
}

#[test]
fn sec_alloc_box_allocation_zst() {
    let (mut allocator, mut page) = new_alloc();
    let l = layout(0, 1);
    let r = allocator.allocate(l, page.as_ptr_mut()).unwrap();
    assert_eq!(r, Region { start: 1, len: 0 });
    assert!(allocator.consistency_check());
    allocator.deallocate(r.start, l, page.as_ptr_mut());
    assert!(allocator.consistency_check());
    assert_eq!(allocator.stack_offset(), 0);
}

#[test]
fn multiple_box_allocations() {
    let (mut allocator, mut page) = new_alloc();
    let l = layout(9, 1);
    let a = allocator.allocate(l, page.as_ptr_mut()).unwrap();
    assert!(allocator.consistency_check());
    let b = allocator.allocate(l, page.as_ptr_mut()).unwrap();
    assert!(allocator.consistency_check());
    allocator.deallocate(b.start, l, page.as_ptr_mut());
    assert!(allocator.consistency_check());
    let b2 = allocator.allocate(l, page.as_ptr_mut()).unwrap();
    assert_eq!(b2.start, b.start);
    allocator.deallocate(b2.start, l, page.as_ptr_mut());
    allocator.deallocate(a.start, l, page.as_ptr_mut());
    assert!(allocator.consistency_check());
    assert_eq!(allocator.stack_offset(), 0);
    assert!(page_is_zero(&page));
}

#[test]
fn multiple_box_allocations_high_align() {
    let (mut allocator, mut page) = new_alloc();
    let l1 = layout(16 * 5, 16);
    let l2 = layout(16 * 9, 16);
    let l3 = layout(16 * 2, 16);
    let a = allocator.allocate(l1, page.as_ptr_mut()).unwrap();
    assert_eq!(a.start % 16, 0);
    let b = allocator.allocate(l2, page.as_ptr_mut()).unwrap();
    assert_eq!(b.start % 16, 0);
    assert!(allocator.consistency_check());
    allocator.deallocate(b.start, l2, page.as_ptr_mut());
    let c = allocator.allocate(l3, page.as_ptr_mut()).unwrap();
    assert_eq!(c.start % 16, 0);
    assert!(allocator.consistency_check());
    allocator.deallocate(c.start, l3, page.as_ptr_mut());
    allocator.deallocate(a.start, l1, page.as_ptr_mut());
    assert!(allocator.consistency_check());
    assert_eq!(allocator.stack_offset(), 0);
}

#[test]
fn multiple_box_allocations_mixed_align() {
    let (mut allocator, mut page) = new_alloc();
    let l1 = layout(17, 1);
    let l2 = layout(16 * 9, 16);
    let l3 = layout(16 * 2, 16);
    let a = allocator.allocate(l1, page.as_ptr_mut()).unwrap();
    assert_eq!(a, Region { start: 0, len: 24 });
    let b = allocator.allocate(l2, page.as_ptr_mut()).unwrap();
    assert_eq!(b.start, 32);
    assert!(allocator.consistency_check());
    allocator.deallocate(b.start, l2, page.as_ptr_mut());
    assert_eq!(allocator.stack_offset(), 32);
    let c = allocator.allocate(l3, page.as_ptr_mut()).unwrap();
    assert_eq!(c.start, 32);
    assert!(allocator.consistency_check());
    allocator.deallocate(c.start, l3, page.as_ptr_mut());
    allocator.deallocate(a.start, l1, page.as_ptr_mut());
    assert!(allocator.consistency_check());
    assert_eq!(allocator.stack_offset(), 0);
}

#[test]
fn many_box_allocations_mixed_align_nonstacked_drop() {
    let (mut allocator, mut page) = new_alloc();
    let l1 = layout(16 * 11, 16);
    let l2 = layout(16 * 51, 16);
    let l3 = layout(143, 1);
    let l4 = layout(16, 16);
    let l5 = layout(16, 16);
    let m1 = allocator.allocate(l1, page.as_ptr_mut()).unwrap();
    let m2 = allocator.allocate(l2, page.as_ptr_mut()).unwrap();
    let m3 = allocator.allocate(l3, page.as_ptr_mut()).unwrap();
    assert!(allocator.consistency_check());
    allocator.deallocate(m3.start, l3, page.as_ptr_mut());
    let m4 = allocator.allocate(l4, page.as_ptr_mut()).unwrap();
    let m5 = allocator.allocate(l5, page.as_ptr_mut()).unwrap();
    assert!(allocator.consistency_check());
    allocator.deallocate(m2.start, l2, page.as_ptr_mut());
    assert!(allocator.consistency_check());
    allocator.deallocate(m1.start, l1, page.as_ptr_mut());
    assert!(allocator.consistency_check());
    allocator.deallocate(m4.start, l4, page.as_ptr_mut());
    assert!(allocator.consistency_check());
    allocator.deallocate(m5.start, l5, page.as_ptr_mut());
    assert!(allocator.consistency_check());
    assert_eq!(allocator.bytes_allocated(), 0);
    assert_eq!(allocator.stack_offset(), 0);
    assert!(page_is_zero(&page));
    assert!(allocator.is_clear(page.as_ptr()));
}

#[test]
fn sec_alloc_vec_allocation_9b() {
    let (mut allocator, mut page) = new_alloc();
    assert!(allocator.consistency_check());
    let l = layout(9, 1);
    let r = allocator.allocate(l, page.as_ptr_mut()).unwrap();
    assert!(allocator.consistency_check());
    allocator.deallocate(r.start, l, page.as_ptr_mut());
    assert!(allocator.consistency_check());
}

#[test]
fn sec_alloc_vec_allocation_grow_repeated() {
    let (mut allocator, mut page) = new_alloc();
    assert!(allocator.consistency_check());
    let l9 = layout(9, 1);
    let r = allocator.allocate(l9, page.as_ptr_mut()).unwrap();
    assert!(allocator.consistency_check());
    // reserving 10 bytes with a capacity of 9 doubles the capacity
    let l18 = layout(18, 1);
    let g = allocator.grow(r.start, l9, l18, page.as_ptr_mut()).unwrap();
    assert_eq!(g.start, r.start);
    assert!(allocator.consistency_check());
    // reserving 17 bytes then fits
    allocator.deallocate(g.start, l18, page.as_ptr_mut());
    assert!(allocator.consistency_check());
    assert_eq!(allocator.stack_offset(), 0);
}

#[test]
fn vec_allocation_nonfinal_grow() {
    let (mut allocator, mut page) = new_alloc();
    let l9 = layout(9, 1);
    let v = allocator.allocate(l9, page.as_ptr_mut()).unwrap();
    for i in 0..9 {
        allocator.write_byte(v.start, v.len, i, 10 + i as u8, page.as_ptr_mut());
    }
    let l8 = layout(8, 8);
    let b = allocator.allocate(l8, page.as_ptr_mut()).unwrap();
    allocator.write_byte(b.start, b.len, 0, 37, page.as_ptr_mut());
    assert!(allocator.consistency_check());
    let l18 = layout(18, 1);
    let g = allocator.grow(v.start, l9, l18, page.as_ptr_mut()).unwrap();
    assert_eq!(g.start, b.start + b.len);
    for i in 0..9 {
        assert_eq!(page.as_ptr()[g.start + i], 10 + i as u8);
        assert_eq!(page.as_ptr()[v.start + i], 0);
    }
    assert!(allocator.consistency_check());
    allocator.deallocate(b.start, l8, page.as_ptr_mut());
    assert!(allocator.consistency_check());
    allocator.deallocate(g.start, l18, page.as_ptr_mut());
    assert!(allocator.consistency_check());
    assert_eq!(allocator.stack_offset(), 0);
    assert!(page_is_zero(&page));
}

#[test]
fn sec_alloc_vec_allocation_shrink() {
    let (mut allocator, mut page) = new_alloc();
    assert!(allocator.consistency_check());
    let l9 = layout(9, 1);
    let r = allocator.allocate(l9, page.as_ptr_mut()).unwrap();
    allocator.write_byte(r.start, r.len, 0, 255, page.as_ptr_mut());
    assert!(allocator.consistency_check());
    let l1 = layout(1, 1);
    let s = allocator.shrink(r.start, l9, l1, page.as_ptr_mut()).unwrap();
    assert_eq!(s, Region { start: r.start, len: 8 });
    assert_eq!(page.as_ptr()[s.start], 255);
    assert_eq!(allocator.stack_offset(), 8);
    assert!(allocator.consistency_check());
    allocator.deallocate(s.start, l1, page.as_ptr_mut());
    assert!(allocator.consistency_check());
    assert!(page_is_zero(&page));
}

#[test]
fn vec_allocation_nonfinal_shrink() {
    let (mut allocator, mut page) = new_alloc();
    let l9 = layout(9, 1);
    let v = allocator.allocate(l9, page.as_ptr_mut()).unwrap();
    let l8 = layout(8, 8);
    let b = allocator.allocate(l8, page.as_ptr_mut()).unwrap();
    allocator.write_byte(b.start, b.len, 0, 37, page.as_ptr_mut());
    allocator.write_byte(v.start, v.len, 0, 1, page.as_ptr_mut());
    allocator.write_byte(v.start, v.len, 8, 9, page.as_ptr_mut());
    let l1 = layout(1, 1);
    let s = allocator.shrink(v.start, l9, l1, page.as_ptr_mut()).unwrap();
    assert_eq!(s.start, v.start);
    assert_eq!(page.as_ptr()[s.start], 1);
    assert_eq!(page.as_ptr()[v.start + 8], 0);
    assert_eq!(allocator.bytes_allocated(), 16);
    assert_eq!(allocator.stack_offset(), 24);
    assert!(allocator.consistency_check());
    allocator.deallocate(b.start, l8, page.as_ptr_mut());
    assert!(allocator.consistency_check());
    allocator.deallocate(s.start, l1, page.as_ptr_mut());
    assert!(allocator.consistency_check());
    assert_eq!(allocator.stack_offset(), 0);
    assert!(page_is_zero(&page));
}

#[test]
fn sec_alloc_allocate_zeroed() {
    let (mut allocator, mut page) = new_alloc();
    let l = layout(16, 1);
    let r = allocator.allocate_zeroed(l, page.as_ptr_mut()).expect("allocation failed");
    for i in 0..16 {
        assert_eq!(page.as_ptr()[r.start + i], 0_u8);
    }
    allocator.deallocate(r.start, l, page.as_ptr_mut());
}

#[test]
fn stack_reuse() {
    let (mut allocator, mut page) = new_alloc();
    let l = layout(16, 8);
    let a = allocator.allocate(l, page.as_ptr_mut()).unwrap();
    let b = allocator.allocate(l, page.as_ptr_mut()).unwrap();
    allocator.deallocate(b.start, l, page.as_ptr_mut());
    let c = allocator.allocate(l, page.as_ptr_mut()).unwrap();
    assert_eq!(c.start, b.start);
    assert_eq!(a.start, 0);
    assert_eq!(b.start, 16);
    allocator.deallocate(c.start, l, page.as_ptr_mut());
    allocator.deallocate(a.start, l, page.as_ptr_mut());
    assert_eq!(allocator.stack_offset(), 0);
}

#[test]
fn fragmentation_without_stack_discipline() {
    let (mut allocator, mut page) = new_alloc();
    let l = layout(16, 8);
    let a = allocator.allocate(l, page.as_ptr_mut()).unwrap();
    let b = allocator.allocate(l, page.as_ptr_mut()).unwrap();
    allocator.deallocate(a.start, l, page.as_ptr_mut());
    assert_eq!(allocator.stack_offset(), 32);
    assert_eq!(allocator.bytes_allocated(), 16);
    let c = allocator.allocate(l, page.as_ptr_mut()).unwrap();
    assert_eq!(c.start, b.start + 16);
    allocator.deallocate(b.start, l, page.as_ptr_mut());
    assert_eq!(allocator.stack_offset(), 48);
    assert!(!allocator.is_clear(page.as_ptr()));
    allocator.deallocate(c.start, l, page.as_ptr_mut());
    assert_eq!(allocator.stack_offset(), 0);
    assert_eq!(allocator.bytes_allocated(), 0);
    assert!(page_is_zero(&page));
    assert!(allocator.is_clear(page.as_ptr()));
}

#[test]
fn capacity_exhaustion() {
    let (mut allocator, mut page) = new_alloc();
    let a = allocator.allocate(layout(24, 8), page.as_ptr_mut()).unwrap();
    let left = allocator.page_size() - allocator.stack_offset();
    let offset = allocator.stack_offset();
    let bytes = allocator.bytes_allocated();
    assert_eq!(allocator.allocate(layout(left + 1, 1), page.as_ptr_mut()), Err(AllocError));
    assert_eq!(allocator.stack_offset(), offset);
    assert_eq!(allocator.bytes_allocated(), bytes);
    // exactly the rest of the page fits
    let b = allocator.allocate(layout(left, 1), page.as_ptr_mut()).unwrap();
    assert_eq!(allocator.stack_offset(), allocator.page_size());
    assert_eq!(allocator.allocate(layout(1, 1), page.as_ptr_mut()), Err(AllocError));
    allocator.deallocate(b.start, layout(left, 1), page.as_ptr_mut());
    allocator.deallocate(a.start, layout(24, 8), page.as_ptr_mut());
    assert_eq!(allocator.stack_offset(), 0);
}

#[test]
fn alignment_larger_than_page_fails() {
    let (mut allocator, mut page) = new_alloc();
    let ps = allocator.page_size();
    assert_eq!(allocator.allocate(layout(8, ps * 2), page.as_ptr_mut()), Err(AllocError));
    assert_eq!(allocator.stack_offset(), 0);
}

#[test]
fn zero_size_allocation() {
    let (mut allocator, mut page) = new_alloc();
    let a = allocator.allocate(layout(8, 1), page.as_ptr_mut()).unwrap();
    let r = allocator.allocate(layout(0, 64), page.as_ptr_mut()).unwrap();
    assert_eq!(r, Region { start: 64, len: 0 });
    assert_eq!(allocator.stack_offset(), 8);
    assert_eq!(allocator.bytes_allocated(), 8);
    allocator.deallocate(r.start, layout(0, 64), page.as_ptr_mut());
    assert_eq!(allocator.stack_offset(), 8);
    allocator.deallocate(a.start, layout(8, 1), page.as_ptr_mut());
}

#[test]
fn grow_shrink_equivalence() {
    let (mut allocator, mut page) = new_alloc();
    let first = allocator.allocate(layout(8, 8), page.as_ptr_mut()).unwrap();
    let l_old = layout(13, 1);
    let l_new = layout(100, 1);
    let r = allocator.allocate(l_old, page.as_ptr_mut()).unwrap();
    for i in 0..13 {
        allocator.write_byte(r.start, r.len, i, 0xA0 + i as u8, page.as_ptr_mut());
    }
    let offset = allocator.stack_offset();
    let bytes = allocator.bytes_allocated();
    let g = allocator.grow(r.start, l_old, l_new, page.as_ptr_mut()).unwrap();
    assert_eq!(g, Region { start: r.start, len: 104 });
    assert_eq!(allocator.stack_offset(), r.start + 104);
    let h = allocator.shrink(g.start, l_new, l_old, page.as_ptr_mut()).unwrap();
    assert_eq!(h, r);
    assert_eq!(allocator.stack_offset(), offset);
    assert_eq!(allocator.bytes_allocated(), bytes);
    for i in 0..13 {
        assert_eq!(page.as_ptr()[r.start + i], 0xA0 + i as u8);
    }
    allocator.deallocate(h.start, l_old, page.as_ptr_mut());
    allocator.deallocate(first.start, layout(8, 8), page.as_ptr_mut());
    assert!(page_is_zero(&page));
}

#[test]
fn grow_in_place_without_room_fails() {
    let (mut allocator, mut page) = new_alloc();
    let ps = allocator.page_size();
    let l = layout(16, 8);
    let r = allocator.allocate(l, page.as_ptr_mut()).unwrap();
    assert_eq!(allocator.grow(r.start, l, layout(ps + 1, 8), page.as_ptr_mut()), Err(AllocError));
    assert_eq!(allocator.stack_offset(), 16);
    assert_eq!(allocator.bytes_allocated(), 16);
}

#[test]
fn shrink_to_zero_releases() {
    let (mut allocator, mut page) = new_alloc();
    let l = layout(24, 8);
    let r = allocator.allocate(l, page.as_ptr_mut()).unwrap();
    allocator.write_byte(r.start, r.len, 3, 7, page.as_ptr_mut());
    let s = allocator.shrink(r.start, l, layout(0, 4), page.as_ptr_mut()).unwrap();
    assert_eq!(s, Region { start: 4, len: 0 });
    assert_eq!(allocator.stack_offset(), 0);
    assert_eq!(allocator.bytes_allocated(), 0);
    assert!(page_is_zero(&page));
}

#[test]
fn shrink_to_higher_alignment_moves() {
    let (mut allocator, mut page) = new_alloc();
    let pad = allocator.allocate(layout(8, 8), page.as_ptr_mut()).unwrap();
    let l = layout(40, 8);
    let r = allocator.allocate(l, page.as_ptr_mut()).unwrap();
    assert_eq!(r.start, 8);
    allocator.write_byte(r.start, r.len, 0, 5, page.as_ptr_mut());
    let s = allocator.realloc_shrink(r.start, l, layout(32, 32), page.as_ptr_mut()).unwrap();
    assert_eq!(s, Region { start: 64, len: 32 });
    assert_eq!(page.as_ptr()[64], 5);
    assert_eq!(page.as_ptr()[8], 0);
    assert_eq!(allocator.bytes_allocated(), 40);
    let s2 = allocator.shrink(s.start, layout(32, 32), layout(16, 16), page.as_ptr_mut()).unwrap();
    assert_eq!(s2.start, 64);
    allocator.deallocate(s2.start, layout(16, 16), page.as_ptr_mut());
    allocator.deallocate(pad.start, layout(8, 8), page.as_ptr_mut());
    assert!(page_is_zero(&page));
}

#[test]
fn realloc_grow_moves_and_keeps_bytes() {
    let (mut allocator, mut page) = new_alloc();
    let l = layout(8, 8);
    let r = allocator.allocate(l, page.as_ptr_mut()).unwrap();
    allocator.write_byte(r.start, r.len, 7, 42, page.as_ptr_mut());
    let g = allocator.realloc_grow(r.start, l, layout(16, 8), page.as_ptr_mut()).unwrap();
    assert_eq!(g, Region { start: 8, len: 16 });
    assert_eq!(page.as_ptr()[15], 42);
    assert_eq!(page.as_ptr()[7], 0);
    assert_eq!(allocator.stack_offset(), 24);
    assert_eq!(allocator.bytes_allocated(), 16);
    allocator.deallocate(g.start, layout(16, 8), page.as_ptr_mut());
    assert_eq!(allocator.stack_offset(), 0);
}

#[test]
fn grow_from_zero_size_allocates() {
    let (mut allocator, mut page) = new_alloc();
    let g = allocator.grow_zeroed(8, layout(0, 8), layout(10, 8), page.as_ptr_mut()).unwrap();
    assert_eq!(g, Region { start: 0, len: 16 });
    assert_eq!(allocator.bytes_allocated(), 16);
}

#[test]
fn allocate_zerosized_uses_alignment() {
    assert_eq!(A::allocate_zerosized(32), Region { start: 32, len: 0 });
}

#[test]
fn new_with_zeroizer_starts_empty() {
    let allocator =
        SecStackSinglePageAlloc::new_with_zeroizer(VolatileWrite8Zeroizer).expect("allocator creation failed");
    assert_eq!(allocator.stack_offset(), 0);
    assert_eq!(allocator.bytes_allocated(), 0);
    assert_eq!(allocator.page_size(), secmem_alloc::mem::page_size());
}

#[test]
fn with_page_size_checks_the_size() {
    assert!(A::with_page_size(0, VolatileWrite8Zeroizer).is_err());
    assert!(A::with_page_size(12, VolatileWrite8Zeroizer).is_err());
    let mut allocator = A::with_page_size(64, VolatileWrite8Zeroizer).expect("valid size");
    let mut page = Page::alloc_new(64).expect("page");
    let l = layout(48, 8);
    let r = allocator.allocate(l, page.as_ptr_mut()).unwrap();
    assert_eq!(r, Region { start: 0, len: 48 });
    assert_eq!(allocator.allocate(layout(24, 8), page.as_ptr_mut()), Err(AllocError));
    allocator.deallocate(r.start, l, page.as_ptr_mut());
    assert!(allocator.is_clear(page.as_ptr()));
}

#[test]
fn grown_bytes_are_zero() {
    let (mut allocator, mut page) = new_alloc();
    let l8 = layout(8, 8);
    let r = allocator.allocate(l8, page.as_ptr_mut()).unwrap();
    for i in 0..8 {
        allocator.write_byte(r.start, r.len, i, 0xFF, page.as_ptr_mut());
    }
    let g = allocator.grow_zeroed(r.start, l8, layout(32, 8), page.as_ptr_mut()).unwrap();
    assert_eq!(g.start, r.start);
    assert!(page.as_ptr()[g.start..g.start + 8].iter().all(|b| *b == 0xFF));
    assert!(page.as_ptr()[g.start + 8..g.start + 32].iter().all(|b| *b == 0));
}
