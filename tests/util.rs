use secmem_alloc::layout::Layout;
use secmem_alloc::mem::{Page, PageAllocError};
use secmem_alloc::util::{align_up_usize, is_aligned, is_power_of_two, round_up8};

/// > Freedom is the freedom to say that two plus two makes four.
///
/// Nineteen Eighty-Four, George Orwell
#[test]
fn freedom() {
    assert_ne!(2 + 2, 5);
    assert_eq!(2 + 2, 4);
}

#[test]
fn rounding_to_eight() {
    assert_eq!(round_up8(0), Some(0));
    assert_eq!(round_up8(1), Some(8));
    assert_eq!(round_up8(8), Some(8));
    assert_eq!(round_up8(9), Some(16));
    assert_eq!(round_up8(usize::MAX - 7), Some(usize::MAX - 7));
    assert_eq!(round_up8(usize::MAX), None);
}

#[test]
fn aligning_up() {
    assert_eq!(align_up_usize(24, 16), Some(32));
    assert_eq!(align_up_usize(32, 16), Some(32));
    assert_eq!(align_up_usize(0, 64), Some(0));
    assert_eq!(align_up_usize(usize::MAX, 16), None);
    assert!(is_aligned(48, 16));
    assert!(!is_aligned(40, 16));
}

#[test]
fn powers_of_two() {
    assert!(is_power_of_two(1));
    assert!(is_power_of_two(4096));
    assert!(!is_power_of_two(0));
    assert!(!is_power_of_two(12));
}

#[test]
fn layouts() {
    let l = Layout::from_size_align(13, 4).unwrap();
    assert_eq!((l.size(), l.align()), (13, 4));
    assert!(Layout::from_size_align(8, 3).is_none());
    assert!(Layout::from_size_align(8, 0).is_none());
    assert!(Layout::from_size_align(isize::MAX as usize, 1).is_some());
    assert!(Layout::from_size_align(isize::MAX as usize, 2).is_none());
}

#[test]
fn page_sizes() {
    let p = Page::alloc_new(64).expect("page");
    assert_eq!(p.page_size(), 64);
    assert!(p.as_ptr().iter().all(|b| *b == 0));
    assert_eq!(Page::alloc_new(0).err(), Some(PageAllocError::PageSize(0)));
    assert_eq!(Page::alloc_new(12).err(), Some(PageAllocError::PageSize(12)));
    let sys = Page::alloc_new(secmem_alloc::mem::page_size()).expect("page");
    assert_eq!(sys.page_size(), secmem_alloc::mem::page_size());
}

#[test]
fn page_write_through_mutable_view() {
    let mut p = Page::alloc_new(16).expect("page");
    p.as_ptr_mut()[3] = 9;
    assert_eq!(p.as_ptr()[3], 9);
}
