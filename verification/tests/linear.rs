use yerba_alloc::linear_allocator::{LinearAllocator, ARENA_SIZE};
use yerba_alloc::page_allocator::{is_power_of_two, YerbaAlloc};
use yerba_alloc::policy::{is_supported, padding_to, AllocError};

#[test]
fn the_arena_is_carved_from_the_top_down() {
    let mut allocator = LinearAllocator::new();
    assert_eq!(allocator.allocate(16, 1), Ok(ARENA_SIZE - 16));
    assert_eq!(allocator.allocate(10, 8), Ok(4064));
    assert_eq!(allocator.allocate(1, 64), Ok(4032));
    assert_eq!(allocator.allocate(4033, 1), Err(AllocError::OutOfMemory));
    assert_eq!(allocator.allocate(4032, 1), Ok(0));
    assert_eq!(allocator.allocate(0, 1), Ok(0));
    assert_eq!(allocator.allocate(1, 1), Err(AllocError::OutOfMemory));
}

#[test]
fn the_arena_is_given_back_as_a_whole() {
    let mut allocator = LinearAllocator::new();
    let one = allocator.allocate(100, 4).unwrap();
    assert_eq!(allocator.allocate(4000, 1), Err(AllocError::OutOfMemory));
    allocator.dealloc(one, 100);
    assert_eq!(allocator.allocate(4000, 1), Ok(96));
}

#[test]
fn the_arena_refuses_large_alignments() {
    let mut allocator = LinearAllocator::new();
    assert_eq!(allocator.allocate(1, 8192), Err(AllocError::AlignmentUnsupported));
    assert_eq!(allocator.allocate(1, 0), Err(AllocError::AlignmentUnsupported));
    assert_eq!(allocator.allocate(1, 4096), Ok(0));
}

#[test]
fn mappings_are_whole_pages() {
    let pages = YerbaAlloc::new(4096);
    assert_eq!(pages.page_size(), 4096);
    assert_eq!(pages.mapping_len(1, 1), Some(4096));
    assert_eq!(pages.mapping_len(4096, 8), Some(4096));
    assert_eq!(pages.mapping_len(4097, 8), Some(8192));
    assert_eq!(pages.mapping_len(0, 8), Some(0));
    assert_eq!(pages.mapping_len(1, 16384), Some(16384));
    assert_eq!(pages.mapping_len(1, 3), None);
    assert_eq!(pages.mapping_len(usize::MAX, 8), None);
    assert_eq!(pages.mapping_len(isize::MAX as usize - 4095, 8), Some(isize::MAX as usize - 4095));
    assert_eq!(pages.mapping_len(isize::MAX as usize - 4094, 8), None);
    assert_eq!(YerbaAlloc::new(1000).mapping_len(1, 1), None);
}

#[test]
fn powers_of_two_are_told_apart() {
    assert!(is_power_of_two(1));
    assert!(is_power_of_two(4096));
    assert!(!is_power_of_two(0));
    assert!(!is_power_of_two(12));
    assert!(is_power_of_two(1usize << 63));
    assert!(!is_power_of_two(usize::MAX));
}

#[test]
fn padding_leads_to_the_next_multiple() {
    assert_eq!(padding_to(0x10010, 8), 0);
    assert_eq!(padding_to(0x10030, 32), 16);
    assert_eq!(padding_to(7, 4), 1);
    assert_eq!(padding_to(7, 1), 0);
    assert!(is_supported(1));
    assert!(is_supported(32));
    assert!(!is_supported(64));
    assert!(!is_supported(0));
    assert!(!is_supported(24));
}
