use yerba_alloc::policy::AllocError;
use yerba_alloc::stack_allocator::{StackAllocator, BUF_SIZE};

#[test]
fn stack_allocator_alloc_chunks() {
    let mut allocator = StackAllocator::new();

    let chunk = allocator.allocate(16, 1);
    assert!(chunk.is_ok());
    assert!(allocator.is_top(chunk.unwrap(), 16));
    allocator.dealloc(chunk.unwrap(), 16);

    let one = allocator.allocate(16, 1);
    assert!(one.is_ok());

    let two = allocator.allocate(16, 1);
    assert!(two.is_ok());

    let three = allocator.allocate(16, 1);
    assert!(three.is_ok());

    assert!(allocator.is_top(three.unwrap(), 16));
    allocator.dealloc(three.unwrap(), 16);
    assert!(allocator.is_top(two.unwrap(), 16));
    allocator.dealloc(two.unwrap(), 16);
    assert!(allocator.is_top(one.unwrap(), 16));
    allocator.dealloc(one.unwrap(), 16);
}

#[test]
fn out_of_order_is_not_the_top() {
    let mut allocator = StackAllocator::new();

    let one = allocator.allocate(16, 1);
    assert!(one.is_ok());

    let two = allocator.allocate(16, 1);
    assert!(two.is_ok());

    assert!(!allocator.is_top(one.unwrap(), 16));
    assert!(allocator.is_top(two.unwrap(), 16));
    assert!(!allocator.is_top(usize::MAX, 16));
}

#[test]
fn stack_allocator_zeroed() {
    let mut allocator = StackAllocator::new();

    let one = allocator.alloc_zeroed(16, 1);
    assert!(one.is_ok());

    let two = allocator.alloc_zeroed(16, 1);
    assert!(two.is_ok());

    for i in 0..16 {
        assert_eq!(allocator.read_byte(one.unwrap() + i), Some(0));
        assert_eq!(allocator.read_byte(two.unwrap() + i), Some(0));
    }
    assert_eq!(allocator.read_byte(BUF_SIZE), None);

    allocator.dealloc(two.unwrap(), 16);
    allocator.dealloc(one.unwrap(), 16);
}

#[test]
fn stack_allocator_realloc() {
    let mut allocator = StackAllocator::new();

    let one = allocator.alloc_zeroed(16, 1);
    assert!(one.is_ok());

    let two = allocator.alloc_zeroed(16, 1);
    assert!(two.is_ok());

    assert_eq!(allocator.realloc(two.unwrap(), 16, 32), Ok(two.unwrap()));
    assert!(allocator.is_top(two.unwrap(), 32));
    allocator.dealloc(two.unwrap(), 32);
    assert!(allocator.is_top(one.unwrap(), 16));
    allocator.dealloc(one.unwrap(), 16);
}

#[test]
fn stack_addresses_are_aligned_and_stacked() {
    let mut allocator = StackAllocator::new();
    assert_eq!(allocator.allocate(3, 1), Ok(0));
    assert_eq!(allocator.allocate(8, 8), Ok(8));
    assert_eq!(allocator.allocate(1, 64), Ok(64));
    assert!(allocator.is_top(64, 1));
    assert_eq!(allocator.allocate(1, 0), Err(AllocError::AlignmentUnsupported));
}

#[test]
fn the_stack_never_reaches_its_last_byte() {
    let mut allocator = StackAllocator::new();
    assert_eq!(allocator.allocate(BUF_SIZE, 1), Err(AllocError::OutOfMemory));
    assert_eq!(allocator.allocate(BUF_SIZE - 1, 1), Ok(0));
    assert_eq!(allocator.allocate(1, 1), Err(AllocError::OutOfMemory));
    assert_eq!(allocator.realloc(0, BUF_SIZE - 1, BUF_SIZE), Err(AllocError::OutOfMemory));
    assert_eq!(allocator.realloc(0, BUF_SIZE - 1, 10), Ok(0));
    assert!(allocator.is_top(0, 10));
}
