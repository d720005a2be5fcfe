use yerba_alloc::linked_list_allocator::LinkedListAllocator;
use yerba_alloc::policy::AllocError;

const BASE: usize = 0x10000;

#[test]
fn linked_list_allocator_alloc_chunks() {
    let mut allocator = LinkedListAllocator::new(BASE, 16);

    let chunk = allocator.allocate(16, 1);
    assert!(chunk.is_ok());
    assert_eq!(allocator.dealloc(chunk.unwrap(), 16), Ok(()));

    let one = allocator.allocate(16, 1);
    assert!(one.is_ok());

    let two = allocator.allocate(16, 1);
    assert!(two.is_ok());

    let three = allocator.allocate(16, 1);
    assert!(three.is_ok());

    assert_eq!(allocator.dealloc(three.unwrap(), 16), Ok(()));
    assert_eq!(allocator.dealloc(one.unwrap(), 16), Ok(()));
    assert_eq!(allocator.dealloc(two.unwrap(), 16), Ok(()));

    allocator.free_allocator();
}

#[test]
fn overflow() {
    let mut allocator = LinkedListAllocator::new(BASE, 16);

    let one = allocator.allocate(5000, 1);
    assert!(one.is_ok());
    assert_eq!(allocator.dealloc(one.unwrap(), 5000), Ok(()));

    let two = allocator.allocate(5000, 1);
    assert!(two.is_ok());
    assert_eq!(allocator.dealloc(two.unwrap(), 5000), Ok(()));
    allocator.free_allocator();
}

#[test]
fn linked_list_allocator_zeroed() {
    let mut allocator = LinkedListAllocator::new(BASE, 16);

    let one = allocator.alloc_zeroed(16, 1);
    assert!(one.is_ok());

    let two = allocator.alloc_zeroed(16, 1);
    assert!(two.is_ok());

    let two_sum: u8 = allocator.read(two.unwrap(), 16).unwrap().iter().sum();
    let one_sum: u8 = allocator.read(one.unwrap(), 16).unwrap().iter().sum();
    assert_eq!(two_sum, 0);
    assert_eq!(one_sum, 0);

    assert_eq!(allocator.dealloc(two.unwrap(), 16), Ok(()));
    assert_eq!(allocator.dealloc(one.unwrap(), 16), Ok(()));

    allocator.free_allocator();
}

#[test]
fn merge() {
    let mut allocator = LinkedListAllocator::new(BASE, 16);

    let one = allocator.allocate(2000, 1);
    assert!(one.is_ok());
    assert_eq!(allocator.dealloc(one.unwrap(), 2000), Ok(()));

    let two = allocator.allocate(3080, 1);
    assert!(two.is_ok());
    assert_eq!(allocator.pages(), 1);

    allocator.free_allocator();
}

#[test]
fn first_allocation_sits_behind_the_first_header() {
    let mut allocator = LinkedListAllocator::new(BASE, 1);
    assert_eq!(allocator.allocate(16, 8), Ok(BASE + 16));
    assert_eq!(allocator.number_of_blocks(), 2);
    assert_eq!(allocator.allocate(16, 32), Ok(BASE + 64));
    assert_eq!(allocator.number_of_blocks(), 3);
}

#[test]
fn unsupported_alignment_is_refused() {
    let mut allocator = LinkedListAllocator::new(BASE, 1);
    assert_eq!(allocator.allocate(16, 64), Err(AllocError::AlignmentUnsupported));
    assert_eq!(allocator.allocate(16, 3), Err(AllocError::AlignmentUnsupported));
    assert_eq!(allocator.allocate(16, 0), Err(AllocError::AlignmentUnsupported));
    assert_eq!(allocator.number_of_blocks(), 1);
}

#[test]
fn exhaustion_without_growth() {
    let mut allocator = LinkedListAllocator::new(BASE, 1);
    assert_eq!(allocator.allocate(4081, 1), Err(AllocError::OutOfMemory));
    assert_eq!(allocator.pages(), 1);
    assert_eq!(allocator.allocate(4080, 1), Ok(BASE + 16));
}

#[test]
fn exhaustion_with_growth_adds_one_page() {
    let mut allocator = LinkedListAllocator::new(BASE, 2);
    assert_eq!(allocator.allocate(4081, 1), Ok(BASE + 16));
    assert_eq!(allocator.pages(), 2);
}

#[test]
fn double_free_is_detected() {
    let mut allocator = LinkedListAllocator::new(BASE, 1);
    let one = allocator.allocate(16, 1).unwrap();
    assert_eq!(allocator.dealloc(one, 16), Ok(()));
    let blocks = allocator.number_of_blocks();
    let before = allocator.region().read(0, allocator.region().len());
    assert_eq!(allocator.dealloc(one, 16), Err(AllocError::InvariantViolation));
    assert_eq!(allocator.dealloc(BASE + 5, 16), Err(AllocError::InvariantViolation));
    assert_eq!(allocator.number_of_blocks(), blocks);
    assert_eq!(allocator.region().read(0, allocator.region().len()), before);
}

#[test]
fn round_trip_gives_the_same_address() {
    let mut allocator = LinkedListAllocator::new(BASE, 4);
    let keep = allocator.allocate(100, 4).unwrap();
    let one = allocator.allocate(48, 16).unwrap();
    assert_eq!(allocator.dealloc(one, 48), Ok(()));
    let pages = allocator.pages();
    assert_eq!(allocator.allocate(48, 16), Ok(one));
    assert_eq!(allocator.pages(), pages);
    assert_ne!(keep, one);
}

#[test]
fn linked_list_allocator_realloc() {
    let mut allocator = LinkedListAllocator::new(BASE, 16);

    let one = allocator.allocate(16, 1);
    assert!(one.is_ok());

    let two = allocator.allocate(16, 1);
    assert!(two.is_ok());

    assert_eq!(allocator.realloc(two.unwrap(), 16, 1, 32), Ok(two.unwrap()));
    assert_eq!(allocator.dealloc(one.unwrap(), 16), Ok(()));
    assert_eq!(allocator.dealloc(two.unwrap(), 32), Ok(()));

    allocator.free_allocator();
}

#[test]
fn addresses_follow_the_split_blocks() {
    let mut allocator = LinkedListAllocator::new(BASE, 1);
    assert_eq!(allocator.allocate(16, 1), Ok(BASE + 16));
    assert_eq!(allocator.allocate(16, 1), Ok(BASE + 48));
    assert_eq!(allocator.allocate(16, 1), Ok(BASE + 80));
    assert_eq!(allocator.number_of_blocks(), 4);
    assert_eq!(allocator.last_addr(), BASE + 4096);
    assert_eq!(allocator.buf_ptr(), BASE);
}

#[test]
fn a_block_without_room_for_a_header_is_not_split() {
    let mut allocator = LinkedListAllocator::new(BASE, 1);
    assert_eq!(allocator.allocate(4064, 1), Ok(BASE + 16));
    assert_eq!(allocator.number_of_blocks(), 1);
    let first = allocator.first_block();
    assert_eq!(first.size(allocator.region()), 4080);
    assert!(first.used(allocator.region()));
}

#[test]
fn a_block_with_room_for_a_header_and_a_byte_is_split() {
    let mut allocator = LinkedListAllocator::new(BASE, 1);
    assert_eq!(allocator.allocate(4063, 1), Ok(BASE + 16));
    assert_eq!(allocator.number_of_blocks(), 2);
    let first = allocator.first_block();
    assert_eq!(first.size(allocator.region()), 4063);
    let second = allocator.next_header(&first);
    assert_eq!(second.addr(), BASE + 16 + 4063);
    assert_eq!(second.size(allocator.region()), 1);
    assert!(!second.used(allocator.region()));
    assert!(allocator.next_header(&second).is_null());
}

#[test]
fn two_free_neighbours_are_merged_without_growth() {
    let mut allocator = LinkedListAllocator::new(BASE, 4);
    let a = allocator.allocate(100, 1).unwrap();
    let b = allocator.allocate(200, 1).unwrap();
    assert_eq!(a, BASE + 16);
    assert_eq!(b, BASE + 132);
    assert_eq!(allocator.dealloc(a, 100), Ok(()));
    assert_eq!(allocator.dealloc(b, 200), Ok(()));
    assert_eq!(allocator.allocate(290, 1), Ok(BASE + 16));
    assert_eq!(allocator.pages(), 1);
    assert_eq!(allocator.number_of_blocks(), 3);
    let first = allocator.first_block();
    assert_eq!(first.size(allocator.region()), 290);
    let second = allocator.next_header(&first);
    assert_eq!(second.size(allocator.region()), 10);
}

#[test]
fn the_header_taken_in_by_a_merge_is_zeroed() {
    let mut allocator = LinkedListAllocator::new(BASE, 1);
    let a = allocator.allocate(2000, 1).unwrap();
    assert_eq!(allocator.dealloc(a, 2000), Ok(()));
    assert_eq!(allocator.allocate(4065, 1), Err(AllocError::OutOfMemory));
    assert_eq!(allocator.number_of_blocks(), 2);
    assert_eq!(allocator.allocate(4064, 1), Ok(BASE + 16));
    assert_eq!(allocator.number_of_blocks(), 1);
    assert_eq!(allocator.first_block().size(allocator.region()), 4080);
    assert_eq!(allocator.region().read(2016, 16), vec![0u8; 16]);
}

#[test]
fn padding_is_recorded_and_given_back() {
    let mut allocator = LinkedListAllocator::new(BASE, 1);
    let keep = allocator.allocate(100, 4).unwrap();
    assert_eq!(keep, BASE + 16);
    let one = allocator.allocate(48, 16).unwrap();
    assert_eq!(one, BASE + 144);
    assert_eq!(one % 16, 0);
    let first = allocator.first_block();
    let second = allocator.next_header(&first);
    assert_eq!(second.addr(), BASE + 116);
    assert_eq!(second.get_offset(allocator.region()), 12);
    assert_eq!(second.size(allocator.region()), 48);
    assert_eq!(second.get_data(allocator.region()), BASE + 144);
    assert_eq!(allocator.find_ptr_block(one).addr(), BASE + 116);
    assert_eq!(allocator.dealloc(one, 48), Ok(()));
    assert_eq!(second.get_offset(allocator.region()), 0);
    assert_eq!(second.size(allocator.region()), 60);
    assert!(!second.used(allocator.region()));
    assert!(allocator.find_ptr_block(one).is_null());
}

#[test]
fn zeroed_one_byte() {
    let mut allocator = LinkedListAllocator::new(BASE, 4);
    let dirty = allocator.allocate(1, 1).unwrap();
    assert_eq!(allocator.write(dirty, &vec![0xffu8; 1]), Ok(()));
    assert_eq!(allocator.dealloc(dirty, 1), Ok(()));
    let clean = allocator.alloc_zeroed(1, 1).unwrap();
    assert_eq!(clean, dirty);
    assert_eq!(allocator.read(clean, 1), Ok(vec![0u8; 1]));
}

#[test]
fn zeroed_sixteen_bytes() {
    let mut allocator = LinkedListAllocator::new(BASE, 4);
    let dirty = allocator.allocate(16, 1).unwrap();
    assert_eq!(allocator.write(dirty, &vec![0xffu8; 16]), Ok(()));
    assert_eq!(allocator.read(dirty, 16), Ok(vec![0xffu8; 16]));
    assert_eq!(allocator.dealloc(dirty, 16), Ok(()));
    let clean = allocator.alloc_zeroed(16, 1).unwrap();
    assert_eq!(clean, dirty);
    assert_eq!(allocator.read(clean, 16), Ok(vec![0u8; 16]));
}

#[test]
fn zeroed_a_page() {
    let mut allocator = LinkedListAllocator::new(BASE, 4);
    let dirty = allocator.allocate(4096, 1).unwrap();
    assert_eq!(allocator.write(dirty, &vec![0xffu8; 4096]), Ok(()));
    assert_eq!(allocator.dealloc(dirty, 4096), Ok(()));
    let clean = allocator.alloc_zeroed(4096, 1).unwrap();
    assert_eq!(clean, dirty);
    assert_eq!(allocator.read(clean, 4096), Ok(vec![0u8; 4096]));
    assert_eq!(allocator.pages(), 2);
}

#[test]
fn realloc_grows_into_the_free_neighbour() {
    let mut allocator = LinkedListAllocator::new(BASE, 4);
    let a = allocator.allocate(16, 1).unwrap();
    let b = allocator.allocate(16, 1).unwrap();
    assert_eq!(allocator.write(a, &vec![7u8; 16]), Ok(()));
    assert_eq!(allocator.dealloc(b, 16), Ok(()));
    let beyond = allocator.region().read(64, 4096 - 64);
    assert_eq!(allocator.realloc(a, 16, 1, 32), Ok(a));
    assert_eq!(allocator.number_of_blocks(), 2);
    let first = allocator.first_block();
    assert_eq!(first.size(allocator.region()), 48);
    assert!(first.used(allocator.region()));
    let rest = allocator.next_header(&first);
    assert_eq!(rest.addr(), BASE + 64);
    assert_eq!(rest.size(allocator.region()), 4016);
    assert_eq!(allocator.region().read(64, 4096 - 64), beyond);
    assert_eq!(allocator.read(a, 16), Ok(vec![7u8; 16]));
    assert_eq!(allocator.pages(), 1);
}

#[test]
fn realloc_to_a_smaller_size_changes_nothing() {
    let mut allocator = LinkedListAllocator::new(BASE, 1);
    let a = allocator.allocate(64, 1).unwrap();
    let before = allocator.region().read(0, 4096);
    assert_eq!(allocator.realloc(a, 64, 1, 8), Ok(a));
    assert_eq!(allocator.region().read(0, 4096), before);
}

#[test]
fn realloc_moves_and_copies_where_the_neighbour_is_in_use() {
    let mut allocator = LinkedListAllocator::new(BASE, 4);
    let a = allocator.allocate(16, 1).unwrap();
    let b = allocator.allocate(16, 1).unwrap();
    let data: Vec<u8> = (1u8..=16).collect();
    assert_eq!(allocator.write(a, &data), Ok(()));
    assert_eq!(allocator.write(b, &vec![9u8; 16]), Ok(()));
    assert_eq!(allocator.realloc(a, 16, 1, 100), Ok(BASE + 80));
    assert_eq!(allocator.read(BASE + 80, 16), Ok(data));
    assert_eq!(allocator.read(b, 16), Ok(vec![9u8; 16]));
    assert_eq!(allocator.read(a, 1), Err(AllocError::InvariantViolation));
    assert_eq!(allocator.number_of_blocks(), 3);
    assert_eq!(allocator.pages(), 1);
}

#[test]
fn realloc_grows_the_region_where_no_run_has_room() {
    let mut allocator = LinkedListAllocator::new(BASE, 2);
    let a = allocator.allocate(4080, 1).unwrap();
    assert_eq!(allocator.write(a, &vec![3u8; 4080]), Ok(()));
    assert_eq!(allocator.realloc(a, 4080, 1, 5000), Ok(a));
    assert_eq!(allocator.pages(), 2);
    assert_eq!(allocator.number_of_blocks(), 1);
    assert_eq!(allocator.read(a, 4080), Ok(vec![3u8; 4080]));
    assert_eq!(allocator.first_block().size(allocator.region()), 8176);
}

#[test]
fn realloc_out_of_memory_keeps_the_block() {
    let mut allocator = LinkedListAllocator::new(BASE, 1);
    let a = allocator.allocate(4080, 1).unwrap();
    assert_eq!(allocator.write(a, &vec![3u8; 4080]), Ok(()));
    assert_eq!(allocator.realloc(a, 4080, 1, 5000), Err(AllocError::OutOfMemory));
    assert_eq!(allocator.read(a, 4080), Ok(vec![3u8; 4080]));
    assert_eq!(allocator.dealloc(a, 4080), Ok(()));
}

#[test]
fn realloc_refuses_a_foreign_pointer_and_a_bad_alignment() {
    let mut allocator = LinkedListAllocator::new(BASE, 1);
    let a = allocator.allocate(16, 1).unwrap();
    let before = allocator.region().read(0, 4096);
    assert_eq!(allocator.realloc(a + 1, 16, 1, 32), Err(AllocError::InvariantViolation));
    assert_eq!(allocator.realloc(a, 16, 5, 32), Err(AllocError::AlignmentUnsupported));
    assert_eq!(allocator.region().read(0, 4096), before);
}

#[test]
fn read_and_write_stay_inside_the_block() {
    let mut allocator = LinkedListAllocator::new(BASE, 1);
    let a = allocator.allocate(16, 1).unwrap();
    assert_eq!(allocator.write(a, &vec![1u8; 17]), Err(AllocError::InvariantViolation));
    assert_eq!(allocator.read(a, 17), Err(AllocError::InvariantViolation));
    assert_eq!(allocator.write(a + 4, &vec![1u8; 4]), Err(AllocError::InvariantViolation));
    assert_eq!(allocator.write(a, &vec![1u8; 16]), Ok(()));
    assert_eq!(allocator.read(a, 4), Ok(vec![1u8; 4]));
}

#[test]
fn growth_stops_at_the_page_limit() {
    let mut allocator = LinkedListAllocator::new(BASE, 3);
    assert_eq!(allocator.allocate(10000, 1), Err(AllocError::OutOfMemory));
    assert_eq!(allocator.pages(), 3);
    assert_eq!(allocator.max_pages(), 3);
    assert_eq!(allocator.number_of_blocks(), 3);
    assert!(allocator.request_new_page().is_err());
}

#[test]
fn a_new_page_brings_one_free_block() {
    let mut allocator = LinkedListAllocator::new(BASE, 2);
    let top = allocator.request_new_page().unwrap();
    assert_eq!(top.addr(), BASE + 4096);
    assert_eq!(top.size(allocator.region()), 4080);
    assert_eq!(top.get_offset(allocator.region()), 0);
    assert!(!top.used(allocator.region()));
    assert_eq!(allocator.number_of_blocks(), 2);
    assert_eq!(allocator.last_addr(), BASE + 8192);
}

#[test]
fn free_allocator_zeroes_every_page() {
    let mut allocator = LinkedListAllocator::new(BASE, 2);
    let a = allocator.allocate(5000, 1).unwrap();
    assert_eq!(allocator.write(a, &vec![0xaau8; 5000]), Ok(()));
    let region = allocator.free_allocator();
    assert_eq!(region.len(), 8192);
    assert_eq!(region.base(), BASE);
    assert_eq!(region.read(0, 8192), vec![0u8; 8192]);
}

#[test]
fn the_unchecked_step_follows_the_header() {
    let mut allocator = LinkedListAllocator::new(BASE, 1);
    let first = allocator.first_block();
    assert!(allocator.next_header_unchecked(&first).is_null());
    assert_eq!(allocator.allocate(16, 1), Ok(BASE + 16));
    assert_eq!(allocator.next_header_unchecked(&first).addr(), BASE + 32);
}

#[test]
fn find_empty_block_leaves_the_block_free() {
    let mut allocator = LinkedListAllocator::new(BASE, 1);
    let found = allocator.find_empty_block(16, 32).unwrap();
    assert_eq!(found.addr(), BASE);
    assert!(!found.used(allocator.region()));
    assert_eq!(found.get_offset(allocator.region()), 16);
    assert_eq!(found.size(allocator.region()), 4064);
    assert_eq!(
        allocator.find_empty_block(16, 7).map(|h| h.addr()),
        Err(AllocError::AlignmentUnsupported)
    );
}

#[test]
fn the_next_free_header_skips_the_blocks_in_use() {
    let mut allocator = LinkedListAllocator::new(BASE, 1);
    let a = allocator.allocate(16, 1).unwrap();
    let _b = allocator.allocate(16, 1).unwrap();
    let _c = allocator.allocate(4000, 1).unwrap();
    let first = allocator.first_block();
    assert!(allocator.next_empty_block(&first).is_null());
    assert_eq!(allocator.dealloc(a, 16), Ok(()));
    assert!(allocator.next_empty_block(&first).is_null());
    let d = allocator.allocate(8, 1).unwrap();
    assert_eq!(d, a);
    assert_eq!(allocator.number_of_blocks(), 3);
}

#[test]
fn the_next_free_header_is_found_behind_blocks_in_use() {
    let mut allocator = LinkedListAllocator::new(BASE, 1);
    let _a = allocator.allocate(16, 1).unwrap();
    let _b = allocator.allocate(16, 1).unwrap();
    let first = allocator.first_block();
    assert_eq!(allocator.next_empty_block(&first).addr(), BASE + 64);
}

fn spans(allocator: &LinkedListAllocator) -> (usize, usize) {
    let mut blocks = 0;
    let mut total = 0;
    let mut at = allocator.first_block();
    let mut last = 0;
    while !at.is_null() {
        assert!(at.addr() > last);
        last = at.addr();
        assert_eq!(at.addr(), allocator.buf_ptr() + total);
        total += 16 + at.get_offset(allocator.region()) as usize + at.size(allocator.region()) as usize;
        blocks += 1;
        at = allocator.next_header(&at);
    }
    (blocks, total)
}

#[test]
fn the_chain_tiles_the_region_after_every_step() {
    let mut allocator = LinkedListAllocator::new(BASE, 4);
    assert_eq!(spans(&allocator), (1, 4096));
    let a = allocator.allocate(100, 8).unwrap();
    assert_eq!(spans(&allocator), (2, 4096));
    let b = allocator.allocate(33, 32).unwrap();
    assert_eq!(spans(&allocator), (3, 4096));
    let c = allocator.allocate(5000, 2).unwrap();
    assert_eq!(spans(&allocator).1, 8192);
    assert_eq!(allocator.last_addr() - allocator.buf_ptr(), 8192);
    assert_eq!(allocator.dealloc(b, 33), Ok(()));
    assert_eq!(spans(&allocator).1, 8192);
    let d = allocator.realloc(a, 100, 8, 120).unwrap();
    assert_eq!(d, a);
    assert_eq!(spans(&allocator).1, 8192);
    let e = allocator.realloc(c, 5000, 2, 9000).unwrap();
    assert_eq!(spans(&allocator).1, 4096 * allocator.pages());
    assert_eq!(allocator.number_of_blocks(), spans(&allocator).0);
    assert_eq!(allocator.dealloc(e, 9000), Ok(()));
    assert_eq!(allocator.dealloc(d, 120), Ok(()));
    assert_eq!(spans(&allocator).1, 4096 * allocator.pages());
    assert_eq!(allocator.allocate(1 << 20, 1), Err(AllocError::OutOfMemory));
    assert_eq!(allocator.pages(), 4);
    assert_eq!(spans(&allocator).1, 4096 * 4);
}

#[test]
fn an_empty_allocation_has_an_address_of_its_own() {
    let mut allocator = LinkedListAllocator::new(BASE, 1);
    assert_eq!(allocator.allocate(0, 1), Ok(BASE + 16));
    assert_eq!(allocator.allocate(16, 1), Ok(BASE + 32));
    assert_eq!(allocator.number_of_blocks(), 3);
    assert_eq!(allocator.read(BASE + 16, 0), Ok(vec![]));
    assert_eq!(allocator.dealloc(BASE + 16, 0), Ok(()));
    assert_eq!(allocator.dealloc(BASE + 32, 16), Ok(()));
}

#[test]
fn realloc_moves_back_into_a_run_that_holds_its_own_block() {
    let mut allocator = LinkedListAllocator::new(BASE, 1);
    let a = allocator.allocate(16, 1).unwrap();
    let b = allocator.allocate(16, 1).unwrap();
    let c = allocator.allocate(4000, 1).unwrap();
    assert_eq!((a, b, c), (BASE + 16, BASE + 48, BASE + 80));
    assert_eq!(allocator.number_of_blocks(), 3);
    let data: Vec<u8> = (101u8..=116).collect();
    assert_eq!(allocator.write(b, &data), Ok(()));
    assert_eq!(allocator.write(c, &vec![5u8; 4000]), Ok(()));
    assert_eq!(allocator.dealloc(a, 16), Ok(()));
    assert_eq!(allocator.realloc(b, 16, 1, 40), Ok(a));
    assert_eq!(allocator.number_of_blocks(), 2);
    assert_eq!(allocator.first_block().size(allocator.region()), 48);
    assert_eq!(allocator.read(a, 16), Ok(data));
    assert_eq!(allocator.region().read(32, 16), vec![0u8; 16]);
    assert_eq!(allocator.read(c, 4000), Ok(vec![5u8; 4000]));
    assert_eq!(allocator.read(b, 1), Err(AllocError::InvariantViolation));
}

#[test]
fn realloc_with_another_alignment_moves_inside_the_block() {
    let mut allocator = LinkedListAllocator::new(BASE, 2);
    let a = allocator.allocate(4080, 1).unwrap();
    assert_eq!(a, BASE + 16);
    let data: Vec<u8> = (0..4080).map(|i| (i % 251) as u8).collect();
    assert_eq!(allocator.write(a, &data), Ok(()));
    assert_eq!(allocator.realloc(a, 4080, 32, 5000), Ok(BASE + 32));
    assert_eq!(allocator.pages(), 2);
    assert_eq!(allocator.number_of_blocks(), 1);
    assert_eq!(allocator.first_block().get_offset(allocator.region()), 16);
    assert_eq!(allocator.first_block().size(allocator.region()), 8160);
    assert_eq!(allocator.read(BASE + 32, 4080), Ok(data));
}

#[test]
fn realloc_in_place_keeps_the_address_whatever_the_alignment() {
    let mut allocator = LinkedListAllocator::new(BASE, 1);
    let a = allocator.allocate(4000, 1).unwrap();
    assert_eq!(a, BASE + 16);
    assert_eq!(allocator.realloc(a, 4000, 32, 4040), Ok(a));
    assert_eq!(allocator.number_of_blocks(), 1);
    assert_eq!(allocator.first_block().size(allocator.region()), 4080);
}
