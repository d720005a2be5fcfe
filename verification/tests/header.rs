use yerba_alloc::header::{Header, OFFSET_MASK, USED_BIT};
use yerba_alloc::linked_list_allocator::HeaderPtr;
use yerba_alloc::region::{Region, HEADER_SIZE};

#[test]
fn a_new_header_is_free() {
    let h = Header::new(4080, 0);
    assert_eq!(h.size(), 4080);
    assert_eq!(h.get_offset(), 0);
    assert!(!h.used());
}

#[test]
fn the_flag_is_the_highest_bit_of_the_offset_word() {
    let mut h = Header::new(10, 3);
    assert_eq!(h.offset, 3);
    h.mark_used();
    assert_eq!(h.offset, USED_BIT | 3);
    assert_eq!(USED_BIT, 1u64 << 63);
    assert_eq!(OFFSET_MASK, !USED_BIT);
    assert!(h.used());
    assert_eq!(h.get_offset(), 3);
    h.free();
    assert_eq!(h.offset, 3);
    assert!(!h.used());
}

#[test]
fn set_offset_keeps_the_flag() {
    let mut h = Header::new(10, 3);
    h.mark_used();
    h.set_offset(31);
    assert!(h.used());
    assert_eq!(h.get_offset(), 31);
    h.free();
    h.set_offset(5);
    assert!(!h.used());
    assert_eq!(h.get_offset(), 5);
}

#[test]
fn a_padding_that_reaches_the_flag_bit_loses_it() {
    let h = Header::new(1, u64::MAX);
    assert!(!h.used());
    assert_eq!(h.get_offset(), OFFSET_MASK);
    let mut g = Header::new(1, 0);
    g.set_offset(USED_BIT | 9);
    assert!(!g.used());
    assert_eq!(g.get_offset(), 9);
}

#[test]
fn the_size_word_is_plain() {
    let mut h = Header::new(10, 3);
    h.mark_used();
    h.set_size(100);
    assert_eq!(h.size(), 100);
    h.add_size(16);
    assert_eq!(h.size(), 116);
    assert!(h.used());
    assert_eq!(h.get_offset(), 3);
    h.set_used(false);
    assert_eq!(h.size(), 116);
}

#[test]
fn a_header_is_two_little_endian_words() {
    let mut region = Region::new(0x1000);
    region.extend(32);
    assert_eq!(HEADER_SIZE, 16);
    let mut h = Header::new(0x0102, 5);
    h.mark_used();
    region.store(8, h);
    assert_eq!(
        region.read(0, 32),
        vec![
            0, 0, 0, 0, 0, 0, 0, 0, 2, 1, 0, 0, 0, 0, 0, 0, 5, 0, 0, 0, 0, 0, 0, 0x80, 0, 0, 0, 0,
            0, 0, 0, 0
        ]
    );
    let back = region.load(8);
    assert_eq!(back.size(), 0x0102);
    assert_eq!(back.get_offset(), 5);
    assert!(back.used());
    assert_eq!(region.read_word(8), 0x0102);
    assert_eq!(region.read_word(16), USED_BIT | 5);
}

#[test]
fn region_bytes_are_read_and_written() {
    let mut region = Region::new(0x1000);
    assert_eq!(region.len(), 0);
    region.extend(16);
    assert_eq!(region.len(), 16);
    assert_eq!(region.base(), 0x1000);
    region.write_byte(3, 7);
    assert_eq!(region.read_byte(3), 7);
    region.write_word(8, 0x1122334455667788);
    assert_eq!(region.read(8, 8), vec![0x88, 0x77, 0x66, 0x55, 0x44, 0x33, 0x22, 0x11]);
    region.fill(0, 4, 0xee);
    assert_eq!(region.read(0, 5), vec![0xee, 0xee, 0xee, 0xee, 0]);
    region.write(1, &vec![1, 2]);
    assert_eq!(region.read(0, 4), vec![0xee, 1, 2, 0xee]);
}

#[test]
fn a_header_pointer_reads_and_writes_its_header() {
    let mut region = Region::new(0x1000);
    region.extend(64);
    let ptr = HeaderPtr::new(0x1010);
    assert!(!ptr.is_null());
    assert_eq!(ptr.addr(), 0x1010);
    ptr.set_size(&mut region, 40);
    ptr.set_offset(&mut region, 8);
    assert!(!ptr.used(&region));
    ptr.mark_used(&mut region);
    assert!(ptr.used(&region));
    assert_eq!(ptr.get_offset(&region), 8);
    assert_eq!(ptr.size(&region), 40);
    ptr.set_offset(&mut region, 4);
    assert!(ptr.used(&region));
    assert_eq!(ptr.get_offset(&region), 4);
    ptr.add_size(&mut region, 2);
    assert_eq!(ptr.size(&region), 42);
    assert_eq!(ptr.get_data(&region), 0x1010 + 16 + 4);
    ptr.free(&mut region);
    assert!(!ptr.used(&region));
    assert_eq!(ptr.get_offset(&region), 4);
    assert_eq!(region.read(0, 16), vec![0u8; 16]);
    assert_eq!(region.read(32, 32), vec![0u8; 32]);
}

#[test]
fn a_header_pointer_can_be_null_and_set() {
    let mut ptr = HeaderPtr::null();
    assert!(ptr.is_null());
    assert_eq!(ptr.addr(), 0);
    ptr.set(&HeaderPtr::new(0x2000));
    assert_eq!(ptr.addr(), 0x2000);
    assert!(!ptr.is_null());
}
