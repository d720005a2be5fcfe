//! The free-list allocator. Its headers are inlined into the region: the
//! chain is walked by address arithmetic, free neighbours are merged where a
//! request needs it, and the region grows by a page when the chain is
//! exhausted.

use vstd::prelude::*;
use crate::chain::{
    block_at, lemma_chain_segment, lemma_linked_bounds, lemma_linked_push, lemma_linked_replace,
    lemma_linked_split, lemma_linked_total, lemma_segment_chain, lemma_spelled_kept, linked, segment,
    spelled, total_span, Block,
};
use crate::header::{Header, OFFSET_MASK};
use crate::policy::{
    accept, accepted_index, accepts, apart, data_kept, fits, fits_merged, fresh_page, grown_for,
    is_supported, join, joined, kept_outside, least, lemma_aligned, lemma_apart, lemma_data_kept,
    lemma_data_kept_above, lemma_data_kept_apart, lemma_data_kept_twice, lemma_first_accepting,
    lemma_first_run, lemma_no_run, lemma_none_accepting, live, merged, next_free, occupy, owner,
    owns, padding_to, reach, released, relocate, run_from, run_zeroed, search, seat_padding,
    seated, seated_for, supported, taken_in, zeroed, AllocError, Search, PAGE_SIZE,
};
use crate::region::{header_at, lemma_header_frame, same_bytes, Region, HEADER_SIZE};

verus! {

/// The address of a header in a region, or null.
#[derive(Clone, Copy, Debug)]
pub struct HeaderPtr {
    addr: usize,
}

impl HeaderPtr {
    /// The address that the pointer holds; 0 for null.
    pub closed spec fn addr_spec(&self) -> usize {
        self.addr
    }

    /// Whether sixteen bytes of `region` stand at the pointer's address.
    pub open spec fn within(&self, region: &Region) -> bool {
        &&& region.base_addr() <= self.addr_spec()
        &&& self.addr_spec() - region.base_addr() + HEADER_SIZE <= region@.len()
    }

    /// The place of the pointer's header in `region`.
    pub open spec fn pos(&self, region: &Region) -> int {
        self.addr_spec() - region.base_addr()
    }

    /// The header that the pointer refers to.
    pub open spec fn header(&self, region: &Region) -> Header {
        header_at(region@, self.pos(region))
    }

    /// A pointer to the header at `addr`.
    pub fn new(addr: usize) -> (p: HeaderPtr)
        requires
            addr != 0,
        ensures
            p.addr_spec() == addr,
    {
        HeaderPtr { addr }
    }

    /// The null pointer.
    pub fn null() -> (p: HeaderPtr)
        ensures
            p.addr_spec() == 0,
    {
        HeaderPtr { addr: 0 }
    }

    /// Whether the pointer is null.
    pub fn is_null(&self) -> (r: bool)
        ensures
            r == (self.addr_spec() == 0),
    {
        self.addr == 0
    }

    /// The address that the pointer holds.
    pub fn addr(&self) -> (r: usize)
        ensures
            r == self.addr_spec(),
    {
        self.addr
    }

    /// Makes the pointer refer to what `ptr` refers to.
    pub fn set(&mut self, ptr: &HeaderPtr)
        ensures
            final(self).addr_spec() == ptr.addr_spec(),
    {
        self.addr = ptr.addr;
    }

    /// The padding length of the header, with the flag bit masked off.
    pub fn get_offset(&self, region: &Region) -> (r: u64)
        requires
            self.within(region),
        ensures
            r == self.header(region).padding(),
    {
        region.load(self.addr - region.base()).get_offset()
    }

    /// Overwrites the padding length of the header and keeps its flag bit.
    pub fn set_offset(&self, region: &mut Region, offset: u64)
        requires
            self.within(old(region)),
        ensures
            final(region)@.len() == old(region)@.len(),
            final(region).base_addr() == old(region).base_addr(),
            self.header(final(region)).padding() == offset & OFFSET_MASK,
            offset <= OFFSET_MASK ==> self.header(final(region)).padding() == offset,
            self.header(final(region)).is_used() == self.header(old(region)).is_used(),
            self.header(final(region)).size == self.header(old(region)).size,
            same_bytes(final(region)@, old(region)@, 0, self.pos(old(region))),
            same_bytes(
                final(region)@,
                old(region)@,
                self.pos(old(region)) + HEADER_SIZE,
                old(region)@.len() as int,
            ),
    {
        let pos: usize = self.addr - region.base();
        let mut h = region.load(pos);
        h.set_offset(offset);
        region.store(pos, h);
    }

    /// Whether the block of the header is in use.
    pub fn used(&self, region: &Region) -> (r: bool)
        requires
            self.within(region),
        ensures
            r == self.header(region).is_used(),
    {
        region.load(self.addr - region.base()).used()
    }

    /// Clears the flag bit of the header.
    pub fn free(&self, region: &mut Region)
        requires
            self.within(old(region)),
        ensures
            final(region)@.len() == old(region)@.len(),
            final(region).base_addr() == old(region).base_addr(),
            !self.header(final(region)).is_used(),
            self.header(final(region)).padding() == self.header(old(region)).padding(),
            self.header(final(region)).size == self.header(old(region)).size,
            same_bytes(final(region)@, old(region)@, 0, self.pos(old(region))),
            same_bytes(
                final(region)@,
                old(region)@,
                self.pos(old(region)) + HEADER_SIZE,
                old(region)@.len() as int,
            ),
    {
        let pos: usize = self.addr - region.base();
        let mut h = region.load(pos);
        h.free();
        region.store(pos, h);
    }

    /// Sets the flag bit of the header.
    pub fn mark_used(&self, region: &mut Region)
        requires
            self.within(old(region)),
        ensures
            final(region)@.len() == old(region)@.len(),
            final(region).base_addr() == old(region).base_addr(),
            self.header(final(region)).is_used(),
            self.header(final(region)).padding() == self.header(old(region)).padding(),
            self.header(final(region)).size == self.header(old(region)).size,
            same_bytes(final(region)@, old(region)@, 0, self.pos(old(region))),
            same_bytes(
                final(region)@,
                old(region)@,
                self.pos(old(region)) + HEADER_SIZE,
                old(region)@.len() as int,
            ),
    {
        let pos: usize = self.addr - region.base();
        let mut h = region.load(pos);
        h.mark_used();
        region.store(pos, h);
    }

    /// The size word of the header.
    pub fn size(&self, region: &Region) -> (r: u64)
        requires
            self.within(region),
        ensures
            r == self.header(region).size,
    {
        region.load(self.addr - region.base()).size()
    }

    /// Grows the size word of the header by `delta`. A sum beyond the word
    /// wraps around.
    pub fn add_size(&self, region: &mut Region, delta: u64)
        requires
            self.within(old(region)),
        ensures
            final(region)@.len() == old(region)@.len(),
            final(region).base_addr() == old(region).base_addr(),
            self.header(old(region)).size + delta <= u64::MAX ==> self.header(final(region)).size
                == self.header(old(region)).size + delta,
            self.header(old(region)).size + delta > u64::MAX ==> self.header(final(region)).size
                == self.header(old(region)).size + delta - 0x1_0000_0000_0000_0000,
            self.header(final(region)).offset == self.header(old(region)).offset,
            same_bytes(final(region)@, old(region)@, 0, self.pos(old(region))),
            same_bytes(
                final(region)@,
                old(region)@,
                self.pos(old(region)) + HEADER_SIZE,
                old(region)@.len() as int,
            ),
    {
        let pos: usize = self.addr - region.base();
        let mut h = region.load(pos);
        h.add_size(delta);
        region.store(pos, h);
    }

    /// Overwrites the size word of the header.
    pub fn set_size(&self, region: &mut Region, size: u64)
        requires
            self.within(old(region)),
        ensures
            final(region)@.len() == old(region)@.len(),
            final(region).base_addr() == old(region).base_addr(),
            self.header(final(region)).size == size,
            self.header(final(region)).offset == self.header(old(region)).offset,
            same_bytes(final(region)@, old(region)@, 0, self.pos(old(region))),
            same_bytes(
                final(region)@,
                old(region)@,
                self.pos(old(region)) + HEADER_SIZE,
                old(region)@.len() as int,
            ),
    {
        let pos: usize = self.addr - region.base();
        let mut h = region.load(pos);
        h.set_size(size);
        region.store(pos, h);
    }

    /// The address of the data behind the header.
    pub fn get_data(&self, region: &Region) -> (r: usize)
        requires
            self.within(region),
            self.addr_spec() + HEADER_SIZE + self.header(region).padding() <= usize::MAX,
        ensures
            r == self.addr_spec() + HEADER_SIZE + self.header(region).padding(),
    {
        let offset = self.get_offset(region);
        self.addr + HEADER_SIZE + (offset as usize)
    }
}

/// The free-list allocator: the region, the number of its pages and the
/// number of pages it may grow to.
pub struct LinkedListAllocator {
    region: Region,
    pages: usize,
    max_pages: usize,
}

impl View for LinkedListAllocator {
    type V = Seq<Block>;

    /// The chain of blocks, from the region's first byte to its top.
    open spec fn view(&self) -> Seq<Block> {
        segment(self.bytes(), 0, self.top()).unwrap()
    }
}

impl LinkedListAllocator {
    /// The bytes of the region.
    pub closed spec fn bytes(&self) -> Seq<u8> {
        self.region@
    }

    /// The address of the region's first byte.
    pub closed spec fn base_addr(&self) -> int {
        self.region.base_addr() as int
    }

    /// The number of pages that the region holds.
    pub closed spec fn page_count(&self) -> int {
        self.pages as int
    }

    /// The number of pages that the region may grow to.
    pub closed spec fn page_limit(&self) -> int {
        self.max_pages as int
    }

    /// The high-water mark, counted from the region's first byte.
    pub open spec fn top(&self) -> int {
        self.bytes().len() as int
    }

    /// The pages that the region may still grow by.
    pub open spec fn spare(&self) -> nat {
        (self.page_limit() - self.page_count()) as nat
    }

    /// The invariant: the region is made of whole pages, within its limit,
    /// and the header chain tiles it exactly.
    pub open spec fn wf(&self) -> bool {
        &&& 0 < self.base_addr()
        &&& 1 <= self.page_count() <= self.page_limit()
        &&& self.base_addr() + self.page_limit() * PAGE_SIZE <= usize::MAX
        &&& self.top() == self.page_count() * PAGE_SIZE
        &&& segment(self.bytes(), 0, self.top()) is Some
    }

    /// Whether a header of the chain stands at `addr`.
    pub open spec fn is_header(&self, addr: int) -> bool {
        exists|i: int| 0 <= i < self@.len() && self.base_addr() + (#[trigger] self@[i]).start == addr
    }

    /// The index of the block whose header stands at `addr`.
    pub open spec fn index_of(&self, addr: int) -> int {
        choose|i: int| 0 <= i < self@.len() && self.base_addr() + (#[trigger] self@[i]).start == addr
    }

    /// Whether sixteen bytes of the region stand at `addr`.
    pub open spec fn holds(&self, addr: int) -> bool {
        self.base_addr() <= addr && addr - self.base_addr() + HEADER_SIZE <= self.top()
    }

    /// Where the block of the header at `addr` ends, counted from the
    /// region's first byte.
    pub open spec fn end_of(&self, addr: int) -> int {
        block_at(self.bytes(), addr - self.base_addr()).end()
    }

    /// The block that `h` describes at `pos`.
    pub open spec fn block_of(pos: int, h: Header) -> Block {
        Block { start: pos, padding: h.padding() as int, size: h.size as int, used: h.is_used() }
    }

    /// The outcome of the search for a block of `size` bytes aligned to
    /// `align` in the chain as it is.
    pub open spec fn sought(&self, size: int, align: int) -> Search {
        search(self@, self.top(), self.spare(), self.base_addr(), size, align)
    }

    /// Where the header stands that this search takes in by a merge, if the
    /// block that it hands out is a merged one.
    pub open spec fn taken(&self, size: int, align: int) -> Option<int> {
        taken_in(self@, self.top(), self.spare(), self.base_addr(), size, align)
    }

    /// The chain in which a move to `size` bytes aligned to `align` finds its
    /// run, from the chain as it is.
    pub open spec fn grown(&self, size: int, align: int) -> Seq<Block> {
        grown_for(self@, self.top(), self.spare(), self.base_addr(), size, align)
    }

    /// What the invariant says of the chain.
    pub proof fn lemma_chain(&self)
        requires
            self.wf(),
        ensures
            self@.len() > 0,
            linked(self@, 0, self.top()),
            spelled(self.bytes(), self@),
            forall|i: int|
                0 <= i < self@.len() ==> 0 <= (#[trigger] self@[i]).start && self@[i].start
                    + HEADER_SIZE <= self@[i].end() && self@[i].end() <= self.top(),
            forall|i: int, j: int|
                0 <= i < j < self@.len() ==> (#[trigger] self@[i]).end() <= (
                #[trigger] self@[j]).start,
    {
        lemma_segment_chain(self.bytes(), 0, self.top());
        lemma_linked_bounds(self@, 0, self.top());
    }

    /// The chain tiles the region: it starts at the region's first byte,
    /// its headers stand at strictly increasing addresses, and the spans of
    /// its blocks add up to the high-water mark.
    pub proof fn lemma_tiling(&self)
        requires
            self.wf(),
        ensures
            self@.len() > 0,
            self@[0].start == 0,
            forall|i: int, j: int|
                0 <= i < j < self@.len() ==> (#[trigger] self@[i]).start < (
                #[trigger] self@[j]).start,
            total_span(self@) == self.top(),
            self.top() == self.page_count() * PAGE_SIZE,
    {
        self.lemma_chain();
        lemma_linked_total(self@, 0, self.top());
        assert forall|i: int, j: int| 0 <= i < j < self@.len() implies (#[trigger] self@[i]).start
            < (#[trigger] self@[j]).start by {
            assert(self@[i].end() <= self@[j].start);
        }
    }

    /// A header of the chain stands at one index only.
    pub proof fn lemma_index_of(&self, i: int)
        requires
            self.wf(),
            0 <= i < self@.len(),
        ensures
            self.is_header(self.base_addr() + self@[i].start),
            self.index_of(self.base_addr() + self@[i].start) == i,
            self.holds(self.base_addr() + self@[i].start),
            self.end_of(self.base_addr() + self@[i].start) == self@[i].end(),
    {
        self.lemma_chain();
        let addr = self.base_addr() + self@[i].start;
        let k = self.index_of(addr);
        assert(0 <= k < self@.len() && self.base_addr() + self@[k].start == addr);
        if k < i {
            assert(self@[k].end() <= self@[i].start);
        } else if i < k {
            assert(self@[i].end() <= self@[k].start);
        }
    }

    /// A data address belongs to one block only.
    pub proof fn lemma_owner(&self, i: int, addr: int)
        requires
            self.wf(),
            owns(self@, i, self.base_addr(), addr),
        ensures
            live(self@, self.base_addr(), addr),
            owner(self@, self.base_addr(), addr) == i,
    {
        self.lemma_chain();
        let k = owner(self@, self.base_addr(), addr);
        assert(owns(self@, k, self.base_addr(), addr));
        if k < i {
            assert(self@[k].end() <= self@[i].start);
        } else if i < k {
            assert(self@[i].end() <= self@[k].start);
        }
    }

    /// An allocator over one page at `base` that may grow to `max_pages`
    /// pages. The page is one free block.
    pub fn new(base: usize, max_pages: usize) -> (a: LinkedListAllocator)
        requires
            0 < base,
            1 <= max_pages,
            base + max_pages * PAGE_SIZE <= usize::MAX,
        ensures
            a.wf(),
            a.base_addr() == base,
            a.page_count() == 1,
            a.page_limit() == max_pages,
            a@ == seq![fresh_page(0)],
            forall|j: int| HEADER_SIZE <= j < PAGE_SIZE ==> a.bytes()[j] == 0u8,
    {
        let mut region = Region::new(base);
        region.extend(PAGE_SIZE);
        region.store(0, Header::new((PAGE_SIZE - HEADER_SIZE) as u64, 0));
        proof {
            let s = seq![fresh_page(0)];
            assert(block_at(region@, 0) == s[0]);
            lemma_chain_segment(region@, s, 0, PAGE_SIZE as int);
        }
        LinkedListAllocator { region, pages: 1, max_pages }
    }

    /// The region, to read headers and data from.
    pub fn region(&self) -> (r: &Region)
        ensures
            r@ == self.bytes(),
            r.base_addr() == self.base_addr(),
    {
        &self.region
    }

    /// The number of pages that the region holds.
    pub fn pages(&self) -> (r: usize)
        ensures
            r == self.page_count(),
    {
        self.pages
    }

    /// The number of pages that the region may grow to.
    pub fn max_pages(&self) -> (r: usize)
        ensures
            r == self.page_limit(),
    {
        self.max_pages
    }

    /// The address of the region's first byte.
    pub fn buf_ptr(&self) -> (r: usize)
        ensures
            r == self.base_addr(),
    {
        self.region.base()
    }

    /// The high-water mark: the address behind the region's last byte.
    pub fn last_addr(&self) -> (r: usize)
        requires
            self.wf(),
        ensures
            r == self.base_addr() + self.top(),
    {
        self.region.base() + self.region.len()
    }

    /// The first header of the chain.
    pub fn first_block(&self) -> (r: HeaderPtr)
        requires
            self.wf(),
        ensures
            r.addr_spec() == self.base_addr(),
            self.is_header(r.addr_spec() as int),
            self.index_of(r.addr_spec() as int) == 0,
    {
        proof {
            self.lemma_chain();
            assert(self.base_addr() + self@[0].start == self.base_addr());
        }
        HeaderPtr::new(self.region.base())
    }

    /// The address behind the block of `header`, whether or not a header
    /// stands there; null where that address is at or beyond the high-water
    /// mark.
    pub fn next_header_unchecked(&self, header: &HeaderPtr) -> (r: HeaderPtr)
        requires
            self.wf(),
            self.holds(header.addr_spec() as int),
        ensures
            self.end_of(header.addr_spec() as int) < self.top() ==> r.addr_spec()
                == self.base_addr() + self.end_of(header.addr_spec() as int),
            self.end_of(header.addr_spec() as int) >= self.top() ==> r.addr_spec() == 0,
    {
        let pos: usize = header.addr() - self.region.base();
        let h = self.region.load(pos);
        let end: u128 = pos as u128 + HEADER_SIZE as u128 + h.get_offset() as u128 + h.size() as u128;
        if end >= self.region.len() as u128 {
            HeaderPtr::null()
        } else {
            HeaderPtr::new(self.region.base() + end as usize)
        }
    }

    /// The header that follows `header` in the chain; null behind the last.
    pub fn next_header(&self, header: &HeaderPtr) -> (r: HeaderPtr)
        requires
            self.wf(),
            self.is_header(header.addr_spec() as int),
        ensures
            ({
                let i = self.index_of(header.addr_spec() as int);
                if i + 1 < self@.len() {
                    &&& r.addr_spec() == self.base_addr() + self@[i + 1].start
                    &&& self.is_header(r.addr_spec() as int)
                    &&& self.index_of(r.addr_spec() as int) == i + 1
                } else {
                    r.addr_spec() == 0
                }
            }),
    {
        proof {
            let i = self.index_of(header.addr_spec() as int);
            self.lemma_chain();
            self.lemma_index_of(i);
            if i + 1 < self@.len() {
                self.lemma_index_of(i + 1);
                assert(self@[i].end() == self@[i + 1].start);
            }
        }
        self.next_header_unchecked(header)
    }

    /// The first free header behind `header` in the chain; null where none
    /// is free.
    pub fn next_empty_block(&self, header: &HeaderPtr) -> (r: HeaderPtr)
        requires
            self.wf(),
            self.is_header(header.addr_spec() as int),
        ensures
            match next_free(self@, self.index_of(header.addr_spec() as int) + 1) {
                Some(j) => {
                    &&& 0 <= j < self@.len()
                    &&& r.addr_spec() == self.base_addr() + self@[j].start
                    &&& !self@[j].used
                },
                None => r.addr_spec() == 0,
            },
    {
        let ghost i = self.index_of(header.addr_spec() as int);
        let mut next = self.next_header(header);
        let ghost mut j: int = i + 1;
        proof {
            self.lemma_chain();
        }
        loop
            invariant
                self.wf(),
                i == self.index_of(header.addr_spec() as int),
                0 <= i < j <= self@.len(),
                next_free(self@, j) == next_free(self@, i + 1),
                j < self@.len() ==> next.addr_spec() == self.base_addr() + self@[j].start,
                j == self@.len() ==> next.addr_spec() == 0,
            decreases self@.len() - j,
        {
            proof {
                self.lemma_chain();
            }
            if next.is_null() {
                return next;
            }
            proof {
                self.lemma_index_of(j);
            }
            if !next.used(&self.region) {
                return next;
            }
            next = self.next_header(&next);
            proof {
                j = j + 1;
            }
        }
    }

    /// The number of blocks in the chain.
    pub fn number_of_blocks(&self) -> (r: usize)
        requires
            self.wf(),
        ensures
            r == self@.len(),
    {
        let top: usize = self.region.len();
        let mut count: usize = 0;
        let mut pos: usize = 0;
        proof {
            self.lemma_chain();
        }
        while pos < top
            invariant
                self.wf(),
                top == self.top(),
                0 <= count <= self@.len(),
                count * HEADER_SIZE <= pos,
                pos == (if count < self@.len() {
                    self@[count as int].start
                } else {
                    self.top()
                }),
            decreases top - pos,
        {
            proof {
                self.lemma_chain();
                self.lemma_index_of(count as int);
                if count + 1 < self@.len() {
                    assert(self@[count as int].end() == self@[count + 1].start);
                }
            }
            let h = self.region.load(pos);
            pos = pos + HEADER_SIZE + h.get_offset() as usize + h.size() as usize;
            count = count + 1;
        }
        count
    }

    /// The header of the block in use whose data address is `ptr`; null
    /// where there is none.
    pub fn find_ptr_block(&self, ptr: usize) -> (r: HeaderPtr)
        requires
            self.wf(),
        ensures
            live(self@, self.base_addr(), ptr as int) ==> r.addr_spec() == self.base_addr()
                + self@[owner(self@, self.base_addr(), ptr as int)].start,
            !live(self@, self.base_addr(), ptr as int) ==> r.addr_spec() == 0,
    {
        let top: usize = self.region.len();
        let base: usize = self.region.base();
        let mut pos: usize = 0;
        let ghost mut i: int = 0;
        proof {
            self.lemma_chain();
        }
        while pos < top
            invariant
                self.wf(),
                top == self.top(),
                base == self.base_addr(),
                0 <= i <= self@.len(),
                pos == (if i < self@.len() {
                    self@[i].start
                } else {
                    self.top()
                }),
                forall|k: int| 0 <= k < i ==> !owns(self@, k, self.base_addr(), ptr as int),
            decreases top - pos,
        {
            proof {
                self.lemma_chain();
                self.lemma_index_of(i);
                if i + 1 < self@.len() {
                    assert(self@[i].end() == self@[i + 1].start);
                }
            }
            let h = self.region.load(pos);
            let data: usize = pos + HEADER_SIZE + h.get_offset() as usize;
            if h.used() && base + data == ptr {
                proof {
                    self.lemma_owner(i, ptr as int);
                }
                return HeaderPtr::new(base + pos);
            }
            pos = data + h.size() as usize;
            proof {
                i = i + 1;
            }
        }
        proof {
            assert forall|k: int| !owns(self@, k, self.base_addr(), ptr as int) by {}
        }
        HeaderPtr::null()
    }

    /// Writes `h` over the header of block `i`, which from then on governs
    /// the bytes of the blocks `i` to `j`.
    fn reseat(&mut self, pos: usize, h: Header, Ghost(i): Ghost<int>, Ghost(j): Ghost<int>)
        requires
            old(self).wf(),
            0 <= i <= j < old(self)@.len(),
            pos == old(self)@[i].start,
            pos + HEADER_SIZE + h.padding() + h.size == old(self)@[j].end(),
        ensures
            final(self).wf(),
            final(self).base_addr() == old(self).base_addr(),
            final(self).page_count() == old(self).page_count(),
            final(self).page_limit() == old(self).page_limit(),
            final(self).top() == old(self).top(),
            final(self)@ == old(self)@.subrange(0, i).push(Self::block_of(pos as int, h)) + old(
                self,
            )@.subrange(j + 1, old(self)@.len() as int),
            same_bytes(final(self).bytes(), old(self).bytes(), 0, pos as int),
            same_bytes(final(self).bytes(), old(self).bytes(), pos + HEADER_SIZE, old(self).top()),
    {
        proof {
            self.lemma_chain();
        }
        self.region.store(pos, h);
        proof {
            let s = old(self)@;
            let nb = Self::block_of(pos as int, h);
            let t = s.subrange(0, i).push(nb) + s.subrange(j + 1, s.len() as int);
            lemma_linked_replace(s, 0, self.top(), i, j, nb);
            lemma_spelled_kept(
                old(self).bytes(),
                self.bytes(),
                s,
                0,
                self.top(),
                pos as int,
                pos + HEADER_SIZE,
            );
            assert forall|k: int| 0 <= k < t.len() implies block_at(
                self.bytes(),
                (#[trigger] t[k]).start,
            ) == t[k] by {
                if k < i {
                    assert(t[k] == s[k]);
                    assert(s[k].end() <= s[i].start);
                } else if k > i {
                    assert(t[k] == s[k + (j - i)]);
                    assert(s[i].end() <= s[k + (j - i)].start);
                }
            }
            lemma_chain_segment(self.bytes(), t, 0, self.top());
        }
    }

    /// Cuts block `i` behind `size` bytes of data: the block keeps its
    /// header and padding, the rest becomes a free block of its own.
    fn cleave(&mut self, pos: usize, h: Header, size: usize, Ghost(i): Ghost<int>)
        requires
            old(self).wf(),
            0 <= i < old(self)@.len(),
            pos == old(self)@[i].start,
            h.padding() == old(self)@[i].padding,
            old(self)@[i].size > size + HEADER_SIZE,
            h.size == size,
        ensures
            final(self).wf(),
            final(self).base_addr() == old(self).base_addr(),
            final(self).page_count() == old(self).page_count(),
            final(self).page_limit() == old(self).page_limit(),
            final(self).top() == old(self).top(),
            final(self)@ == old(self)@.subrange(0, i).push(Self::block_of(pos as int, h)).push(
                Block {
                    start: old(self)@[i].data_start() + size,
                    padding: 0,
                    size: old(self)@[i].size - size - HEADER_SIZE,
                    used: false,
                },
            ) + old(self)@.subrange(i + 1, old(self)@.len() as int),
            same_bytes(final(self).bytes(), old(self).bytes(), 0, pos as int),
            same_bytes(
                final(self).bytes(),
                old(self).bytes(),
                pos + HEADER_SIZE,
                old(self)@[i].data_start() + size,
            ),
            same_bytes(
                final(self).bytes(),
                old(self).bytes(),
                old(self)@[i].data_start() + size + HEADER_SIZE,
                old(self).top(),
            ),
    {
        proof {
            self.lemma_chain();
        }
        let ghost s = self@;
        let cut: usize = pos + HEADER_SIZE + h.get_offset() as usize + size;
        let old_size: u64 = self.region.load(pos).size();
        let rest = Header::new(old_size - size as u64 - HEADER_SIZE as u64, 0);
        self.region.store(cut, rest);
        let ghost mid = self.bytes();
        self.region.store(pos, h);
        proof {
            let b1 = Self::block_of(pos as int, h);
            let b2 = Block {
                start: s[i].data_start() + size,
                padding: 0,
                size: s[i].size - size - HEADER_SIZE,
                used: false,
            };
            let t = s.subrange(0, i).push(b1).push(b2) + s.subrange(i + 1, s.len() as int);
            lemma_linked_split(s, 0, self.top(), i, b1, b2);
            lemma_spelled_kept(
                old(self).bytes(),
                self.bytes(),
                s,
                0,
                self.top(),
                pos as int,
                cut + HEADER_SIZE,
            );
            lemma_header_frame(mid, self.bytes(), cut as int);
            assert(block_at(self.bytes(), cut as int) == b2);
            assert forall|k: int| 0 <= k < t.len() implies block_at(
                self.bytes(),
                (#[trigger] t[k]).start,
            ) == t[k] by {
                if k < i {
                    assert(t[k] == s[k]);
                    assert(s[k].end() <= s[i].start);
                } else if k > i + 1 {
                    assert(t[k] == s[k - 1]);
                    assert(s[i].end() <= s[k - 1].start);
                }
            }
            lemma_chain_segment(self.bytes(), t, 0, self.top());
        }
    }

    /// Overwrites bytes of block `i` behind its header with `value`. The
    /// chain is not touched.
    fn fill_inside(&mut self, pos: usize, count: usize, value: u8, Ghost(i): Ghost<int>)
        requires
            old(self).wf(),
            0 <= i < old(self)@.len(),
            old(self)@[i].start + HEADER_SIZE <= pos,
            pos + count <= old(self)@[i].end(),
        ensures
            final(self).wf(),
            final(self).base_addr() == old(self).base_addr(),
            final(self).page_count() == old(self).page_count(),
            final(self).page_limit() == old(self).page_limit(),
            final(self).top() == old(self).top(),
            final(self)@ == old(self)@,
            same_bytes(final(self).bytes(), old(self).bytes(), 0, pos as int),
            same_bytes(final(self).bytes(), old(self).bytes(), pos + count, old(self).top()),
            forall|j: int| pos <= j < pos + count ==> final(self).bytes()[j] == value,
    {
        proof {
            self.lemma_chain();
        }
        self.region.fill(pos, count, value);
        proof {
            let s = old(self)@;
            lemma_spelled_kept(
                old(self).bytes(),
                self.bytes(),
                s,
                0,
                self.top(),
                pos as int,
                pos + count,
            );
            assert forall|k: int| 0 <= k < s.len() implies block_at(
                self.bytes(),
                (#[trigger] s[k]).start,
            ) == s[k] by {
                if k > i {
                    assert(s[i].end() <= s[k].start);
                } else if k < i {
                    assert(s[k].end() <= s[i].start);
                }
            }
            lemma_chain_segment(self.bytes(), s, 0, self.top());
        }
    }

    /// Overwrites bytes of block `i` behind its header with `data`. The
    /// chain is not touched.
    fn write_inside(&mut self, pos: usize, data: &Vec<u8>, Ghost(i): Ghost<int>)
        requires
            old(self).wf(),
            0 <= i < old(self)@.len(),
            old(self)@[i].start + HEADER_SIZE <= pos,
            pos + data@.len() <= old(self)@[i].end(),
        ensures
            final(self).wf(),
            final(self).base_addr() == old(self).base_addr(),
            final(self).page_count() == old(self).page_count(),
            final(self).page_limit() == old(self).page_limit(),
            final(self).top() == old(self).top(),
            final(self)@ == old(self)@,
            same_bytes(final(self).bytes(), old(self).bytes(), 0, pos as int),
            same_bytes(
                final(self).bytes(),
                old(self).bytes(),
                pos + data@.len(),
                old(self).top(),
            ),
            final(self).bytes().subrange(pos as int, pos + data@.len()) == data@,
    {
        proof {
            self.lemma_chain();
        }
        self.region.write(pos, data);
        proof {
            let s = old(self)@;
            lemma_spelled_kept(
                old(self).bytes(),
                self.bytes(),
                s,
                0,
                self.top(),
                pos as int,
                pos + data@.len(),
            );
            assert forall|k: int| 0 <= k < s.len() implies block_at(
                self.bytes(),
                (#[trigger] s[k]).start,
            ) == s[k] by {
                if k > i {
                    assert(s[i].end() <= s[k].start);
                } else if k < i {
                    assert(s[k].end() <= s[i].start);
                }
            }
            lemma_chain_segment(self.bytes(), s, 0, self.top());
        }
    }

    /// Adds one page at the top of the region and writes a free header that
    /// spans it. Returns the new header, or `OutOfMemory` where the region
    /// is at its limit.
    pub fn request_new_page(&mut self) -> (r: Result<HeaderPtr, AllocError>)
        requires
            old(self).wf(),
        ensures
            final(self).wf(),
            final(self).base_addr() == old(self).base_addr(),
            final(self).page_limit() == old(self).page_limit(),
            old(self).page_count() < old(self).page_limit() ==> {
                &&& r matches Ok(h)
                &&& h.addr_spec() == old(self).base_addr() + old(self).top()
                &&& final(self).page_count() == old(self).page_count() + 1
                &&& final(self)@ == old(self)@.push(fresh_page(old(self).top()))
                &&& same_bytes(final(self).bytes(), old(self).bytes(), 0, old(self).top())
                &&& forall|j: int|
                    old(self).top() + HEADER_SIZE <= j < final(self).top() ==> final(self).bytes()[j]
                        == 0u8
            },
            old(self).page_count() >= old(self).page_limit() ==> {
                &&& r == Err::<HeaderPtr, AllocError>(AllocError::OutOfMemory)
                &&& *final(self) == *old(self)
            },
    {
        if self.pages >= self.max_pages {
            return Err(AllocError::OutOfMemory);
        }
        proof {
            self.lemma_chain();
        }
        let ghost s = self@;
        let top: usize = self.region.len();
        self.region.extend(PAGE_SIZE);
        self.region.store(top, Header::new((PAGE_SIZE - HEADER_SIZE) as u64, 0));
        self.pages = self.pages + 1;
        proof {
            let nb = fresh_page(top as int);
            let t = s.push(nb);
            lemma_linked_push(s, 0, top as int, nb);
            lemma_spelled_kept(
                old(self).bytes(),
                self.bytes(),
                s,
                0,
                top as int,
                top as int,
                top as int,
            );
            assert forall|k: int| 0 <= k < t.len() implies block_at(
                self.bytes(),
                (#[trigger] t[k]).start,
            ) == t[k] by {
                if k < s.len() {
                    assert(t[k] == s[k]);
                }
            }
            lemma_chain_segment(self.bytes(), t, 0, self.top());
        }
        Ok(HeaderPtr::new(self.region.base() + top))
    }

    /// Records the padding in block `i` where it is free and fits alone.
    fn seat_alone(&mut self, pos: usize, size: usize, align: usize, Ghost(i): Ghost<int>) -> (r:
        Option<HeaderPtr>)
        requires
            old(self).wf(),
            supported(align as int),
            0 <= i < old(self)@.len(),
            pos == old(self)@[i].start,
        ensures
            final(self).wf(),
            final(self).base_addr() == old(self).base_addr(),
            final(self).page_count() == old(self).page_count(),
            final(self).page_limit() == old(self).page_limit(),
            final(self).top() == old(self).top(),
            fits(old(self)@[i], old(self).base_addr(), size as int, align as int) ==> {
                &&& r matches Some(h)
                &&& h.addr_spec() == old(self).base_addr() + pos
                &&& final(self)@ == old(self)@.update(
                    i,
                    seated(old(self)@[i], old(self).base_addr(), align as int),
                )
                &&& same_bytes(final(self).bytes(), old(self).bytes(), 0, pos as int)
                &&& same_bytes(
                    final(self).bytes(),
                    old(self).bytes(),
                    pos + HEADER_SIZE,
                    old(self).top(),
                )
            },
            !fits(old(self)@[i], old(self).base_addr(), size as int, align as int) ==> {
                &&& r is None
                &&& *final(self) == *old(self)
            },
    {
        proof {
            self.lemma_chain();
            self.lemma_index_of(i);
        }
        let base: usize = self.region.base();
        let h = self.region.load(pos);
        if h.used() {
            return None;
        }
        let room: u64 = h.get_offset() + h.size();
        let padding: usize = padding_to(base + pos + HEADER_SIZE, align);
        if room >= padding as u64 && room - padding as u64 >= size as u64 {
            let ghost before = self@;
            self.reseat(pos, Header::new(room - padding as u64, padding as u64), Ghost(i), Ghost(i));
            proof {
                assert(self@ =~= before.update(i, seated(before[i], self.base_addr(), align as int)));
            }
            return Some(HeaderPtr::new(base + pos));
        }
        None
    }

    /// Merges block `i` into block `i - 1` and records the padding there,
    /// where both are free and fit together.
    #[verifier::rlimit(40)]
    fn seat_merged(
        &mut self,
        pos: usize,
        prev: usize,
        size: usize,
        align: usize,
        Ghost(i): Ghost<int>,
    ) -> (r: Option<HeaderPtr>)
        requires
            old(self).wf(),
            supported(align as int),
            0 < i < old(self)@.len(),
            pos == old(self)@[i].start,
            prev == old(self)@[i - 1].start,
        ensures
            final(self).wf(),
            final(self).base_addr() == old(self).base_addr(),
            final(self).page_count() == old(self).page_count(),
            final(self).page_limit() == old(self).page_limit(),
            final(self).top() == old(self).top(),
            fits_merged(
                old(self)@[i - 1],
                old(self)@[i],
                old(self).base_addr(),
                size as int,
                align as int,
            ) ==> {
                &&& r matches Some(h)
                &&& h.addr_spec() == old(self).base_addr() + prev
                &&& final(self)@ == old(self)@.subrange(0, i - 1).push(
                    merged(old(self)@[i - 1], old(self)@[i], old(self).base_addr(), align as int),
                ) + old(self)@.subrange(i + 1, old(self)@.len() as int)
                &&& same_bytes(final(self).bytes(), old(self).bytes(), 0, prev as int)
                &&& same_bytes(
                    final(self).bytes(),
                    old(self).bytes(),
                    pos + HEADER_SIZE,
                    old(self).top(),
                )
                &&& zeroed(final(self).bytes(), pos as int, pos + HEADER_SIZE)
            },
            !fits_merged(
                old(self)@[i - 1],
                old(self)@[i],
                old(self).base_addr(),
                size as int,
                align as int,
            ) ==> {
                &&& r is None
                &&& *final(self) == *old(self)
            },
    {
        proof {
            self.lemma_chain();
            self.lemma_index_of(i);
            self.lemma_index_of(i - 1);
            assert(self@[i - 1].end() == self@[i].start);
        }
        let base: usize = self.region.base();
        let h = self.region.load(pos);
        let before_h = self.region.load(prev);
        if h.used() || before_h.used() {
            return None;
        }
        let room: u64 = h.get_offset() + h.size();
        let before_room: u64 = before_h.get_offset() + before_h.size();
        let before_padding: usize = padding_to(base + prev + HEADER_SIZE, align);
        if before_room + room >= before_padding as u64 && before_room + room
            - before_padding as u64 >= size as u64 {
            self.reseat(
                prev,
                Header::new(
                    before_room + HEADER_SIZE as u64 + room - before_padding as u64,
                    before_padding as u64,
                ),
                Ghost(i - 1),
                Ghost(i),
            );
            let ghost mid = self@;
            proof {
                self.lemma_chain();
                assert(mid[i - 1] == merged(
                    old(self)@[i - 1],
                    old(self)@[i],
                    old(self).base_addr(),
                    align as int,
                ));
            }
            self.fill_inside(pos, HEADER_SIZE, 0, Ghost(i - 1));
            return Some(HeaderPtr::new(base + prev));
        }
        None
    }

    /// Decides whether the search stops at block `i`, and where it does,
    /// records the padding in the block that is handed out: block `i`
    /// itself, or the block before it, merged with it.
    #[verifier::rlimit(40)]
    fn try_seat(&mut self, pos: usize, prev: usize, size: usize, align: usize, Ghost(i): Ghost<int>)
        -> (r: Option<HeaderPtr>)
        requires
            old(self).wf(),
            supported(align as int),
            0 <= i < old(self)@.len(),
            pos == old(self)@[i].start,
            i > 0 ==> prev == old(self)@[i - 1].start,
        ensures
            final(self).wf(),
            final(self).base_addr() == old(self).base_addr(),
            final(self).page_count() == old(self).page_count(),
            final(self).page_limit() == old(self).page_limit(),
            final(self).top() == old(self).top(),
            accepts(old(self)@, i, old(self).base_addr(), size as int, align as int) ==> {
                let k = accepted_index(
                    old(self)@,
                    i,
                    old(self).base_addr(),
                    size as int,
                    align as int,
                );
                &&& r matches Some(h)
                &&& h.addr_spec() == old(self).base_addr() + old(self)@[k].start
                &&& 0 <= k <= i
                &&& k < final(self)@.len()
                &&& final(self)@[k].start == old(self)@[k].start
                &&& final(self)@[k].end() == old(self)@[i].end()
                &&& seated_for(final(self)@[k], old(self).base_addr(), size as int, align as int)
                &&& final(self)@ == accept(
                    old(self)@,
                    i,
                    old(self).base_addr(),
                    size as int,
                    align as int,
                )
                &&& same_bytes(final(self).bytes(), old(self).bytes(), 0, old(self)@[k].start)
                &&& same_bytes(
                    final(self).bytes(),
                    old(self).bytes(),
                    pos + HEADER_SIZE,
                    old(self).top(),
                )
                &&& k < i ==> zeroed(final(self).bytes(), pos as int, pos + HEADER_SIZE)
            },
            !accepts(old(self)@, i, old(self).base_addr(), size as int, align as int) ==> {
                &&& r is None
                &&& *final(self) == *old(self)
            },
    {
        proof {
            self.lemma_chain();
        }
        match self.seat_alone(pos, size, align, Ghost(i)) {
            Some(found) => {
                return Some(found);
            },
            None => {},
        }
        if pos == 0 {
            return None;
        }
        proof {
            assert(i > 0);
            assert(old(self)@[i - 1].end() == old(self)@[i].start);
        }
        let r = self.seat_merged(pos, prev, size, align, Ghost(i));
        proof {
            if r is Some {
                let t = self@;
                let s = old(self)@;
                assert(t[i - 1] == merged(s[i - 1], s[i], old(self).base_addr(), align as int));
            }
        }
        r
    }

    /// Searches the chain from its first header for a block of `size` bytes
    /// aligned to `align`: the first free block that fits, or that fits once
    /// merged into a free block right before it. At the end of the chain the
    /// region grows by a page and the search goes on. The block that is
    /// found has the padding recorded and is still free.
    #[verifier::rlimit(40)]
    pub fn find_empty_block(&mut self, size: usize, align: usize) -> (r: Result<
        HeaderPtr,
        AllocError,
    >)
        requires
            old(self).wf(),
        ensures
            final(self).wf(),
            final(self).base_addr() == old(self).base_addr(),
            final(self).page_limit() == old(self).page_limit(),
            !supported(align as int) ==> {
                &&& r == Err::<HeaderPtr, AllocError>(AllocError::AlignmentUnsupported)
                &&& *final(self) == *old(self)
            },
            supported(align as int) ==> {
                let m = old(self).sought(size as int, align as int);
                &&& final(self)@ == m.chain
                &&& match m.found {
                    Some(i) => {
                        &&& r matches Ok(h)
                        &&& 0 <= i < m.chain.len()
                        &&& h.addr_spec() == final(self).base_addr() + m.chain[i].start
                        &&& seated_for(m.chain[i], final(self).base_addr(), size as int, align as int)
                        &&& apart(old(self)@, m.chain[i])
                        &&& kept_outside(
                            final(self).bytes(),
                            old(self).bytes(),
                            old(self).top(),
                            m.chain[i],
                        )
                    },
                    None => {
                        &&& r == Err::<HeaderPtr, AllocError>(AllocError::OutOfMemory)
                        &&& same_bytes(final(self).bytes(), old(self).bytes(), 0, old(self).top())
                    },
                }
                &&& match old(self).taken(size as int, align as int) {
                    Some(t) => zeroed(final(self).bytes(), t, t + HEADER_SIZE),
                    None => true,
                }
                &&& final(self).page_count() >= old(self).page_count()
                &&& data_kept(old(self)@, old(self).bytes(), final(self).bytes())
            },
    {
        if !is_supported(align) {
            return Err(AllocError::AlignmentUnsupported);
        }
        let mut pos: usize = 0;
        let mut prev: usize = 0;
        let ghost mut i: int = 0;
        let ghost target = self.sought(size as int, align as int);
        proof {
            self.lemma_chain();
        }
        loop
            invariant
                self.wf(),
                supported(align as int),
                self.base_addr() == old(self).base_addr(),
                self.page_limit() == old(self).page_limit(),
                self.page_count() >= old(self).page_count(),
                0 <= i <= self@.len(),
                pos == (if i < self@.len() {
                    self@[i].start
                } else {
                    self.top()
                }),
                i > 0 ==> prev == self@[i - 1].start,
                forall|k: int|
                    0 <= k < i ==> !accepts(self@, k, self.base_addr(), size as int, align as int),
                self.sought(size as int, align as int) == target,
                target == old(self).sought(size as int, align as int),
                self.taken(size as int, align as int) == old(self).taken(size as int, align as int),
                old(self)@.len() <= self@.len(),
                forall|k: int| 0 <= k < old(self)@.len() ==> self@[k] == old(self)@[k],
                data_kept(old(self)@, old(self).bytes(), self.bytes()),
                old(self).top() <= self.top(),
                same_bytes(self.bytes(), old(self).bytes(), 0, old(self).top()),
            decreases self.spare(), self.top() - pos,
        {
            let ghost before = self@;
            let ghost before_bytes = self.bytes();
            proof {
                self.lemma_chain();
            }
            if pos >= self.region.len() {
                proof {
                    lemma_none_accepting(before, 0, self.base_addr(), size as int, align as int);
                }
                match self.request_new_page() {
                    Err(_) => {
                        return Err(AllocError::OutOfMemory);
                    },
                    Ok(_) => {
                        proof {
                            lemma_data_kept_above(
                                old(self)@,
                                before,
                                pos as int,
                                old(self).bytes(),
                                before_bytes,
                                self.bytes(),
                            );
                            assert forall|k: int| 0 <= k < i implies !accepts(
                                self@,
                                k,
                                self.base_addr(),
                                size as int,
                                align as int,
                            ) by {
                                assert(self@[k] == before[k]);
                                if k > 0 {
                                    assert(self@[k - 1] == before[k - 1]);
                                }
                                assert(!accepts(
                                    before,
                                    k,
                                    self.base_addr(),
                                    size as int,
                                    align as int,
                                ));
                            }
                        }
                    },
                }
            } else {
                match self.try_seat(pos, prev, size, align, Ghost(i)) {
                    Some(found) => {
                        proof {
                            lemma_first_accepting(
                                before,
                                0,
                                i,
                                self.base_addr(),
                                size as int,
                                align as int,
                            );
                            let k = accepted_index(
                                before,
                                i,
                                self.base_addr(),
                                size as int,
                                align as int,
                            );
                            lemma_data_kept(
                                old(self)@,
                                before,
                                self.top(),
                                old(self).bytes(),
                                before_bytes,
                                self.bytes(),
                                k,
                                i,
                                before[k].start,
                                pos + HEADER_SIZE,
                            );
                            lemma_apart(old(self)@, before, self.top(), k, i, self@[k]);
                        }
                        return Ok(found);
                    },
                    None => {
                        proof {
                            self.lemma_index_of(i);
                            if i + 1 < self@.len() {
                                assert(self@[i].end() == self@[i + 1].start);
                            }
                        }
                        let h = self.region.load(pos);
                        prev = pos;
                        pos = pos + HEADER_SIZE + h.get_offset() as usize + h.size() as usize;
                        proof {
                            i = i + 1;
                        }
                    },
                }
            }
        }
    }

    /// Hands out `size` bytes aligned to `align`: searches a block, marks it
    /// used, and cuts off what it has beyond the request and one header.
    /// Returns the address of the data.
    pub fn allocate(&mut self, size: usize, align: usize) -> (r: Result<usize, AllocError>)
        requires
            old(self).wf(),
        ensures
            final(self).wf(),
            final(self).base_addr() == old(self).base_addr(),
            final(self).page_limit() == old(self).page_limit(),
            !supported(align as int) ==> {
                &&& r == Err::<usize, AllocError>(AllocError::AlignmentUnsupported)
                &&& *final(self) == *old(self)
            },
            supported(align as int) ==> {
                let m = old(self).sought(size as int, align as int);
                &&& match m.found {
                    Some(i) => {
                        &&& r matches Ok(addr)
                        &&& 0 <= i < m.chain.len()
                        &&& seated_for(m.chain[i], final(self).base_addr(), size as int, align as int)
                        &&& addr == final(self).base_addr() + m.chain[i].data_start()
                        &&& addr % align == 0
                        &&& addr + size <= final(self).base_addr() + final(self).top()
                        &&& final(self)@ == occupy(m.chain, i, size as int)
                        &&& owns(final(self)@, i, final(self).base_addr(), addr as int)
                        &&& final(self)@[i].size >= size
                        &&& apart(old(self)@, final(self)@[i])
                        &&& kept_outside(
                            final(self).bytes(),
                            old(self).bytes(),
                            old(self).top(),
                            m.chain[i],
                        )
                    },
                    None => {
                        &&& r == Err::<usize, AllocError>(AllocError::OutOfMemory)
                        &&& final(self)@ == m.chain
                        &&& same_bytes(final(self).bytes(), old(self).bytes(), 0, old(self).top())
                    },
                }
                &&& final(self).page_count() >= old(self).page_count()
                &&& data_kept(old(self)@, old(self).bytes(), final(self).bytes())
            },
    {
        let ghost m = self.sought(size as int, align as int);
        let found = match self.find_empty_block(size, align) {
            Ok(found) => found,
            Err(e) => {
                return Err(e);
            },
        };
        let ghost i = m.found.unwrap();
        let ghost mid = self@;
        let ghost mid_bytes = self.bytes();
        proof {
            self.lemma_chain();
            self.lemma_index_of(i);
            old(self).lemma_chain();
        }
        let base: usize = self.region.base();
        let pos: usize = found.addr() - base;
        let mut h = self.region.load(pos);
        let padding: usize = h.get_offset() as usize;
        let room: u64 = h.size();
        h.mark_used();
        if room > size as u64 && room - size as u64 > HEADER_SIZE as u64 {
            h.set_size(size as u64);
            self.cleave(pos, h, size, Ghost(i));
        } else {
            self.reseat(pos, h, Ghost(i), Ghost(i));
            proof {
                assert(self@ =~= occupy(mid, i, size as int));
            }
        }
        proof {
            lemma_data_kept_apart(
                old(self)@,
                old(self).top(),
                self.top(),
                old(self).bytes(),
                mid_bytes,
                self.bytes(),
                mid[i],
                pos as int,
                mid[i].end(),
            );
            lemma_aligned(base + pos + HEADER_SIZE, align as int);
        }
        Ok(base + pos + HEADER_SIZE + padding)
    }

    /// As `allocate`, and every byte of the data is zero.
    pub fn alloc_zeroed(&mut self, size: usize, align: usize) -> (r: Result<usize, AllocError>)
        requires
            old(self).wf(),
        ensures
            final(self).wf(),
            final(self).base_addr() == old(self).base_addr(),
            final(self).page_limit() == old(self).page_limit(),
            !supported(align as int) ==> {
                &&& r == Err::<usize, AllocError>(AllocError::AlignmentUnsupported)
                &&& *final(self) == *old(self)
            },
            supported(align as int) ==> {
                let m = old(self).sought(size as int, align as int);
                &&& match m.found {
                    Some(i) => {
                        &&& r matches Ok(addr)
                        &&& 0 <= i < m.chain.len()
                        &&& seated_for(m.chain[i], final(self).base_addr(), size as int, align as int)
                        &&& addr == final(self).base_addr() + m.chain[i].data_start()
                        &&& addr % align == 0
                        &&& final(self)@ == occupy(m.chain, i, size as int)
                        &&& owns(final(self)@, i, final(self).base_addr(), addr as int)
                        &&& final(self)@[i].size >= size
                        &&& zeroed(
                            final(self).bytes(),
                            m.chain[i].data_start(),
                            m.chain[i].data_start() + size,
                        )
                        &&& kept_outside(
                            final(self).bytes(),
                            old(self).bytes(),
                            old(self).top(),
                            m.chain[i],
                        )
                    },
                    None => {
                        &&& r == Err::<usize, AllocError>(AllocError::OutOfMemory)
                        &&& final(self)@ == m.chain
                        &&& same_bytes(final(self).bytes(), old(self).bytes(), 0, old(self).top())
                    },
                }
                &&& final(self).page_count() >= old(self).page_count()
                &&& data_kept(old(self)@, old(self).bytes(), final(self).bytes())
            },
    {
        let ghost m = self.sought(size as int, align as int);
        let addr = match self.allocate(size, align) {
            Ok(addr) => addr,
            Err(e) => {
                return Err(e);
            },
        };
        let ghost i = m.found.unwrap();
        let ghost mid = self@;
        let ghost mid_bytes = self.bytes();
        proof {
            self.lemma_chain();
            old(self).lemma_chain();
        }
        let pos: usize = addr - self.region.base();
        self.fill_inside(pos, size, 0, Ghost(i));
        proof {
            lemma_data_kept_apart(
                old(self)@,
                old(self).top(),
                self.top(),
                old(self).bytes(),
                mid_bytes,
                self.bytes(),
                mid[i],
                pos as int,
                pos + size,
            );
        }
        Ok(addr)
    }

    /// Takes back the block whose data address is `ptr`: the block is free
    /// and its padding is part of its size again. `size` is not looked at.
    /// An address that no block in use has is refused, and nothing is
    /// written.
    pub fn dealloc(&mut self, ptr: usize, size: usize) -> (r: Result<(), AllocError>)
        requires
            old(self).wf(),
        ensures
            final(self).wf(),
            final(self).base_addr() == old(self).base_addr(),
            final(self).page_limit() == old(self).page_limit(),
            final(self).page_count() == old(self).page_count(),
            live(old(self)@, old(self).base_addr(), ptr as int) ==> {
                let k = owner(old(self)@, old(self).base_addr(), ptr as int);
                &&& r == Ok::<(), AllocError>(())
                &&& final(self)@ == old(self)@.update(k, released(old(self)@[k]))
                &&& same_bytes(final(self).bytes(), old(self).bytes(), 0, old(self)@[k].start)
                &&& same_bytes(
                    final(self).bytes(),
                    old(self).bytes(),
                    old(self)@[k].start + HEADER_SIZE,
                    old(self).top(),
                )
            },
            !live(old(self)@, old(self).base_addr(), ptr as int) ==> {
                &&& r == Err::<(), AllocError>(AllocError::InvariantViolation)
                &&& *final(self) == *old(self)
            },
    {
        let block = self.find_ptr_block(ptr);
        proof {
            self.lemma_chain();
        }
        if block.is_null() {
            proof {
                if live(self@, self.base_addr(), ptr as int) {
                    let k = owner(self@, self.base_addr(), ptr as int);
                    assert(owns(self@, k, self.base_addr(), ptr as int));
                }
            }
            return Err(AllocError::InvariantViolation);
        }
        let ghost k = owner(self@, self.base_addr(), ptr as int);
        proof {
            assert(owns(self@, k, self.base_addr(), ptr as int));
        }
        let ghost before = self@;
        proof {
            self.lemma_chain();
            self.lemma_index_of(k);
        }
        let pos: usize = block.addr() - self.region.base();
        let h = self.region.load(pos);
        self.reseat(pos, Header::new(h.get_offset() + h.size(), 0), Ghost(k), Ghost(k));
        proof {
            assert(self@ =~= before.update(k, released(before[k])));
        }
        Ok(())
    }

    /// Walks the free blocks behind block `j0` until `need` bytes are
    /// gathered, `have` bytes being there already. Returns where the last
    /// block that is needed ends.
    fn gather(&self, from: usize, have: usize, need: u128, Ghost(j0): Ghost<int>) -> (r: (
        Option<usize>,
        Ghost<int>,
    ))
        requires
            self.wf(),
            0 <= j0 < self@.len(),
            from == self@[j0].end(),
            have <= from,
        ensures
            match r.0 {
                Some(end) => {
                    &&& reach(self@, j0, have as int, need as int) == Some(r.1@)
                    &&& j0 <= r.1@ < self@.len()
                    &&& end == self@[r.1@].end()
                    &&& end - from + have >= need
                    &&& forall|t: int| j0 < t <= r.1@ ==> !self@[t].used
                },
                None => reach(self@, j0, have as int, need as int) is None,
            },
    {
        let top: usize = self.region.len();
        let mut pos: usize = from;
        let mut acc: usize = have;
        let ghost mut j: int = j0;
        proof {
            self.lemma_chain();
        }
        loop
            invariant
                self.wf(),
                top == self.top(),
                0 <= j0 <= j < self@.len(),
                pos == self@[j].end(),
                pos <= top,
                acc == pos - from + have,
                have <= from,
                reach(self@, j, acc as int, need as int) == reach(
                    self@,
                    j0,
                    have as int,
                    need as int,
                ),
                forall|t: int| j0 < t <= j ==> !self@[t].used,
            decreases top - pos,
        {
            if acc as u128 >= need {
                return (Some(pos), Ghost(j));
            }
            if pos >= top {
                proof {
                    self.lemma_chain();
                    if j + 1 < self@.len() {
                        assert(self@[j].end() <= self@[j + 1].start);
                    }
                }
                return (None, Ghost(j));
            }
            proof {
                self.lemma_chain();
                if j + 1 >= self@.len() {
                    assert(self@[self@.len() - 1].end() == self.top());
                }
                assert(self@[j].end() == self@[j + 1].start);
                self.lemma_index_of(j + 1);
            }
            let h = self.region.load(pos);
            if h.used() {
                return (None, Ghost(j));
            }
            let span: usize = HEADER_SIZE + h.get_offset() as usize + h.size() as usize;
            acc = acc + span;
            pos = pos + span;
            proof {
                j = j + 1;
            }
        }
    }

    /// Makes block `a` govern the bytes of the blocks `a` to `j` under the
    /// header `h`, and zeroes the headers of the blocks that it takes in.
    #[verifier::rlimit(40)]
    fn join_run(&mut self, pos: usize, h: Header, end: usize, Ghost(a): Ghost<int>, Ghost(j): Ghost<
        int,
    >)
        requires
            old(self).wf(),
            0 <= a <= j < old(self)@.len(),
            pos == old(self)@[a].start,
            end == old(self)@[j].end(),
            pos + HEADER_SIZE + h.padding() + h.size == end,
        ensures
            final(self).wf(),
            final(self).base_addr() == old(self).base_addr(),
            final(self).page_count() == old(self).page_count(),
            final(self).page_limit() == old(self).page_limit(),
            final(self).top() == old(self).top(),
            final(self)@ == join(old(self)@, a, j, h.padding() as int, h.is_used()),
            same_bytes(final(self).bytes(), old(self).bytes(), 0, pos as int),
            same_bytes(
                final(self).bytes(),
                old(self).bytes(),
                pos + HEADER_SIZE,
                old(self)@[a].end(),
            ),
            same_bytes(final(self).bytes(), old(self).bytes(), end as int, old(self).top()),
            forall|t: int|
                a < t <= j ==> zeroed(
                    final(self).bytes(),
                    (#[trigger] old(self)@[t]).start,
                    old(self)@[t].start + HEADER_SIZE,
                ),
    {
        proof {
            self.lemma_chain();
            self.lemma_index_of(a);
        }
        let was = self.region.load(pos);
        let first: usize = pos + HEADER_SIZE + was.get_offset() as usize + was.size() as usize;
        self.reseat(pos, h, Ghost(a), Ghost(j));
        let mut q: usize = first;
        let ghost mut t: int = a + 1;
        proof {
            self.lemma_chain();
            if a < j {
                assert(old(self)@[a].end() == old(self)@[a + 1].start);
            }
        }
        while q < end
            invariant
                old(self).wf(),
                self.wf(),
                0 <= a <= j < old(self)@.len(),
                self.base_addr() == old(self).base_addr(),
                self.page_count() == old(self).page_count(),
                self.page_limit() == old(self).page_limit(),
                self.top() == old(self).top(),
                self@ == join(old(self)@, a, j, h.padding() as int, h.is_used()),
                pos == old(self)@[a].start,
                end == old(self)@[j].end(),
                first == old(self)@[a].end(),
                a + 1 <= t <= j + 1,
                q == (if t <= j {
                    old(self)@[t].start
                } else {
                    end as int
                }),
                same_bytes(self.bytes(), old(self).bytes(), 0, pos as int),
                same_bytes(self.bytes(), old(self).bytes(), pos + HEADER_SIZE, first as int),
                same_bytes(self.bytes(), old(self).bytes(), q as int, old(self).top()),
                forall|u: int|
                    a < u < t ==> zeroed(
                        self.bytes(),
                        (#[trigger] old(self)@[u]).start,
                        old(self)@[u].start + HEADER_SIZE,
                    ),
            decreases end - q,
        {
            let ghost before_bytes = self.bytes();
            proof {
                old(self).lemma_chain();
                self.lemma_chain();
                lemma_header_frame(old(self).bytes(), self.bytes(), q as int);
                if t < j {
                    assert(old(self)@[t].end() == old(self)@[t + 1].start);
                }
                assert(old(self)@[a].end() <= old(self)@[t].start);
                assert(self@[a] == joined(old(self)@, a, j, h.padding() as int, h.is_used()));
            }
            let hq = self.region.load(q);
            let next: usize = q + HEADER_SIZE + hq.get_offset() as usize + hq.size() as usize;
            self.fill_inside(q, HEADER_SIZE, 0, Ghost(a));
            proof {
                assert forall|u: int| a < u < t + 1 implies zeroed(
                    self.bytes(),
                    (#[trigger] old(self)@[u]).start,
                    old(self)@[u].start + HEADER_SIZE,
                ) by {
                    if u < t {
                        assert(old(self)@[u].end() <= old(self)@[t].start);
                        assert(zeroed(
                            before_bytes,
                            old(self)@[u].start,
                            old(self)@[u].start + HEADER_SIZE,
                        ));
                    }
                }
            }
            q = next;
            proof {
                t = t + 1;
            }
        }
    }

    /// Lets block `k`, which is in use, take in the free blocks behind it
    /// until it holds `new_size` bytes. Its data stays where it is.
    fn grow_in_place(&mut self, pos: usize, new_size: usize, Ghost(k): Ghost<int>) -> (done: bool)
        requires
            old(self).wf(),
            0 <= k < old(self)@.len(),
            pos == old(self)@[k].start,
            old(self)@[k].used,
        ensures
            final(self).wf(),
            final(self).base_addr() == old(self).base_addr(),
            final(self).page_count() == old(self).page_count(),
            final(self).page_limit() == old(self).page_limit(),
            match reach(old(self)@, k, old(self)@[k].size, new_size as int) {
                Some(j) => {
                    &&& done
                    &&& final(self)@ == join(old(self)@, k, j, old(self)@[k].padding, true)
                    &&& data_kept(old(self)@, old(self).bytes(), final(self).bytes())
                    &&& forall|t: int|
                        k < t <= j ==> zeroed(
                            final(self).bytes(),
                            (#[trigger] old(self)@[t]).start,
                            old(self)@[t].start + HEADER_SIZE,
                        )
                    &&& same_bytes(final(self).bytes(), old(self).bytes(), 0, old(self)@[k].start)
                    &&& same_bytes(
                        final(self).bytes(),
                        old(self).bytes(),
                        old(self)@[j].end(),
                        old(self).top(),
                    )
                },
                None => {
                    &&& !done
                    &&& *final(self) == *old(self)
                },
            },
    {
        proof {
            self.lemma_chain();
            self.lemma_index_of(k);
        }
        let h = self.region.load(pos);
        let padding: usize = h.get_offset() as usize;
        let from: usize = pos + HEADER_SIZE + padding + h.size() as usize;
        let (run, Ghost(j)) = self.gather(from, h.size() as usize, new_size as u128, Ghost(k));
        match run {
            Some(end) => {
                proof {
                    if k < j {
                        assert(self@[k].end() <= self@[j].start);
                    }
                }
                let mut nh = h;
                nh.set_size((end - pos - HEADER_SIZE - padding) as u64);
                self.join_run(pos, nh, end, Ghost(k), Ghost(j));
                proof {
                    let s = old(self)@;
                    assert forall|q: int| 0 <= q < s.len() && (#[trigger] s[q]).used implies same_bytes(
                        old(self).bytes(),
                        self.bytes(),
                        s[q].data_start(),
                        s[q].end(),
                    ) by {
                        if q < k {
                            assert(s[q].end() <= s[k].start);
                        } else if q > k {
                            assert(q > j);
                            assert(s[j].end() <= s[q].start);
                        }
                    }
                }
                true
            },
            None => false,
        }
    }

    /// Makes the run of free blocks from block `i` on one block in use,
    /// where the run has room for `size` bytes aligned to `align`. Returns
    /// the address of the data.
    fn try_run(&mut self, pos: usize, size: usize, align: usize, Ghost(i): Ghost<int>) -> (r:
        Option<usize>)
        requires
            old(self).wf(),
            supported(align as int),
            0 <= i < old(self)@.len(),
            pos == old(self)@[i].start,
        ensures
            final(self).wf(),
            final(self).base_addr() == old(self).base_addr(),
            final(self).page_count() == old(self).page_count(),
            final(self).page_limit() == old(self).page_limit(),
            final(self).top() == old(self).top(),
            match run_from(old(self)@, i, old(self).base_addr(), size as int, align as int) {
                Some(j) => {
                    let p = seat_padding(old(self)@[i], old(self).base_addr(), align as int);
                    &&& r matches Some(addr)
                    &&& i <= j < old(self)@.len()
                    &&& forall|t: int| i <= t <= j ==> !old(self)@[t].used
                    &&& final(self)@ == join(old(self)@, i, j, p, true)
                    &&& final(self)@[i] == joined(old(self)@, i, j, p, true)
                    &&& final(self)@[i].size >= size
                    &&& addr == final(self).base_addr() + final(self)@[i].data_start()
                    &&& addr % align == 0
                    &&& run_zeroed(final(self).bytes(), old(self)@, i, j, 0)
                    &&& same_bytes(final(self).bytes(), old(self).bytes(), 0, pos as int)
                    &&& same_bytes(
                        final(self).bytes(),
                        old(self).bytes(),
                        old(self)@[j].end(),
                        old(self).top(),
                    )
                },
                None => {
                    &&& r is None
                    &&& *final(self) == *old(self)
                },
            },
    {
        proof {
            self.lemma_chain();
            self.lemma_index_of(i);
        }
        let base: usize = self.region.base();
        let h = self.region.load(pos);
        if h.used() {
            return None;
        }
        let room: usize = h.get_offset() as usize + h.size() as usize;
        let next: usize = pos + HEADER_SIZE + room;
        let padding: usize = padding_to(base + pos + HEADER_SIZE, align);
        let (run, Ghost(j)) = self.gather(next, room, size as u128 + padding as u128, Ghost(i));
        match run {
            Some(end) => {
                proof {
                    if i < j {
                        assert(self@[i].end() <= self@[j].start);
                    }
                }
                let mut nh = Header::new(
                    (end - pos - HEADER_SIZE - padding) as u64,
                    padding as u64,
                );
                nh.mark_used();
                self.join_run(pos, nh, end, Ghost(i), Ghost(j));
                proof {
                    lemma_aligned(base + pos + HEADER_SIZE, align as int);
                }
                Some(base + pos + HEADER_SIZE + padding)
            },
            None => None,
        }
    }

    /// Searches the chain from its first header for a run of free blocks
    /// with room for `size` bytes aligned to `align`, and makes the run one
    /// block in use. At the end of the chain the region grows by a page and
    /// the search starts again. Returns the address of the data.
    #[verifier::rlimit(40)]
    fn find_run(&mut self, size: usize, align: usize) -> (r: Result<usize, AllocError>)
        requires
            old(self).wf(),
            supported(align as int),
        ensures
            final(self).wf(),
            final(self).base_addr() == old(self).base_addr(),
            final(self).page_limit() == old(self).page_limit(),
            final(self).page_count() >= old(self).page_count(),
            ({
                let m = relocate(
                    old(self)@,
                    old(self).top(),
                    old(self).spare(),
                    old(self).base_addr(),
                    size as int,
                    align as int,
                );
                &&& final(self)@ == m.chain
                &&& match m.found {
                    Some(a) => {
                        &&& r matches Ok(addr)
                        &&& 0 <= a < m.chain.len()
                        &&& addr == final(self).base_addr() + m.chain[a].data_start()
                        &&& addr % align == 0
                        &&& m.chain[a].used
                        &&& m.chain[a].size >= size
                        &&& apart(old(self)@, m.chain[a])
                        &&& run_zeroed(
                            final(self).bytes(),
                            old(self).grown(size as int, align as int),
                            a,
                            run_from(
                                old(self).grown(size as int, align as int),
                                a,
                                old(self).base_addr(),
                                size as int,
                                align as int,
                            ).unwrap(),
                            0,
                        )
                    },
                    None => {
                        &&& r == Err::<usize, AllocError>(AllocError::OutOfMemory)
                        &&& old(self)@.len() <= final(self)@.len()
                        &&& forall|q: int|
                            0 <= q < old(self)@.len() ==> final(self)@[q] == old(self)@[q]
                        &&& same_bytes(final(self).bytes(), old(self).bytes(), 0, old(self).top())
                    },
                }
            }),
            data_kept(old(self)@, old(self).bytes(), final(self).bytes()),
    {
        let base: usize = self.region.base();
        let mut pos: usize = 0;
        let ghost mut i: int = 0;
        let ghost target = relocate(
            self@,
            self.top(),
            self.spare(),
            self.base_addr(),
            size as int,
            align as int,
        );
        proof {
            self.lemma_chain();
        }
        loop
            invariant
                self.wf(),
                old(self).wf(),
                supported(align as int),
                base == self.base_addr(),
                self.base_addr() == old(self).base_addr(),
                self.page_limit() == old(self).page_limit(),
                self.page_count() >= old(self).page_count(),
                0 <= i <= self@.len(),
                pos == (if i < self@.len() {
                    self@[i].start
                } else {
                    self.top()
                }),
                forall|k: int|
                    0 <= k < i ==> run_from(self@, k, self.base_addr(), size as int, align as int)
                        is None,
                relocate(
                    self@,
                    self.top(),
                    self.spare(),
                    self.base_addr(),
                    size as int,
                    align as int,
                ) == target,
                target == relocate(
                    old(self)@,
                    old(self).top(),
                    old(self).spare(),
                    old(self).base_addr(),
                    size as int,
                    align as int,
                ),
                self.grown(size as int, align as int) == old(self).grown(size as int, align as int),
                old(self)@.len() <= self@.len(),
                forall|k: int| 0 <= k < old(self)@.len() ==> self@[k] == old(self)@[k],
                old(self).top() <= self.top(),
                same_bytes(self.bytes(), old(self).bytes(), 0, old(self).top()),
            decreases self.spare(), self.top() - pos,
        {
            let ghost before = self@;
            let ghost before_bytes = self.bytes();
            proof {
                self.lemma_chain();
                old(self).lemma_chain();
            }
            if pos >= self.region.len() {
                proof {
                    lemma_no_run(before, 0, self.base_addr(), size as int, align as int);
                }
                match self.request_new_page() {
                    Err(_) => {
                        return Err(AllocError::OutOfMemory);
                    },
                    Ok(_) => {
                        pos = 0;
                        proof {
                            i = 0;
                            self.lemma_chain();
                        }
                    },
                }
            } else {
                proof {
                    self.lemma_index_of(i);
                    if i + 1 < self@.len() {
                        assert(self@[i].end() == self@[i + 1].start);
                    }
                }
                match self.try_run(pos, size, align, Ghost(i)) {
                    Some(addr) => {
                        proof {
                            let j = run_from(
                                before,
                                i,
                                self.base_addr(),
                                size as int,
                                align as int,
                            ).unwrap();
                            lemma_first_run(
                                before,
                                0,
                                i,
                                self.base_addr(),
                                size as int,
                                align as int,
                            );
                            lemma_apart(old(self)@, before, self.top(), i, j, self@[i]);
                            lemma_data_kept_above(
                                old(self)@,
                                old(self)@,
                                old(self).top(),
                                old(self).bytes(),
                                old(self).bytes(),
                                before_bytes,
                            );
                            lemma_data_kept(
                                old(self)@,
                                before,
                                self.top(),
                                old(self).bytes(),
                                before_bytes,
                                self.bytes(),
                                i,
                                j,
                                pos as int,
                                before[j].end(),
                            );
                        }
                        return Ok(addr);
                    },
                    None => {},
                }
                let h = self.region.load(pos);
                let next: usize = pos + HEADER_SIZE + h.get_offset() as usize + h.size() as usize;
                pos = next;
                proof {
                    i = i + 1;
                }
            }
        }
    }

    /// Moves the occupant of block `k` to a run of free blocks with room
    /// for `new_size` bytes aligned to `align`, block `k` counting as free.
    /// The first `count` bytes of the data go along. Where no run is found,
    /// block `k` stays as it was.
    #[verifier::rlimit(40)]
    fn move_block(
        &mut self,
        pos: usize,
        count: usize,
        align: usize,
        new_size: usize,
        Ghost(k): Ghost<int>,
    ) -> (r: Result<usize, AllocError>)
        requires
            old(self).wf(),
            supported(align as int),
            0 <= k < old(self)@.len(),
            pos == old(self)@[k].start,
            old(self)@[k].used,
            count <= old(self)@[k].size,
            count <= new_size,
        ensures
            final(self).wf(),
            final(self).base_addr() == old(self).base_addr(),
            final(self).page_limit() == old(self).page_limit(),
            final(self).page_count() >= old(self).page_count(),
            ({
                let b = old(self)@[k];
                let freed = old(self)@.update(k, released(b));
                let m = relocate(
                    freed,
                    old(self).top(),
                    old(self).spare(),
                    old(self).base_addr(),
                    new_size as int,
                    align as int,
                );
                let g = grown_for(
                    freed,
                    old(self).top(),
                    old(self).spare(),
                    old(self).base_addr(),
                    new_size as int,
                    align as int,
                );
                match m.found {
                    Some(a) => {
                        &&& r matches Ok(addr)
                        &&& 0 <= a < m.chain.len()
                        &&& addr == final(self).base_addr() + m.chain[a].data_start()
                        &&& addr % align == 0
                        &&& final(self)@ == m.chain
                        &&& data_kept(freed, old(self).bytes(), final(self).bytes())
                        &&& final(self).bytes().subrange(
                            m.chain[a].data_start(),
                            m.chain[a].data_start() + count,
                        ) == old(self).bytes().subrange(b.data_start(), b.data_start() + count)
                        &&& run_zeroed(
                            final(self).bytes(),
                            g,
                            a,
                            run_from(g, a, old(self).base_addr(), new_size as int, align as int).unwrap(),
                            m.chain[a].data_start() + count,
                        )
                    },
                    None => {
                        &&& r == Err::<usize, AllocError>(AllocError::OutOfMemory)
                        &&& final(self)@ == m.chain.update(k, b)
                        &&& data_kept(old(self)@, old(self).bytes(), final(self).bytes())
                    },
                }
            }),
    {
        proof {
            self.lemma_chain();
            self.lemma_index_of(k);
        }
        let ghost s = self@;
        let ghost b = s[k];
        let ghost freed = s.update(k, released(b));
        let base: usize = self.region.base();
        let h = self.region.load(pos);
        let data: usize = pos + HEADER_SIZE + h.get_offset() as usize;
        let saved = self.region.read(data, count);
        self.reseat(pos, Header::new(h.get_offset() + h.size(), 0), Ghost(k), Ghost(k));
        let ghost mid_bytes = self.bytes();
        proof {
            assert(self@ =~= freed);
            assert(data_kept(freed, old(self).bytes(), mid_bytes)) by {
                assert forall|q: int|
                    0 <= q < freed.len() && (#[trigger] freed[q]).used implies same_bytes(
                    old(self).bytes(),
                    mid_bytes,
                    freed[q].data_start(),
                    freed[q].end(),
                ) by {
                    assert(q != k);
                    assert(freed[q] == s[q]);
                    if q < k {
                        assert(s[q].end() <= s[k].start);
                    } else {
                        assert(s[k].end() <= s[q].start);
                    }
                }
            }
        }
        match self.find_run(new_size, align) {
            Ok(addr) => {
                let ghost m = relocate(
                    freed,
                    old(self).top(),
                    old(self).spare(),
                    old(self).base_addr(),
                    new_size as int,
                    align as int,
                );
                let ghost a = m.found.unwrap();
                let ghost moved_bytes = self.bytes();
                proof {
                    self.lemma_chain();
                    lemma_data_kept_twice(freed, old(self).bytes(), mid_bytes, moved_bytes);
                    lemma_linked_replace(s, 0, old(self).top(), k, k, released(b));
                    assert(freed =~= s.subrange(0, k).push(released(b)) + s.subrange(
                        k + 1,
                        s.len() as int,
                    ));
                }
                self.write_inside(addr - base, &saved, Ghost(a));
                proof {
                    lemma_data_kept_apart(
                        freed,
                        old(self).top(),
                        self.top(),
                        old(self).bytes(),
                        moved_bytes,
                        self.bytes(),
                        m.chain[a],
                        addr - base,
                        addr - base + count,
                    );
                }
                Ok(addr)
            },
            Err(_) => {
                proof {
                    self.lemma_chain();
                    self.lemma_index_of(k);
                }
                let ghost grown = self@;
                let ghost grown_bytes = self.bytes();
                self.reseat(pos, h, Ghost(k), Ghost(k));
                proof {
                    assert(self@ =~= grown.update(k, b));
                    assert forall|q: int| 0 <= q < s.len() && (#[trigger] s[q]).used implies same_bytes(
                        old(self).bytes(),
                        self.bytes(),
                        s[q].data_start(),
                        s[q].end(),
                    ) by {
                        if q < k {
                            assert(s[q].end() <= s[k].start);
                        } else if q > k {
                            assert(s[k].end() <= s[q].start);
                        }
                    }
                }
                Err(AllocError::OutOfMemory)
            },
        }
    }

    /// Makes the block whose data address is `ptr` hold `new_size` bytes.
    /// The block first takes in the free blocks right behind it, as far as
    /// it needs them: then the data stays where it is. Where these do not
    /// suffice, the occupant moves to the lowest run of free blocks that has
    /// room, its own block counting as free, the region growing by pages
    /// where no run has room; the first bytes of the data, as many as the
    /// least of `old_size`, `new_size` and the block's size, are copied.
    /// The headers that a block takes in are zeroed. Where the region cannot
    /// grow any further, nothing changes but for the pages added. Returns
    /// the address of the data, which is aligned to `align` where the
    /// occupant has moved.
    pub fn realloc(&mut self, ptr: usize, old_size: usize, align: usize, new_size: usize) -> (r:
        Result<usize, AllocError>)
        requires
            old(self).wf(),
        ensures
            final(self).wf(),
            final(self).base_addr() == old(self).base_addr(),
            final(self).page_limit() == old(self).page_limit(),
            final(self).page_count() >= old(self).page_count(),
            !live(old(self)@, old(self).base_addr(), ptr as int) ==> {
                &&& r == Err::<usize, AllocError>(AllocError::InvariantViolation)
                &&& *final(self) == *old(self)
            },
            live(old(self)@, old(self).base_addr(), ptr as int) && !supported(align as int) ==> {
                &&& r == Err::<usize, AllocError>(AllocError::AlignmentUnsupported)
                &&& *final(self) == *old(self)
            },
            live(old(self)@, old(self).base_addr(), ptr as int) && supported(align as int) ==> {
                let k = owner(old(self)@, old(self).base_addr(), ptr as int);
                let b = old(self)@[k];
                match reach(old(self)@, k, b.size, new_size as int) {
                    Some(j) => {
                        &&& r == Ok::<usize, AllocError>(ptr)
                        &&& final(self)@ == join(old(self)@, k, j, b.padding, true)
                        &&& final(self).page_count() == old(self).page_count()
                        &&& data_kept(old(self)@, old(self).bytes(), final(self).bytes())
                        &&& forall|t: int|
                            k < t <= j ==> zeroed(
                                final(self).bytes(),
                                (#[trigger] old(self)@[t]).start,
                                old(self)@[t].start + HEADER_SIZE,
                            )
                        &&& same_bytes(
                            final(self).bytes(),
                            old(self).bytes(),
                            0,
                            old(self)@[k].start,
                        )
                        &&& same_bytes(
                            final(self).bytes(),
                            old(self).bytes(),
                            old(self)@[j].end(),
                            old(self).top(),
                        )
                    },
                    None => {
                        let freed = old(self)@.update(k, released(b));
                        let m = relocate(
                            freed,
                            old(self).top(),
                            old(self).spare(),
                            old(self).base_addr(),
                            new_size as int,
                            align as int,
                        );
                        let g = grown_for(
                            freed,
                            old(self).top(),
                            old(self).spare(),
                            old(self).base_addr(),
                            new_size as int,
                            align as int,
                        );
                        let count = least(old_size as int, new_size as int, b.size);
                        match m.found {
                            Some(a) => {
                                &&& r matches Ok(addr)
                                &&& addr == final(self).base_addr() + m.chain[a].data_start()
                                &&& addr % align == 0
                                &&& final(self)@ == m.chain
                                &&& data_kept(freed, old(self).bytes(), final(self).bytes())
                                &&& final(self).bytes().subrange(
                                    m.chain[a].data_start(),
                                    m.chain[a].data_start() + count,
                                ) == old(self).bytes().subrange(
                                    b.data_start(),
                                    b.data_start() + count,
                                )
                                &&& run_zeroed(
                                    final(self).bytes(),
                                    g,
                                    a,
                                    run_from(
                                        g,
                                        a,
                                        old(self).base_addr(),
                                        new_size as int,
                                        align as int,
                                    ).unwrap(),
                                    m.chain[a].data_start() + count,
                                )
                            },
                            None => {
                                &&& r == Err::<usize, AllocError>(AllocError::OutOfMemory)
                                &&& final(self)@ == m.chain.update(k, b)
                                &&& data_kept(old(self)@, old(self).bytes(), final(self).bytes())
                            },
                        }
                    },
                }
            },
    {
        let block = self.find_ptr_block(ptr);
        proof {
            self.lemma_chain();
        }
        let ghost k = owner(self@, self.base_addr(), ptr as int);
        if block.is_null() {
            proof {
                if live(self@, self.base_addr(), ptr as int) {
                    assert(owns(self@, k, self.base_addr(), ptr as int));
                }
            }
            return Err(AllocError::InvariantViolation);
        }
        proof {
            assert(owns(self@, k, self.base_addr(), ptr as int));
            self.lemma_index_of(k);
        }
        if !is_supported(align) {
            return Err(AllocError::AlignmentUnsupported);
        }
        let pos: usize = block.addr() - self.region.base();
        if self.grow_in_place(pos, new_size, Ghost(k)) {
            return Ok(ptr);
        }
        let h = self.region.load(pos);
        let mut count: usize = if old_size <= new_size {
            old_size
        } else {
            new_size
        };
        if h.size() < count as u64 {
            count = h.size() as usize;
        }
        self.move_block(pos, count, align, new_size, Ghost(k))
    }

    /// A copy of the first `count` bytes of the data at `ptr`. Refused where
    /// no block in use has `ptr` for its data address, or where its data is
    /// shorter than `count`.
    pub fn read(&self, ptr: usize, count: usize) -> (r: Result<Vec<u8>, AllocError>)
        requires
            self.wf(),
        ensures
            ({
                let k = owner(self@, self.base_addr(), ptr as int);
                if live(self@, self.base_addr(), ptr as int) && count <= self@[k].size {
                    &&& r matches Ok(data)
                    &&& data@ == self.bytes().subrange(
                        self@[k].data_start(),
                        self@[k].data_start() + count,
                    )
                } else {
                    r matches Err(e) && e == AllocError::InvariantViolation
                }
            }),
    {
        let block = self.find_ptr_block(ptr);
        proof {
            self.lemma_chain();
        }
        let ghost k = owner(self@, self.base_addr(), ptr as int);
        if block.is_null() {
            proof {
                if live(self@, self.base_addr(), ptr as int) {
                    assert(owns(self@, k, self.base_addr(), ptr as int));
                }
            }
            return Err(AllocError::InvariantViolation);
        }
        proof {
            assert(owns(self@, k, self.base_addr(), ptr as int));
            self.lemma_index_of(k);
        }
        let pos: usize = block.addr() - self.region.base();
        let h = self.region.load(pos);
        if count as u64 > h.size() {
            return Err(AllocError::InvariantViolation);
        }
        Ok(self.region.read(ptr - self.region.base(), count))
    }

    /// Overwrites the first bytes of the data at `ptr` with `data`. Refused,
    /// with nothing written, where no block in use has `ptr` for its data
    /// address, or where its data is shorter than `data`.
    pub fn write(&mut self, ptr: usize, data: &Vec<u8>) -> (r: Result<(), AllocError>)
        requires
            old(self).wf(),
        ensures
            final(self).wf(),
            final(self).base_addr() == old(self).base_addr(),
            final(self).page_limit() == old(self).page_limit(),
            final(self).page_count() == old(self).page_count(),
            final(self)@ == old(self)@,
            ({
                let k = owner(old(self)@, old(self).base_addr(), ptr as int);
                let at = old(self)@[k].data_start();
                if live(old(self)@, old(self).base_addr(), ptr as int) && data@.len() <= old(
                    self,
                )@[k].size {
                    &&& r == Ok::<(), AllocError>(())
                    &&& final(self).bytes().subrange(at, at + data@.len()) == data@
                    &&& same_bytes(final(self).bytes(), old(self).bytes(), 0, at)
                    &&& same_bytes(
                        final(self).bytes(),
                        old(self).bytes(),
                        at + data@.len(),
                        old(self).top(),
                    )
                } else {
                    &&& r == Err::<(), AllocError>(AllocError::InvariantViolation)
                    &&& *final(self) == *old(self)
                }
            }),
    {
        let block = self.find_ptr_block(ptr);
        proof {
            self.lemma_chain();
        }
        let ghost k = owner(self@, self.base_addr(), ptr as int);
        if block.is_null() {
            proof {
                if live(self@, self.base_addr(), ptr as int) {
                    assert(owns(self@, k, self.base_addr(), ptr as int));
                }
            }
            return Err(AllocError::InvariantViolation);
        }
        proof {
            assert(owns(self@, k, self.base_addr(), ptr as int));
            self.lemma_index_of(k);
        }
        let pos: usize = block.addr() - self.region.base();
        let h = self.region.load(pos);
        if data.len() as u64 > h.size() {
            return Err(AllocError::InvariantViolation);
        }
        self.write_inside(ptr - self.region.base(), data, Ghost(k));
        Ok(())
    }

    /// Gives the region up: every byte of every page is zeroed, and the
    /// region is handed back for its pages to be unmapped.
    pub fn free_allocator(self) -> (r: Region)
        requires
            self.wf(),
        ensures
            r.base_addr() == self.base_addr(),
            r@.len() == self.page_count() * PAGE_SIZE,
            forall|j: int| 0 <= j < r@.len() ==> r@[j] == 0u8,
    {
        let mut region = self.region;
        let total: usize = region.len();
        region.fill(0, total, 0);
        region
    }
}

} // verus!
