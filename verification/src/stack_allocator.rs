//! A stack of allocations in one buffer: only the allocation made last can
//! be given back or resized.

use vstd::prelude::*;
use crate::policy::{padding_for, padding_to, AllocError};

verus! {

/// The size of the buffer, in bytes.
pub const BUF_SIZE: usize = 4096;

/// Allows the allocation and deallocation of memory in a LIFO system, in a
/// buffer of `BUF_SIZE` bytes. Addresses count from the buffer's first byte.
pub struct StackAllocator {
    buf: Vec<u8>,
    offset: usize,
}

impl StackAllocator {
    /// The bytes of the buffer.
    pub closed spec fn bytes(&self) -> Seq<u8> {
        self.buf@
    }

    /// The address behind the allocation made last.
    pub closed spec fn top(&self) -> int {
        self.offset as int
    }

    /// The invariant: the buffer has its size and the top lies in it.
    pub open spec fn wf(&self) -> bool {
        self.bytes().len() == BUF_SIZE && 0 <= self.top() <= BUF_SIZE
    }

    /// Whether the `size` bytes at `ptr` are the allocation made last.
    pub open spec fn is_top_of(&self, ptr: int, size: int) -> bool {
        ptr + size == self.top()
    }

    /// An allocator with nothing allocated and every byte zero.
    pub fn new() -> (a: StackAllocator)
        ensures
            a.wf(),
            a.top() == 0,
            forall|j: int| 0 <= j < BUF_SIZE ==> a.bytes()[j] == 0u8,
    {
        let mut buf: Vec<u8> = Vec::new();
        let mut k: usize = 0;
        while k < BUF_SIZE
            invariant
                k <= BUF_SIZE,
                buf@.len() == k,
                forall|j: int| 0 <= j < k ==> buf@[j] == 0u8,
            decreases BUF_SIZE - k,
        {
            buf.push(0u8);
            k = k + 1;
        }
        StackAllocator { buf, offset: 0 }
    }

    /// Whether the `size` bytes at `ptr` are the allocation made last.
    pub fn is_top(&self, ptr: usize, size: usize) -> (r: bool)
        ensures
            r == self.is_top_of(ptr as int, size as int),
    {
        match ptr.checked_add(size) {
            Some(end) => end == self.offset,
            None => false,
        }
    }

    /// Hands out `size` bytes at the next multiple of `align` from the top
    /// on. Refused where the allocation would reach the buffer's last byte.
    pub fn allocate(&mut self, size: usize, align: usize) -> (r: Result<usize, AllocError>)
        requires
            old(self).wf(),
        ensures
            final(self).wf(),
            final(self).bytes() == old(self).bytes(),
            align == 0 ==> {
                &&& r == Err::<usize, AllocError>(AllocError::AlignmentUnsupported)
                &&& final(self).top() == old(self).top()
            },
            align > 0 ==> {
                let start = old(self).top() + padding_for(old(self).top(), align as int);
                if start + size >= BUF_SIZE {
                    &&& r == Err::<usize, AllocError>(AllocError::OutOfMemory)
                    &&& final(self).top() == old(self).top()
                } else {
                    &&& r == Ok::<usize, AllocError>(start as usize)
                    &&& start % (align as int) == 0
                    &&& final(self).top() == start + size
                    &&& final(self).is_top_of(start, size as int)
                }
            },
    {
        if align == 0 {
            return Err(AllocError::AlignmentUnsupported);
        }
        let padding: usize = padding_to(self.offset, align);
        if padding >= BUF_SIZE - self.offset {
            return Err(AllocError::OutOfMemory);
        }
        let start: usize = self.offset + padding;
        if size >= BUF_SIZE - start {
            return Err(AllocError::OutOfMemory);
        }
        proof {
            lemma_padded(self.offset as int, align as int);
        }
        self.offset = start + size;
        Ok(start)
    }

    /// Takes back the allocation made last.
    pub fn dealloc(&mut self, ptr: usize, size: usize)
        requires
            old(self).wf(),
            old(self).is_top_of(ptr as int, size as int),
        ensures
            final(self).wf(),
            final(self).bytes() == old(self).bytes(),
            final(self).top() == ptr,
    {
        self.offset = self.offset - size;
    }

    /// As `allocate`, and every byte of the allocation is zero.
    pub fn alloc_zeroed(&mut self, size: usize, align: usize) -> (r: Result<usize, AllocError>)
        requires
            old(self).wf(),
        ensures
            final(self).wf(),
            align == 0 ==> {
                &&& r == Err::<usize, AllocError>(AllocError::AlignmentUnsupported)
                &&& final(self).top() == old(self).top()
                &&& final(self).bytes() == old(self).bytes()
            },
            align > 0 ==> {
                let start = old(self).top() + padding_for(old(self).top(), align as int);
                if start + size >= BUF_SIZE {
                    &&& r == Err::<usize, AllocError>(AllocError::OutOfMemory)
                    &&& final(self).top() == old(self).top()
                    &&& final(self).bytes() == old(self).bytes()
                } else {
                    &&& r == Ok::<usize, AllocError>(start as usize)
                    &&& final(self).top() == start + size
                    &&& forall|j: int| start <= j < start + size ==> final(self).bytes()[j] == 0u8
                    &&& forall|j: int|
                        0 <= j < start || start + size <= j < BUF_SIZE ==> final(self).bytes()[j]
                            == old(self).bytes()[j]
                }
            },
    {
        let start = match self.allocate(size, align) {
            Ok(start) => start,
            Err(e) => {
                return Err(e);
            },
        };
        let mut k: usize = 0;
        while k < size
            invariant
                k <= size,
                start + size < BUF_SIZE,
                self.wf(),
                self.offset == start + size,
                forall|j: int| start <= j < start + k ==> self.buf@[j] == 0u8,
                forall|j: int|
                    0 <= j < start || start + size <= j < BUF_SIZE ==> self.buf@[j] == old(
                        self,
                    ).buf@[j],
            decreases size - k,
        {
            self.buf.set(start + k, 0u8);
            k = k + 1;
        }
        Ok(start)
    }

    /// Resizes the allocation made last, in place. Refused where the
    /// allocation would reach the buffer's last byte.
    pub fn realloc(&mut self, ptr: usize, size: usize, new_size: usize) -> (r: Result<
        usize,
        AllocError,
    >)
        requires
            old(self).wf(),
            old(self).is_top_of(ptr as int, size as int),
        ensures
            final(self).wf(),
            final(self).bytes() == old(self).bytes(),
            ptr + new_size >= BUF_SIZE ==> {
                &&& r == Err::<usize, AllocError>(AllocError::OutOfMemory)
                &&& final(self).top() == old(self).top()
            },
            ptr + new_size < BUF_SIZE ==> {
                &&& r == Ok::<usize, AllocError>(ptr)
                &&& final(self).top() == ptr + new_size
            },
    {
        if new_size >= BUF_SIZE - ptr {
            return Err(AllocError::OutOfMemory);
        }
        self.offset = ptr + new_size;
        Ok(ptr)
    }

    /// The byte at `addr`, where the buffer has one.
    pub fn read_byte(&self, addr: usize) -> (r: Option<u8>)
        requires
            self.wf(),
        ensures
            addr < BUF_SIZE ==> r == Some(self.bytes()[addr as int]),
            addr >= BUF_SIZE ==> r is None,
    {
        if addr < self.buf.len() {
            Some(self.buf[addr])
        } else {
            None
        }
    }
}

/// The padding for `align` leads to a multiple of `align`.
pub proof fn lemma_padded(addr: int, align: int)
    requires
        0 <= addr,
        0 < align,
    ensures
        (addr + padding_for(addr, align)) % align == 0,
{
    if addr % align != 0 {
        vstd::arithmetic::div_mod::lemma_fundamental_div_mod(addr, align);
        let q = addr / align;
        assert(addr + (align - addr % align) == align * (q + 1)) by (nonlinear_arith)
            requires
                addr == align * q + addr % align,
        ;
        vstd::arithmetic::div_mod::lemma_mod_multiples_basic(q + 1, align);
        assert(align * (q + 1) == (q + 1) * align) by (nonlinear_arith);
    }
}

} // verus!
