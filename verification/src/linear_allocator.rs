//! A bump allocator over one arena: allocations are carved from the top
//! down and are given back all at once.

use vstd::prelude::*;
use crate::policy::AllocError;

verus! {

/// The size of the arena, in bytes.
pub const ARENA_SIZE: usize = 4096;

/// The largest alignment that a request may ask for.
pub const MAX_SUPPORTED_ALIGN: usize = 4096;

/// A bump allocator over an arena of `ARENA_SIZE` bytes. Addresses count
/// from the arena's first byte.
pub struct LinearAllocator {
    arena: Vec<u8>,
    remaining: usize,
}

impl LinearAllocator {
    /// The bytes of the arena.
    pub closed spec fn bytes(&self) -> Seq<u8> {
        self.arena@
    }

    /// The number of bytes below the allocation made last.
    pub closed spec fn room(&self) -> int {
        self.remaining as int
    }

    /// The invariant: the arena has its size and the room lies in it.
    pub open spec fn wf(&self) -> bool {
        self.bytes().len() == ARENA_SIZE && 0 <= self.room() <= ARENA_SIZE
    }

    /// An allocator with nothing allocated and every byte zero.
    pub fn new() -> (a: LinearAllocator)
        ensures
            a.wf(),
            a.room() == ARENA_SIZE,
            forall|j: int| 0 <= j < ARENA_SIZE ==> a.bytes()[j] == 0u8,
    {
        let mut arena: Vec<u8> = Vec::new();
        let mut k: usize = 0;
        while k < ARENA_SIZE
            invariant
                k <= ARENA_SIZE,
                arena@.len() == k,
                forall|j: int| 0 <= j < k ==> arena@[j] == 0u8,
            decreases ARENA_SIZE - k,
        {
            arena.push(0u8);
            k = k + 1;
        }
        LinearAllocator { arena, remaining: ARENA_SIZE }
    }

    /// Hands out `size` bytes right below the allocation made last, moved
    /// down to a multiple of `align`.
    pub fn allocate(&mut self, size: usize, align: usize) -> (r: Result<usize, AllocError>)
        requires
            old(self).wf(),
        ensures
            final(self).wf(),
            final(self).bytes() == old(self).bytes(),
            align == 0 || align > MAX_SUPPORTED_ALIGN ==> {
                &&& r == Err::<usize, AllocError>(AllocError::AlignmentUnsupported)
                &&& final(self).room() == old(self).room()
            },
            0 < align <= MAX_SUPPORTED_ALIGN && size > old(self).room() ==> {
                &&& r == Err::<usize, AllocError>(AllocError::OutOfMemory)
                &&& final(self).room() == old(self).room()
            },
            0 < align <= MAX_SUPPORTED_ALIGN && size <= old(self).room() ==> {
                let low = old(self).room() - size;
                &&& r == Ok::<usize, AllocError>((low - low % (align as int)) as usize)
                &&& final(self).room() == low - low % (align as int)
                &&& final(self).room() % (align as int) == 0
                &&& final(self).room() + size <= old(self).room()
            },
    {
        if align == 0 || align > MAX_SUPPORTED_ALIGN {
            return Err(AllocError::AlignmentUnsupported);
        }
        if size > self.remaining {
            return Err(AllocError::OutOfMemory);
        }
        let low: usize = self.remaining - size;
        proof {
            lemma_rounded_down(low as int, align as int);
        }
        let start: usize = low - low % align;
        self.remaining = start;
        Ok(start)
    }

    /// Gives the whole arena back at once: every byte is zeroed and every
    /// allocation is gone. `ptr` and `size` are not looked at.
    pub fn dealloc(&mut self, ptr: usize, size: usize)
        requires
            old(self).wf(),
        ensures
            final(self).wf(),
            final(self).room() == ARENA_SIZE,
            forall|j: int| 0 <= j < ARENA_SIZE ==> final(self).bytes()[j] == 0u8,
    {
        let mut k: usize = 0;
        while k < ARENA_SIZE
            invariant
                k <= ARENA_SIZE,
                self.arena@.len() == ARENA_SIZE,
                self.remaining <= ARENA_SIZE,
                forall|j: int| 0 <= j < k ==> self.arena@[j] == 0u8,
            decreases ARENA_SIZE - k,
        {
            self.arena.set(k, 0u8);
            k = k + 1;
        }
        self.remaining = ARENA_SIZE;
    }
}

/// A number less its remainder is a multiple of the divisor.
pub proof fn lemma_rounded_down(n: int, d: int)
    requires
        0 <= n,
        0 < d,
    ensures
        (n - n % d) % d == 0,
        0 <= n - n % d <= n,
{
    vstd::arithmetic::div_mod::lemma_fundamental_div_mod(n, d);
    vstd::arithmetic::div_mod::lemma_mod_multiples_basic(n / d, d);
    assert(n - n % d == (n / d) * d) by (nonlinear_arith)
        requires
            n == d * (n / d) + n % d,
    ;
}

} // verus!
