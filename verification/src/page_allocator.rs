//! The page-granular allocator: every request is served by a mapping of its
//! own, whose length is worked out here.

use vstd::prelude::*;

verus! {

/// Whether `n` is a power of two.
pub open spec fn is_pow2(n: int) -> bool
    decreases n,
{
    if n <= 0 {
        false
    } else if n == 1 {
        true
    } else {
        n % 2 == 0 && is_pow2(n / 2)
    }
}

/// Whether `n` is a power of two.
pub fn is_power_of_two(n: usize) -> (r: bool)
    ensures
        r == is_pow2(n as int),
{
    if n == 0 {
        return false;
    }
    let mut m: usize = n;
    while m % 2 == 0
        invariant
            0 < m <= n,
            is_pow2(m as int) == is_pow2(n as int),
        decreases m,
    {
        m = m / 2;
    }
    m == 1
}

/// The page-granular allocator for pages of a given size.
pub struct YerbaAlloc {
    page_size: usize,
}

impl YerbaAlloc {
    /// The size of a page, in bytes.
    pub closed spec fn page(&self) -> int {
        self.page_size as int
    }

    /// The alignment of a mapping for a request aligned to `align`: the
    /// alignment or the page size, whichever is larger.
    pub open spec fn mapping_align(&self, align: int) -> int {
        if align >= self.page() {
            align
        } else {
            self.page()
        }
    }

    /// The length of a mapping for `size` bytes aligned to `align`: `size`
    /// rounded up to a multiple of the mapping's alignment.
    pub open spec fn mapping_size(&self, size: int, align: int) -> int {
        let a = self.mapping_align(align);
        if size % a == 0 {
            size
        } else {
            size + a - size % a
        }
    }

    /// Whether a mapping can serve `size` bytes aligned to `align`: the
    /// alignment and the page size are powers of two, and the size leaves
    /// room for rounding up.
    pub open spec fn serves(&self, size: int, align: int) -> bool {
        &&& is_pow2(align)
        &&& is_pow2(self.page())
        &&& size <= isize::MAX - (self.mapping_align(align) - 1)
    }

    /// An allocator for pages of `page_size` bytes.
    pub fn new(page_size: usize) -> (a: YerbaAlloc)
        ensures
            a.page() == page_size,
    {
        YerbaAlloc { page_size }
    }

    /// The size of a page, in bytes.
    pub fn page_size(&self) -> (r: usize)
        ensures
            r == self.page(),
    {
        self.page_size
    }

    /// The length of the mapping to ask for, or `None` where no mapping can
    /// serve the request.
    pub fn mapping_len(&self, size: usize, align: usize) -> (r: Option<usize>)
        ensures
            self.serves(size as int, align as int) ==> r == Some(
                self.mapping_size(size as int, align as int) as usize,
            ),
            !self.serves(size as int, align as int) ==> r is None,
    {
        if !is_power_of_two(align) || !is_power_of_two(self.page_size) {
            return None;
        }
        let a: usize = if align >= self.page_size {
            align
        } else {
            self.page_size
        };
        let most: usize = isize::MAX as usize;
        if a - 1 > most || size > most - (a - 1) {
            return None;
        }
        let rest: usize = size % a;
        if rest == 0 {
            Some(size)
        } else {
            Some(size + (a - rest))
        }
    }
}

} // verus!
