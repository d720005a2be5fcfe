//! The block header: a size word and an offset word. The low bits of the
//! offset word hold the alignment padding of the block's occupant, the
//! highest bit holds the "used" flag.

use vstd::prelude::*;

verus! {

/// The flag bit of the offset word.
pub const USED_BIT: u64 = 0x8000_0000_0000_0000;

/// The bits of the offset word that hold the padding length.
pub const OFFSET_MASK: u64 = 0x7fff_ffff_ffff_ffff;

/// The bookkeeping record of one block. The offset word is packed: go through
/// the accessors, never through the field.
#[derive(Clone, Copy, Debug)]
pub struct Header {
    pub size: u64,
    pub offset: u64,
}

/// The two halves of an offset word do not overlap and make up the word.
pub proof fn lemma_offset_word(word: u64, value: u64)
    ensures
        (value & OFFSET_MASK) & OFFSET_MASK == value & OFFSET_MASK,
        (value & OFFSET_MASK) & USED_BIT == 0,
        ((value & OFFSET_MASK) | USED_BIT) & OFFSET_MASK == value & OFFSET_MASK,
        ((value & OFFSET_MASK) | USED_BIT) & USED_BIT == USED_BIT,
        ((value & OFFSET_MASK) | (word & USED_BIT)) & OFFSET_MASK == value & OFFSET_MASK,
        ((value & OFFSET_MASK) | (word & USED_BIT)) & USED_BIT == word & USED_BIT,
        (word | USED_BIT) & OFFSET_MASK == word & OFFSET_MASK,
        (word | USED_BIT) & USED_BIT == USED_BIT,
        (word & OFFSET_MASK) & USED_BIT == 0,
        word & USED_BIT == 0 || word & USED_BIT == USED_BIT,
        value <= OFFSET_MASK ==> value & OFFSET_MASK == value,
        value & OFFSET_MASK <= OFFSET_MASK,
{
    assert((value & OFFSET_MASK) & OFFSET_MASK == value & OFFSET_MASK) by (bit_vector);
    assert((value & 0x7fff_ffff_ffff_ffffu64) & 0x8000_0000_0000_0000u64 == 0) by (bit_vector);
    assert(((value & 0x7fff_ffff_ffff_ffffu64) | 0x8000_0000_0000_0000u64)
        & 0x7fff_ffff_ffff_ffffu64 == value & 0x7fff_ffff_ffff_ffffu64) by (bit_vector);
    assert(((value & 0x7fff_ffff_ffff_ffffu64) | 0x8000_0000_0000_0000u64)
        & 0x8000_0000_0000_0000u64 == 0x8000_0000_0000_0000u64) by (bit_vector);
    assert(((value & 0x7fff_ffff_ffff_ffffu64) | (word & 0x8000_0000_0000_0000u64))
        & 0x7fff_ffff_ffff_ffffu64 == value & 0x7fff_ffff_ffff_ffffu64) by (bit_vector);
    assert(((value & 0x7fff_ffff_ffff_ffffu64) | (word & 0x8000_0000_0000_0000u64))
        & 0x8000_0000_0000_0000u64 == word & 0x8000_0000_0000_0000u64) by (bit_vector);
    assert((word | 0x8000_0000_0000_0000u64) & 0x7fff_ffff_ffff_ffffu64 == word
        & 0x7fff_ffff_ffff_ffffu64) by (bit_vector);
    assert((word | 0x8000_0000_0000_0000u64) & 0x8000_0000_0000_0000u64
        == 0x8000_0000_0000_0000u64) by (bit_vector);
    assert(word & 0x8000_0000_0000_0000u64 == 0 || word & 0x8000_0000_0000_0000u64
        == 0x8000_0000_0000_0000u64) by (bit_vector);
    assert(value <= 0x7fff_ffff_ffff_ffffu64 ==> value & 0x7fff_ffff_ffff_ffffu64 == value)
        by (bit_vector);
    assert(value & 0x7fff_ffff_ffff_ffffu64 <= 0x7fff_ffff_ffff_ffffu64) by (bit_vector);
    assert((word & 0x7fff_ffff_ffff_ffffu64) & 0x8000_0000_0000_0000u64 == 0) by (bit_vector);
}

impl Header {
    /// The padding length: the offset word without its flag bit.
    pub open spec fn padding(self) -> u64 {
        self.offset & OFFSET_MASK
    }

    /// Whether the flag bit is set.
    pub open spec fn is_used(self) -> bool {
        self.offset & USED_BIT != 0
    }

    /// A free header of the given size and padding length. A padding length
    /// that reaches into the flag bit loses that bit.
    pub fn new(size: u64, offset: u64) -> (h: Header)
        ensures
            h.size == size,
            h.padding() == offset & OFFSET_MASK,
            offset <= OFFSET_MASK ==> h.padding() == offset,
            !h.is_used(),
    {
        proof {
            lemma_offset_word(0, offset);
        }
        Header { size, offset: offset & OFFSET_MASK }
    }

    /// The padding length, with the flag bit masked off.
    pub fn get_offset(&self) -> (r: u64)
        ensures
            r == self.padding(),
            r <= OFFSET_MASK,
    {
        proof {
            lemma_offset_word(self.offset, self.offset);
        }
        self.offset & OFFSET_MASK
    }

    /// Overwrites the padding length and keeps the flag bit.
    pub fn set_offset(&mut self, offset: u64)
        ensures
            final(self).padding() == offset & OFFSET_MASK,
            offset <= OFFSET_MASK ==> final(self).padding() == offset,
            final(self).is_used() == old(self).is_used(),
            final(self).size == old(self).size,
    {
        proof {
            lemma_offset_word(self.offset, offset);
        }
        self.offset = (offset & OFFSET_MASK) | (self.offset & USED_BIT);
    }

    /// Whether the block is in use.
    pub fn used(&self) -> (r: bool)
        ensures
            r == self.is_used(),
    {
        self.offset & USED_BIT != 0
    }

    /// Sets the flag bit to `used` and keeps the padding length.
    pub fn set_used(&mut self, used: bool)
        ensures
            final(self).is_used() == used,
            final(self).padding() == old(self).padding(),
            final(self).size == old(self).size,
    {
        proof {
            lemma_offset_word(self.offset, self.offset);
        }
        if used {
            self.offset = self.offset | USED_BIT;
        } else {
            self.offset = self.offset & OFFSET_MASK;
        }
    }

    /// Clears the flag bit.
    pub fn free(&mut self)
        ensures
            !final(self).is_used(),
            final(self).padding() == old(self).padding(),
            final(self).size == old(self).size,
    {
        self.set_used(false)
    }

    /// Sets the flag bit.
    pub fn mark_used(&mut self)
        ensures
            final(self).is_used(),
            final(self).padding() == old(self).padding(),
            final(self).size == old(self).size,
    {
        self.set_used(true)
    }

    /// The size word.
    pub fn size(&self) -> (r: u64)
        ensures
            r == self.size,
    {
        self.size
    }

    /// Overwrites the size word.
    pub fn set_size(&mut self, size: u64)
        ensures
            final(self).size == size,
            final(self).offset == old(self).offset,
    {
        self.size = size;
    }

    /// Grows the size word by `delta`. A sum beyond the word wraps around.
    pub fn add_size(&mut self, delta: u64)
        ensures
            old(self).size + delta <= u64::MAX ==> final(self).size == old(self).size + delta,
            old(self).size + delta > u64::MAX ==> final(self).size == old(self).size + delta
                - 0x1_0000_0000_0000_0000,
            final(self).offset == old(self).offset,
    {
        self.size = self.size.wrapping_add(delta);
    }
}

} // verus!
