//! The managed region: a flat byte buffer that starts at a base address.
//! Headers are read from it and written into it as two little-endian words.

use vstd::prelude::*;
use vstd::bytes::{
    lemma_auto_spec_u64_to_from_le_bytes, spec_u64_from_le_bytes, u64_from_le_bytes, u64_to_le_bytes,
};
use vstd::slice::slice_subrange;
use crate::header::Header;

verus! {

/// The footprint of a header in the region, in bytes.
pub const HEADER_SIZE: usize = 16;

/// The word that the eight bytes from `pos` on spell.
pub open spec fn word_at(bytes: Seq<u8>, pos: int) -> u64 {
    spec_u64_from_le_bytes(bytes.subrange(pos, pos + 8))
}

/// The header that the sixteen bytes from `pos` on spell.
pub open spec fn header_at(bytes: Seq<u8>, pos: int) -> Header {
    Header { size: word_at(bytes, pos), offset: word_at(bytes, pos + 8) }
}

/// Whether two buffers hold the same bytes from `from` up to `to`.
pub open spec fn same_bytes(a: Seq<u8>, b: Seq<u8>, from: int, to: int) -> bool {
    forall|j: int| from <= j < to ==> a[j] == b[j]
}

/// A header depends on its own sixteen bytes only.
pub proof fn lemma_header_frame(a: Seq<u8>, b: Seq<u8>, pos: int)
    requires
        0 <= pos,
        pos + HEADER_SIZE <= a.len(),
        pos + HEADER_SIZE <= b.len(),
        same_bytes(a, b, pos, pos + HEADER_SIZE),
    ensures
        header_at(a, pos) == header_at(b, pos),
{
    assert(a.subrange(pos, pos + 8) =~= b.subrange(pos, pos + 8));
    assert(a.subrange(pos + 8, pos + 16) =~= b.subrange(pos + 8, pos + 16));
}

/// The managed region.
pub struct Region {
    base: usize,
    bytes: Vec<u8>,
}

impl View for Region {
    type V = Seq<u8>;

    closed spec fn view(&self) -> Seq<u8> {
        self.bytes@
    }
}

impl Region {
    /// The address of the region's first byte.
    pub closed spec fn base_addr(&self) -> usize {
        self.base
    }

    /// The region's addresses fit the machine word.
    pub open spec fn wf(&self) -> bool {
        self.base_addr() + self@.len() <= usize::MAX
    }

    /// An empty region at `base`.
    pub fn new(base: usize) -> (r: Region)
        ensures
            r.base_addr() == base,
            r@ == Seq::<u8>::empty(),
            r.wf(),
    {
        Region { base, bytes: Vec::new() }
    }

    /// The address of the region's first byte.
    pub fn base(&self) -> (r: usize)
        ensures
            r == self.base_addr(),
    {
        self.base
    }

    /// The number of bytes in the region.
    pub fn len(&self) -> (r: usize)
        ensures
            r == self@.len(),
    {
        self.bytes.len()
    }

    /// Appends `count` zero bytes at the top of the region.
    pub fn extend(&mut self, count: usize)
        requires
            old(self).base_addr() + old(self)@.len() + count <= usize::MAX,
        ensures
            final(self).base_addr() == old(self).base_addr(),
            final(self)@.len() == old(self)@.len() + count,
            same_bytes(final(self)@, old(self)@, 0, old(self)@.len() as int),
            forall|j: int| old(self)@.len() <= j < final(self)@.len() ==> final(self)@[j] == 0u8,
            final(self).wf(),
    {
        let start: usize = self.bytes.len();
        let mut done: usize = 0;
        while done < count
            invariant
                done <= count,
                start == old(self)@.len(),
                self.base == old(self).base,
                self.base + start + count <= usize::MAX,
                self.bytes@.len() == start + done,
                same_bytes(self.bytes@, old(self)@, 0, start as int),
                forall|j: int| start <= j < start + done ==> self.bytes@[j] == 0u8,
            decreases count - done,
        {
            self.bytes.push(0u8);
            done = done + 1;
        }
    }

    /// The byte at `pos`.
    pub fn read_byte(&self, pos: usize) -> (r: u8)
        requires
            pos < self@.len(),
        ensures
            r == self@[pos as int],
    {
        self.bytes[pos]
    }

    /// Overwrites the byte at `pos`.
    pub fn write_byte(&mut self, pos: usize, value: u8)
        requires
            pos < old(self)@.len(),
        ensures
            final(self)@ == old(self)@.update(pos as int, value),
            final(self).base_addr() == old(self).base_addr(),
    {
        self.bytes.set(pos, value);
    }

    /// The word at `pos`.
    pub fn read_word(&self, pos: usize) -> (r: u64)
        requires
            pos + 8 <= self@.len(),
        ensures
            r == word_at(self@, pos as int),
    {
        let total: usize = self.bytes.len();
        assert(pos + 8 <= total);
        let part = slice_subrange(self.bytes.as_slice(), pos, pos + 8);
        u64_from_le_bytes(part)
    }

    /// Overwrites the word at `pos`.
    pub fn write_word(&mut self, pos: usize, word: u64)
        requires
            pos + 8 <= old(self)@.len(),
        ensures
            final(self)@.len() == old(self)@.len(),
            final(self).base_addr() == old(self).base_addr(),
            word_at(final(self)@, pos as int) == word,
            same_bytes(final(self)@, old(self)@, 0, pos as int),
            same_bytes(final(self)@, old(self)@, pos + 8, old(self)@.len() as int),
    {
        let spelled = u64_to_le_bytes(word);
        let total: usize = self.bytes.len();
        let mut k: usize = 0;
        while k < 8
            invariant
                k <= 8,
                total == old(self)@.len(),
                spelled@.len() == 8,
                pos + 8 <= old(self)@.len(),
                self.base == old(self).base,
                self.bytes@.len() == old(self)@.len(),
                same_bytes(self.bytes@, old(self)@, 0, pos as int),
                same_bytes(self.bytes@, old(self)@, pos + 8, old(self)@.len() as int),
                forall|j: int| 0 <= j < k ==> self.bytes@[pos + j] == spelled@[j],
            decreases 8 - k,
        {
            self.bytes.set(pos + k, spelled[k]);
            k = k + 1;
        }
        proof {
            lemma_auto_spec_u64_to_from_le_bytes();
            assert(self.bytes@.subrange(pos as int, pos + 8) =~= spelled@);
        }
    }

    /// The header at `pos`.
    pub fn load(&self, pos: usize) -> (h: Header)
        requires
            pos + HEADER_SIZE <= self@.len(),
        ensures
            h == header_at(self@, pos as int),
    {
        let total: usize = self.bytes.len();
        assert(pos + HEADER_SIZE <= total);
        let size = self.read_word(pos);
        let offset = self.read_word(pos + 8);
        Header { size, offset }
    }

    /// Overwrites the header at `pos`.
    pub fn store(&mut self, pos: usize, h: Header)
        requires
            pos + HEADER_SIZE <= old(self)@.len(),
        ensures
            final(self)@.len() == old(self)@.len(),
            final(self).base_addr() == old(self).base_addr(),
            header_at(final(self)@, pos as int) == h,
            same_bytes(final(self)@, old(self)@, 0, pos as int),
            same_bytes(final(self)@, old(self)@, pos + HEADER_SIZE, old(self)@.len() as int),
    {
        let total: usize = self.bytes.len();
        assert(pos + HEADER_SIZE <= total);
        self.write_word(pos, h.size);
        let ghost mid = self@;
        self.write_word(pos + 8, h.offset);
        proof {
            assert(self@.subrange(pos as int, pos + 8) =~= mid.subrange(pos as int, pos + 8));
        }
    }

    /// Overwrites the `count` bytes from `pos` on with `value`.
    pub fn fill(&mut self, pos: usize, count: usize, value: u8)
        requires
            pos + count <= old(self)@.len(),
        ensures
            final(self)@.len() == old(self)@.len(),
            final(self).base_addr() == old(self).base_addr(),
            same_bytes(final(self)@, old(self)@, 0, pos as int),
            same_bytes(final(self)@, old(self)@, pos + count, old(self)@.len() as int),
            forall|j: int| pos <= j < pos + count ==> final(self)@[j] == value,
    {
        let total: usize = self.bytes.len();
        let mut k: usize = 0;
        while k < count
            invariant
                k <= count,
                total == old(self)@.len(),
                pos + count <= old(self)@.len(),
                self.base == old(self).base,
                self.bytes@.len() == old(self)@.len(),
                same_bytes(self.bytes@, old(self)@, 0, pos as int),
                same_bytes(self.bytes@, old(self)@, pos + count, old(self)@.len() as int),
                forall|j: int| pos <= j < pos + k ==> self.bytes@[j] == value,
            decreases count - k,
        {
            self.bytes.set(pos + k, value);
            k = k + 1;
        }
    }

    /// A copy of the `count` bytes from `pos` on.
    pub fn read(&self, pos: usize, count: usize) -> (out: Vec<u8>)
        requires
            pos + count <= self@.len(),
        ensures
            out@ == self@.subrange(pos as int, pos + count),
    {
        let mut out: Vec<u8> = Vec::new();
        let total: usize = self.bytes.len();
        let mut k: usize = 0;
        while k < count
            invariant
                k <= count,
                total == self.bytes@.len(),
                pos + count <= self.bytes@.len(),
                out@ == self.bytes@.subrange(pos as int, pos + k),
            decreases count - k,
        {
            out.push(self.bytes[pos + k]);
            k = k + 1;
            assert(out@ =~= self.bytes@.subrange(pos as int, pos + k));
        }
        out
    }

    /// Overwrites the bytes from `pos` on with `data`.
    pub fn write(&mut self, pos: usize, data: &Vec<u8>)
        requires
            pos + data@.len() <= old(self)@.len(),
        ensures
            final(self)@.len() == old(self)@.len(),
            final(self).base_addr() == old(self).base_addr(),
            same_bytes(final(self)@, old(self)@, 0, pos as int),
            same_bytes(final(self)@, old(self)@, pos + data@.len(), old(self)@.len() as int),
            final(self)@.subrange(pos as int, pos + data@.len()) == data@,
    {
        let count: usize = data.len();
        let total: usize = self.bytes.len();
        let mut k: usize = 0;
        while k < count
            invariant
                k <= count,
                total == old(self)@.len(),
                count == data@.len(),
                pos + count <= old(self)@.len(),
                self.base == old(self).base,
                self.bytes@.len() == old(self)@.len(),
                same_bytes(self.bytes@, old(self)@, 0, pos as int),
                same_bytes(self.bytes@, old(self)@, pos + count, old(self)@.len() as int),
                forall|j: int| 0 <= j < k ==> self.bytes@[pos + j] == data@[j],
            decreases count - k,
        {
            self.bytes.set(pos + k, data[k]);
            k = k + 1;
        }
        assert(self.bytes@.subrange(pos as int, pos + count) =~= data@);
    }
}

} // verus!
