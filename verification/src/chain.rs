//! The header chain as a sequence of blocks, and how it is read off the
//! bytes of a region.
//!
//! A block governs its header, the padding behind it and `size` bytes of
//! data. The next header stands where the block ends, so the chain is a
//! linked list whose links are computed, never stored.

use vstd::prelude::*;
use crate::region::{header_at, lemma_header_frame, same_bytes, HEADER_SIZE};

verus! {

/// One block of the chain. `start` counts from the region's first byte.
pub struct Block {
    pub start: int,
    pub padding: int,
    pub size: int,
    pub used: bool,
}

impl Block {
    /// Where the caller's data begins.
    pub open spec fn data_start(self) -> int {
        self.start + HEADER_SIZE + self.padding
    }

    /// Where the block ends and the next header begins.
    pub open spec fn end(self) -> int {
        self.start + HEADER_SIZE + self.padding + self.size
    }

    /// The bytes that the block governs, its header included.
    pub open spec fn span(self) -> int {
        HEADER_SIZE + self.padding + self.size
    }

    /// The bytes behind the header: what a new occupant can be given. A
    /// free block has no padding but where a search has recorded one for
    /// the occupant to come; it then counts as room like the rest.
    pub open spec fn room(self) -> int {
        self.padding + self.size
    }
}

/// The block that the header at `pos` describes.
pub open spec fn block_at(bytes: Seq<u8>, pos: int) -> Block {
    let h = header_at(bytes, pos);
    Block { start: pos, padding: h.padding() as int, size: h.size as int, used: h.is_used() }
}

/// The blocks met when walking the headers from `from`, if the walk lands
/// exactly on `to`.
pub open spec fn segment(bytes: Seq<u8>, from: int, to: int) -> Option<Seq<Block>>
    decreases to - from,
{
    if from == to {
        Some(Seq::empty())
    } else if from < 0 || from + HEADER_SIZE > to || to > bytes.len() {
        None
    } else {
        let b = block_at(bytes, from);
        if b.end() > to {
            None
        } else {
            match segment(bytes, b.end(), to) {
                Some(rest) => Some(seq![b] + rest),
                None => None,
            }
        }
    }
}

/// Whether the blocks of `s` follow each other without gap or overlap from
/// `from` up to `to`.
pub open spec fn linked(s: Seq<Block>, from: int, to: int) -> bool {
    &&& forall|i: int| 0 <= i < s.len() ==> (#[trigger] s[i]).padding >= 0 && s[i].size >= 0
    &&& forall|i: int, j: int|
        0 <= i && j == i + 1 && j < s.len() ==> (#[trigger] s[i]).end() == (#[trigger] s[j]).start
    &&& if s.len() == 0 {
        from == to
    } else {
        s[0].start == from && s[s.len() - 1].end() == to
    }
}

/// Whether each block of `s` is what the header at its start describes.
pub open spec fn spelled(bytes: Seq<u8>, s: Seq<Block>) -> bool {
    forall|i: int| 0 <= i < s.len() ==> block_at(bytes, (#[trigger] s[i]).start) == s[i]
}

/// The sum of the blocks' spans.
pub open spec fn total_span(s: Seq<Block>) -> int
    decreases s.len(),
{
    if s.len() == 0 {
        0
    } else {
        total_span(s.drop_last()) + s.last().span()
    }
}

proof fn lemma_linked_order(s: Seq<Block>, from: int, to: int, i: int, j: int)
    requires
        linked(s, from, to),
        0 <= i <= j < s.len(),
    ensures
        s[i].start <= s[j].start,
        s[i].end() <= s[j].end(),
        s[j].start + HEADER_SIZE <= s[j].end(),
    decreases j - i,
{
    if i < j {
        lemma_linked_order(s, from, to, i, j - 1);
        assert(s[j - 1].end() == s[j].start);
    }
}

/// In a linked chain the blocks lie between its two ends, in the order of
/// their addresses.
pub proof fn lemma_linked_bounds(s: Seq<Block>, from: int, to: int)
    requires
        linked(s, from, to),
    ensures
        from <= to,
        s.len() > 0 ==> from + HEADER_SIZE <= to,
        forall|i: int|
            0 <= i < s.len() ==> from <= (#[trigger] s[i]).start && s[i].start + HEADER_SIZE
                <= s[i].end() && s[i].end() <= to,
        forall|i: int, j: int|
            0 <= i < j < s.len() ==> (#[trigger] s[i]).end() <= (#[trigger] s[j]).start,
{
    assert forall|i: int| 0 <= i < s.len() implies from <= (#[trigger] s[i]).start && s[i].start
        + HEADER_SIZE <= s[i].end() && s[i].end() <= to by {
        lemma_linked_order(s, from, to, 0, i);
        lemma_linked_order(s, from, to, i, s.len() - 1);
    }
    assert forall|i: int, j: int| 0 <= i < j < s.len() implies (#[trigger] s[i]).end() <= (
    #[trigger] s[j]).start by {
        lemma_linked_order(s, from, to, i, j - 1);
        assert(s[j - 1].end() == s[j].start);
    }
    if s.len() > 0 {
        lemma_linked_order(s, from, to, 0, s.len() - 1);
    }
}

/// The spans of a linked chain add up to the distance between its ends.
pub proof fn lemma_linked_total(s: Seq<Block>, from: int, to: int)
    requires
        linked(s, from, to),
    ensures
        total_span(s) == to - from,
    decreases s.len(),
{
    if s.len() > 0 {
        let front = s.drop_last();
        let last = s.last();
        if front.len() == 0 {
            assert(total_span(front) == 0);
        } else {
            assert(front[front.len() - 1] == s[s.len() - 2]);
            assert(s[s.len() - 2].end() == s[s.len() - 1].start);
        }
        assert(linked(front, from, last.start)) by {
            assert forall|i: int, j: int| 0 <= i && j == i + 1 && j < front.len() implies (
            #[trigger] front[i]).end() == (#[trigger] front[j]).start by {
                assert(front[i] == s[i]);
                assert(front[j] == s[j]);
            }
        }
        lemma_linked_total(front, from, last.start);
    }
}

/// A walk that lands on `to` yields a linked chain that the bytes spell.
pub proof fn lemma_segment_chain(bytes: Seq<u8>, from: int, to: int)
    requires
        segment(bytes, from, to) is Some,
    ensures
        linked(segment(bytes, from, to).unwrap(), from, to),
        spelled(bytes, segment(bytes, from, to).unwrap()),
        from != to ==> 0 <= from && to <= bytes.len(),
    decreases to - from,
{
    if from != to {
        let b = block_at(bytes, from);
        lemma_segment_chain(bytes, b.end(), to);
        let rest = segment(bytes, b.end(), to).unwrap();
        let s = seq![b] + rest;
        assert(s == segment(bytes, from, to).unwrap());
        assert(s[0] == b);
        assert forall|i: int| 0 <= i < s.len() implies (#[trigger] s[i]).padding >= 0 && s[i].size
            >= 0 && block_at(bytes, s[i].start) == s[i] by {
            if i > 0 {
                assert(s[i] == rest[i - 1]);
            }
        }
        assert forall|i: int, j: int| 0 <= i && j == i + 1 && j < s.len() implies (
        #[trigger] s[i]).end() == (#[trigger] s[j]).start by {
            assert(s[j] == rest[j - 1]);
            if i > 0 {
                assert(s[i] == rest[i - 1]);
            }
        }
        if rest.len() > 0 {
            assert(s[s.len() - 1] == rest[rest.len() - 1]);
        }
    }
}

/// A linked chain that the bytes spell is what the walk yields.
pub proof fn lemma_chain_segment(bytes: Seq<u8>, s: Seq<Block>, from: int, to: int)
    requires
        linked(s, from, to),
        spelled(bytes, s),
        0 <= from,
        to <= bytes.len(),
    ensures
        segment(bytes, from, to) == Some(s),
    decreases s.len(),
{
    lemma_linked_bounds(s, from, to);
    if s.len() == 0 {
        assert(s =~= Seq::empty());
    } else {
        let b = s[0];
        let rest = s.subrange(1, s.len() as int);
        assert(block_at(bytes, from) == b);
        assert forall|i: int, j: int| 0 <= i && j == i + 1 && j < rest.len() implies (
        #[trigger] rest[i]).end() == (#[trigger] rest[j]).start by {
            assert(rest[i] == s[i + 1]);
            assert(rest[j] == s[j + 1]);
        }
        assert forall|i: int| 0 <= i < rest.len() implies (#[trigger] rest[i]).padding >= 0
            && rest[i].size >= 0 && block_at(bytes, rest[i].start) == rest[i] by {
            assert(rest[i] == s[i + 1]);
        }
        if rest.len() > 0 {
            assert(rest[0] == s[1]);
            assert(s[0].end() == s[1].start);
            assert(rest[rest.len() - 1] == s[s.len() - 1]);
        }
        assert(linked(rest, b.end(), to));
        lemma_chain_segment(bytes, rest, b.end(), to);
        assert(seq![b] + rest =~= s);
    }
}

/// A chain stays spelled where no byte of its headers changes: here the
/// bytes from `lo` up to `hi` may differ.
pub proof fn lemma_spelled_kept(
    a: Seq<u8>,
    b: Seq<u8>,
    s: Seq<Block>,
    from: int,
    to: int,
    lo: int,
    hi: int,
)
    requires
        linked(s, from, to),
        spelled(a, s),
        0 <= from,
        to <= a.len(),
        to <= b.len(),
        same_bytes(a, b, from, lo),
        same_bytes(a, b, hi, to),
    ensures
        forall|i: int|
            0 <= i < s.len() && ((#[trigger] s[i]).start + HEADER_SIZE <= lo || hi <= s[i].start)
                ==> block_at(b, s[i].start) == s[i],
{
    lemma_linked_bounds(s, from, to);
    assert forall|i: int|
        0 <= i < s.len() && ((#[trigger] s[i]).start + HEADER_SIZE <= lo || hi
            <= s[i].start) implies block_at(b, s[i].start) == s[i] by {
        lemma_header_frame(a, b, s[i].start);
    }
}

/// The blocks `i` to `j` of a linked chain can give way to one block over
/// the same bytes.
pub proof fn lemma_linked_replace(s: Seq<Block>, from: int, to: int, i: int, j: int, nb: Block)
    requires
        linked(s, from, to),
        0 <= i <= j < s.len(),
        nb.start == s[i].start,
        nb.end() == s[j].end(),
        nb.padding >= 0,
        nb.size >= 0,
    ensures
        linked(s.subrange(0, i).push(nb) + s.subrange(j + 1, s.len() as int), from, to),
{
    let t = s.subrange(0, i).push(nb) + s.subrange(j + 1, s.len() as int);
    assert(t.len() == s.len() - (j - i));
    assert forall|k: int| 0 <= k < t.len() implies (#[trigger] t[k]).padding >= 0 && t[k].size
        >= 0 by {
        if k < i {
            assert(t[k] == s[k]);
        } else if k > i {
            assert(t[k] == s[k + (j - i)]);
        }
    }
    assert forall|k: int, l: int| 0 <= k && l == k + 1 && l < t.len() implies (#[trigger] t[k]).end()
        == (#[trigger] t[l]).start by {
        if l < i {
            assert(t[k] == s[k] && t[l] == s[l]);
        } else if l == i {
            assert(t[k] == s[k]);
            assert(s[k].end() == s[i].start);
        } else if k == i {
            assert(t[l] == s[j + 1]);
            assert(s[j].end() == s[j + 1].start);
        } else {
            assert(t[k] == s[k + (j - i)] && t[l] == s[l + (j - i)]);
        }
    }
    if i > 0 {
        assert(t[0] == s[0]);
    }
    if j < s.len() - 1 {
        assert(t[t.len() - 1] == s[s.len() - 1]);
    }
}

/// A block of a linked chain can give way to two that share its bytes.
pub proof fn lemma_linked_split(s: Seq<Block>, from: int, to: int, i: int, b1: Block, b2: Block)
    requires
        linked(s, from, to),
        0 <= i < s.len(),
        b1.start == s[i].start,
        b1.end() == b2.start,
        b2.end() == s[i].end(),
        b1.padding >= 0,
        b1.size >= 0,
        b2.padding >= 0,
        b2.size >= 0,
    ensures
        linked(s.subrange(0, i).push(b1).push(b2) + s.subrange(i + 1, s.len() as int), from, to),
{
    let t = s.subrange(0, i).push(b1).push(b2) + s.subrange(i + 1, s.len() as int);
    assert(t.len() == s.len() + 1);
    assert forall|k: int| 0 <= k < t.len() implies (#[trigger] t[k]).padding >= 0 && t[k].size
        >= 0 by {
        if k < i {
            assert(t[k] == s[k]);
        } else if k > i + 1 {
            assert(t[k] == s[k - 1]);
        }
    }
    assert forall|k: int, l: int| 0 <= k && l == k + 1 && l < t.len() implies (#[trigger] t[k]).end()
        == (#[trigger] t[l]).start by {
        if l < i {
            assert(t[k] == s[k] && t[l] == s[l]);
        } else if l == i {
            assert(t[k] == s[k]);
            assert(s[k].end() == s[i].start);
        } else if k == i {
        } else if k == i + 1 {
            assert(t[l] == s[i + 1]);
            assert(s[i].end() == s[i + 1].start);
        } else {
            assert(t[k] == s[k - 1] && t[l] == s[l - 1]);
        }
    }
    if i > 0 {
        assert(t[0] == s[0]);
    }
    if i < s.len() - 1 {
        assert(t[t.len() - 1] == s[s.len() - 1]);
    }
}

/// A linked chain can take one more block at its end.
pub proof fn lemma_linked_push(s: Seq<Block>, from: int, to: int, nb: Block)
    requires
        linked(s, from, to),
        nb.start == to,
        nb.padding >= 0,
        nb.size >= 0,
    ensures
        linked(s.push(nb), from, nb.end()),
{
    let t = s.push(nb);
    assert forall|k: int, l: int| 0 <= k && l == k + 1 && l < t.len() implies (#[trigger] t[k]).end()
        == (#[trigger] t[l]).start by {
        assert(t[k] == s[k]);
        if l < s.len() {
            assert(t[l] == s[l]);
        }
    }
    if s.len() > 0 {
        assert(t[0] == s[0]);
    }
}

} // verus!
