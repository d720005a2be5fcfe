//! What the allocator decides, stated over the chain of blocks: which block
//! a request is given, how blocks are merged and split, and what a release
//! leaves behind.

use vstd::prelude::*;
use crate::chain::{lemma_linked_bounds, lemma_linked_push, linked, Block};
use crate::region::{same_bytes, HEADER_SIZE};

verus! {

/// The size of one page of the region, in bytes.
pub const PAGE_SIZE: usize = 4096;

/// The largest alignment that a request may ask for.
pub const MAX_ALIGN: usize = 32;

/// Why a request was turned down.
#[derive(Clone, Copy, Debug, PartialEq, Eq, Structural)]
pub enum AllocError {
    /// The alignment is not a power of two up to `MAX_ALIGN`.
    AlignmentUnsupported,
    /// No block fits and the region cannot grow any further.
    OutOfMemory,
    /// The address is not the data address of a block in use.
    InvariantViolation,
}

/// The alignments that the allocator serves.
pub open spec fn supported(align: int) -> bool {
    align == 1 || align == 2 || align == 4 || align == 8 || align == 16 || align == 32
}

/// The bytes to skip from `addr` to reach the next multiple of `align`.
pub open spec fn padding_for(addr: int, align: int) -> int {
    if addr % align == 0 {
        0
    } else {
        align - addr % align
    }
}

/// Whether the allocator serves `align`.
pub fn is_supported(align: usize) -> (r: bool)
    ensures
        r == supported(align as int),
        r ==> 1 <= align <= MAX_ALIGN,
{
    align == 1 || align == 2 || align == 4 || align == 8 || align == 16 || align == 32
}

/// The bytes to skip from `addr` to reach the next multiple of `align`.
pub fn padding_to(addr: usize, align: usize) -> (p: usize)
    requires
        0 < align,
    ensures
        p == padding_for(addr as int, align as int),
        p < align,
{
    let rest: usize = addr % align;
    if rest == 0 {
        0
    } else {
        align - rest
    }
}

/// The padding for `align` leads to a multiple of `align`.
pub proof fn lemma_aligned(addr: int, align: int)
    requires
        0 <= addr,
        supported(align),
    ensures
        (addr + padding_for(addr, align)) % align == 0,
        0 <= padding_for(addr, align) < align,
{
}

/// The padding that an occupant of `b` needs for `align`.
pub open spec fn seat_padding(b: Block, base: int, align: int) -> int {
    padding_for(base + b.start + HEADER_SIZE, align)
}

/// Whether the free block `b` alone has room for the request.
pub open spec fn fits(b: Block, base: int, size: int, align: int) -> bool {
    !b.used && b.room() >= size + seat_padding(b, base, align)
}

/// Whether the free blocks `a` and `b`, merged into `a`, have room for the
/// request. The footprint of `b`'s header is not counted.
pub open spec fn fits_merged(a: Block, b: Block, base: int, size: int, align: int) -> bool {
    !a.used && !b.used && a.room() + b.room() >= size + seat_padding(a, base, align)
}

/// Whether the search stops at block `i`: it is free and either fits, or
/// fits once merged into a free block right before it.
pub open spec fn accepts(s: Seq<Block>, i: int, base: int, size: int, align: int) -> bool {
    &&& 0 <= i < s.len()
    &&& !s[i].used
    &&& (fits(s[i], base, size, align) || (i > 0 && fits_merged(
        s[i - 1],
        s[i],
        base,
        size,
        align,
    )))
}

/// The lowest index from `from` on at which the search stops.
pub open spec fn first_accepting(s: Seq<Block>, from: int, base: int, size: int, align: int)
    -> Option<int>
    decreases s.len() - from,
{
    if from < 0 || from >= s.len() {
        None
    } else if accepts(s, from, base, size, align) {
        Some(from)
    } else {
        first_accepting(s, from + 1, base, size, align)
    }
}

/// The free block `b` with the padding for `align` recorded. Its end stays.
pub open spec fn seated(b: Block, base: int, align: int) -> Block {
    let p = seat_padding(b, base, align);
    Block { start: b.start, padding: p, size: b.room() - p, used: false }
}

/// The block that governs the spans of `a` and `b`, with the padding for
/// `align` recorded.
pub open spec fn merged(a: Block, b: Block, base: int, align: int) -> Block {
    let p = seat_padding(a, base, align);
    Block { start: a.start, padding: p, size: a.room() + b.span() - p, used: false }
}

/// The index of the block that is handed out when the search stops at `i`.
pub open spec fn accepted_index(s: Seq<Block>, i: int, base: int, size: int, align: int) -> int {
    if fits(s[i], base, size, align) {
        i
    } else {
        i - 1
    }
}

/// The chain after the search stopped at `i`.
pub open spec fn accept(s: Seq<Block>, i: int, base: int, size: int, align: int) -> Seq<Block> {
    if fits(s[i], base, size, align) {
        s.update(i, seated(s[i], base, align))
    } else {
        s.subrange(0, i - 1).push(merged(s[i - 1], s[i], base, align)) + s.subrange(
            i + 1,
            s.len() as int,
        )
    }
}

/// The free block that a new page at `top` brings.
pub open spec fn fresh_page(top: int) -> Block {
    Block { start: top, padding: 0, size: PAGE_SIZE - HEADER_SIZE, used: false }
}

/// The outcome of a search: the chain it leaves and the index of the block
/// it hands out, if any.
pub struct Search {
    pub chain: Seq<Block>,
    pub found: Option<int>,
}

/// The search for a block of `size` bytes aligned to `align`: the lowest
/// stop in the chain; where there is none, in the chain grown by one page
/// after the other, as long as `spare` pages are left.
pub open spec fn search(s: Seq<Block>, top: int, spare: nat, base: int, size: int, align: int)
    -> Search
    decreases spare,
{
    match first_accepting(s, 0, base, size, align) {
        Some(i) => Search {
            chain: accept(s, i, base, size, align),
            found: Some(accepted_index(s, i, base, size, align)),
        },
        None => if spare == 0 {
            Search { chain: s, found: None }
        } else {
            search(s.push(fresh_page(top)), top + PAGE_SIZE, (spare - 1) as nat, base, size, align)
        },
    }
}

/// Where the header stood that the search took in by a merge, if the
/// block that it hands out is a merged one.
pub open spec fn taken_in(s: Seq<Block>, top: int, spare: nat, base: int, size: int, align: int)
    -> Option<int>
    decreases spare,
{
    match first_accepting(s, 0, base, size, align) {
        Some(i) => if fits(s[i], base, size, align) {
            None
        } else {
            Some(s[i].start)
        },
        None => if spare == 0 {
            None
        } else {
            taken_in(s.push(fresh_page(top)), top + PAGE_SIZE, (spare - 1) as nat, base, size, align)
        },
    }
}

/// Whether the free block `b` is ready for an occupant of `size` bytes
/// aligned to `align`.
pub open spec fn seated_for(b: Block, base: int, size: int, align: int) -> bool {
    !b.used && b.padding == seat_padding(b, base, align) && b.size >= size
}

/// Whether the block leaves enough behind `size` bytes for a header and at
/// least one more byte.
pub open spec fn splits(b: Block, size: int) -> bool {
    b.size > size + HEADER_SIZE
}

/// The chain after block `i` was given to a request of `size` bytes: the
/// block is in use, and what it has beyond the request and a header's
/// footprint is a free block of its own.
pub open spec fn occupy(s: Seq<Block>, i: int, size: int) -> Seq<Block> {
    let b = s[i];
    if splits(b, size) {
        s.subrange(0, i).push(
            Block { start: b.start, padding: b.padding, size: size, used: true },
        ).push(
            Block {
                start: b.data_start() + size,
                padding: 0,
                size: b.size - size - HEADER_SIZE,
                used: false,
            },
        ) + s.subrange(i + 1, s.len() as int)
    } else {
        s.update(i, Block { start: b.start, padding: b.padding, size: b.size, used: true })
    }
}

/// Whether `addr` is the data address of block `i`, which is in use.
pub open spec fn owns(s: Seq<Block>, i: int, base: int, addr: int) -> bool {
    0 <= i < s.len() && s[i].used && base + s[i].data_start() == addr
}

/// Whether `addr` is the data address of some block in use.
pub open spec fn live(s: Seq<Block>, base: int, addr: int) -> bool {
    exists|i: int| owns(s, i, base, addr)
}

/// The index of the block in use whose data address is `addr`.
pub open spec fn owner(s: Seq<Block>, base: int, addr: int) -> int {
    choose|i: int| owns(s, i, base, addr)
}

/// The block `b` after its release: free, with its padding given back to
/// its size.
pub open spec fn released(b: Block) -> Block {
    Block { start: b.start, padding: 0, size: b.room(), used: false }
}

/// The lowest index from `from` on of a free block.
pub open spec fn next_free(s: Seq<Block>, from: int) -> Option<int>
    decreases s.len() - from,
{
    if from < 0 || from >= s.len() {
        None
    } else if !s[from].used {
        Some(from)
    } else {
        next_free(s, from + 1)
    }
}

/// The index of the last block of the run of free blocks behind block `j`
/// that is needed to gather `need` bytes, where `have` bytes are gathered up
/// to block `j`. Each block of the run counts with its whole span.
pub open spec fn reach(s: Seq<Block>, j: int, have: int, need: int) -> Option<int>
    decreases s.len() - j,
{
    if have >= need {
        Some(j)
    } else if 0 <= j && j + 1 < s.len() && !s[j + 1].used {
        reach(s, j + 1, have + s[j + 1].span(), need)
    } else {
        None
    }
}

/// The last block of the run of free blocks from block `a` on that has room
/// for the request, where there is such a run.
pub open spec fn run_from(s: Seq<Block>, a: int, base: int, size: int, align: int) -> Option<int> {
    if 0 <= a < s.len() && !s[a].used {
        reach(s, a, s[a].room(), size + seat_padding(s[a], base, align))
    } else {
        None
    }
}

/// The lowest index from `from` on of a free block with which a run begins
/// that has room for the request.
pub open spec fn first_run(s: Seq<Block>, from: int, base: int, size: int, align: int) -> Option<
    int,
>
    decreases s.len() - from,
{
    if from < 0 || from >= s.len() {
        None
    } else if run_from(s, from, base, size, align) is Some {
        Some(from)
    } else {
        first_run(s, from + 1, base, size, align)
    }
}

/// The block that governs the bytes of the blocks `a` to `j`.
pub open spec fn joined(s: Seq<Block>, a: int, j: int, padding: int, used: bool) -> Block {
    Block {
        start: s[a].start,
        padding: padding,
        size: s[j].end() - s[a].start - HEADER_SIZE - padding,
        used: used,
    }
}

/// The chain in which one block stands for the blocks `a` to `j`.
pub open spec fn join(s: Seq<Block>, a: int, j: int, padding: int, used: bool) -> Seq<Block> {
    s.subrange(0, a).push(joined(s, a, j, padding, used)) + s.subrange(j + 1, s.len() as int)
}

/// The move of a block's occupant to a run of free blocks: the lowest run
/// that has room; where there is none, in the chain grown by one page
/// after the other, as long as `spare` pages are left. The run becomes one
/// block in use.
pub open spec fn relocate(s: Seq<Block>, top: int, spare: nat, base: int, size: int, align: int)
    -> Search
    decreases spare,
{
    match first_run(s, 0, base, size, align) {
        Some(a) => Search {
            chain: join(
                s,
                a,
                run_from(s, a, base, size, align).unwrap(),
                seat_padding(s[a], base, align),
                true,
            ),
            found: Some(a),
        },
        None => if spare == 0 {
            Search { chain: s, found: None }
        } else {
            relocate(
                s.push(fresh_page(top)),
                top + PAGE_SIZE,
                (spare - 1) as nat,
                base,
                size,
                align,
            )
        },
    }
}

/// The chain in which a move finds its run: the chain as it is, or grown
/// by one page after the other until a run has room or no page is left.
pub open spec fn grown_for(s: Seq<Block>, top: int, spare: nat, base: int, size: int, align: int)
    -> Seq<Block>
    decreases spare,
{
    if first_run(s, 0, base, size, align) is Some || spare == 0 {
        s
    } else {
        grown_for(s.push(fresh_page(top)), top + PAGE_SIZE, (spare - 1) as nat, base, size, align)
    }
}

/// The least of three numbers.
pub open spec fn least(a: int, b: int, c: int) -> int {
    if a <= b && a <= c {
        a
    } else if b <= c {
        b
    } else {
        c
    }
}

/// Whether the data bytes of every block in use of `s` are the same in `a`
/// and `b`.
pub open spec fn data_kept(s: Seq<Block>, a: Seq<u8>, b: Seq<u8>) -> bool {
    forall|i: int|
        0 <= i < s.len() && (#[trigger] s[i]).used ==> same_bytes(
            a,
            b,
            s[i].data_start(),
            s[i].end(),
        )
}

/// Whether the bytes below `top` that lie outside the block `b` are the
/// same in `a` and `c`.
pub open spec fn kept_outside(a: Seq<u8>, c: Seq<u8>, top: int, b: Block) -> bool {
    forall|j: int| 0 <= j < top && !(b.start <= j < b.end()) ==> a[j] == c[j]
}

/// Whether the bytes from `from` up to `to` are zero.
pub open spec fn zeroed(bytes: Seq<u8>, from: int, to: int) -> bool {
    forall|j: int| from <= j < to ==> bytes[j] == 0u8
}

/// Whether the headers of the blocks behind `a` up to `j` of `g` are zero in
/// `bytes`, as far as they stand at `from` or behind it.
pub open spec fn run_zeroed(bytes: Seq<u8>, g: Seq<Block>, a: int, j: int, from: int) -> bool {
    forall|t: int|
        a < t <= j && (#[trigger] g[t]).start >= from ==> {
            &&& 0 <= g[t].start
            &&& g[t].start + HEADER_SIZE <= bytes.len()
            &&& zeroed(bytes, g[t].start, g[t].start + HEADER_SIZE)
        }
}

/// Whether the block `b` shares no byte with a block in use of `olds`.
pub open spec fn apart(olds: Seq<Block>, b: Block) -> bool {
    forall|q: int|
        0 <= q < olds.len() && (#[trigger] olds[q]).used ==> olds[q].end() <= b.start || b.end()
            <= olds[q].start
}

/// The search stops at `i` where it stops at no index from `from` up to `i`.
pub proof fn lemma_first_accepting(
    s: Seq<Block>,
    from: int,
    i: int,
    base: int,
    size: int,
    align: int,
)
    requires
        0 <= from <= i,
        accepts(s, i, base, size, align),
        forall|k: int| from <= k < i ==> !accepts(s, k, base, size, align),
    ensures
        first_accepting(s, from, base, size, align) == Some(i),
    decreases i - from,
{
    if from < i {
        lemma_first_accepting(s, from + 1, i, base, size, align);
    }
}

/// The search stops nowhere from `from` on where no index accepts.
pub proof fn lemma_none_accepting(s: Seq<Block>, from: int, base: int, size: int, align: int)
    requires
        0 <= from,
        forall|k: int| from <= k < s.len() ==> !accepts(s, k, base, size, align),
    ensures
        first_accepting(s, from, base, size, align) is None,
    decreases s.len() - from,
{
    if from < s.len() {
        lemma_none_accepting(s, from + 1, base, size, align);
    }
}

/// Where the search stops at `i` first, it stops at `i` and at no index
/// before it.
pub proof fn lemma_first_accepting_is(
    s: Seq<Block>,
    from: int,
    i: int,
    base: int,
    size: int,
    align: int,
)
    requires
        first_accepting(s, from, base, size, align) == Some(i),
    ensures
        0 <= from <= i < s.len(),
        accepts(s, i, base, size, align),
        forall|k: int| from <= k < i ==> !accepts(s, k, base, size, align),
    decreases s.len() - from,
{
    if !accepts(s, from, base, size, align) {
        lemma_first_accepting_is(s, from + 1, i, base, size, align);
    }
}

/// The search stops in the chain as it is, at or before `i`, where it can
/// stop at `i`.
pub proof fn lemma_stops_by(s: Seq<Block>, from: int, i: int, base: int, size: int, align: int)
    requires
        0 <= from <= i,
        accepts(s, i, base, size, align),
    ensures
        first_accepting(s, from, base, size, align) is Some,
        first_accepting(s, from, base, size, align).unwrap() <= i,
    decreases i - from,
{
    if from < i && !accepts(s, from, base, size, align) {
        lemma_stops_by(s, from + 1, i, base, size, align);
    }
}

/// A run begins at `i` first where none begins from `from` up to `i`.
pub proof fn lemma_first_run(s: Seq<Block>, from: int, i: int, base: int, size: int, align: int)
    requires
        0 <= from <= i < s.len(),
        run_from(s, i, base, size, align) is Some,
        forall|k: int| from <= k < i ==> run_from(s, k, base, size, align) is None,
    ensures
        first_run(s, from, base, size, align) == Some(i),
    decreases i - from,
{
    if from < i {
        lemma_first_run(s, from + 1, i, base, size, align);
    }
}

/// No run begins from `from` on where none begins at any index.
pub proof fn lemma_no_run(s: Seq<Block>, from: int, base: int, size: int, align: int)
    requires
        0 <= from,
        forall|k: int| from <= k < s.len() ==> run_from(s, k, base, size, align) is None,
    ensures
        first_run(s, from, base, size, align) is None,
    decreases s.len() - from,
{
    if from < s.len() {
        lemma_no_run(s, from + 1, base, size, align);
    }
}

/// Data in use is kept by a write that stays inside free blocks: here the
/// blocks `i` to `j` of `s`, of which `olds` is the beginning.
pub proof fn lemma_data_kept(
    olds: Seq<Block>,
    s: Seq<Block>,
    top: int,
    a: Seq<u8>,
    m: Seq<u8>,
    b: Seq<u8>,
    i: int,
    j: int,
    lo: int,
    hi: int,
)
    requires
        linked(s, 0, top),
        olds.len() <= s.len(),
        forall|k: int| 0 <= k < olds.len() ==> s[k] == olds[k],
        0 <= i <= j < s.len(),
        forall|k: int| i <= k <= j ==> !s[k].used,
        s[i].start <= lo,
        hi <= s[j].end(),
        data_kept(olds, a, m),
        same_bytes(b, m, 0, lo),
        same_bytes(b, m, hi, top),
    ensures
        data_kept(olds, a, b),
{
    lemma_linked_bounds(s, 0, top);
    assert forall|k: int| 0 <= k < olds.len() && (#[trigger] olds[k]).used implies same_bytes(
        a,
        b,
        olds[k].data_start(),
        olds[k].end(),
    ) by {
        assert(s[k] == olds[k]);
        assert(same_bytes(a, m, olds[k].data_start(), olds[k].end()));
        if k < i {
            assert(s[k].end() <= s[i].start);
        } else {
            assert(k > j);
            assert(s[j].end() <= s[k].start);
        }
    }
}

/// Data in use is kept by a write at or above the top of the chain.
pub proof fn lemma_data_kept_above(
    olds: Seq<Block>,
    s: Seq<Block>,
    top: int,
    a: Seq<u8>,
    m: Seq<u8>,
    b: Seq<u8>,
)
    requires
        linked(s, 0, top),
        olds.len() <= s.len(),
        forall|k: int| 0 <= k < olds.len() ==> s[k] == olds[k],
        data_kept(olds, a, m),
        same_bytes(b, m, 0, top),
    ensures
        data_kept(olds, a, b),
{
    lemma_linked_bounds(s, 0, top);
    assert forall|k: int| 0 <= k < olds.len() && (#[trigger] olds[k]).used implies same_bytes(
        a,
        b,
        olds[k].data_start(),
        olds[k].end(),
    ) by {
        assert(s[k] == olds[k]);
        assert(same_bytes(a, m, olds[k].data_start(), olds[k].end()));
    }
}

/// One block over the free blocks `k` to `i` of `s` is apart from the
/// blocks in use of `olds`, the beginning of `s`.
pub proof fn lemma_apart(olds: Seq<Block>, s: Seq<Block>, top: int, k: int, i: int, nb: Block)
    requires
        linked(s, 0, top),
        olds.len() <= s.len(),
        forall|q: int| 0 <= q < olds.len() ==> s[q] == olds[q],
        0 <= k <= i < s.len(),
        forall|t: int| k <= t <= i ==> !s[t].used,
        nb.start == s[k].start,
        nb.end() == s[i].end(),
    ensures
        apart(olds, nb),
{
    lemma_linked_bounds(s, 0, top);
    assert forall|q: int| 0 <= q < olds.len() && (#[trigger] olds[q]).used implies olds[q].end()
        <= nb.start || nb.end() <= olds[q].start by {
        assert(s[q] == olds[q]);
        if q < k {
            assert(s[q].end() <= s[k].start);
        } else {
            assert(q > i);
            assert(s[i].end() <= s[q].start);
        }
    }
}

/// Data in use is kept by a write that stays inside a block apart from it.
pub proof fn lemma_data_kept_apart(
    olds: Seq<Block>,
    old_top: int,
    top: int,
    a: Seq<u8>,
    m: Seq<u8>,
    b: Seq<u8>,
    blk: Block,
    lo: int,
    hi: int,
)
    requires
        linked(olds, 0, old_top),
        old_top <= top,
        apart(olds, blk),
        blk.start <= lo,
        hi <= blk.end(),
        data_kept(olds, a, m),
        same_bytes(b, m, 0, lo),
        same_bytes(b, m, hi, top),
    ensures
        data_kept(olds, a, b),
{
    lemma_linked_bounds(olds, 0, old_top);
    assert forall|k: int| 0 <= k < olds.len() && (#[trigger] olds[k]).used implies same_bytes(
        a,
        b,
        olds[k].data_start(),
        olds[k].end(),
    ) by {
        assert(same_bytes(a, m, olds[k].data_start(), olds[k].end()));
    }
}

/// Data that is kept from `a` to `m` and from `m` to `b` is kept from `a`
/// to `b`.
pub proof fn lemma_data_kept_twice(s: Seq<Block>, a: Seq<u8>, m: Seq<u8>, b: Seq<u8>)
    requires
        data_kept(s, a, m),
        data_kept(s, m, b),
    ensures
        data_kept(s, a, b),
{
    assert forall|k: int| 0 <= k < s.len() && (#[trigger] s[k]).used implies same_bytes(
        a,
        b,
        s[k].data_start(),
        s[k].end(),
    ) by {
        assert(same_bytes(a, m, s[k].data_start(), s[k].end()));
        assert(same_bytes(m, b, s[k].data_start(), s[k].end()));
    }
}

/// Two free neighbours that have room together serve a request without a
/// new page: the search stops at the second of them or before.
pub proof fn lemma_merge_without_growth(
    s: Seq<Block>,
    top: int,
    spare: nat,
    i: int,
    base: int,
    size: int,
    align: int,
)
    requires
        0 < i < s.len(),
        fits_merged(s[i - 1], s[i], base, size, align),
    ensures
        first_accepting(s, 0, base, size, align) is Some,
        search(s, top, spare, base, size, align).found is Some,
        search(s, top, spare, base, size, align).chain.len() <= s.len(),
{
    lemma_stops_by(s, 0, i, base, size, align);
    let j = first_accepting(s, 0, base, size, align).unwrap();
    lemma_first_accepting_is(s, 0, j, base, size, align);
}

/// A request for more than a fresh page holds is turned down where the
/// region cannot grow. Where it can, and two pages hold the request, one new
/// page is merged with the first, and no more is added.
pub proof fn lemma_beyond_one_page(spare: nat, base: int, size: int, align: int)
    requires
        0 <= base,
        supported(align),
        size > PAGE_SIZE - HEADER_SIZE,
    ensures
        ({
            let s = seq![fresh_page(0)];
            let m = search(s, PAGE_SIZE as int, spare, base, size, align);
            let both = merged(fresh_page(0), fresh_page(PAGE_SIZE as int), base, align);
            &&& spare == 0 ==> m.found is None && m.chain == s
            &&& spare > 0 && size + seat_padding(fresh_page(0), base, align) <= 2 * (PAGE_SIZE
                - HEADER_SIZE) ==> {
                &&& m.found == Some(0int)
                &&& m.chain == seq![both]
                &&& both.end() == 2 * PAGE_SIZE
            }
        }),
{
    let s = seq![fresh_page(0)];
    lemma_aligned(base + HEADER_SIZE, align);
    lemma_aligned(base + PAGE_SIZE + HEADER_SIZE, align);
    assert(s[0] == fresh_page(0));
    lemma_none_accepting(s, 0, base, size, align);
    if spare > 0 && size + seat_padding(fresh_page(0), base, align) <= 2 * (PAGE_SIZE
        - HEADER_SIZE) {
        let t = s.push(fresh_page(PAGE_SIZE as int));
        assert(t[0] == fresh_page(0));
        assert(t[1] == fresh_page(PAGE_SIZE as int));
        assert(!accepts(t, 0, base, size, align));
        assert(accepts(t, 1, base, size, align));
        lemma_first_accepting(t, 0, 1, base, size, align);
        let both = merged(fresh_page(0), fresh_page(PAGE_SIZE as int), base, align);
        assert(accept(t, 1, base, size, align) =~= seq![both]);
        let grown = search(t, PAGE_SIZE + PAGE_SIZE, (spare - 1) as nat, base, size, align);
        assert(grown.found == Some(0int));
        assert(grown.chain == seq![both]);
        assert(search(s, PAGE_SIZE as int, spare, base, size, align) == grown);
    }
}

/// A block that is handed out and taken back at once is handed out again
/// to the same request, at the same address and without a new page.
pub proof fn lemma_round_trip(
    s: Seq<Block>,
    top: int,
    spare: nat,
    later_top: int,
    later_spare: nat,
    base: int,
    size: int,
    align: int,
)
    requires
        linked(s, 0, top),
        0 <= base,
        0 <= size,
        supported(align),
        search(s, top, spare, base, size, align).found is Some,
    ensures
        ({
            let m = search(s, top, spare, base, size, align);
            let i = m.found.unwrap();
            let held = occupy(m.chain, i, size);
            let back = held.update(i, released(held[i]));
            let again = search(back, later_top, later_spare, base, size, align);
            &&& 0 <= i < held.len()
            &&& held[i].used
            &&& held[i].data_start() == m.chain[i].data_start()
            &&& first_accepting(back, 0, base, size, align) == Some(i)
            &&& again.found == Some(i)
            &&& again.chain.len() == back.len()
            &&& again.chain[i].data_start() == m.chain[i].data_start()
            &&& occupy(again.chain, i, size) == held
        }),
    decreases spare,
{
    match first_accepting(s, 0, base, size, align) {
        Some(i0) => {
            lemma_first_accepting_is(s, 0, i0, base, size, align);
            lemma_linked_bounds(s, 0, top);
            let c = accept(s, i0, base, size, align);
            let i = accepted_index(s, i0, base, size, align);
            let held = occupy(c, i, size);
            let back = held.update(i, released(held[i]));
            lemma_aligned(base + s[i].start + HEADER_SIZE, align);
            assert(c[i].start == s[i].start);
            assert(held[i].start == s[i].start);
            assert(fits(back[i], base, size, align));
            assert forall|k: int| 0 <= k < i implies !accepts(back, k, base, size, align) by {
                assert(back[k] == s[k]);
                if k > 0 {
                    assert(back[k - 1] == s[k - 1]);
                }
                assert(!accepts(s, k, base, size, align));
            }
            lemma_first_accepting(back, 0, i, base, size, align);
            let again = accept(back, i, base, size, align);
            assert(occupy(again, i, size) =~= held);
        },
        None => {
            lemma_linked_push(s, 0, top, fresh_page(top));
            lemma_round_trip(
                s.push(fresh_page(top)),
                top + PAGE_SIZE,
                (spare - 1) as nat,
                later_top,
                later_spare,
                base,
                size,
                align,
            );
        },
    }
}

/// A block in use grows into the free block right behind it where the two
/// together hold the new size: its data stays where it is, and no block
/// behind the neighbour is touched.
pub proof fn lemma_grow_into_neighbour(s: Seq<Block>, k: int, new_size: int)
    requires
        0 <= k,
        k + 1 < s.len(),
        !s[k + 1].used,
        s[k].size < new_size <= s[k].size + s[k + 1].span(),
    ensures
        reach(s, k, s[k].size, new_size) == Some(k + 1),
        join(s, k, k + 1, s[k].padding, true)[k].data_start() == s[k].data_start(),
        join(s, k, k + 1, s[k].padding, true)[k].end() == s[k + 1].end(),
        join(s, k, k + 1, s[k].padding, true).subrange(k + 1, s.len() - 1) == s.subrange(
            k + 2,
            s.len() as int,
        ),
{
    assert(reach(s, k + 1, s[k].size + s[k + 1].span(), new_size) == Some(k + 1));
    let t = join(s, k, k + 1, s[k].padding, true);
    assert(t.subrange(k + 1, s.len() - 1) =~= s.subrange(k + 2, s.len() as int));
}

} // verus!
