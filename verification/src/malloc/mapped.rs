//! Chunks that live in a private mapping of their own: their header, and the
//! decisions of freeing and resizing them around the mapping calls.

use vstd::prelude::*;
use super::{adjust_size, adjusted, too_large, OVERHEAD, PAGE_SIZE, SIZE_ALIGN};

verus! {

/// The two header words of a chunk: the size of the chunk before it (or, for a
/// mapped chunk, the distance back to the mapping's start) and its own size.
/// The low bit of `csize` is set while a heap chunk is in use; a mapped chunk has
/// it clear.
#[derive(Clone, Copy)]
pub struct Chunk {
    pub psize: usize,
    pub csize: usize,
}

impl Chunk {
    /// Whether the chunk lives in a private mapping.
    pub fn is_mmapped(&self) -> (b: bool)
        ensures
            b == (self.csize % 2 == 0),
    {
        let c = self.csize;
        assert(c & 1 == c % 2) by (bit_vector);
        (c & 1) == 0
    }

    /// The chunk's size, without the in-use bit.
    pub fn size(&self) -> (r: usize)
        ensures
            r == self.csize - self.csize % 2,
    {
        let c = self.csize;
        assert(c & !1usize == c - c % 2) by (bit_vector);
        c & !1usize
    }

    /// The size of the chunk before it, without the in-use bit.
    pub fn psize(&self) -> (r: usize)
        ensures
            r == self.psize - self.psize % 2,
    {
        let p = self.psize;
        assert(p & !1usize == p - p % 2) by (bit_vector);
        p & !1usize
    }

    /// The address of the chunk whose memory starts at `p`.
    pub fn from_mem(p: usize) -> (c: usize)
        requires
            p >= OVERHEAD,
        ensures
            c == p - OVERHEAD,
    {
        p - OVERHEAD
    }

    /// The address of the memory of the chunk at `c`.
    pub fn as_mem(c: usize) -> (p: usize)
        requires
            c + OVERHEAD <= usize::MAX,
        ensures
            p == c + OVERHEAD,
    {
        c + OVERHEAD
    }
}

/// `x` rounded up to whole pages.
pub open spec fn page_up(x: int) -> int {
    ((x + PAGE_SIZE - 1) / (PAGE_SIZE as int)) * (PAGE_SIZE as int)
}

/// The chunk laid out in a fresh mapping of `len` bytes at `base`: it starts one
/// alignment unit in, less the header, and records that distance as `psize`.
pub open spec fn chunk_in_mapping(base: int, len: int) -> (usize, Chunk) {
    (
        (base + (SIZE_ALIGN - OVERHEAD)) as usize,
        Chunk { psize: (SIZE_ALIGN - OVERHEAD) as usize, csize: (len - (SIZE_ALIGN - OVERHEAD)) as usize },
    )
}

/// The mapping that holds the mapped chunk at `c`: it starts `psize` bytes before
/// the chunk and spans the chunk too. A `psize` with its low bit set marks a chunk
/// freed before, which has none.
pub open spec fn mapping_of(c: int, hdr: Chunk) -> Option<(usize, usize)> {
    if hdr.psize % 2 == 1 {
        None
    } else {
        Some(((c - hdr.psize) as usize, (hdr.csize - hdr.csize % 2 + hdr.psize) as usize))
    }
}

/// Lays out a chunk in a fresh mapping of `len` bytes at `base`, as mapping
/// returned it: nothing when the mapping failed (`base` is -1).
pub fn map_chunk(base: usize, len: usize) -> (r: Option<(usize, Chunk)>)
    requires
        len >= SIZE_ALIGN - OVERHEAD,
        base == usize::MAX || base + SIZE_ALIGN <= usize::MAX,
    ensures
        base == usize::MAX ==> r is None,
        base != usize::MAX ==> r == Some(chunk_in_mapping(base as int, len as int)),
{
    if base == usize::MAX {
        return None;
    }
    let c = base + (SIZE_ALIGN - OVERHEAD);
    Some((c, Chunk { psize: SIZE_ALIGN - OVERHEAD, csize: len - (SIZE_ALIGN - OVERHEAD) }))
}

/// The mapping to give back when freeing the mapped chunk at `c`; none for a chunk
/// freed before, and then the caller must crash.
pub fn unmap_range(c: usize, hdr: &Chunk) -> (r: Option<(usize, usize)>)
    requires
        hdr.psize <= c,
        hdr.csize - hdr.csize % 2 + hdr.psize <= usize::MAX,
    ensures
        r == mapping_of(c as int, *hdr),
{
    let extra = hdr.psize;
    let base = c - extra;
    let len = hdr.size() + extra;
    assert(extra & 1 == extra % 2) by (bit_vector);
    if extra & 1 != 0 {
        return None;
    }
    Some((base, len))
}

/// Freeing a chunk laid out in a fresh mapping gives back exactly that mapping,
/// for a mapping of an even length.
pub proof fn lemma_unmap_gives_back_mapping(base: usize, len: usize)
    requires
        base + SIZE_ALIGN <= usize::MAX,
        len >= SIZE_ALIGN - OVERHEAD,
        len % 2 == 0,
    ensures
        mapping_of(chunk_in_mapping(base as int, len as int).0 as int, chunk_in_mapping(base as int, len as int).1)
            == Some((base, len)),
{
}

/// A step in resizing a mapped chunk.
pub enum MappedResize {
    /// The new size is too large: return null.
    Fail,
    /// The chunk was freed before: crash.
    Crash,
    /// Ask the heap for `n` bytes, then go on with `resize_after_allocate`.
    Allocate { n: usize },
    /// Copy `copy` bytes into the heap allocation, free the chunk and return the
    /// heap allocation.
    MoveToHeap { copy: usize },
    /// Return the chunk as it is.
    Keep,
    /// Remap `old_len` bytes at `base` to `new_len` bytes, then go on with
    /// `resize_after_remap`.
    Remap { base: usize, old_len: usize, new_len: usize },
    /// Write `csize` as the size of the chunk at `chunk`, and return `mem`.
    Remapped { chunk: usize, csize: usize, mem: usize },
}

/// What becomes of the mapping of the chunk at `c` resized to the rounded size
/// `n` when it stays a mapping: kept when its page-rounded length is unchanged,
/// remapped to that length when not.
pub open spec fn remap_plan(c: int, hdr: Chunk, n: int) -> MappedResize {
    if page_up(n + hdr.psize) == hdr.csize + hdr.psize {
        MappedResize::Keep
    } else {
        MappedResize::Remap {
            base: (c - hdr.psize) as usize,
            old_len: (hdr.csize + hdr.psize) as usize,
            new_len: page_up(n + hdr.psize) as usize,
        }
    }
}

fn plan_remap(c: usize, hdr: &Chunk, n: usize) -> (r: MappedResize)
    requires
        hdr.csize % 2 == 0,
        hdr.psize <= c,
        hdr.csize + hdr.psize <= usize::MAX,
        n + hdr.psize + PAGE_SIZE <= usize::MAX,
    ensures
        r == remap_plan(c as int, *hdr, n as int),
{
    let extra = hdr.psize;
    let base = c - extra;
    let old_len = hdr.size() + extra;
    let x = n + extra + PAGE_SIZE - 1;
    assert(x & !4095usize == x - x % 4096) by (bit_vector);
    let new_len = x & !(PAGE_SIZE - 1);
    if old_len == new_len {
        return MappedResize::Keep;
    }
    MappedResize::Remap { base, old_len, new_len }
}

/// The first step in resizing the mapped chunk at `c`, with header `hdr`, to `n`
/// bytes: a size too large fails and a chunk freed before crashes. A rounded size
/// that fits in a page with the header asks the heap for a block of that rounded
/// size to move to; a larger one stays a mapping, kept or remapped.
pub fn resize_mapped(c: usize, hdr: &Chunk, n: usize) -> (r: MappedResize)
    requires
        hdr.csize % 2 == 0,
        hdr.psize <= c,
        hdr.csize + hdr.psize <= usize::MAX,
        !too_large(n as int) ==> adjusted(n as int) + hdr.psize + PAGE_SIZE <= usize::MAX,
    ensures
        too_large(n as int) ==> (r is Fail),
        !too_large(n as int) && hdr.psize % 2 == 1 ==> (r is Crash),
        !too_large(n as int) && hdr.psize % 2 == 0 && adjusted(n as int) + hdr.psize < PAGE_SIZE ==> r
            == (MappedResize::Allocate { n: adjusted(n as int) as usize }),
        !too_large(n as int) && hdr.psize % 2 == 0 && adjusted(n as int) + hdr.psize >= PAGE_SIZE ==> r
            == remap_plan(c as int, *hdr, adjusted(n as int)),
{
    let mut n = n;
    if adjust_size(&mut n) < 0 {
        return MappedResize::Fail;
    }
    let extra = hdr.psize;
    assert(extra & 1 == extra % 2) by (bit_vector);
    if extra & 1 != 0 {
        return MappedResize::Crash;
    }
    if n + extra < PAGE_SIZE {
        return MappedResize::Allocate { n };
    }
    plan_remap(c, hdr, n)
}

/// The step after the heap was asked for a block (`got` tells whether it gave
/// one) while resizing the mapped chunk at `c` to the rounded size `n`: with the
/// block, `n` bytes less the header move to it; without, the chunk stays a
/// mapping, kept or remapped.
pub fn resize_after_allocate(c: usize, hdr: &Chunk, n: usize, got: bool) -> (r: MappedResize)
    requires
        hdr.csize % 2 == 0,
        hdr.psize <= c,
        hdr.csize + hdr.psize <= usize::MAX,
        OVERHEAD <= n,
        n + hdr.psize + PAGE_SIZE <= usize::MAX,
    ensures
        got ==> r == (MappedResize::MoveToHeap { copy: (n - OVERHEAD) as usize }),
        !got ==> r == remap_plan(c as int, *hdr, n as int),
{
    if got {
        return MappedResize::MoveToHeap { copy: n - OVERHEAD };
    }
    plan_remap(c, hdr, n)
}

/// The step after remapping `old_len` bytes to `new_len` bytes, with `base` the
/// result (-1 when remapping failed): a failed shrink keeps the chunk, a failed
/// growth fails; a moved or resized mapping gets its chunk's size rewritten.
pub fn resize_after_remap(hdr: &Chunk, old_len: usize, new_len: usize, base: usize) -> (r: MappedResize)
    requires
        hdr.psize <= new_len,
        base == usize::MAX || base + hdr.psize + OVERHEAD <= usize::MAX,
    ensures
        base == usize::MAX && new_len < old_len ==> (r is Keep),
        base == usize::MAX && new_len >= old_len ==> (r is Fail),
        base != usize::MAX ==> r == (MappedResize::Remapped {
            chunk: (base + hdr.psize) as usize,
            csize: (new_len - hdr.psize) as usize,
            mem: (base + hdr.psize + OVERHEAD) as usize,
        }),
{
    if base == usize::MAX {
        return if new_len < old_len {
            MappedResize::Keep
        } else {
            MappedResize::Fail
        };
    }
    let extra = hdr.psize;
    let chunk = base + extra;
    MappedResize::Remapped { chunk, csize: new_len - extra, mem: Chunk::as_mem(chunk) }
}

/// What becomes of a mapped chunk that stays a mapping when resized to the
/// rounded size `n`: it is kept exactly when its mapping already has the length
/// that `n` and the header need, rounded up to whole pages, and then the chunk
/// holds the `n` bytes; otherwise its mapping, from its start, is remapped to that
/// length, which holds them too and is less than a page more.
pub proof fn lemma_remap_plan_holds_the_size(c: int, hdr: Chunk, n: int)
    requires
        hdr.psize <= c <= usize::MAX,
        hdr.csize % 2 == 0,
        hdr.csize + hdr.psize <= usize::MAX,
        0 <= n,
        n + hdr.psize + PAGE_SIZE <= usize::MAX,
    ensures
        (remap_plan(c, hdr, n) is Keep) <==> ((hdr.csize + hdr.psize) % 4096 == 0 && n + hdr.psize
            <= hdr.csize + hdr.psize < n + hdr.psize + 4096),
        (remap_plan(c, hdr, n) is Keep) ==> n <= hdr.csize,
        !(remap_plan(c, hdr, n) is Keep) ==> (remap_plan(c, hdr, n) matches MappedResize::Remap {
            base,
            old_len,
            new_len,
        } && base == c - hdr.psize && old_len == hdr.csize + hdr.psize && new_len % 4096 == 0 && n
            + hdr.psize <= new_len < n + hdr.psize + 4096),
{
    let x = n + hdr.psize;
    let q = (x + 4095) / 4096;
    assert(page_up(x) == q * 4096);
    assert(x <= q * 4096 < x + 4096) by (nonlinear_arith)
        requires
            q == (x + 4095) / 4096,
            x >= 0,
    ;
    assert((q * 4096) % 4096 == 0) by (nonlinear_arith);
    let o = hdr.csize + hdr.psize;
    if o % 4096 == 0 && x <= o < x + 4096 {
        let qo = o / 4096;
        assert(o == qo * 4096);
        assert(qo == q) by (nonlinear_arith)
            requires
                o == qo * 4096,
                x <= o < x + 4096,
                x <= q * 4096 < x + 4096,
        ;
    }
}

} // verus!
