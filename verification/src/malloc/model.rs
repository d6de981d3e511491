//! The heap's state over plain values: what a well-formed heap is, and how each
//! basic step on chunks and bins keeps it well formed.

use vstd::prelude::*;
use super::spans::{
    coalesced, lemma_tiled_ordered, csize_at, free_map, lemma_maps_from_spans, lemma_maps_hold_spans, lemma_maps_pair,
    lemma_map_keys_within, lemma_maps_single, lemma_free_map_concat, lemma_used_map_concat, lemma_replace_layout, lemma_replace_maps, lemma_tiled_ascending,
    lemma_tiled_below_top, psize_at, replaced, span_end, tag, tags_ok, tiled, tiles_between, top,
    used_map, Span,
};
use super::{bin_of, lemma_bin_of_range, OVERHEAD, PAGE_SIZE, RECLAIM, SIZE_ALIGN};

verus! {

/// A range of the arena whose pages may be handed back to the system: the
/// middle of a large free chunk.
#[derive(Clone, Copy)]
pub struct Reclaim {
    pub start: usize,
    pub len: usize,
}

/// The largest arena a heap may be given, in bytes: a quarter of the address
/// space, so that sums of a few sizes and addresses within it never overflow.
pub const HEAP_LIMIT: usize = usize::MAX / 4;

/// Whether bit `k` of `b` is set.
pub open spec fn bit(b: u64, k: int) -> bool {
    (b >> (k as u64)) & 1u64 == 1u64
}

#[verifier::spinoff_prover]
pub proof fn lemma_bit_set(b: u64, i: u64, k: u64)
    requires
        i < 64,
        k < 64,
    ensures
        ((b | (1u64 << i)) >> k) & 1u64 == 1u64 <==> ((b >> k) & 1u64 == 1u64 || k == i),
{
    assert(((b | (1u64 << i)) >> k) & 1u64 == 1u64 <==> ((b >> k) & 1u64 == 1u64 || k == i))
        by (bit_vector)
        requires
            i < 64,
            k < 64,
    ;
}

#[verifier::spinoff_prover]
pub proof fn lemma_bit_clear(b: u64, i: u64, k: u64)
    requires
        i < 64,
        k < 64,
    ensures
        ((b & !(1u64 << i)) >> k) & 1u64 == 1u64 <==> ((b >> k) & 1u64 == 1u64 && k != i),
{
    assert(((b & !(1u64 << i)) >> k) & 1u64 == 1u64 <==> ((b >> k) & 1u64 == 1u64 && k != i))
        by (bit_vector)
        requires
            i < 64,
            k < 64,
    ;
}

#[verifier::spinoff_prover]
pub proof fn lemma_tag_bits(s: usize)
    requires
        s % 2 == 0,
        s < HEAP_LIMIT,
    ensures
        s | 1 == s + 1,
        (s | 1) & !1usize == s,
        s & !1usize == s,
        (s | 1) & 1 == 1,
        s & 1 == 0,
{
    assert(s | 1 == s + 1 && (s | 1) & !1usize == s && s & !1usize == s && (s | 1) & 1 == 1 && s
        & 1 == 0) by (bit_vector)
        requires
            s % 2 == 0,
    ;
}

/// The bins list exactly the free chunks, each once, in the bin of its size class,
/// and the bitmap marks the bins that are not empty.
pub open spec fn bins_match(fm: Map<int, int>, bins: Seq<Seq<usize>>, binmap: u64) -> bool {
    &&& bins.len() == 64
    &&& forall|a: int| #[trigger]
        fm.contains_key(a) ==> fm[a] >= SIZE_ALIGN && 0 <= a < HEAP_LIMIT
    &&& forall|i: int, q: int|
        #![trigger bins[i][q]]
        0 <= i < 64 && 0 <= q < bins[i].len() ==> fm.contains_key(bins[i][q] as int) && bin_of(
            fm[bins[i][q] as int],
        ) == i
    &&& forall|a: int| #[trigger] fm.contains_key(a) ==> bins[bin_of(fm[a])].contains(a as usize)
    &&& forall|i: int| 0 <= i < 64 ==> (#[trigger] bins[i]).no_duplicates()
    &&& forall|i: int| 0 <= i < 64 ==> (bit(binmap, i) <==> #[trigger] bins[i].len() > 0)
}

/// Taking entry `q` out of bin `i` matches taking its chunk out of the free chunks.
#[verifier::spinoff_prover]
proof fn lemma_bins_remove(fm: Map<int, int>, bins: Seq<Seq<usize>>, binmap: u64, i: int, q: int)
    requires
        bins_match(fm, bins, binmap),
        0 <= i < 64,
        0 <= q < bins[i].len(),
    ensures
        bins_match(
            fm.remove(bins[i][q] as int),
            bins.update(i, bins[i].remove(q)),
            if bins[i].len() == 1 {
                binmap & !(1u64 << (i as u64))
            } else {
                binmap
            },
        ),
{
    let c = bins[i][q];
    let fm2 = fm.remove(c as int);
    let nb = bins.update(i, bins[i].remove(q));
    let b2 = if bins[i].len() == 1 {
        binmap & !(1u64 << (i as u64))
    } else {
        binmap
    };
    assert forall|i2: int, q2: int|
        #![trigger nb[i2][q2]]
        0 <= i2 < 64 && 0 <= q2 < nb[i2].len() implies fm2.contains_key(nb[i2][q2] as int) && bin_of(
            fm2[nb[i2][q2] as int],
        ) == i2 by {
        if i2 == i {
            let q3 = if q2 < q {
                q2
            } else {
                q2 + 1
            };
            assert(nb[i2][q2] == bins[i2][q3]);
            assert(bins[i2].no_duplicates());
            assert(bins[i2][q3] != c);
        } else {
            let _ = bins[i2][q2];
        }
    }
    assert forall|a: int| #[trigger] fm2.contains_key(a) implies nb[bin_of(fm2[a])].contains(
        a as usize,
    ) by {
        assert(fm.contains_key(a));
        lemma_bin_of_range(fm[a]);
        assert(bins[bin_of(fm[a])].contains(a as usize));
        if bin_of(fm[a]) == i {
            let q3 = choose|q3: int| 0 <= q3 < bins[i].len() && bins[i][q3] == a as usize;
            assert(q3 != q);
            if q3 < q {
                assert(nb[i][q3] == a as usize);
            } else {
                assert(nb[i][q3 - 1] == a as usize);
            }
        }
    }
    assert forall|i2: int| 0 <= i2 < 64 implies (#[trigger] nb[i2]).no_duplicates() by {
        if i2 == i {
            assert forall|x1: int, x2: int| 0 <= x1 < x2 < nb[i2].len() implies nb[i2][x1] != nb[i2][x2] by {
                let y1 = if x1 < q {
                    x1
                } else {
                    x1 + 1
                };
                let y2 = if x2 < q {
                    x2
                } else {
                    x2 + 1
                };
                assert(bins[i2].no_duplicates());
                assert(nb[i2][x1] == bins[i2][y1]);
                assert(nb[i2][x2] == bins[i2][y2]);
            }
        }
    }
    assert forall|i2: int| 0 <= i2 < 64 implies (bit(b2, i2) <==> #[trigger] nb[i2].len() > 0) by {
        if bins[i].len() == 1 {
            lemma_bit_clear(binmap, i as u64, i2 as u64);
        }
    }
}

/// Appending a chunk to the bin of its size class matches adding it to the free chunks.
#[verifier::spinoff_prover]
proof fn lemma_bins_push(fm: Map<int, int>, bins: Seq<Seq<usize>>, binmap: u64, a: int, s: int)
    requires
        bins_match(fm, bins, binmap),
        !fm.contains_key(a),
        0 <= a < HEAP_LIMIT,
        s >= SIZE_ALIGN,
    ensures
        bins_match(
            fm.insert(a, s),
            bins.update(bin_of(s), bins[bin_of(s)].push(a as usize)),
            binmap | (1u64 << (bin_of(s) as u64)),
        ),
{
    lemma_bin_of_range(s);
    let i = bin_of(s);
    let fm2 = fm.insert(a, s);
    let nb = bins.update(i, bins[i].push(a as usize));
    let b2 = binmap | (1u64 << (i as u64));
    assert forall|i2: int, q2: int|
        #![trigger nb[i2][q2]]
        0 <= i2 < 64 && 0 <= q2 < nb[i2].len() implies fm2.contains_key(nb[i2][q2] as int) && bin_of(
            fm2[nb[i2][q2] as int],
        ) == i2 by {
        if i2 == i && q2 == bins[i].len() {
        } else {
            let _ = bins[i2][q2];
            assert(nb[i2][q2] == bins[i2][q2]);
            assert(bins[i2][q2] as int != a);
        }
    }
    assert forall|b: int| #[trigger] fm2.contains_key(b) implies nb[bin_of(fm2[b])].contains(
        b as usize,
    ) by {
        if b == a {
            assert(nb[i][bins[i].len() as int] == a as usize);
        } else {
            lemma_bin_of_range(fm[b]);
            assert(bins[bin_of(fm[b])].contains(b as usize));
            let q3 = choose|q3: int| 0 <= q3 < bins[bin_of(fm[b])].len() && bins[bin_of(fm[b])][q3] == b as usize;
            assert(nb[bin_of(fm[b])][q3] == b as usize);
        }
    }
    assert forall|i2: int| 0 <= i2 < 64 implies (#[trigger] nb[i2]).no_duplicates() by {
        if i2 == i {
            assert forall|x1: int, x2: int| 0 <= x1 < x2 < nb[i2].len() implies nb[i2][x1] != nb[i2][x2] by {
                assert(bins[i2].no_duplicates());
                if x2 == bins[i].len() {
                    let _ = bins[i2][x1];
                    assert(fm.contains_key(bins[i2][x1] as int));
                }
            }
        }
    }
    assert forall|i2: int| 0 <= i2 < 64 implies (bit(b2, i2) <==> #[trigger] nb[i2].len() > 0) by {
        lemma_bit_set(binmap, i as u64, i2 as u64);
    }
}

/// Putting the free chunk at `c` in place of the head of bin `i` matches replacing
/// the head in the free chunks, when the new chunk is of the same class.
#[verifier::spinoff_prover]
proof fn lemma_bins_replace_head(
    fm: Map<int, int>,
    bins: Seq<Seq<usize>>,
    binmap: u64,
    i: int,
    c: int,
    s: int,
)
    requires
        bins_match(fm, bins, binmap),
        0 <= i < 64,
        bins[i].len() > 0,
        !fm.contains_key(c),
        0 <= c < HEAP_LIMIT,
        s >= SIZE_ALIGN,
        bin_of(s) == i,
    ensures
        bins_match(
            fm.remove(bins[i][0] as int).insert(c, s),
            bins.update(i, bins[i].update(0, c as usize)),
            binmap,
        ),
{
    let h = bins[i][0] as int;
    let fm2 = fm.remove(h).insert(c, s);
    let nb = bins.update(i, bins[i].update(0, c as usize));
    assert forall|i2: int, q2: int|
        #![trigger nb[i2][q2]]
        0 <= i2 < 64 && 0 <= q2 < nb[i2].len() implies fm2.contains_key(nb[i2][q2] as int) && bin_of(
            fm2[nb[i2][q2] as int],
        ) == i2 by {
        if i2 == i && q2 == 0 {
        } else {
            let _ = bins[i2][q2];
            assert(nb[i2][q2] == bins[i2][q2]);
            assert(bins[i2][q2] as int != c);
            assert(bins[i].no_duplicates());
            if i2 == i {
                assert(bins[i2][q2] != bins[i][0]);
            } else {
                assert(bins[i2][q2] as int != h);
            }
        }
    }
    assert forall|b: int| #[trigger] fm2.contains_key(b) implies nb[bin_of(fm2[b])].contains(
        b as usize,
    ) by {
        if b == c {
            assert(nb[i][0] == c as usize);
        } else {
            lemma_bin_of_range(fm[b]);
            assert(bins[bin_of(fm[b])].contains(b as usize));
            let q3 = choose|q3: int| 0 <= q3 < bins[bin_of(fm[b])].len() && bins[bin_of(fm[b])][q3] == b as usize;
            if bin_of(fm[b]) == i {
                assert(q3 != 0);
            }
            assert(nb[bin_of(fm[b])][q3] == b as usize);
        }
    }
    assert forall|i2: int| 0 <= i2 < 64 implies (#[trigger] nb[i2]).no_duplicates() by {
        if i2 == i {
            assert forall|x1: int, x2: int| 0 <= x1 < x2 < nb[i2].len() implies nb[i2][x1] != nb[i2][x2] by {
                assert(bins[i2].no_duplicates());
                if x1 == 0 {
                    let _ = bins[i2][x2];
                    assert(fm.contains_key(bins[i2][x2] as int));
                }
            }
        }
    }
}

/// The layout after splitting chunk `k` in two chunks in use, the first of `n` bytes.
#[verifier::spinoff_prover]
proof fn lemma_split_layout(cs: Seq<Span>, m0: Seq<usize>, m1: Seq<usize>, k: int, n: int)
    requires
        tiled(cs),
        tags_ok(cs, m0),
        coalesced(cs),
        0 <= k < cs.len(),
        cs[k].used,
        n % 32 == 0,
        n >= 32,
        n + 32 <= cs[k].size,
        top(cs) < HEAP_LIMIT,
        m1 == m0.update(cs[k].start / 8 + 1, (n + 1) as usize).update(
            (cs[k].start + n) / 8,
            (n + 1) as usize,
        ).update((cs[k].start + n) / 8 + 1, (cs[k].size - n + 1) as usize).update(
            (cs[k].start + cs[k].size) / 8,
            (cs[k].size - n + 1) as usize,
        ),
    ensures
        ({
            let x = Span { start: cs[k].start, size: n, used: true };
            let y = Span { start: cs[k].start + n, size: cs[k].size - n, used: true };
            &&& tiled(replaced(cs, k, 1, seq![x, y]))
            &&& tags_ok(replaced(cs, k, 1, seq![x, y]), m1)
            &&& coalesced(replaced(cs, k, 1, seq![x, y]))
            &&& top(replaced(cs, k, 1, seq![x, y])) == top(cs)
        }),
{
    let c = cs[k].start;
    let s = cs[k].size;
    let x = Span { start: c, size: n, used: true };
    let y = Span { start: c + n, size: s - n, used: true };
    let mid = seq![x, y];
    lemma_tiled_below_top(cs, k);
    assert(tiles_between(mid, c, span_end(cs[k]))) by {
        let _ = mid[0];
        let _ = mid[1];
    }
    assert forall|j: int| 0 <= j < mid.len() implies csize_at(m1, (#[trigger] mid[j]).start) == tag(
        mid[j].size,
        mid[j].used,
    ) && psize_at(m1, span_end(mid[j])) == tag(mid[j].size, mid[j].used) by {}
    lemma_replace_layout(cs, m0, k, 1, mid, m1);
}

/// Whether the free chunk before chunk `k` will be joined to it when it is freed.
pub open spec fn prev_free(cs: Seq<Span>, k: int) -> bool {
    k > 0 && !cs[k - 1].used
}

/// Whether the free chunk after chunk `k` will be joined to it when it is freed.
pub open spec fn next_free(cs: Seq<Span>, k: int) -> bool {
    k + 1 < cs.len() && !cs[k + 1].used
}

/// Where the free chunk that freeing chunk `k` leaves begins.
pub open spec fn freed_lo(cs: Seq<Span>, k: int) -> int {
    if prev_free(cs, k) {
        cs[k - 1].start
    } else {
        cs[k].start
    }
}

/// Where the free chunk that freeing chunk `k` leaves ends.
pub open spec fn freed_hi(cs: Seq<Span>, k: int) -> int {
    if next_free(cs, k) {
        span_end(cs[k + 1])
    } else {
        span_end(cs[k])
    }
}

/// Bin `l` after chunk `k` of `cs` is freed, from the bin `b` before: the free
/// neighbours that were joined leave their bins, and the joined chunk goes to the
/// tail of the bin of its size.
pub open spec fn freed_bin(cs: Seq<Span>, k: int, l: int, b: Seq<usize>) -> Seq<usize> {
    let b1 = if prev_free(cs, k) && l == bin_of(cs[k - 1].size) {
        b.remove_value(cs[k - 1].start as usize)
    } else {
        b
    };
    let b2 = if next_free(cs, k) && l == bin_of(cs[k + 1].size) {
        b1.remove_value(cs[k + 1].start as usize)
    } else {
        b1
    };
    if l == bin_of(freed_hi(cs, k) - freed_lo(cs, k)) {
        b2.push(freed_lo(cs, k) as usize)
    } else {
        b2
    }
}

/// The chunks after chunk `k` is freed and joined with its free neighbours.
pub open spec fn freed(cs: Seq<Span>, k: int) -> Seq<Span> {
    let pf: int = if prev_free(cs, k) {
        1
    } else {
        0
    };
    let nf: int = if next_free(cs, k) {
        1
    } else {
        0
    };
    replaced(
        cs,
        k - pf,
        1 + pf + nf,
        seq![Span { start: freed_lo(cs, k), size: freed_hi(cs, k) - freed_lo(cs, k), used: false }],
    )
}

/// The free chunks after chunk `k` is freed and joined with its free neighbours.
pub open spec fn freed_free_map(cs: Seq<Span>, k: int) -> Map<int, int> {
    let f1 = if prev_free(cs, k) {
        free_map(cs).remove(cs[k - 1].start)
    } else {
        free_map(cs)
    };
    let f2 = if next_free(cs, k) {
        f1.remove(cs[k + 1].start)
    } else {
        f1
    };
    f2.insert(freed_lo(cs, k), freed_hi(cs, k) - freed_lo(cs, k))
}

/// Whether joining a chunk of `new_size` bytes with a free neighbour of `size`
/// bytes makes a chunk large enough, and new in size class, to give pages back.
pub open spec fn crosses(new_size: int, size: int) -> bool {
    new_size + size > RECLAIM && (((new_size + size) as usize) ^ (size as usize)) > size as usize
}

/// Whether freeing chunk `k` gives pages back to the system.
pub open spec fn reclaim_due(cs: Seq<Span>, k: int) -> bool {
    ||| prev_free(cs, k) && crosses(cs[k].size, cs[k - 1].size)
    ||| next_free(cs, k) && crosses(cs[k].size, cs[k + 1].size)
}

/// `x` rounded down to a page boundary.
pub open spec fn page_down(x: int) -> int {
    x - x % (PAGE_SIZE as int)
}

/// The pages given back when a free chunk spans `lo` to `hi`: those wholly inside
/// its payload, keeping one alignment unit clear at each end.
pub open spec fn reclaim_range(lo: int, hi: int) -> Reclaim {
    let a = page_down(lo + SIZE_ALIGN + PAGE_SIZE - 1);
    let b = page_down(hi - SIZE_ALIGN);
    Reclaim { start: a as usize, len: (b - a) as usize }
}

#[verifier::spinoff_prover]
pub proof fn lemma_page_mask(x: usize)
    ensures
        x & !4095usize == x - x % 4096,
{
    assert(x & !4095usize == x - x % 4096) by (bit_vector);
}

/// Whether the pages from `start` to `start + len` lie inside one free chunk of
/// `fm` (a map from chunk start to size), past its header: handing them back to
/// the system loses no data of any allocation.
pub open spec fn inside_free(fm: Map<int, int>, start: int, len: int) -> bool {
    exists|a: int| #[trigger] fm.contains_key(a) && a + OVERHEAD <= start && start + len <= a + fm[a]
}

/// The pages that freeing chunk `k` gives back are whole pages, at least one,
/// inside the free chunk that the freeing leaves.
#[verifier::spinoff_prover]
#[verifier::rlimit(40)]
pub proof fn lemma_reclaim_inside(
    cs: Seq<Span>,
    mem: Seq<usize>,
    limit: int,
    bins: Seq<Seq<usize>>,
    bm: u64,
    k: int,
)
    requires
        heap_ok(cs, mem, limit, bins, bm),
        0 <= k < cs.len(),
        reclaim_due(cs, k),
    ensures
        reclaim_range(freed_lo(cs, k), freed_hi(cs, k)).start % 4096 == 0,
        reclaim_range(freed_lo(cs, k), freed_hi(cs, k)).len % 4096 == 0,
        reclaim_range(freed_lo(cs, k), freed_hi(cs, k)).len > 0,
        inside_free(
            freed_free_map(cs, k),
            reclaim_range(freed_lo(cs, k), freed_hi(cs, k)).start as int,
            reclaim_range(freed_lo(cs, k), freed_hi(cs, k)).len as int,
        ),
{
    lemma_chunk_facts(cs, mem, limit, bins, bm, k);
    if prev_free(cs, k) {
        lemma_chunk_facts(cs, mem, limit, bins, bm, k - 1);
    }
    if next_free(cs, k) {
        lemma_chunk_facts(cs, mem, limit, bins, bm, k + 1);
    }
    let lo = freed_lo(cs, k);
    let hi = freed_hi(cs, k);
    assert(hi - lo > RECLAIM);
    let a = page_down(lo + SIZE_ALIGN + PAGE_SIZE - 1);
    let b = page_down(hi - SIZE_ALIGN);
    assert(hi <= HEAP_LIMIT);
    assert(lo + SIZE_ALIGN <= a <= lo + SIZE_ALIGN + PAGE_SIZE - 1);
    assert(hi - SIZE_ALIGN - PAGE_SIZE < b <= hi - SIZE_ALIGN);
    assert(a % 4096 == 0);
    assert(b % 4096 == 0);
    assert((b - a) % 4096 == 0);
    let fm = freed_free_map(cs, k);
    assert(fm.contains_key(lo) && fm[lo] == hi - lo);
    let r = reclaim_range(lo, hi);
    assert(r.start == a && r.len == b - a);
}

/// Freeing chunk `k` keeps every range that lay inside a free chunk inside one:
/// a free neighbour that is joined is covered by the joined chunk.
#[verifier::spinoff_prover]
#[verifier::rlimit(40)]
pub proof fn lemma_inside_free_kept(
    cs: Seq<Span>,
    mem: Seq<usize>,
    limit: int,
    bins: Seq<Seq<usize>>,
    bm: u64,
    k: int,
    start: int,
    len: int,
)
    requires
        heap_ok(cs, mem, limit, bins, bm),
        0 <= k < cs.len(),
        cs[k].used,
        inside_free(free_map(cs), start, len),
    ensures
        inside_free(freed_free_map(cs, k), start, len),
{
    lemma_chunk_facts(cs, mem, limit, bins, bm, k);
    let fm = free_map(cs);
    let a = choose|a: int| #[trigger] fm.contains_key(a) && a + OVERHEAD <= start && start + len <= a + fm[a];
    let gm = freed_free_map(cs, k);
    let lo = freed_lo(cs, k);
    let hi = freed_hi(cs, k);
    assert(gm.contains_key(lo));
    if prev_free(cs, k) && a == cs[k - 1].start {
        lemma_chunk_facts(cs, mem, limit, bins, bm, k - 1);
        assert(lo + OVERHEAD <= start && start + len <= lo + gm[lo]);
    } else if next_free(cs, k) && a == cs[k + 1].start {
        lemma_chunk_facts(cs, mem, limit, bins, bm, k + 1);
        assert(lo + OVERHEAD <= start && start + len <= lo + gm[lo]);
    } else {
        assert(a != lo) by {
            if a == lo {
                assert(!prev_free(cs, k) ==> lo == cs[k].start);
                assert(!fm.contains_key(cs[k].start));
            }
        }
        assert(gm.contains_key(a) && gm[a] == fm[a]);
    }
}

/// The arena holds the chunks: they tile it, their size words agree with them
/// and no two free chunks are neighbours. Before the first growth the arena is empty.
pub open spec fn layout_ok(cs: Seq<Span>, mem: Seq<usize>, limit: int) -> bool {
    &&& limit <= HEAP_LIMIT
    &&& mem.len() * 8 <= limit
    &&& (mem.len() == 0 <==> cs.len() == 0)
    &&& mem.len() > 0 ==> {
        &&& tiled(cs)
        &&& tags_ok(cs, mem)
        &&& coalesced(cs)
    }
}

/// A well-formed heap: a sound layout, with bins and bitmap that match its free chunks.
#[verifier::opaque]
pub open spec fn heap_ok(
    cs: Seq<Span>,
    mem: Seq<usize>,
    limit: int,
    bins: Seq<Seq<usize>>,
    binmap: u64,
) -> bool {
    &&& layout_ok(cs, mem, limit)
    &&& bins_match(free_map(cs), bins, binmap)
}

/// What a well-formed heap says of its chunk `k`.
#[verifier::spinoff_prover]
pub proof fn lemma_chunk_facts(
    cs: Seq<Span>,
    mem: Seq<usize>,
    limit: int,
    bins: Seq<Seq<usize>>,
    binmap: u64,
    k: int,
)
    requires
        heap_ok(cs, mem, limit, bins, binmap),
        0 <= k < cs.len(),
    ensures
        tiled(cs),
        tags_ok(cs, mem),
        coalesced(cs),
        bins.len() == 64,
        cs[k].start % 32 == 16,
        cs[k].size % 32 == 0,
        cs[k].size >= 32,
        cs[k].start >= 16,
        span_end(cs[k]) <= top(cs),
        top(cs) + 16 == mem.len() * 8,
        mem.len() * 8 <= limit <= HEAP_LIMIT,
        mem[cs[k].start / 8 + 1] as int == tag(cs[k].size, cs[k].used),
        mem[span_end(cs[k]) / 8] as int == tag(cs[k].size, cs[k].used),
        k > 0 ==> span_end(cs[k - 1]) == cs[k].start && mem[cs[k].start / 8] as int == tag(
            cs[k - 1].size,
            cs[k - 1].used,
        ),
        k == 0 ==> cs[k].start == 16 && mem[cs[k].start / 8] == 1,
        k + 1 < cs.len() ==> cs[k + 1].start == span_end(cs[k]) && mem[span_end(cs[k]) / 8 + 1] as int
            == tag(cs[k + 1].size, cs[k + 1].used),
        k + 1 == cs.len() ==> span_end(cs[k]) == top(cs) && mem[span_end(cs[k]) / 8 + 1] == 1,
        !cs[k].used && k > 0 ==> cs[k - 1].used,
        !cs[k].used && k + 1 < cs.len() ==> cs[k + 1].used,
        !cs[k].used ==> free_map(cs).contains_key(cs[k].start) && free_map(cs)[cs[k].start]
            == cs[k].size && bins[bin_of(cs[k].size)].contains(cs[k].start as usize)
            && !used_map(cs).contains_key(cs[k].start + OVERHEAD),
        cs[k].used ==> used_map(cs).contains_key(cs[k].start + OVERHEAD) && used_map(cs)[cs[k].start
            + OVERHEAD] == cs[k].size && !free_map(cs).contains_key(cs[k].start),
        0 <= bin_of(cs[k].size) < 64,
{
    reveal(heap_ok);
    lemma_tiled_below_top(cs, k);
    lemma_tiled_ascending(cs);
    lemma_maps_hold_spans(cs);
    lemma_bin_of_range(cs[k].size);
    let _ = cs[k];
    if k > 0 {
        lemma_tiled_below_top(cs, k - 1);
        let _ = cs[k - 1];
    }
    if k + 1 < cs.len() {
        let _ = cs[k + 1];
    }
    if !cs[k].used {
        assert(free_map(cs).contains_key(cs[k].start));
    }
}

/// Taking free chunk `k` out of its bin (entry `q` of bin `i`) and marking it in use.
#[verifier::spinoff_prover]
pub proof fn lemma_unbin_ok(
    cs: Seq<Span>,
    m0: Seq<usize>,
    m1: Seq<usize>,
    limit: int,
    b0: Seq<Seq<usize>>,
    b1: Seq<Seq<usize>>,
    bm0: u64,
    bm1: u64,
    k: int,
    i: int,
    q: int,
)
    requires
        heap_ok(cs, m0, limit, b0, bm0),
        0 <= k < cs.len(),
        !cs[k].used,
        i == bin_of(cs[k].size),
        0 <= q < b0[i].len(),
        b0[i][q] as int == cs[k].start,
        m1 == m0.update(cs[k].start / 8 + 1, (cs[k].size + 1) as usize).update(
            span_end(cs[k]) / 8,
            (cs[k].size + 1) as usize,
        ),
        b1 == b0.update(i, b0[i].remove(q)),
        bm1 == (if b0[i].len() == 1 {
            bm0 & !(1u64 << (i as u64))
        } else {
            bm0
        }),
    ensures
        ({
            let cs1 = cs.update(k, Span { start: cs[k].start, size: cs[k].size, used: true });
            &&& heap_ok(cs1, m1, limit, b1, bm1)
            &&& used_map(cs1) == used_map(cs).insert(cs[k].start + OVERHEAD, cs[k].size)
            &&& free_map(cs1) == free_map(cs).remove(cs[k].start)
        }),
{
    lemma_chunk_facts(cs, m0, limit, b0, bm0, k);
    reveal(heap_ok);
    let x = Span { start: cs[k].start, size: cs[k].size, used: true };
    let cs1 = cs.update(k, x);
    let mid = seq![x];
    assert(replaced(cs, k, 1, mid) =~= cs1);
    assert(cs.subrange(k, k + 1) =~= seq![cs[k]]);
    lemma_replace_layout(cs, m0, k, 1, mid, m1);
    lemma_replace_maps(cs, k, 1, mid);
    lemma_maps_single(cs[k]);
    lemma_maps_single(x);
    assert(free_map(cs1) =~= free_map(cs).remove(cs[k].start));
    assert(used_map(cs1) =~= used_map(cs).insert(cs[k].start + OVERHEAD, cs[k].size));
    lemma_bins_remove(free_map(cs), b0, bm0, i, q);
}

/// Joining chunk `k` and the chunk after it, both in use, into one chunk in use.
#[verifier::spinoff_prover]
pub proof fn lemma_merge_ok(
    cs: Seq<Span>,
    m0: Seq<usize>,
    m1: Seq<usize>,
    limit: int,
    bins: Seq<Seq<usize>>,
    bm: u64,
    k: int,
)
    requires
        heap_ok(cs, m0, limit, bins, bm),
        0 <= k,
        k + 1 < cs.len(),
        cs[k].used,
        cs[k + 1].used,
        m1 == m0.update(cs[k].start / 8 + 1, (cs[k].size + cs[k + 1].size + 1) as usize).update(
            span_end(cs[k + 1]) / 8,
            (cs[k].size + cs[k + 1].size + 1) as usize,
        ),
    ensures
        ({
            let x = Span { start: cs[k].start, size: cs[k].size + cs[k + 1].size, used: true };
            let cs1 = replaced(cs, k, 2, seq![x]);
            &&& heap_ok(cs1, m1, limit, bins, bm)
            &&& used_map(cs1) == used_map(cs).remove(cs[k + 1].start + OVERHEAD).insert(
                cs[k].start + OVERHEAD,
                x.size,
            )
            &&& free_map(cs1) == free_map(cs)
        }),
{
    lemma_chunk_facts(cs, m0, limit, bins, bm, k);
    lemma_chunk_facts(cs, m0, limit, bins, bm, k + 1);
    reveal(heap_ok);
    let x = Span { start: cs[k].start, size: cs[k].size + cs[k + 1].size, used: true };
    let mid = seq![x];
    let cs1 = replaced(cs, k, 2, mid);
    lemma_replace_layout(cs, m0, k, 2, mid, m1);
    lemma_replace_maps(cs, k, 2, mid);
    assert(cs.subrange(k, k + 2) =~= seq![cs[k], cs[k + 1]]);
    lemma_maps_pair(cs[k], cs[k + 1]);
    lemma_maps_single(cs[k]);
    lemma_maps_single(cs[k + 1]);
    lemma_maps_single(x);
    assert(free_map(cs1) =~= free_map(cs));
    assert(used_map(cs1) =~= used_map(cs).remove(cs[k + 1].start + OVERHEAD).insert(
        cs[k].start + OVERHEAD,
        x.size,
    ));
}

/// Splitting chunk `k`, in use, into a chunk of `n` bytes and one of the rest, both in use.
#[verifier::spinoff_prover]
pub proof fn lemma_split_ok(
    cs: Seq<Span>,
    m0: Seq<usize>,
    m1: Seq<usize>,
    limit: int,
    bins: Seq<Seq<usize>>,
    bm: u64,
    k: int,
    n: int,
)
    requires
        heap_ok(cs, m0, limit, bins, bm),
        0 <= k < cs.len(),
        cs[k].used,
        n % 32 == 0,
        n >= 32,
        n + 32 <= cs[k].size,
        m1 == m0.update(cs[k].start / 8 + 1, (n + 1) as usize).update(
            (cs[k].start + n) / 8,
            (n + 1) as usize,
        ).update((cs[k].start + n) / 8 + 1, (cs[k].size - n + 1) as usize).update(
            (cs[k].start + cs[k].size) / 8,
            (cs[k].size - n + 1) as usize,
        ),
    ensures
        ({
            let x = Span { start: cs[k].start, size: n, used: true };
            let y = Span { start: cs[k].start + n, size: cs[k].size - n, used: true };
            let cs1 = replaced(cs, k, 1, seq![x, y]);
            &&& heap_ok(cs1, m1, limit, bins, bm)
            &&& used_map(cs1) == used_map(cs).insert(cs[k].start + OVERHEAD, n).insert(
                cs[k].start + n + OVERHEAD,
                cs[k].size - n,
            )
            &&& free_map(cs1) == free_map(cs)
        }),
{
    lemma_chunk_facts(cs, m0, limit, bins, bm, k);
    reveal(heap_ok);
    let x = Span { start: cs[k].start, size: n, used: true };
    let y = Span { start: cs[k].start + n, size: cs[k].size - n, used: true };
    let mid = seq![x, y];
    let cs1 = replaced(cs, k, 1, mid);
    lemma_split_layout(cs, m0, m1, k, n);
    lemma_replace_maps(cs, k, 1, mid);
    assert(cs.subrange(k, k + 1) =~= seq![cs[k]]);
    lemma_maps_pair(x, y);
    lemma_maps_single(cs[k]);
    lemma_maps_single(x);
    lemma_maps_single(y);
    assert(free_map(cs1) =~= free_map(cs));
    assert(used_map(cs1) =~= used_map(cs).insert(cs[k].start + OVERHEAD, n).insert(
        cs[k].start + n + OVERHEAD,
        cs[k].size - n,
    ));
}

/// Marking chunk `k`, in use with no free neighbour, free, and appending it to its bin.
#[verifier::spinoff_prover]
pub proof fn lemma_bin_ok(
    cs: Seq<Span>,
    m0: Seq<usize>,
    m1: Seq<usize>,
    limit: int,
    b0: Seq<Seq<usize>>,
    b1: Seq<Seq<usize>>,
    bm0: u64,
    bm1: u64,
    k: int,
)
    requires
        heap_ok(cs, m0, limit, b0, bm0),
        0 <= k < cs.len(),
        cs[k].used,
        k > 0 ==> cs[k - 1].used,
        k + 1 < cs.len() ==> cs[k + 1].used,
        m1 == m0.update(cs[k].start / 8 + 1, cs[k].size as usize).update(
            span_end(cs[k]) / 8,
            cs[k].size as usize,
        ),
        b1 == b0.update(
            bin_of(cs[k].size),
            b0[bin_of(cs[k].size)].push(cs[k].start as usize),
        ),
        bm1 == bm0 | (1u64 << (bin_of(cs[k].size) as u64)),
    ensures
        ({
            let cs1 = cs.update(k, Span { start: cs[k].start, size: cs[k].size, used: false });
            &&& heap_ok(cs1, m1, limit, b1, bm1)
            &&& used_map(cs1) == used_map(cs).remove(cs[k].start + OVERHEAD)
            &&& free_map(cs1) == free_map(cs).insert(cs[k].start, cs[k].size)
        }),
{
    lemma_chunk_facts(cs, m0, limit, b0, bm0, k);
    reveal(heap_ok);
    let x = Span { start: cs[k].start, size: cs[k].size, used: false };
    let cs1 = cs.update(k, x);
    let mid = seq![x];
    assert(replaced(cs, k, 1, mid) =~= cs1);
    assert(cs.subrange(k, k + 1) =~= seq![cs[k]]);
    lemma_replace_layout(cs, m0, k, 1, mid, m1);
    lemma_replace_maps(cs, k, 1, mid);
    lemma_maps_single(cs[k]);
    lemma_maps_single(x);
    assert(free_map(cs1) =~= free_map(cs).insert(cs[k].start, cs[k].size));
    assert(used_map(cs1) =~= used_map(cs).remove(cs[k].start + OVERHEAD));
    lemma_bins_push(free_map(cs), b0, bm0, cs[k].start, cs[k].size);
}

/// The maps after chunk `k`, in use, is freed and joined with its free neighbours.
#[verifier::spinoff_prover]
pub proof fn lemma_freed_maps(
    cs: Seq<Span>,
    mem: Seq<usize>,
    limit: int,
    bins: Seq<Seq<usize>>,
    binmap: u64,
    k: int,
)
    requires
        heap_ok(cs, mem, limit, bins, binmap),
        0 <= k < cs.len(),
        cs[k].used,
    ensures
        used_map(freed(cs, k)) == used_map(cs).remove(cs[k].start + OVERHEAD),
        free_map(freed(cs, k)) == freed_free_map(cs, k),
{
    lemma_chunk_facts(cs, mem, limit, bins, binmap, k);
    let pf: int = if prev_free(cs, k) {
        1
    } else {
        0
    };
    let nf: int = if next_free(cs, k) {
        1
    } else {
        0
    };
    let x = Span { start: freed_lo(cs, k), size: freed_hi(cs, k) - freed_lo(cs, k), used: false };
    let mid = seq![x];
    if pf == 1 {
        lemma_chunk_facts(cs, mem, limit, bins, binmap, k - 1);
    }
    if nf == 1 {
        lemma_chunk_facts(cs, mem, limit, bins, binmap, k + 1);
    }
    lemma_replace_maps(cs, k - pf, 1 + pf + nf, mid);
    lemma_maps_single(x);
    lemma_maps_single(cs[k]);
    let seg = cs.subrange(k - pf, k + 1 + nf);
    if pf == 1 && nf == 1 {
        assert(seg =~= seq![cs[k - 1]] + seq![cs[k], cs[k + 1]]);
        assert(seq![cs[k], cs[k + 1]] =~= seq![cs[k]] + seq![cs[k + 1]]);
        lemma_maps_single(cs[k - 1]);
        lemma_maps_single(cs[k + 1]);
        lemma_used_map_concat(seq![cs[k - 1]], seq![cs[k], cs[k + 1]]);
        lemma_free_map_concat(seq![cs[k - 1]], seq![cs[k], cs[k + 1]]);
        lemma_maps_pair(cs[k], cs[k + 1]);
    } else if pf == 1 {
        assert(seg =~= seq![cs[k - 1], cs[k]]);
        lemma_maps_single(cs[k - 1]);
        lemma_maps_pair(cs[k - 1], cs[k]);
    } else if nf == 1 {
        assert(seg =~= seq![cs[k], cs[k + 1]]);
        lemma_maps_single(cs[k + 1]);
        lemma_maps_pair(cs[k], cs[k + 1]);
    } else {
        assert(seg =~= seq![cs[k]]);
    }
    assert(used_map(freed(cs, k)) =~= used_map(cs).remove(cs[k].start + OVERHEAD));
    assert(free_map(freed(cs, k)) =~= freed_free_map(cs, k));
}

/// Chunk `k` marked in use.
pub open spec fn mark_used(cs: Seq<Span>, k: int) -> Seq<Span> {
    cs.update(k, Span { start: cs[k].start, size: cs[k].size, used: true })
}

/// Chunks `k` and `k + 1` joined into one chunk in use.
pub open spec fn join(cs: Seq<Span>, k: int) -> Seq<Span> {
    replaced(
        cs,
        k,
        2,
        seq![Span { start: cs[k].start, size: cs[k].size + cs[k + 1].size, used: true }],
    )
}

/// The chunks while freeing chunk `k`: after the free chunk before it is joined to it.
pub open spec fn free_step1(cs: Seq<Span>, k: int) -> Seq<Span> {
    if prev_free(cs, k) {
        join(mark_used(cs, k - 1), k - 1)
    } else {
        cs
    }
}

/// The index of the chunk being freed after the first step.
pub open spec fn free_index(cs: Seq<Span>, k: int) -> int {
    if prev_free(cs, k) {
        k - 1
    } else {
        k
    }
}

/// The chunks while freeing chunk `k`: after the free chunk after it is joined too.
pub open spec fn free_step2(cs: Seq<Span>, k: int) -> Seq<Span> {
    let c1 = free_step1(cs, k);
    let ks = free_index(cs, k);
    if next_free(cs, k) {
        join(mark_used(c1, ks + 1), ks)
    } else {
        c1
    }
}

/// The steps of freeing chunk `k` end in `freed(cs, k)`.
#[verifier::spinoff_prover]
#[verifier::rlimit(40)]
pub proof fn lemma_free_steps(
    cs: Seq<Span>,
    mem: Seq<usize>,
    limit: int,
    bins: Seq<Seq<usize>>,
    binmap: u64,
    k: int,
)
    requires
        heap_ok(cs, mem, limit, bins, binmap),
        0 <= k < cs.len(),
        cs[k].used,
    ensures
        ({
            let ks = free_index(cs, k);
            let c1 = free_step1(cs, k);
            let c2 = free_step2(cs, k);
            &&& 0 <= ks < c1.len()
            &&& c1[ks] == Span {
                start: freed_lo(cs, k),
                size: span_end(cs[k]) - freed_lo(cs, k),
                used: true,
            }
            &&& (ks + 1 < c1.len() <==> k + 1 < cs.len())
            &&& k + 1 < cs.len() ==> c1[ks + 1] == cs[k + 1]
            &&& ks > 0 ==> c1[ks - 1] == cs[ks - 1]
            &&& 0 <= ks < c2.len()
            &&& c2[ks] == Span {
                start: freed_lo(cs, k),
                size: freed_hi(cs, k) - freed_lo(cs, k),
                used: true,
            }
            &&& ks > 0 ==> c2[ks - 1].used
            &&& ks + 1 < c2.len() ==> c2[ks + 1].used
            &&& c2.update(
                ks,
                Span {
                    start: freed_lo(cs, k),
                    size: freed_hi(cs, k) - freed_lo(cs, k),
                    used: false,
                },
            ) == freed(cs, k)
        }),
{
    lemma_chunk_facts(cs, mem, limit, bins, binmap, k);
    if k > 0 {
        lemma_chunk_facts(cs, mem, limit, bins, binmap, k - 1);
    }
    if k + 1 < cs.len() {
        lemma_chunk_facts(cs, mem, limit, bins, binmap, k + 1);
    }
    let ks = free_index(cs, k);
    let c1 = free_step1(cs, k);
    let c2 = free_step2(cs, k);
    let x = Span { start: freed_lo(cs, k), size: freed_hi(cs, k) - freed_lo(cs, k), used: false };
    if prev_free(cs, k) {
        assert(c1 =~= cs.take(k - 1) + seq![
            Span { start: cs[k - 1].start, size: cs[k - 1].size + cs[k].size, used: true },
        ] + cs.skip(k + 1));
    }
    if next_free(cs, k) {
        assert(c2 =~= c1.take(ks) + seq![
            Span { start: c1[ks].start, size: c1[ks].size + c1[ks + 1].size, used: true },
        ] + c1.skip(ks + 2));
        if k + 2 < cs.len() {
            lemma_chunk_facts(cs, mem, limit, bins, binmap, k + 2);
        }
    }
    if prev_free(cs, k) && k > 1 {
        lemma_chunk_facts(cs, mem, limit, bins, binmap, k - 2);
    }
    assert(c2.update(ks, x) =~= freed(cs, k));
}

/// Splitting the free chunk `k`, the head of its bin, into a chunk of `n` bytes
/// in use and a free rest of the same size class that takes its place in the bin.
#[verifier::spinoff_prover]
pub proof fn lemma_pretrim_ok(
    cs: Seq<Span>,
    m0: Seq<usize>,
    m1: Seq<usize>,
    limit: int,
    b0: Seq<Seq<usize>>,
    b1: Seq<Seq<usize>>,
    bm: u64,
    k: int,
    n: int,
)
    requires
        heap_ok(cs, m0, limit, b0, bm),
        0 <= k < cs.len(),
        !cs[k].used,
        n % 32 == 0,
        n >= 32,
        n + 32 <= cs[k].size,
        bin_of(cs[k].size - n) == bin_of(cs[k].size),
        b0[bin_of(cs[k].size)].len() > 0,
        b0[bin_of(cs[k].size)][0] as int == cs[k].start,
        m1 == m0.update(cs[k].start / 8 + 1, (n + 1) as usize).update(
            (cs[k].start + n) / 8,
            (n + 1) as usize,
        ).update((cs[k].start + n) / 8 + 1, (cs[k].size - n) as usize).update(
            (cs[k].start + cs[k].size) / 8,
            (cs[k].size - n) as usize,
        ),
        b1 == b0.update(
            bin_of(cs[k].size),
            b0[bin_of(cs[k].size)].update(0, (cs[k].start + n) as usize),
        ),
    ensures
        ({
            let x = Span { start: cs[k].start, size: n, used: true };
            let y = Span { start: cs[k].start + n, size: cs[k].size - n, used: false };
            let cs1 = replaced(cs, k, 1, seq![x, y]);
            &&& heap_ok(cs1, m1, limit, b1, bm)
            &&& used_map(cs1) == used_map(cs).insert(cs[k].start + OVERHEAD, n)
            &&& free_map(cs1) == free_map(cs).remove(cs[k].start).insert(
                cs[k].start + n,
                cs[k].size - n,
            )
        }),
{
    lemma_chunk_facts(cs, m0, limit, b0, bm, k);
    reveal(heap_ok);
    let c = cs[k].start;
    let sz = cs[k].size;
    let x = Span { start: c, size: n, used: true };
    let y = Span { start: c + n, size: sz - n, used: false };
    let mid = seq![x, y];
    let cs1 = replaced(cs, k, 1, mid);
    assert(tiles_between(mid, c, span_end(cs[k]))) by {
        let _ = mid[0];
        let _ = mid[1];
    }
    assert forall|j: int| 0 <= j < mid.len() implies csize_at(m1, (#[trigger] mid[j]).start) == tag(
        mid[j].size,
        mid[j].used,
    ) && psize_at(m1, span_end(mid[j])) == tag(mid[j].size, mid[j].used) by {}
    lemma_replace_layout(cs, m0, k, 1, mid, m1);
    lemma_replace_maps(cs, k, 1, mid);
    assert(cs.subrange(k, k + 1) =~= seq![cs[k]]);
    lemma_maps_pair(x, y);
    lemma_maps_single(cs[k]);
    lemma_maps_single(x);
    lemma_maps_single(y);
    let fm = free_map(cs);
    assert(free_map(cs1) =~= fm.remove(c).insert(c + n, sz - n));
    assert(used_map(cs1) =~= used_map(cs).insert(c + OVERHEAD, n));
    assert(!fm.contains_key(c + n)) by {
        lemma_maps_from_spans(cs);
        if fm.contains_key(c + n) {
            let j = choose|j: int| 0 <= j < cs.len() && (#[trigger] cs[j]).start == c + n && !cs[j].used;
            if j < k {
                lemma_tiled_ordered(cs, j, k);
            } else if j > k {
                lemma_tiled_ordered(cs, k, j);
            }
        }
    }
    lemma_bins_replace_head(fm, b0, bm, bin_of(sz), c + n, sz - n);
    assert(fm.remove(b0[bin_of(sz)][0] as int) == fm.remove(c));
}

/// The arena, empty until now, grows by `inc` bytes, which make one chunk in use
/// between the padding at the front and the end sentinel.
#[verifier::spinoff_prover]
pub proof fn lemma_first_region_ok(
    m1: Seq<usize>,
    limit: int,
    bins: Seq<Seq<usize>>,
    bm: u64,
    inc: int,
)
    requires
        heap_ok(Seq::<Span>::empty(), Seq::<usize>::empty(), limit, bins, bm),
        inc % 4096 == 0,
        inc >= 4096,
        inc <= limit,
        m1.len() * 8 == inc,
        m1[2] == 1,
        m1[3] == (inc - 32 + 1) as usize,
        m1[(inc - 16) / 8] == (inc - 32 + 1) as usize,
        m1[(inc - 16) / 8 + 1] == 1,
    ensures
        ({
            let cs1 = seq![Span { start: 16, size: inc - 32, used: true }];
            &&& heap_ok(cs1, m1, limit, bins, bm)
            &&& used_map(cs1) == Map::<int, int>::empty().insert(32, inc - 32)
            &&& free_map(cs1) == Map::<int, int>::empty()
        }),
{
    reveal(heap_ok);
    let x = Span { start: 16, size: inc - 32, used: true };
    let cs1 = seq![x];
    lemma_maps_single(x);
    assert(free_map(Seq::<Span>::empty()) =~= Map::<int, int>::empty());
    assert(tiled(cs1)) by {
        let _ = cs1[0];
    }
    assert(tags_ok(cs1, m1)) by {
        let _ = cs1[0];
    }
    assert(coalesced(cs1));
    assert(free_map(cs1) =~= Map::<int, int>::empty());
}

/// The arena grows by `inc` bytes after its end: the old end sentinel becomes the
/// header of a new chunk in use that spans them, and a new end sentinel follows.
#[verifier::spinoff_prover]
pub proof fn lemma_grow_ok(
    cs: Seq<Span>,
    m0: Seq<usize>,
    m1: Seq<usize>,
    limit: int,
    bins: Seq<Seq<usize>>,
    bm: u64,
    inc: int,
)
    requires
        heap_ok(cs, m0, limit, bins, bm),
        cs.len() > 0,
        inc % 4096 == 0,
        inc >= 4096,
        m0.len() * 8 + inc <= limit,
        m1.len() * 8 == m0.len() * 8 + inc,
        forall|w: int| 0 <= w < m0.len() && w != top(cs) / 8 + 1 ==> #[trigger] m1[w] == m0[w],
        m1[top(cs) / 8 + 1] == (inc + 1) as usize,
        m1[(top(cs) + inc) / 8] == (inc + 1) as usize,
        m1[(top(cs) + inc) / 8 + 1] == 1,
    ensures
        ({
            let cs1 = cs.push(Span { start: top(cs), size: inc, used: true });
            &&& heap_ok(cs1, m1, limit, bins, bm)
            &&& used_map(cs1) == used_map(cs).insert(top(cs) + OVERHEAD, inc)
            &&& free_map(cs1) == free_map(cs)
            &&& top(cs1) == top(cs) + inc
        }),
{
    lemma_chunk_facts(cs, m0, limit, bins, bm, cs.len() - 1);
    reveal(heap_ok);
    let x = Span { start: top(cs), size: inc, used: true };
    let cs1 = cs.push(x);
    assert(cs1.drop_last() =~= cs);
    assert(cs1.last() == x);
    assert(tiled(cs1)) by {
        assert forall|j: int, l: int|
            #![trigger cs1[j], cs1[l]]
            0 <= j && l == j + 1 && l < cs1.len() implies cs1[l].start == span_end(cs1[j]) by {
            if l < cs.len() {
                let _ = cs[j];
                let _ = cs[l];
            }
        }
        assert forall|j: int| 0 <= j < cs1.len() implies {
            &&& #[trigger] cs1[j].size >= SIZE_ALIGN
            &&& cs1[j].size % (SIZE_ALIGN as int) == 0
            &&& cs1[j].start % (SIZE_ALIGN as int) == OVERHEAD
        } by {
            if j < cs.len() {
                let _ = cs[j];
            }
        }
        let _ = cs[0];
    }
    assert(tags_ok(cs1, m1)) by {
        assert forall|j: int| 0 <= j < cs1.len() implies {
            &&& csize_at(m1, (#[trigger] cs1[j]).start) == tag(cs1[j].size, cs1[j].used)
            &&& psize_at(m1, span_end(cs1[j])) == tag(cs1[j].size, cs1[j].used)
        } by {
            if j < cs.len() {
                lemma_tiled_below_top(cs, j);
                let _ = cs[j];
                assert(m1[cs[j].start / 8 + 1] == m0[cs[j].start / 8 + 1]);
                assert(m1[span_end(cs[j]) / 8] == m0[span_end(cs[j]) / 8]);
            }
        }
        let _ = cs[0];
        assert(m1[cs[0].start / 8] == m0[cs[0].start / 8]);
    }
    assert(coalesced(cs1)) by {
        assert forall|j: int, l: int|
            #![trigger cs1[j], cs1[l]]
            0 <= j && l == j + 1 && l < cs1.len() implies cs1[j].used || cs1[l].used by {
            if l < cs.len() {
                let _ = cs[j];
                let _ = cs[l];
            }
        }
    }
    assert(free_map(cs1) =~= free_map(cs));
    assert(used_map(cs1) =~= used_map(cs).insert(top(cs) + OVERHEAD, inc));
}

/// The set bits of `b` at or above `i`.
#[verifier::spinoff_prover]
pub proof fn lemma_mask_bits(b: u64, i: u64, k: u64)
    requires
        i < 64,
        k < 64,
    ensures
        ((b & !(((1u64 << i) - 1) as u64)) >> k) & 1u64 == 1u64 <==> ((b >> k) & 1u64 == 1u64 && k >= i),
        (b & !(((1u64 << i) - 1) as u64)) == 0 ==> (k >= i ==> (b >> k) & 1u64 != 1u64),
        (1u64 << i) >= 1,
{
    assert((1u64 << i) >= 1) by (bit_vector)
        requires
            i < 64,
    ;
    assert(((b & !(((1u64 << i) - 1) as u64)) >> k) & 1u64 == 1u64 <==> ((b >> k) & 1u64 == 1u64 && k >= i))
        by (bit_vector)
        requires
            i < 64,
            k < 64,
    ;
    assert((b & !(((1u64 << i) - 1) as u64)) == 0 ==> (k >= i ==> (b >> k) & 1u64 != 1u64)) by (bit_vector)
        requires
            i < 64,
            k < 64,
    ;
}

/// Bin `i` of a well-formed heap is not empty exactly when its bit is set.
#[verifier::spinoff_prover]
pub proof fn lemma_bin_bit(
    cs: Seq<Span>,
    mem: Seq<usize>,
    limit: int,
    bins: Seq<Seq<usize>>,
    bm: u64,
    i: int,
)
    requires
        heap_ok(cs, mem, limit, bins, bm),
        0 <= i < 64,
    ensures
        bins.len() == 64,
        bit(bm, i) <==> bins[i].len() > 0,
        bins[i].len() > 0 ==> free_map(cs).contains_key(bins[i][0] as int) && bin_of(
            free_map(cs)[bins[i][0] as int],
        ) == i,
        forall|a: int|
            #![trigger free_map(cs).contains_key(a)]
            free_map(cs).contains_key(a) && bin_of(free_map(cs)[a]) == i ==> bins[i].len() > 0,
{
    reveal(heap_ok);
    if bins[i].len() > 0 {
        let _ = bins[i][0];
    }
}

/// A byte strictly inside chunk `k` starts no chunk.
#[verifier::spinoff_prover]
pub proof fn lemma_inside_not_key(
    cs: Seq<Span>,
    mem: Seq<usize>,
    limit: int,
    bins: Seq<Seq<usize>>,
    bm: u64,
    k: int,
    a: int,
)
    requires
        heap_ok(cs, mem, limit, bins, bm),
        0 <= k < cs.len(),
        cs[k].start < a < span_end(cs[k]),
    ensures
        !free_map(cs).contains_key(a),
        !used_map(cs).contains_key(a + OVERHEAD),
{
    reveal(heap_ok);
    lemma_maps_from_spans(cs);
    if free_map(cs).contains_key(a) {
        let j = choose|j: int| 0 <= j < cs.len() && (#[trigger] cs[j]).start == a && !cs[j].used;
        if j < k {
            lemma_tiled_ordered(cs, j, k);
        } else if j > k {
            lemma_tiled_ordered(cs, k, j);
        }
    }
    if used_map(cs).contains_key(a + OVERHEAD) {
        let j = choose|j: int|
            0 <= j < cs.len() && (#[trigger] cs[j]).start + OVERHEAD == a + OVERHEAD && cs[j].used;
        if j < k {
            lemma_tiled_ordered(cs, j, k);
        } else if j > k {
            lemma_tiled_ordered(cs, k, j);
        }
    }
}

/// The head of a bin that is not empty is a free chunk of that bin's class.
#[verifier::spinoff_prover]
pub proof fn lemma_bin_head(
    cs: Seq<Span>,
    mem: Seq<usize>,
    limit: int,
    bins: Seq<Seq<usize>>,
    bm: u64,
    j: int,
) -> (k: int)
    requires
        heap_ok(cs, mem, limit, bins, bm),
        0 <= j < 64,
        bins[j].len() > 0,
    ensures
        0 <= k < cs.len(),
        cs[k].start == bins[j][0] as int,
        !cs[k].used,
        bin_of(cs[k].size) == j,
{
    lemma_bin_bit(cs, mem, limit, bins, bm, j);
    lemma_maps_from_spans(cs);
    let a = bins[j][0] as int;
    let k = choose|k: int| 0 <= k < cs.len() && (#[trigger] cs[k]).start == a && !cs[k].used;
    lemma_chunk_facts(cs, mem, limit, bins, bm, k);
    k
}

/// A free chunk of a class at or above `i` makes bit `j >= i` set in the bitmap.
#[verifier::spinoff_prover]
pub proof fn lemma_free_chunk_bit(
    cs: Seq<Span>,
    mem: Seq<usize>,
    limit: int,
    bins: Seq<Seq<usize>>,
    bm: u64,
    a: int,
)
    requires
        heap_ok(cs, mem, limit, bins, bm),
        free_map(cs).contains_key(a),
    ensures
        0 <= bin_of(free_map(cs)[a]) < 64,
        bit(bm, bin_of(free_map(cs)[a])),
{
    reveal(heap_ok);
    lemma_bin_of_range(free_map(cs)[a]);
    lemma_bin_bit(cs, mem, limit, bins, bm, bin_of(free_map(cs)[a]));
}

/// What a well-formed heap says of its arena as a whole.
#[verifier::spinoff_prover]
pub proof fn lemma_heap_basics(
    cs: Seq<Span>,
    mem: Seq<usize>,
    limit: int,
    bins: Seq<Seq<usize>>,
    bm: u64,
)
    requires
        heap_ok(cs, mem, limit, bins, bm),
    ensures
        mem.len() == 0 <==> cs.len() == 0,
        mem.len() * 8 <= limit <= HEAP_LIMIT,
        bins.len() == 64,
        cs.len() > 0 ==> top(cs) + OVERHEAD == mem.len() * 8 && top(cs) % 32 == 16,
        cs.len() > 0 ==> mem[top(cs) / 8 + 1] == 1,
        cs.len() > 0 ==> forall|a: int| #[trigger]
            used_map(cs).contains_key(a) ==> a < top(cs) + OVERHEAD,
        cs.len() > 0 ==> forall|a: int| #[trigger] free_map(cs).contains_key(a) ==> a < top(cs),
{
    reveal(heap_ok);
    if cs.len() > 0 {
        lemma_chunk_facts(cs, mem, limit, bins, bm, cs.len() - 1);
        assert forall|j: int| 0 <= j < cs.len() implies 0 <= #[trigger] cs[j].start < top(cs) by {
            lemma_tiled_below_top(cs, j);
        }
        lemma_map_keys_within(cs, 0, top(cs));
    }
}

/// The chunk of allocation `p`, and the words its payload takes.
#[verifier::spinoff_prover]
#[verifier::rlimit(30)]
pub proof fn lemma_alloc_chunk(
    cs: Seq<Span>,
    mem: Seq<usize>,
    limit: int,
    bins: Seq<Seq<usize>>,
    bm: u64,
    p: int,
) -> (j: int)
    requires
        heap_ok(cs, mem, limit, bins, bm),
        used_map(cs).contains_key(p),
    ensures
        0 <= j < cs.len(),
        cs[j].used,
        cs[j].start + OVERHEAD == p,
        used_map(cs)[p] == cs[j].size,
        forall|l: int| 0 <= l < cs.len() && (#[trigger] cs[l]).start + OVERHEAD == p ==> l == j,
        forall|a: int|
            p <= a < p + used_map(cs)[p] - OVERHEAD ==> cs[j].start / 8 + 2 <= #[trigger] (a / 8)
                < span_end(cs[j]) / 8 && a / 8 < mem.len(),
{
    lemma_maps_from_spans(cs);
    let j = choose|j: int| 0 <= j < cs.len() && (#[trigger] cs[j]).start + OVERHEAD == p && cs[j].used;
    lemma_chunk_facts(cs, mem, limit, bins, bm, j);
    assert forall|l: int| 0 <= l < cs.len() && (#[trigger] cs[l]).start + OVERHEAD == p implies l == j by {
        if l < j {
            lemma_order(cs, mem, limit, bins, bm, l, j);
            lemma_chunk_facts(cs, mem, limit, bins, bm, l);
        } else if l > j {
            lemma_order(cs, mem, limit, bins, bm, j, l);
        }
    }
    let st = cs[j].start;
    let en = span_end(cs[j]);
    assert(st % 8 == 0 && en % 8 == 0);
    assert forall|a: int|
        p <= a < p + used_map(cs)[p] - OVERHEAD implies st / 8 + 2 <= #[trigger] (a / 8) < en / 8
            && a / 8 < mem.len() by {
        assert(st / 8 + 2 == (st + 16) / 8);
        assert((st + 16) / 8 <= a / 8);
        assert(a / 8 < en / 8);
        assert(en / 8 < mem.len());
    }
    j
}

/// Earlier chunks end no later than later chunks start.
#[verifier::spinoff_prover]
pub proof fn lemma_order(
    cs: Seq<Span>,
    mem: Seq<usize>,
    limit: int,
    bins: Seq<Seq<usize>>,
    bm: u64,
    j: int,
    l: int,
)
    requires
        heap_ok(cs, mem, limit, bins, bm),
        0 <= j < l < cs.len(),
    ensures
        span_end(cs[j]) <= cs[l].start,
{
    reveal(heap_ok);
    lemma_tiled_ordered(cs, j, l);
}

/// Every other chunk lies wholly before or wholly after chunk `k`, and all end by the top.
#[verifier::spinoff_prover]
pub proof fn lemma_chunks_around(
    cs: Seq<Span>,
    mem: Seq<usize>,
    limit: int,
    bins: Seq<Seq<usize>>,
    bm: u64,
    k: int,
)
    requires
        heap_ok(cs, mem, limit, bins, bm),
        0 <= k < cs.len(),
    ensures
        forall|j: int|
            0 <= j < cs.len() && j != k ==> span_end(#[trigger] cs[j]) <= cs[k].start || cs[j].start
                >= span_end(cs[k]),
        forall|j: int| 0 <= j < cs.len() ==> span_end(#[trigger] cs[j]) <= top(cs),
{
    reveal(heap_ok);
    assert forall|j: int|
        0 <= j < cs.len() && j != k implies span_end(#[trigger] cs[j]) <= cs[k].start || cs[j].start
        >= span_end(cs[k]) by {
        if j < k {
            lemma_tiled_ordered(cs, j, k);
        } else {
            lemma_tiled_ordered(cs, k, j);
        }
    }
    assert forall|j: int| 0 <= j < cs.len() implies span_end(#[trigger] cs[j]) <= top(cs) by {
        lemma_tiled_below_top(cs, j);
    }
}

/// Memory that changed only between `lo` and `hi`, where no allocation but
/// perhaps the one at `except` lies, still holds every other allocation's payload.
#[verifier::spinoff_prover]
pub proof fn lemma_payloads_kept(
    cs: Seq<Span>,
    m0: Seq<usize>,
    limit: int,
    bins: Seq<Seq<usize>>,
    bm: u64,
    m1: Seq<usize>,
    lo: int,
    hi: int,
    except: int,
)
    requires
        heap_ok(cs, m0, limit, bins, bm),
        m1.len() >= m0.len(),
        forall|w: int| 0 <= w < m0.len() && !(lo / 8 < w <= hi / 8) ==> #[trigger] m1[w] == m0[w],
        forall|j: int|
            0 <= j < cs.len() && (#[trigger] cs[j]).used && cs[j].start + OVERHEAD != except
                ==> span_end(cs[j]) <= lo || cs[j].start >= hi,
    ensures
        forall|p: int, a: int|
            #![trigger used_map(cs).contains_key(p), m1[a / 8]]
            used_map(cs).contains_key(p) && p != except && p <= a < p + used_map(cs)[p] - OVERHEAD
                ==> m1[a / 8] == m0[a / 8],
{
    assert forall|p: int, a: int|
        #![trigger used_map(cs).contains_key(p), m1[a / 8]]
        used_map(cs).contains_key(p) && p != except && p <= a < p + used_map(cs)[p] - OVERHEAD implies m1[a
        / 8] == m0[a / 8] by {
        let j = lemma_alloc_chunk(cs, m0, limit, bins, bm, p);
        lemma_chunk_facts(cs, m0, limit, bins, bm, j);
        assert(m1[a / 8] == m0[a / 8]);
    }
}

/// Writing a word of an allocation's payload keeps the heap well formed.
#[verifier::spinoff_prover]
pub proof fn lemma_store_ok(
    cs: Seq<Span>,
    m0: Seq<usize>,
    limit: int,
    bins: Seq<Seq<usize>>,
    bm: u64,
    p: int,
    a: int,
    v: usize,
)
    requires
        heap_ok(cs, m0, limit, bins, bm),
        used_map(cs).contains_key(p),
        p <= a < p + used_map(cs)[p] - OVERHEAD,
    ensures
        heap_ok(cs, m0.update(a / 8, v), limit, bins, bm),
        0 <= a / 8 < m0.len(),
{
    let j = lemma_alloc_chunk(cs, m0, limit, bins, bm, p);
    lemma_chunk_facts(cs, m0, limit, bins, bm, j);
    reveal(heap_ok);
    let m1 = m0.update(a / 8, v);
    let mid = seq![cs[j]];
    assert(replaced(cs, j, 1, mid) =~= cs);
    assert(tiles_between(mid, cs[j].start, span_end(cs[j]))) by {
        let _ = mid[0];
    }
    lemma_replace_layout(cs, m0, j, 1, mid, m1);
}

} // verus!
