//! The heap: chunks with boundary tags in an arena of words, and 64 bins of
//! free chunks with a bitmap of the bins that are not empty.

use vstd::prelude::*;
use super::spans::{free_map, lemma_maps_from_spans, replaced, span_end, tag, top, used_map, Span};
use super::model::{
    bit, crosses, free_index, free_step1, free_step2, freed, freed_bin, freed_free_map, freed_hi, freed_lo,
    heap_ok, inside_free, lemma_alloc_chunk, lemma_bin_bit, lemma_bin_head, lemma_bin_ok,
    lemma_chunk_facts, lemma_chunks_around, lemma_first_region_ok, lemma_free_chunk_bit,
    lemma_free_steps, lemma_freed_maps, lemma_grow_ok, lemma_heap_basics, lemma_inside_free_kept,
    lemma_inside_not_key, lemma_mask_bits, lemma_merge_ok, lemma_order, lemma_page_mask,
    lemma_payloads_kept, lemma_pretrim_ok, lemma_reclaim_inside, lemma_split_ok, lemma_store_ok,
    lemma_tag_bits, lemma_unbin_ok, next_free, prev_free, reclaim_due, reclaim_range, HEAP_LIMIT,
    Reclaim,
};
use crate::atomic::a_ctz_64;
use super::mapped::{chunk_in_mapping, lemma_unmap_gives_back_mapping, mapping_of};
use super::{
    adjust_size, adjusted, bin_index, bin_index_up, bin_of, bin_up_of, grow_len, lemma_adjusted,
    lemma_bin_up_sound, map_len, too_large, DONTCARE, MMAP_THRESHOLD, OVERHEAD, PAGE_SIZE, RECLAIM,
    SIZE_ALIGN,
};

verus! {

/// How a request for memory is served.
pub enum Allocation {
    /// From the heap: the caller's memory starts at `ptr`.
    Heap { ptr: usize },
    /// The request is too large for the heap: it is to be served by a private
    /// mapping of `len` bytes.
    Mapped { len: usize },
    /// There is no memory for the request.
    Fail,
}

/// How a request to resize an allocation is served.
pub enum Resized {
    /// From the heap at `ptr`: the same allocation, or a new one holding a copy of
    /// the old one's payload, which was freed. `reclaim` holds pages of the free
    /// chunk that cutting the allocation down in place left, `freed` those of the
    /// old chunk once freed; both may be given back to the system.
    Heap { ptr: usize, reclaim: Option<Reclaim>, freed: Option<Reclaim> },
    /// The new size is too large for the heap: a private mapping of `len` bytes is
    /// to receive the first `copy` bytes of the old allocation, which is then freed.
    Mapped { len: usize, copy: usize },
    /// There is no memory for the new size; the old allocation stays.
    Fail,
}

impl Resized {
    /// The allocation a resize of null amounts to: a new allocation at the same
    /// address, or the same mapping length, or a failure.
    pub open spec fn as_allocation(self) -> Allocation {
        match self {
            Resized::Heap { ptr, .. } => Allocation::Heap { ptr },
            Resized::Mapped { len, .. } => Allocation::Mapped { len },
            Resized::Fail => Allocation::Fail,
        }
    }
}

/// The heap. `mem` is the arena: word `w` holds bytes `8 * w` to `8 * w + 7`.
/// Each chunk starts with two words: the size word of the chunk before it (its
/// footer) and its own size word, whose low bit is set while the chunk is in use.
/// Bin `i` lists the free chunks whose size falls in class `i`, oldest first;
/// bit `i` of `binmap` is set exactly when that bin is not empty.
pub struct Heap {
    mem: Vec<usize>,
    limit: usize,
    binmap: u64,
    bins: Vec<Vec<usize>>,
    spans: Ghost<Seq<Span>>,
}

impl Heap {
    /// The chunks of the heap in address order.
    pub closed spec fn spans(&self) -> Seq<Span> {
        self.spans@
    }

    /// The free list of bin `i`.
    pub closed spec fn bin(&self, i: int) -> Seq<usize> {
        self.bins@[i]@
    }

    /// The allocations: each address handed out, mapped to its chunk's size.
    pub open spec fn allocations(&self) -> Map<int, int> {
        used_map(self.spans())
    }

    /// The free chunks: each free chunk's start, mapped to its size.
    pub open spec fn free_chunks(&self) -> Map<int, int> {
        free_map(self.spans())
    }

    /// Whether bin `j` is the lowest bin at or above bin `i` that is not empty.
    pub open spec fn lowest_bin(&self, i: int, j: int) -> bool {
        &&& i <= j < 64
        &&& self.bin(j).len() > 0
        &&& forall|l: int| i <= l < j ==> self.bin(l).len() == 0
    }

    /// Where the chunk that growing the arena makes starts: at the last chunk when
    /// that one is free (the two are joined), else at the end of the chunks.
    pub open spec fn growth_start(&self) -> int {
        let cs = self.spans();
        if cs.len() == 0 {
            OVERHEAD as int
        } else if !cs.last().used {
            cs.last().start
        } else {
            top(cs)
        }
    }

    /// Whether handing the pages of `r` back to the system is safe: they are whole
    /// pages, at least one, inside a free chunk past its header.
    pub open spec fn safe_reclaim(&self, r: Reclaim) -> bool {
        &&& r.start % 4096 == 0
        &&& r.len % 4096 == 0
        &&& r.len > 0
        &&& inside_free(self.free_chunks(), r.start as int, r.len as int)
    }

    /// The size of the arena in bytes.
    pub closed spec fn arena_len(&self) -> int {
        (self.mem@.len() * 8) as int
    }

    /// How far the arena may grow, in bytes.
    pub closed spec fn limit(&self) -> int {
        self.limit as int
    }

    /// The word of the arena that holds byte `a`.
    pub closed spec fn word(&self, a: int) -> usize {
        self.mem@[a / 8]
    }

    /// The free lists, as sequences.
    closed spec fn bins_view(&self) -> Seq<Seq<usize>> {
        Seq::new(64, |i: int| self.bins@[i]@)
    }

    /// The heap is well formed: the chunks tile the arena, their size words agree
    /// with them, no two free chunks are neighbours, every free chunk is listed
    /// once in the bin of its size class and the bitmap marks the non-empty bins.
    pub closed spec fn wf(&self) -> bool {
        &&& self.bins@.len() == 64
        &&& heap_ok(self.spans@, self.mem@, self.limit as int, self.bins_view(), self.binmap)
    }

    /// The arena's words, in address order: word `w` holds bytes `8 * w` to `8 * w + 7`.
    pub fn arena(&self) -> (a: &[usize])
        ensures
            a@.len() * 8 == self.arena_len(),
            forall|w: int| 0 <= w < a@.len() ==> #[trigger] a@[w] == self.word(8 * w),
    {
        self.mem.as_slice()
    }

    /// An empty heap whose arena may grow to `limit` bytes. Room for the whole
    /// arena is reserved up front, so the arena never moves as it grows.
    #[verifier::spinoff_prover]
    #[verifier::rlimit(30)]
    pub fn new(limit: usize) -> (h: Heap)
        requires
            limit <= HEAP_LIMIT,
        ensures
            h.wf(),
            h.allocations() == Map::<int, int>::empty(),
            h.free_chunks() == Map::<int, int>::empty(),
            h.arena_len() == 0,
            h.limit() == limit,
    {
        let mut bins: Vec<Vec<usize>> = Vec::new();
        let mut i: usize = 0;
        while i < 64
            invariant
                i <= 64,
                bins@.len() == i,
                forall|j: int| 0 <= j < i ==> (#[trigger] bins@[j])@.len() == 0,
            decreases 64 - i,
        {
            bins.push(Vec::new());
            i = i + 1;
        }
        let h = Heap { mem: Vec::with_capacity(limit / 8), limit, binmap: 0, bins, spans: Ghost(Seq::empty()) };
        proof {
            reveal(heap_ok);
            assert(used_map(Seq::<Span>::empty()) =~= Map::<int, int>::empty());
            assert(free_map(Seq::<Span>::empty()) =~= Map::<int, int>::empty());
            let bv = h.bins_view();
            assert forall|i: int| 0 <= i < 64 implies (bit(0u64, i) <==> #[trigger] bv[i].len() > 0) by {
                let k = i as u64;
                assert((0u64 >> k) & 1u64 == 0u64) by (bit_vector);
            }
        }
        h
    }

    proof fn lemma_chunk(&self, k: int)
        requires
            self.wf(),
            0 <= k < self.spans@.len(),
        ensures
            self.spans@[k].start % 32 == 16,
            self.spans@[k].size % 32 == 0,
            self.spans@[k].size >= 32,
            self.spans@[k].start >= 16,
            span_end(self.spans@[k]) + 16 <= self.mem@.len() * 8,
            self.mem@.len() * 8 <= self.limit <= HEAP_LIMIT,
            self.mem@[self.spans@[k].start / 8 + 1] as int == tag(
                self.spans@[k].size,
                self.spans@[k].used,
            ),
            self.mem@[span_end(self.spans@[k]) / 8] as int == tag(
                self.spans@[k].size,
                self.spans@[k].used,
            ),
            k > 0 ==> span_end(self.spans@[k - 1]) == self.spans@[k].start
                && self.mem@[self.spans@[k].start / 8] as int == tag(
                self.spans@[k - 1].size,
                self.spans@[k - 1].used,
            ),
            k == 0 ==> self.spans@[k].start == 16 && self.mem@[self.spans@[k].start / 8] == 1,
            k + 1 < self.spans@.len() ==> self.spans@[k + 1].start == span_end(self.spans@[k])
                && self.mem@[span_end(self.spans@[k]) / 8 + 1] as int == tag(
                self.spans@[k + 1].size,
                self.spans@[k + 1].used,
            ),
            k + 1 == self.spans@.len() ==> self.mem@[span_end(self.spans@[k]) / 8 + 1] == 1,
            !self.spans@[k].used && k > 0 ==> self.spans@[k - 1].used,
            !self.spans@[k].used && k + 1 < self.spans@.len() ==> self.spans@[k + 1].used,
            !self.spans@[k].used ==> self.bins@[bin_of(self.spans@[k].size)]@.contains(
                self.spans@[k].start as usize,
            ),
            0 <= bin_of(self.spans@[k].size) < 64,
            !self.spans@[k].used ==> free_map(self.spans@).contains_key(self.spans@[k].start)
                && free_map(self.spans@)[self.spans@[k].start] == self.spans@[k].size
                && !used_map(self.spans@).contains_key(self.spans@[k].start + OVERHEAD),
            self.spans@[k].used ==> used_map(self.spans@).contains_key(self.spans@[k].start + OVERHEAD)
                && used_map(self.spans@)[self.spans@[k].start + OVERHEAD] == self.spans@[k].size
                && !free_map(self.spans@).contains_key(self.spans@[k].start),
    {
        lemma_chunk_facts(
            self.spans@,
            self.mem@,
            self.limit as int,
            self.bins_view(),
            self.binmap,
            k,
        );
    }

    /// Takes the free chunk `k`, which starts at `c` and is listed in bin `i`,
    /// out of its bin and marks it in use.
    #[verifier::spinoff_prover]
    #[verifier::rlimit(30)]
    fn unbin(&mut self, c: usize, i: usize, Ghost(k): Ghost<int>)
        requires
            old(self).wf(),
            0 <= k < old(self).spans@.len(),
            old(self).spans@[k].start == c,
            !old(self).spans@[k].used,
            i == bin_of(old(self).spans@[k].size),
        ensures
            final(self).wf(),
            final(self).spans@ == old(self).spans@.update(
                k,
                Span { start: c as int, size: old(self).spans@[k].size, used: true },
            ),
            used_map(final(self).spans@) == used_map(old(self).spans@).insert(
                c + OVERHEAD,
                old(self).spans@[k].size,
            ),
            free_map(final(self).spans@) == free_map(old(self).spans@).remove(c as int),
            final(self).mem@ == old(self).mem@.update(
                c / 8 + 1,
                (old(self).spans@[k].size + 1) as usize,
            ).update(span_end(old(self).spans@[k]) / 8, (old(self).spans@[k].size + 1) as usize),
            final(self).limit == old(self).limit,
            final(self).mem@.len() == old(self).mem@.len(),
            forall|w: int|
                0 <= w < final(self).mem@.len() && !(c / 8 < w <= span_end(old(self).spans@[k]) / 8)
                    ==> #[trigger] final(self).mem@[w] == old(self).mem@[w],
            forall|l: int|
                0 <= l < 64 ==> #[trigger] final(self).bin(l) == if l == i {
                    old(self).bin(l).remove_value(c)
                } else {
                    old(self).bin(l)
                },
    {
        let ghost cs = self.spans@;
        let ghost m0 = self.mem@;
        let ghost bv0 = self.bins_view();
        let ghost old_bins = self.bins@;
        proof {
            self.lemma_chunk(k);
            lemma_tag_bits(cs[k].size as usize);
        }
        let s = self.mem[c / 8 + 1];
        let mut q: usize = 0;
        let blen = self.bins[i].len();
        while self.bins[i][q] != c
            invariant
                self.bins@ == old_bins,
                0 <= i < 64,
                old_bins.len() == 64,
                q < old_bins[i as int]@.len(),
                old_bins[i as int]@.len() == blen,
                old_bins[i as int]@.contains(c),
                forall|j: int| 0 <= j < q ==> old_bins[i as int]@[j] != c,
            decreases old_bins[i as int]@.len() - q,
        {
            q = q + 1;
            proof {
                if q == old_bins[i as int]@.len() {
                    let j = choose|j: int|
                        0 <= j < old_bins[i as int]@.len() && old_bins[i as int]@[j] == c;
                    assert(false);
                }
            }
        }
        let only = self.bins[i].len() == 1;
        let ghost bm0 = self.binmap;
        let _ = self.bins[i].remove(q);
        if only {
            self.binmap = self.binmap & !(1u64 << (i as u64));
        }
        self.mem[c / 8 + 1] = s | 1;
        let e = (c + s) / 8;
        self.mem[e] = self.mem[e] | 1;
        self.spans = Ghost(cs.update(k, Span { start: c as int, size: cs[k].size, used: true }));
        proof {
            assert(bv0[i as int] == old_bins[i as int]@);
            assert(self.bins_view() =~= bv0.update(i as int, bv0[i as int].remove(q as int)));
            old_bins[i as int]@.index_of_first_ensures(c);
            assert(old_bins[i as int]@.index_of_first(c) == Some(q as int)) by {
                let f = old_bins[i as int]@.index_of_first(c)->0;
                if f < q {
                    assert(old_bins[i as int]@[f] != c);
                }
            }
            assert forall|l: int| 0 <= l < 64 implies #[trigger] self.bin(l) == if l == i {
                old(self).bin(l).remove_value(c)
            } else {
                old(self).bin(l)
            } by {
                assert(self.bin(l) == self.bins_view()[l]);
                assert(old(self).bin(l) == bv0[l]);
            }
            lemma_unbin_ok(
                cs,
                m0,
                self.mem@,
                self.limit as int,
                bv0,
                self.bins_view(),
                bm0,
                self.binmap,
                k,
                i as int,
                q as int,
            );
        }
    }

    /// Joins chunk `k`, which starts at `c`, with the chunk after it; both are in use,
    /// and so is the joined chunk. Returns the joined size.
    #[verifier::spinoff_prover]
    #[verifier::rlimit(30)]
    fn merge_used(&mut self, c: usize, Ghost(k): Ghost<int>) -> (n: usize)
        requires
            old(self).wf(),
            0 <= k,
            k + 1 < old(self).spans@.len(),
            old(self).spans@[k].start == c,
            old(self).spans@[k].used,
            old(self).spans@[k + 1].used,
        ensures
            final(self).wf(),
            n == old(self).spans@[k].size + old(self).spans@[k + 1].size,
            final(self).spans@ == replaced(
                old(self).spans@,
                k,
                2,
                seq![Span { start: c as int, size: n as int, used: true }],
            ),
            used_map(final(self).spans@) == used_map(old(self).spans@).remove(
                c + OVERHEAD + old(self).spans@[k].size,
            ).insert(c + OVERHEAD, n as int),
            free_map(final(self).spans@) == free_map(old(self).spans@),
            final(self).mem@ == old(self).mem@.update(c / 8 + 1, (n + 1) as usize).update(
                (c + n) / 8,
                (n + 1) as usize,
            ),
            final(self).limit == old(self).limit,
            final(self).mem@.len() == old(self).mem@.len(),
            forall|w: int|
                0 <= w < final(self).mem@.len() && !(c / 8 < w <= span_end(old(self).spans@[k + 1]) / 8)
                    ==> #[trigger] final(self).mem@[w] == old(self).mem@[w],
            forall|l: int| 0 <= l < 64 ==> #[trigger] final(self).bin(l) == old(self).bin(l),
    {
        let ghost cs = self.spans@;
        let ghost m0 = self.mem@;
        proof {
            self.lemma_chunk(k);
            self.lemma_chunk(k + 1);
            lemma_tag_bits(cs[k].size as usize);
            lemma_tag_bits(cs[k + 1].size as usize);
        }
        let s1 = self.mem[c / 8 + 1] & !1usize;
        let s2 = self.mem[(c + s1) / 8 + 1] & !1usize;
        let n = s1 + s2;
        proof {
            lemma_tag_bits(n);
        }
        self.mem[c / 8 + 1] = n | 1;
        self.mem[(c + n) / 8] = n | 1;
        self.spans = Ghost(
            replaced(cs, k, 2, seq![Span { start: c as int, size: n as int, used: true }]),
        );
        proof {
            lemma_merge_ok(cs, m0, self.mem@, self.limit as int, self.bins_view(), self.binmap, k);
        }
        n
    }

    /// Splits chunk `k`, which starts at `c` and is in use, into a chunk of `n`
    /// bytes and one of the rest, both in use.
    #[verifier::spinoff_prover]
    #[verifier::rlimit(30)]
    fn split_used(&mut self, c: usize, n: usize, Ghost(k): Ghost<int>)
        requires
            old(self).wf(),
            0 <= k < old(self).spans@.len(),
            old(self).spans@[k].start == c,
            old(self).spans@[k].used,
            n % 32 == 0,
            n >= 32,
            n + 32 <= old(self).spans@[k].size,
        ensures
            final(self).wf(),
            final(self).spans@ == replaced(
                old(self).spans@,
                k,
                1,
                seq![
                    Span { start: c as int, size: n as int, used: true },
                    Span { start: c + n, size: old(self).spans@[k].size - n, used: true },
                ],
            ),
            used_map(final(self).spans@) == used_map(old(self).spans@).insert(
                c + OVERHEAD,
                n as int,
            ).insert(c + n + OVERHEAD, old(self).spans@[k].size - n),
            free_map(final(self).spans@) == free_map(old(self).spans@),
            final(self).mem@ == old(self).mem@.update(c / 8 + 1, (n + 1) as usize).update(
                (c + n) / 8,
                (n + 1) as usize,
            ).update((c + n) / 8 + 1, (old(self).spans@[k].size - n + 1) as usize).update(
                (c + old(self).spans@[k].size) / 8,
                (old(self).spans@[k].size - n + 1) as usize,
            ),
            final(self).limit == old(self).limit,
            final(self).mem@.len() == old(self).mem@.len(),
            forall|w: int|
                0 <= w < final(self).mem@.len() && !(c / 8 < w <= span_end(old(self).spans@[k]) / 8)
                    ==> #[trigger] final(self).mem@[w] == old(self).mem@[w],
            forall|l: int| 0 <= l < 64 ==> #[trigger] final(self).bin(l) == old(self).bin(l),
    {
        let ghost cs = self.spans@;
        let ghost m0 = self.mem@;
        proof {
            self.lemma_chunk(k);
            lemma_tag_bits(cs[k].size as usize);
            lemma_tag_bits(n);
            lemma_tag_bits((cs[k].size - n) as usize);
        }
        let s = self.mem[c / 8 + 1] & !1usize;
        self.mem[c / 8 + 1] = n | 1;
        self.mem[(c + n) / 8] = n | 1;
        self.mem[(c + n) / 8 + 1] = (s - n) | 1;
        self.mem[(c + s) / 8] = (s - n) | 1;
        let ghost x = Span { start: c as int, size: n as int, used: true };
        let ghost y = Span { start: c + n, size: s - n, used: true };
        self.spans = Ghost(replaced(cs, k, 1, seq![x, y]));
        proof {
            lemma_split_ok(
                cs,
                m0,
                self.mem@,
                self.limit as int,
                self.bins_view(),
                self.binmap,
                k,
                n as int,
            );
        }
    }

    /// Marks chunk `k`, which starts at `c`, is in use and has no free neighbour,
    /// as free and appends it to the bin of its size class.
    #[verifier::spinoff_prover]
    #[verifier::rlimit(30)]
    fn bin_chunk(&mut self, c: usize, Ghost(k): Ghost<int>)
        requires
            old(self).wf(),
            0 <= k < old(self).spans@.len(),
            old(self).spans@[k].start == c,
            old(self).spans@[k].used,
            k > 0 ==> old(self).spans@[k - 1].used,
            k + 1 < old(self).spans@.len() ==> old(self).spans@[k + 1].used,
        ensures
            final(self).wf(),
            final(self).spans@ == old(self).spans@.update(
                k,
                Span { start: c as int, size: old(self).spans@[k].size, used: false },
            ),
            used_map(final(self).spans@) == used_map(old(self).spans@).remove(c + OVERHEAD),
            free_map(final(self).spans@) == free_map(old(self).spans@).insert(
                c as int,
                old(self).spans@[k].size,
            ),
            final(self).limit == old(self).limit,
            final(self).mem@.len() == old(self).mem@.len(),
            forall|w: int|
                0 <= w < final(self).mem@.len() && !(c / 8 < w <= span_end(old(self).spans@[k]) / 8)
                    ==> #[trigger] final(self).mem@[w] == old(self).mem@[w],
            forall|l: int|
                0 <= l < 64 ==> #[trigger] final(self).bin(l) == if l == bin_of(old(self).spans@[k].size) {
                    old(self).bin(l).push(c)
                } else {
                    old(self).bin(l)
                },
    {
        let ghost cs = self.spans@;
        let ghost m0 = self.mem@;
        let ghost bv0 = self.bins_view();
        proof {
            self.lemma_chunk(k);
            lemma_tag_bits(cs[k].size as usize);
        }
        let s = self.mem[c / 8 + 1] & !1usize;
        let i = bin_index(s);
        let ghost bm0 = self.binmap;
        self.binmap = self.binmap | (1u64 << (i as u64));
        self.mem[c / 8 + 1] = s;
        self.mem[(c + s) / 8] = s;
        self.bins[i].push(c);
        self.spans = Ghost(cs.update(k, Span { start: c as int, size: s as int, used: false }));
        proof {
            assert(self.bins_view() =~= bv0.update(i as int, bv0[i as int].push(c)));
            assert forall|l: int| 0 <= l < 64 implies #[trigger] self.bin(l) == if l == bin_of(cs[k].size) {
                old(self).bin(l).push(c)
            } else {
                old(self).bin(l)
            } by {
                assert(self.bin(l) == self.bins_view()[l]);
                assert(old(self).bin(l) == bv0[l]);
            }
            lemma_bin_ok(
                cs,
                m0,
                self.mem@,
                self.limit as int,
                bv0,
                self.bins_view(),
                bm0,
                self.binmap,
                k,
            );
        }
    }

    /// Frees chunk `k`, which starts at `c` and is in use: joins it with the free
    /// chunks on either side and lists the result in its bin. Returns the pages to
    /// give back when the join made a large chunk.
    #[verifier::spinoff_prover]
    #[verifier::rlimit(50)]
    fn free_chunk(&mut self, c: usize, Ghost(k): Ghost<int>) -> (r: Option<Reclaim>)
        requires
            old(self).wf(),
            0 <= k < old(self).spans@.len(),
            old(self).spans@[k].start == c,
            old(self).spans@[k].used,
        ensures
            final(self).wf(),
            final(self).spans@ == freed(old(self).spans@, k),
            used_map(final(self).spans@) == used_map(old(self).spans@).remove(c + OVERHEAD),
            free_map(final(self).spans@) == freed_free_map(old(self).spans@, k),
            r == (if reclaim_due(old(self).spans@, k) {
                Some(reclaim_range(freed_lo(old(self).spans@, k), freed_hi(old(self).spans@, k)))
            } else {
                None
            }),
            final(self).limit == old(self).limit,
            final(self).mem@.len() == old(self).mem@.len(),
            forall|w: int|
                0 <= w < final(self).mem@.len() && !(freed_lo(old(self).spans@, k) / 8 < w
                    <= freed_hi(old(self).spans@, k) / 8) ==> #[trigger] final(self).mem@[w]
                    == old(self).mem@[w],
            r matches Some(x) ==> final(self).safe_reclaim(x),
            forall|st: int, ln: int|
                #[trigger] inside_free(old(self).free_chunks(), st, ln) ==> inside_free(
                    final(self).free_chunks(),
                    st,
                    ln,
                ),
            forall|l: int|
                0 <= l < 64 ==> #[trigger] final(self).bin(l) == freed_bin(
                    old(self).spans@,
                    k,
                    l,
                    old(self).bin(l),
                ),
    {
        let ghost cs = self.spans@;
        let ghost m0 = self.mem@;
        let ghost pf = prev_free(cs, k);
        let ghost nf = next_free(cs, k);
        let ghost bv0 = self.bins_view();
        let ghost bm0 = self.binmap;
        proof {
            if reclaim_due(cs, k) {
                lemma_reclaim_inside(cs, m0, self.limit as int, bv0, bm0, k);
            }
            assert forall|st: int, ln: int| #[trigger]
                inside_free(free_map(cs), st, ln) implies inside_free(freed_free_map(cs, k), st, ln) by {
                lemma_inside_free_kept(cs, m0, self.limit as int, bv0, bm0, k, st, ln);
            }
        }
        proof {
            self.lemma_chunk(k);
            lemma_tag_bits(cs[k].size as usize);
            if k > 0 {
                self.lemma_chunk(k - 1);
                lemma_tag_bits(cs[k - 1].size as usize);
            } else {
                assert(1usize & 1 == 1) by (bit_vector);
            }
            if k + 1 < cs.len() {
                self.lemma_chunk(k + 1);
                lemma_tag_bits(cs[k + 1].size as usize);
            } else {
                assert(1usize & 1 == 1) by (bit_vector);
            }
        }
        let new_size = self.mem[c / 8 + 1] & !1usize;
        let mut s = c;
        let mut final_size = new_size;
        let mut next = c + new_size;
        let mut reclaim = false;
        let ghost ks = free_index(cs, k);
        proof {
            lemma_free_steps(cs, m0, self.limit as int, bv0, bm0, k);
        }
        let ps = self.mem[s / 8];
        if ps & 1 == 0 {
            let size = ps;
            let prev = s - size;
            let i = bin_index(size);
            self.unbin(prev, i, Ghost(k - 1));
            let _ = self.merge_used(prev, Ghost(k - 1));
            s = prev;
            final_size = final_size + size;
            if new_size + size > RECLAIM && ((new_size + size) ^ size) > size {
                reclaim = true;
            }
        }
        proof {
            assert(self.spans@ == free_step1(cs, k));
            self.lemma_chunk(ks);
            assert forall|l: int| 0 <= l < 64 implies #[trigger] self.bin(l) == if prev_free(cs, k) && l
                == bin_of(cs[k - 1].size) {
                old(self).bin(l).remove_value(cs[k - 1].start as usize)
            } else {
                old(self).bin(l)
            } by {}
        }
        let ghost bins1 = Seq::new(64, |l: int| self.bin(l));
        let nc = self.mem[next / 8 + 1];
        if nc & 1 == 0 {
            let size = nc;
            let i = bin_index(size);
            self.unbin(next, i, Ghost(ks + 1));
            let _ = self.merge_used(s, Ghost(ks));
            final_size = final_size + size;
            if new_size + size > RECLAIM && ((new_size + size) ^ size) > size {
                reclaim = true;
            }
            next = next + size;
        }
        proof {
            assert(self.spans@ == free_step2(cs, k));
            assert forall|l: int| 0 <= l < 64 implies #[trigger] self.bin(l) == if next_free(cs, k) && l
                == bin_of(cs[k + 1].size) {
                bins1[l].remove_value(cs[k + 1].start as usize)
            } else {
                bins1[l]
            } by {}
        }
        let ghost bins2 = Seq::new(64, |l: int| self.bin(l));
        self.bin_chunk(s, Ghost(ks));
        proof {
            assert forall|l: int| 0 <= l < 64 implies #[trigger] self.bin(l) == freed_bin(
                cs,
                k,
                l,
                old(self).bin(l),
            ) by {
                assert(bins2[l] == if next_free(cs, k) && l == bin_of(cs[k + 1].size) {
                    bins1[l].remove_value(cs[k + 1].start as usize)
                } else {
                    bins1[l]
                });
                assert(bins1[l] == if prev_free(cs, k) && l == bin_of(cs[k - 1].size) {
                    old(self).bin(l).remove_value(cs[k - 1].start as usize)
                } else {
                    old(self).bin(l)
                });
            }
        }
        proof {
            lemma_freed_maps(cs, m0, self.limit as int, bv0, bm0, k);
        }
        if reclaim {
            let a = (s + SIZE_ALIGN + PAGE_SIZE - 1) & !(PAGE_SIZE - 1);
            let b = (next - SIZE_ALIGN) & !(PAGE_SIZE - 1);
            proof {
                lemma_page_mask((s + SIZE_ALIGN + PAGE_SIZE - 1) as usize);
                lemma_page_mask((next - SIZE_ALIGN) as usize);
            }
            Some(Reclaim { start: a, len: b - a })
        } else {
            None
        }
    }

    /// Cuts chunk `k`, which starts at `c` and is in use, down to `n` bytes when
    /// the rest is worth keeping apart, and frees the rest.
    #[verifier::spinoff_prover]
    fn trim(&mut self, c: usize, n: usize, Ghost(k): Ghost<int>) -> (r: Option<Reclaim>)
        requires
            old(self).wf(),
            0 <= k < old(self).spans@.len(),
            old(self).spans@[k].start == c,
            old(self).spans@[k].used,
            n % 32 == 0,
            n >= 32,
            n <= old(self).spans@[k].size,
        ensures
            final(self).wf(),
            used_map(final(self).spans@) == used_map(old(self).spans@).insert(c + OVERHEAD, n as int),
            final(self).limit == old(self).limit,
            final(self).mem@.len() == old(self).mem@.len(),
            forall|w: int|
                0 <= w < final(self).mem@.len() && w != c / 8 + 1 && !((c + n) / 8 <= w <= freed_hi(
                    old(self).spans@,
                    k,
                ) / 8) ==> #[trigger] final(self).mem@[w] == old(self).mem@[w],
            r matches Some(x) ==> final(self).safe_reclaim(x),
            r == (if n + DONTCARE < old(self).spans@[k].size && k + 1 < old(self).spans@.len()
                && !old(self).spans@[k + 1].used && crosses(
                old(self).spans@[k].size - n,
                old(self).spans@[k + 1].size,
            ) {
                Some(reclaim_range(c + n, span_end(old(self).spans@[k + 1])))
            } else {
                None
            }),
            !(n + DONTCARE < old(self).spans@[k].size) ==> *final(self) == *old(self),
            free_map(final(self).spans@) == if n + DONTCARE < old(self).spans@[k].size {
                (if next_free(old(self).spans@, k) {
                    free_map(old(self).spans@).remove(old(self).spans@[k + 1].start)
                } else {
                    free_map(old(self).spans@)
                }).insert(c + n, freed_hi(old(self).spans@, k) - (c + n))
            } else {
                free_map(old(self).spans@)
            },
            forall|l: int|
                0 <= l < 64 ==> #[trigger] final(self).bin(l) == if n + DONTCARE < old(self).spans@[k].size {
                    let b1 = if next_free(old(self).spans@, k) && l == bin_of(old(self).spans@[k + 1].size) {
                        old(self).bin(l).remove_value(old(self).spans@[k + 1].start as usize)
                    } else {
                        old(self).bin(l)
                    };
                    if l == bin_of(freed_hi(old(self).spans@, k) - (c + n)) {
                        b1.push((c + n) as usize)
                    } else {
                        b1
                    }
                } else {
                    old(self).bin(l)
                },
    {
        let ghost cs = self.spans@;
        proof {
            self.lemma_chunk(k);
            lemma_tag_bits(cs[k].size as usize);
        }
        let n1 = self.mem[c / 8 + 1] & !1usize;
        if n >= n1 - DONTCARE {
            proof {
                assert(n1 == n);
                assert(used_map(cs).insert(c + OVERHEAD, n as int) =~= used_map(cs));
            }
            return None;
        }
        self.split_used(c, n, Ghost(k));
        let ghost cs1 = self.spans@;
        proof {
            self.lemma_chunk(k);
            self.lemma_chunk(k + 1);
            lemma_inside_not_key(
                cs,
                old(self).mem@,
                self.limit as int,
                old(self).bins_view(),
                old(self).binmap,
                k,
                c + n,
            );
            assert(cs1[k + 1].start == c + n);
            if k + 1 < cs.len() {
                assert(cs1[k + 2] == cs[k + 1]);
            }
            assert(freed_hi(cs1, k + 1) == freed_hi(cs, k));
            assert(freed_lo(cs1, k + 1) == c + n);
        }
        let r = self.free_chunk(c + n, Ghost(k + 1));
        proof {
            assert(used_map(self.spans@) =~= used_map(cs).insert(c + OVERHEAD, n as int));
            assert(!prev_free(cs1, k + 1));
            assert(next_free(cs1, k + 1) == next_free(cs, k));
            if next_free(cs, k) {
                assert(cs1[k + 2] == cs[k + 1]);
            }
            assert(free_map(cs1) == free_map(cs));
        }
        r
    }

    /// Tries to serve `n` bytes from the front of the free chunk `k`, the head of
    /// bin `j`, leaving the rest in the bin in its place. This is done only for
    /// large chunks well above the ideal bin `i`, and only when the rest stays in
    /// bin `j`.
    #[verifier::spinoff_prover]
    #[verifier::rlimit(30)]
    fn pretrim(&mut self, c: usize, n: usize, i: usize, j: usize, Ghost(k): Ghost<int>) -> (r: bool)
        requires
            old(self).wf(),
            0 <= k < old(self).spans@.len(),
            old(self).spans@[k].start == c,
            !old(self).spans@[k].used,
            j == bin_of(old(self).spans@[k].size),
            old(self).bins@[j as int]@.len() > 0,
            old(self).bins@[j as int]@[0] == c,
            n % 32 == 0,
            n >= 32,
            n <= old(self).spans@[k].size,
            i < 64,
        ensures
            final(self).wf(),
            r ==> final(self).spans@ == replaced(
                old(self).spans@,
                k,
                1,
                seq![
                    Span { start: c as int, size: n as int, used: true },
                    Span { start: c + n, size: old(self).spans@[k].size - n, used: false },
                ],
            ),
            r ==> used_map(final(self).spans@) == used_map(old(self).spans@).insert(
                c + OVERHEAD,
                n as int,
            ),
            r ==> free_map(final(self).spans@) == free_map(old(self).spans@).remove(c as int).insert(
                c + n,
                old(self).spans@[k].size - n,
            ),
            r == (!(j < 40 || (j < i + 3 && j != 63)) && old(self).spans@[k].size - n > MMAP_THRESHOLD
                && bin_of(old(self).spans@[k].size - n) == j),
            r ==> forall|l: int|
                0 <= l < 64 ==> #[trigger] final(self).bin(l) == if l == j {
                    old(self).bin(l).update(0, (c + n) as usize)
                } else {
                    old(self).bin(l)
                },
            !r ==> *final(self) == *old(self),
            final(self).limit == old(self).limit,
            final(self).mem@.len() == old(self).mem@.len(),
            forall|w: int|
                0 <= w < final(self).mem@.len() && !(c / 8 < w <= span_end(old(self).spans@[k]) / 8)
                    ==> #[trigger] final(self).mem@[w] == old(self).mem@[w],
    {
        let ghost cs = self.spans@;
        let ghost m0 = self.mem@;
        let ghost bv0 = self.bins_view();
        proof {
            self.lemma_chunk(k);
            lemma_tag_bits(cs[k].size as usize);
        }
        if j < 40 || (j < i + 3 && j != 63) {
            return false;
        }
        let n1 = self.mem[c / 8 + 1] & !1usize;
        if n1 - n <= MMAP_THRESHOLD {
            return false;
        }
        if bin_index(n1 - n) != j {
            return false;
        }
        proof {
            lemma_tag_bits(n);
        }
        self.mem[c / 8 + 1] = n | 1;
        self.mem[(c + n) / 8] = n | 1;
        self.mem[(c + n) / 8 + 1] = n1 - n;
        self.mem[(c + n1) / 8] = n1 - n;
        self.bins[j].set(0, c + n);
        self.spans = Ghost(
            replaced(
                cs,
                k,
                1,
                seq![
                    Span { start: c as int, size: n as int, used: true },
                    Span { start: c + n, size: n1 - n, used: false },
                ],
            ),
        );
        proof {
            assert(bv0[j as int] == old(self).bins@[j as int]@);
            assert(self.bins_view() =~= bv0.update(j as int, bv0[j as int].update(0, (c + n) as usize)));
            assert forall|l: int| 0 <= l < 64 implies #[trigger] self.bin(l) == if l == j {
                old(self).bin(l).update(0, (c + n) as usize)
            } else {
                old(self).bin(l)
            } by {
                assert(self.bin(l) == self.bins_view()[l]);
                assert(old(self).bin(l) == bv0[l]);
            }
            lemma_pretrim_ok(
                cs,
                m0,
                self.mem@,
                self.limit as int,
                bv0,
                self.bins_view(),
                self.binmap,
                k,
                n as int,
            );
        }
        true
    }

    /// Grows the arena for a chunk of `n` bytes: by `n` and a sentinel's worth,
    /// rounded up to whole pages. The new bytes make one chunk in use, returned by
    /// its start; on the first growth it follows a padding of `OVERHEAD` bytes,
    /// afterwards it begins where the end sentinel stood. Fails, changing nothing,
    /// when the arena would grow past its limit.
    #[verifier::spinoff_prover]
    #[verifier::rlimit(30)]
    fn expand(&mut self, n: usize) -> (r: Option<usize>)
        requires
            old(self).wf(),
            n % 32 == 0,
            32 <= n <= MMAP_THRESHOLD,
        ensures
            r.is_none() <==> old(self).mem@.len() * 8 + grow_len(n as int) > old(self).limit,
            r.is_none() ==> *final(self) == *old(self),
            r matches Some(c) ==> {
                &&& final(self).wf()
                &&& final(self).spans@ == (if old(self).spans@.len() == 0 {
                    seq![Span { start: 16, size: grow_len(n as int) - 32, used: true }]
                } else {
                    old(self).spans@.push(
                        Span { start: top(old(self).spans@), size: grow_len(n as int), used: true },
                    )
                })
                &&& c == final(self).spans@.last().start
                &&& used_map(final(self).spans@) == used_map(old(self).spans@).insert(
                    c + OVERHEAD,
                    final(self).spans@.last().size,
                )
                &&& free_map(final(self).spans@) == free_map(old(self).spans@)
                &&& final(self).mem@.len() * 8 == old(self).mem@.len() * 8 + grow_len(n as int)
                &&& forall|l: int| 0 <= l < 64 ==> #[trigger] final(self).bin(l) == old(self).bin(l)
                &&& forall|w: int|
                    0 <= w < old(self).mem@.len() && w <= c / 8 ==> #[trigger] final(self).mem@[w]
                        == old(self).mem@[w]
                &&& final(self).limit == old(self).limit
            },
    {
        let ghost cs = self.spans@;
        let ghost m0 = self.mem@;
        proof {
            lemma_heap_basics(cs, m0, self.limit as int, self.bins_view(), self.binmap);
            lemma_page_mask((n + SIZE_ALIGN + PAGE_SIZE - 1) as usize);
        }
        let inc = (n + SIZE_ALIGN + PAGE_SIZE - 1) & !(PAGE_SIZE - 1);
        let old_len = self.mem.len() * 8;
        if old_len + inc > self.limit {
            return None;
        }
        let target = (old_len + inc) / 8;
        while self.mem.len() < target
            invariant
                m0.len() <= self.mem@.len() <= target,
                target * 8 == old_len + inc,
                old_len == m0.len() * 8,
                forall|w: int| 0 <= w < m0.len() ==> #[trigger] self.mem@[w] == m0[w],
                self.spans@ == cs,
                self.limit == old(self).limit,
                self.bins == old(self).bins,
                self.binmap == old(self).binmap,
            decreases target - self.mem@.len(),
        {
            self.mem.push(0);
        }
        if old_len == 0 {
            let size = inc - SIZE_ALIGN;
            proof {
                lemma_tag_bits(size);
            }
            self.mem.set(2, 1);
            self.mem.set(3, size | 1);
            self.mem.set((inc - OVERHEAD) / 8, size | 1);
            self.mem.set((inc - OVERHEAD) / 8 + 1, 1);
            let ghost x = Span { start: 16, size: size as int, used: true };
            let ghost ns = seq![x];
            self.spans = Ghost(ns);
            proof {
                assert(cs =~= Seq::<Span>::empty());
                assert(m0 =~= Seq::<usize>::empty());
                lemma_first_region_ok(
                    self.mem@,
                    self.limit as int,
                    self.bins_view(),
                    self.binmap,
                    inc as int,
                );
                assert(used_map(cs) =~= Map::<int, int>::empty());
                assert(free_map(cs) =~= Map::<int, int>::empty());
            }
            Some(16)
        } else {
            let top = old_len - OVERHEAD;
            proof {
                lemma_tag_bits(inc);
            }
            self.mem.set((top + inc) / 8, inc | 1);
            self.mem.set((top + inc) / 8 + 1, 1);
            self.mem.set(top / 8 + 1, inc | 1);
            self.spans = Ghost(cs.push(Span { start: top as int, size: inc as int, used: true }));
            proof {
                lemma_grow_ok(
                    cs,
                    m0,
                    self.mem@,
                    self.limit as int,
                    self.bins_view(),
                    self.binmap,
                    inc as int,
                );
            }
            Some(top)
        }
    }

    /// The payload words of the allocations in `keep` read the same in `new` as in `old`.
    pub open spec fn payloads_kept(old: &Heap, new: &Heap, keep: Map<int, int>) -> bool {
        forall|p: int, a: int|
            #![trigger keep.contains_key(p), new.word(a)]
            keep.contains_key(p) && p <= a < p + keep[p] - OVERHEAD ==> new.word(a) == old.word(a)
    }

    /// Whether the heap can serve a chunk of `m` bytes: some free chunk lies in a bin
    /// whose chunks are all large enough, or the arena may grow by enough.
    pub open spec fn can_serve(&self, m: int) -> bool {
        ||| exists|a: int|
            #[trigger] self.free_chunks().contains_key(a) && bin_of(self.free_chunks()[a])
                >= bin_up_of(m)
        ||| self.arena_len() + grow_len(m) <= self.limit()
    }

    /// The bin whose head serves a chunk of `m` bytes: the lowest non-empty bin
    /// whose chunks are all large enough, if there is one.
    pub open spec fn serving_bin(&self, m: int) -> Option<int> {
        if exists|j: int| #[trigger] self.lowest_bin(bin_up_of(m), j) {
            Some(choose|j: int| #[trigger] self.lowest_bin(bin_up_of(m), j))
        } else {
            None
        }
    }

    /// The size of the chunk that growing the arena for a chunk of `m` bytes
    /// makes, joined with the last chunk when that one is free.
    pub open spec fn grown_size(&self, m: int) -> int {
        let cs = self.spans();
        if cs.len() == 0 {
            grow_len(m) - SIZE_ALIGN
        } else if !cs.last().used {
            cs.last().size + grow_len(m)
        } else {
            grow_len(m)
        }
    }

    /// Where the chunk that serves a chunk of `m` bytes starts: the head of the
    /// serving bin, or else where the arena grows.
    pub open spec fn source_start(&self, m: int) -> int {
        match self.serving_bin(m) {
            Some(j) => self.bin(j)[0] as int,
            None => self.growth_start(),
        }
    }

    /// The size of the chunk that serves a chunk of `m` bytes, before it is cut.
    pub open spec fn source_size(&self, m: int) -> int {
        match self.serving_bin(m) {
            Some(j) => self.free_chunks()[self.bin(j)[0] as int],
            None => self.grown_size(m),
        }
    }

    /// The free chunks after a chunk of `m` bytes is served: the source chunk is
    /// no longer free, and the rest cut off its end, when it is worth keeping
    /// apart, is.
    pub open spec fn free_after_serving(&self, m: int) -> Map<int, int> {
        let c = self.source_start(m);
        let size = self.source_size(m);
        let f = self.free_chunks().remove(c);
        if m + DONTCARE < size {
            f.insert(c + m, size - m)
        } else {
            f
        }
    }

    /// Bin `l` after a chunk of `m` bytes is served. A large head of bin `j` far
    /// above the ideal bin whose rest stays in bin `j` serves from its front and
    /// the rest takes its place at the head. Otherwise the source chunk leaves
    /// its bin (a free last chunk joined to the growth leaves its own), and the
    /// rest cut off, when worth keeping apart, goes to the tail of its bin.
    pub open spec fn bin_after_serving(&self, m: int, l: int) -> Seq<usize> {
        let c = self.source_start(m);
        let size = self.source_size(m);
        let b = self.bin(l);
        let cs = self.spans();
        let b1 = match self.serving_bin(m) {
            Some(j) => if l == j {
                b.remove_value(c as usize)
            } else {
                b
            },
            None => if cs.len() > 0 && !cs.last().used && l == bin_of(cs.last().size) {
                b.remove_value(c as usize)
            } else {
                b
            },
        };
        match self.serving_bin(m) {
            Some(j) => if !(j < 40 || (j < bin_up_of(m) + 3 && j != 63)) && size - m > MMAP_THRESHOLD
                && bin_of(size - m) == j {
                if l == j {
                    b.update(0, (c + m) as usize)
                } else {
                    b
                }
            } else if m + DONTCARE < size && l == bin_of(size - m) {
                b1.push((c + m) as usize)
            } else {
                b1
            },
            None => if m + DONTCARE < size && l == bin_of(size - m) {
                b1.push((c + m) as usize)
            } else {
                b1
            },
        }
    }

    /// What serving a request for `n` bytes does, taking the heap from `before` to
    /// `after` with result `r`. Requests too large for any chunk fail; requests
    /// whose chunk exceeds `MMAP_THRESHOLD` are handed to a private mapping of
    /// whole pages; the others are served from the heap exactly when it can serve
    /// a chunk of `adjusted(n)` bytes, at an address that was not allocated, which
    /// becomes allocated with that size, while the other payloads are kept. The
    /// address is that of the first chunk of the lowest non-empty bin whose chunks
    /// are all large enough (and then the arena does not grow), or else where the
    /// arena grows, by `grow_len(adjusted(n))` bytes. The free chunks and the bins
    /// afterwards are those of `free_after_serving` and `bin_after_serving`. The
    /// heap is left well formed with the same limit, and unchanged when the heap
    /// does not serve the request.
    pub open spec fn allocated(before: &Heap, n: int, r: Allocation, after: &Heap) -> bool {
        &&& after.wf()
        &&& after.limit() == before.limit()
        &&& (r is Fail) ==> *after == *before
        &&& (r is Mapped) ==> *after == *before
        &&& too_large(n) ==> (r is Fail)
        &&& !too_large(n) && adjusted(n) > MMAP_THRESHOLD ==> (r is Mapped) && r->len == map_len(
            adjusted(n),
        )
        &&& !too_large(n) && adjusted(n) <= MMAP_THRESHOLD ==> !(r is Mapped) && ((r is Heap)
            <==> before.can_serve(adjusted(n)))
        &&& (r is Heap) ==> !before.allocations().contains_key(r->ptr as int)
        &&& (r is Heap) ==> after.allocations() == before.allocations().insert(
            r->ptr as int,
            adjusted(n),
        )
        &&& (r is Heap) ==> Heap::payloads_kept(before, after, before.allocations())
        &&& (r is Heap) ==> forall|j: int|
            #[trigger] before.lowest_bin(bin_up_of(adjusted(n)), j) ==> r->ptr == before.bin(j)[0]
                + OVERHEAD
        &&& (r is Heap) && (forall|l: int|
            bin_up_of(adjusted(n)) <= l < 64 ==> #[trigger] before.bin(l).len() == 0) ==> r->ptr
            == before.growth_start() + OVERHEAD
        &&& (r is Heap) && (exists|j: int| #[trigger] before.lowest_bin(bin_up_of(adjusted(n)), j))
            ==> after.arena_len() == before.arena_len()
        &&& (r is Heap) && (forall|l: int|
            bin_up_of(adjusted(n)) <= l < 64 ==> #[trigger] before.bin(l).len() == 0) ==> after.arena_len()
            == before.arena_len() + grow_len(adjusted(n))
        &&& (r is Heap) ==> after.free_chunks() == before.free_after_serving(adjusted(n))
        &&& (r is Heap) ==> forall|l: int|
            0 <= l < 64 ==> #[trigger] after.bin(l) == before.bin_after_serving(adjusted(n), l)
    }

    /// Serves a request for `n` bytes. Requests too large for any chunk fail;
    /// requests whose chunk exceeds `MMAP_THRESHOLD` are handed to a private
    /// mapping; others take the first chunk of the lowest non-empty bin whose
    /// chunks are all large enough, or else grow the arena, and are cut down to
    /// size. The chunk of the allocation is exactly `adjusted(n)` bytes.
    #[verifier::spinoff_prover]
    #[verifier::rlimit(50)]
    pub fn allocate(&mut self, n: usize) -> (r: Allocation)
        requires
            old(self).wf(),
        ensures
            Heap::allocated(old(self), n as int, r, final(self)),
    {
        let ghost cs0 = self.spans@;
        let ghost m0 = self.mem@;
        let ghost bv0 = self.bins_view();
        let ghost bm0 = self.binmap;
        let ghost n0 = n;
        let mut n = n;
        if adjust_size(&mut n) < 0 {
            return Allocation::Fail;
        }
        if n > MMAP_THRESHOLD {
            proof {
                lemma_page_mask((n + OVERHEAD + PAGE_SIZE - 1) as usize);
            }
            let len = (n + OVERHEAD + PAGE_SIZE - 1) & !(PAGE_SIZE - 1);
            return Allocation::Mapped { len };
        }
        proof {
            lemma_heap_basics(cs0, m0, self.limit as int, bv0, bm0);
        }
        let i = bin_index_up(n);
        proof {
            lemma_mask_bits(bm0, i as u64, 0);
        }
        let mask = self.binmap & !((1u64 << (i as u64)) - 1);
        let mut c: usize = 0;
        let ghost mut k: int = 0;
        let ghost mut lo: int = 0;
        if mask == 0 {
            proof {
                assert forall|a: int| #[trigger] free_map(cs0).contains_key(a) implies bin_of(
                    free_map(cs0)[a],
                ) < bin_up_of(n as int) by {
                    lemma_free_chunk_bit(cs0, m0, self.limit as int, bv0, bm0, a);
                    lemma_mask_bits(bm0, i as u64, bin_of(free_map(cs0)[a]) as u64);
                }
            }
            let e = self.expand(n);
            match e {
                None => {
                    return Allocation::Fail;
                },
                Some(c0) => {
                    c = c0;
                },
            }
            let ghost cs1 = self.spans@;
            proof {
                k = cs1.len() - 1;
                lo = c as int;
                if cs0.len() > 0 {
                    assert(cs1[k - 1] == cs0[k - 1]);
                    assert(c == top(cs0));
                }
                self.lemma_chunk(k);
                if k > 0 {
                    self.lemma_chunk(k - 1);
                    lemma_tag_bits(cs1[k - 1].size as usize);
                } else {
                    assert(1usize & 1 == 1) by (bit_vector);
                }
                lemma_tag_bits(cs1[k].size as usize);
            }
            let ghost bins_e = Seq::new(64, |l: int| self.bin(l));
            let ps = self.mem[c / 8];
            if ps & 1 == 0 {
                let prev = c - ps;
                let b = bin_index(ps);
                proof {
                    assert(cs0.len() > 0 && !cs0.last().used && cs0.last() == cs1[k - 1]);
                }
                self.unbin(prev, b, Ghost(k - 1));
                let _ = self.merge_used(prev, Ghost(k - 1));
                proof {
                    assert(used_map(self.spans@) =~= used_map(cs0).insert(
                        prev + OVERHEAD,
                        self.spans@[k - 1].size,
                    ));
                }
                c = prev;
                proof {
                    k = k - 1;
                    lo = c as int;
                }
            }
            proof {
                assert(c == old(self).growth_start());
                assert forall|jj: int| !#[trigger] old(self).lowest_bin(i as int, jj) by {
                    if i <= jj < 64 {
                        lemma_mask_bits(bm0, i as u64, jj as u64);
                        lemma_bin_bit(cs0, m0, old(self).limit as int, bv0, bm0, jj);
                    }
                }
                assert(old(self).serving_bin(n as int) is None);
                self.lemma_chunk(k);
                assert(k + 1 == self.spans@.len());
                assert(self.spans@[k].size == old(self).grown_size(n as int));
                let merged = cs0.len() > 0 && !cs0.last().used;
                assert(self.free_chunks() =~= old(self).free_chunks().remove(c as int));
                assert forall|l: int| 0 <= l < 64 implies #[trigger] self.bin(l) == if merged && l == bin_of(
                    cs0.last().size,
                ) {
                    old(self).bin(l).remove_value(c as usize)
                } else {
                    old(self).bin(l)
                } by {
                    assert(bins_e[l] == old(self).bin(l));
                }
            }
        } else {
            let j = a_ctz_64(mask) as usize;
            proof {
                lemma_mask_bits(bm0, i as u64, j as u64);
                lemma_bin_bit(cs0, m0, self.limit as int, bv0, bm0, j as int);
                assert(bv0[j as int] == self.bins@[j as int]@);
                assert forall|l: int| i <= l < j implies #[trigger] old(self).bin(l).len() == 0 by {
                    assert(((mask >> (l as u64)) & 1) == 0);
                    lemma_mask_bits(bm0, i as u64, l as u64);
                    lemma_bin_bit(cs0, m0, old(self).limit as int, bv0, bm0, l);
                }
                assert forall|jj: int| #[trigger] old(self).lowest_bin(i as int, jj) implies jj == j by {
                    if jj < j {
                        assert(old(self).bin(jj).len() == 0);
                    }
                    if jj > j {
                        assert(old(self).bin(j as int).len() == 0);
                    }
                }
            }
            c = self.bins[j][0];
            proof {
                assert(old(self).bin(j as int).len() > 0 && old(self).bin(j as int)[0] == c);
                k = lemma_bin_head(cs0, m0, self.limit as int, bv0, bm0, j as int);
                lo = c as int;
                self.lemma_chunk(k);
                lemma_bin_up_sound(cs0[k].size, n as int);
                assert(free_map(cs0).contains_key(c as int));
                assert(old(self).free_chunks().contains_key(c as int));
            }
            let trimmed = self.pretrim(c, n, i, j, Ghost(k));
            if !trimmed {
                self.unbin(c, j, Ghost(k));
            }
            proof {
                assert(self.mem@.len() == m0.len());
                assert(old(self).lowest_bin(i as int, j as int));
                assert(old(self).serving_bin(n as int) == Some(j as int));
                assert(old(self).source_start(n as int) == c);
                assert(old(self).source_size(n as int) == cs0[k].size);
                if !trimmed {
                    assert(self.free_chunks() =~= old(self).free_chunks().remove(c as int));
                    lemma_chunks_around(cs0, m0, self.limit as int, bv0, bm0, k);
                    self.lemma_chunk(k);
                    assert(!next_free(self.spans@, k));
                    assert(freed_hi(self.spans@, k) == c + cs0[k].size);
                }
            }
        }
        let ghost cs2 = self.spans@;
        proof {
            self.lemma_chunk(k);
            assert(cs2[k].start == c && cs2[k].used);
            assert(cs2[k].size >= n);
            assert(used_map(cs2) == used_map(cs0).insert(c + OVERHEAD, cs2[k].size));
        }
        let ghost hi: int = if mask == 0 {
            (self.mem@.len() * 8) as int
        } else {
            span_end(cs0[k])
        };
        proof {
            if mask != 0 {
                assert(freed_hi(cs2, k) == hi) by {
                    lemma_chunks_around(cs0, m0, self.limit as int, bv0, bm0, k);
                    self.lemma_chunk(k);
                    if k + 1 < cs2.len() {
                        self.lemma_chunk(k + 1);
                    }
                }
            }
        }
        proof {
            if k + 1 < cs2.len() && !cs2[k + 1].used {
                if mask == 0 {
                    assert(k + 1 == cs2.len());
                } else {
                    assert(cs2[k].size == n);
                }
            }
        }
        let cut = self.trim(c, n, Ghost(k));
        proof {
            // the rest cut off has no free neighbour to join, so nothing is given back
            assert(cut is None);
            assert(used_map(self.spans@) =~= used_map(cs0).insert(c + OVERHEAD, n as int));
            if mask == 0 {
                if cs0.len() > 0 {
                    lemma_chunks_around(cs0, m0, self.limit as int, bv0, bm0, cs0.len() - 1);
                    assert(lo == top(cs0) || (lo == cs0[cs0.len() - 1].start && !cs0[cs0.len()
                        - 1].used));
                    assert forall|j: int|
                        0 <= j < cs0.len() && (#[trigger] cs0[j]).used implies span_end(cs0[j]) <= lo
                        || cs0[j].start >= hi by {
                        lemma_chunk_facts(cs0, m0, old(self).limit as int, bv0, bm0, j);
                    }
                }
            } else {
                lemma_chunks_around(cs0, m0, self.limit as int, bv0, bm0, k);
            }
            lemma_payloads_kept(cs0, m0, self.limit as int, bv0, bm0, self.mem@, lo, hi, c + OVERHEAD);
            if mask == 0 {
                assert(self.arena_len() == old(self).arena_len() + grow_len(n as int));
            }
        }
        Allocation::Heap { ptr: c + OVERHEAD }
    }

    /// The pages that freeing the allocation at `p` gives back, if any: when its
    /// chunk joins a free neighbour and the joined size crosses `RECLAIM` into a
    /// higher power of two (`reclaim_due`), the whole pages of the joined chunk
    /// that stay one alignment unit clear of both its ends.
    pub open spec fn free_reclaim(&self, p: int) -> Option<Reclaim> {
        let cs = self.spans();
        let k = choose|k: int| 0 <= k < cs.len() && (#[trigger] cs[k]).start + OVERHEAD == p;
        if reclaim_due(cs, k) {
            Some(reclaim_range(freed_lo(cs, k), freed_hi(cs, k)))
        } else {
            None
        }
    }

    /// What freeing the allocation at `p` does, taking the heap from `before` to
    /// `after` with result `r`: the heap stays well formed with the same limit,
    /// `p` is no longer allocated, the payloads of the other allocations are kept,
    /// the free neighbours joined to its chunk leave their bins and the joined
    /// chunk goes to the tail of the bin of its size, and the pages handed back are
    /// those of `free_reclaim`. Freeing null changes nothing. What staying well
    /// formed means for the bitmap and the size words is `lemma_well_formed`.
    pub open spec fn released(before: &Heap, p: int, r: Option<Reclaim>, after: &Heap) -> bool {
        &&& after.wf()
        &&& after.limit() == before.limit()
        &&& after.allocations() == before.allocations().remove(p)
        &&& Heap::payloads_kept(before, after, before.allocations().remove(p))
        &&& p == 0 ==> *after == *before && r is None
        &&& p != 0 ==> r == before.free_reclaim(p)
        &&& p != 0 ==> after.free_chunks() == freed_free_map(before.spans(), before.chunk_index(p))
        &&& p != 0 ==> forall|l: int|
            0 <= l < 64 ==> #[trigger] after.bin(l) == freed_bin(before.spans(), before.chunk_index(p), l, before.bin(l))
        &&& r matches Some(x) ==> after.safe_reclaim(x)
        &&& forall|st: int, ln: int|
            #[trigger] inside_free(before.free_chunks(), st, ln) ==> inside_free(after.free_chunks(), st, ln)
    }

    /// Frees the allocation at `p` (nothing, when `p` is null): joins its chunk
    /// with free neighbours and lists it in its bin. Returns the pages to give back
    /// when the join made a large chunk.
    #[verifier::spinoff_prover]
    #[verifier::rlimit(50)]
    pub fn free_ptr(&mut self, p: usize) -> (r: Option<Reclaim>)
        requires
            old(self).wf(),
            p == 0 || old(self).allocations().contains_key(p as int),
        ensures
            Heap::released(old(self), p as int, r, final(self)),
    {
        if p == 0 {
            proof {
                if self.allocations().contains_key(0) {
                    let j = lemma_alloc_chunk(
                        self.spans@,
                        self.mem@,
                        self.limit as int,
                        self.bins_view(),
                        self.binmap,
                        0,
                    );
                    self.lemma_chunk(j);
                }
                assert(self.allocations().remove(0) =~= self.allocations());
            }
            return None;
        }
        let ghost cs0 = self.spans@;
        let ghost m0 = self.mem@;
        let ghost bv0 = self.bins_view();
        let ghost bm0 = self.binmap;
        let ghost k = lemma_alloc_chunk(cs0, m0, self.limit as int, bv0, bm0, p as int);
        proof {
            self.lemma_chunk(k);
            lemma_chunks_around(cs0, m0, self.limit as int, bv0, bm0, k);
            if k > 0 {
                self.lemma_chunk(k - 1);
            }
            if k + 1 < cs0.len() {
                self.lemma_chunk(k + 1);
            }
        }
        let r = self.free_chunk(p - OVERHEAD, Ghost(k));
        proof {
            let lo = freed_lo(cs0, k);
            let hi = freed_hi(cs0, k);
            assert forall|j: int|
                0 <= j < cs0.len() && (#[trigger] cs0[j]).used && cs0[j].start + OVERHEAD != p implies span_end(
                cs0[j],
            ) <= lo || cs0[j].start >= hi by {
                if k > 0 && j == k - 1 {
                } else if j == k + 1 {
                } else if j < k {
                    lemma_order(cs0, m0, old(self).limit as int, bv0, bm0, j, k - 1);
                } else if j > k {
                    lemma_order(cs0, m0, old(self).limit as int, bv0, bm0, k + 1, j);
                }
            }
            lemma_payloads_kept(cs0, m0, old(self).limit as int, bv0, bm0, self.mem@, lo, hi, p as int);
            assert(used_map(self.spans@) =~= used_map(cs0).remove(p as int));
            assert(old(self).chunk_index(p as int) == k);
        }
        r
    }

    /// Whether `p` is an allocation of this heap, found by walking the chunks
    /// from the start of the arena.
    #[verifier::spinoff_prover]
    #[verifier::rlimit(30)]
    pub fn owns(&self, p: usize) -> (b: bool)
        requires
            self.wf(),
        ensures
            b == self.allocations().contains_key(p as int),
    {
        let ghost cs = self.spans@;
        proof {
            lemma_heap_basics(cs, self.mem@, self.limit as int, self.bins_view(), self.binmap);
        }
        if self.mem.len() == 0 {
            proof {
                assert(used_map(cs) =~= Map::<int, int>::empty());
            }
            return false;
        }
        let end = self.mem.len() * 8 - OVERHEAD;
        let mut c: usize = OVERHEAD;
        let ghost mut j: int = 0;
        proof {
            self.lemma_chunk(0);
        }
        while c < end
            invariant
                self.wf(),
                cs == self.spans@,
                cs.len() > 0,
                end == top(cs),
                end + OVERHEAD == self.mem@.len() * 8,
                0 <= j <= cs.len(),
                j < cs.len() ==> c == cs[j].start,
                j == cs.len() ==> c == end,
                forall|l: int| 0 <= l < j ==> (#[trigger] cs[l]).start + OVERHEAD != p,
            decreases end - c,
        {
            proof {
                if j == cs.len() {
                    assert(false);
                }
                self.lemma_chunk(j);
                lemma_tag_bits(cs[j].size as usize);
            }
            let t = self.mem[c / 8 + 1];
            if c + OVERHEAD == p {
                return t & 1 == 1;
            }
            c = c + (t & !1usize);
            proof {
                j = j + 1;
            }
        }
        proof {
            if j < cs.len() {
                self.lemma_chunk(j);
            }
            if used_map(cs).contains_key(p as int) {
                let l = lemma_alloc_chunk(
                    cs,
                    self.mem@,
                    self.limit as int,
                    self.bins_view(),
                    self.binmap,
                    p as int,
                );
                assert(cs[l].start + OVERHEAD != p);
            }
        }
        false
    }

    /// Whether bit `i` of the bitmap of non-empty bins is set.
    pub closed spec fn bin_marked(&self, i: int) -> bool {
        bit(self.binmap, i)
    }

    /// What a well-formed heap is, as far as its free chunks and bins go: bit `i`
    /// of the bitmap is set exactly when bin `i` is not empty; every free chunk is
    /// listed in the bin of its size, and every chunk a bin lists is free and of
    /// that bin's class; a free chunk's size word, and its copy at the start of
    /// the chunk after it, hold its size with the in-use bit clear; and the chunk
    /// after a free chunk is not free.
    pub proof fn lemma_well_formed(&self)
        requires
            self.wf(),
        ensures
            forall|i: int| 0 <= i < 64 ==> (#[trigger] self.bin_marked(i) <==> self.bin(i).len() > 0),
            forall|i: int, q: int|
                0 <= i < 64 && 0 <= q < self.bin(i).len() ==> self.free_chunks().contains_key(
                    #[trigger] self.bin(i)[q] as int,
                ) && bin_of(self.free_chunks()[self.bin(i)[q] as int]) == i,
            forall|a: int| #[trigger]
                self.free_chunks().contains_key(a) ==> {
                    &&& self.bin(bin_of(self.free_chunks()[a])).contains(a as usize)
                    &&& self.free_chunks()[a] % 2 == 0
                    &&& self.word(a + 8) == self.free_chunks()[a]
                    &&& self.word(a + self.free_chunks()[a]) == self.free_chunks()[a]
                    &&& !self.free_chunks().contains_key(a + self.free_chunks()[a])
                },
    {
        let cs = self.spans@;
        assert forall|i: int| 0 <= i < 64 implies (#[trigger] self.bin_marked(i) <==> self.bin(i).len()
            > 0) by {
            lemma_bin_bit(cs, self.mem@, self.limit as int, self.bins_view(), self.binmap, i);
            assert(self.bins_view()[i] == self.bin(i));
        }
        assert forall|i: int, q: int|
            0 <= i < 64 && 0 <= q < self.bin(i).len() implies self.free_chunks().contains_key(
            #[trigger] self.bin(i)[q] as int,
        ) && bin_of(self.free_chunks()[self.bin(i)[q] as int]) == i by {
            reveal(heap_ok);
            assert(self.bins_view()[i] == self.bin(i));
            let _ = self.bins_view()[i][q];
        }
        lemma_maps_from_spans(cs);
        assert forall|a: int| #[trigger] self.free_chunks().contains_key(a) implies {
            &&& self.bin(bin_of(self.free_chunks()[a])).contains(a as usize)
            &&& self.free_chunks()[a] % 2 == 0
            &&& self.word(a + 8) == self.free_chunks()[a]
            &&& self.word(a + self.free_chunks()[a]) == self.free_chunks()[a]
            &&& !self.free_chunks().contains_key(a + self.free_chunks()[a])
        } by {
            let k = choose|k: int| 0 <= k < cs.len() && (#[trigger] cs[k]).start == a && !cs[k].used;
            self.lemma_chunk(k);
            assert(self.free_chunks()[a] == cs[k].size);
            assert((a + 8) / 8 == a / 8 + 1);
            if k + 1 < cs.len() {
                self.lemma_chunk(k + 1);
            } else if self.free_chunks().contains_key(span_end(cs[k])) {
                let k2 = choose|k2: int|
                    0 <= k2 < cs.len() && (#[trigger] cs[k2]).start == span_end(cs[k]) && !cs[k2].used;
                self.lemma_chunk(k2);
                if k2 < k {
                    lemma_order(cs, self.mem@, self.limit as int, self.bins_view(), self.binmap, k2, k);
                }
            }
        }
    }

    /// Whether the chunk that allocation `p` would have, at `p - OVERHEAD`, has a
    /// size word (the arena word at byte `p - OVERHEAD + 8`) that agrees with its
    /// copy in the word at the start of the chunk after it, that size further on,
    /// both words lying in the arena at addresses the machine can hold.
    pub open spec fn tags_agree(&self, p: int) -> bool {
        let c = p - OVERHEAD;
        let w = self.word(c + 8);
        &&& p >= OVERHEAD
        &&& c + 8 < self.arena_len()
        &&& c + (w - w % 2) <= usize::MAX
        &&& c + (w - w % 2) < self.arena_len()
        &&& self.word(c + (w - w % 2)) == w
    }

    /// Checks the size words of the chunk of allocation `p` (`tags_agree`). Writing
    /// past the end of an allocation breaks them; in a well-formed heap they agree
    /// for every allocation.
    #[verifier::spinoff_prover]
    pub fn tags_intact(&self, p: usize) -> (b: bool)
        ensures
            b == self.tags_agree(p as int),
            self.wf() && self.allocations().contains_key(p as int) ==> b,
    {
        proof {
            if self.wf() && self.allocations().contains_key(p as int) {
                let k = lemma_alloc_chunk(
                    self.spans@,
                    self.mem@,
                    self.limit as int,
                    self.bins_view(),
                    self.binmap,
                    p as int,
                );
                self.lemma_chunk(k);
                lemma_tag_bits(self.spans@[k].size as usize);
                let w = self.mem@[(p - OVERHEAD) / 8 + 1];
                assert(w == self.spans@[k].size + 1);
                assert(w % 2 == 1);
                assert(w - w % 2 == self.spans@[k].size);
                assert(self.word(p - OVERHEAD + 8) == w);
            }
        }
        if p < OVERHEAD {
            return false;
        }
        let c = p - OVERHEAD;
        let i = c / 8 + 1;
        if i >= self.mem.len() {
            return false;
        }
        let word = self.mem[i];
        assert(word & !1usize == word - word % 2) by (bit_vector);
        let s = word & !1usize;
        if c > usize::MAX - s {
            return false;
        }
        let j = (c + s) / 8;
        if j >= self.mem.len() {
            return false;
        }
        self.mem[j] == word
    }

    /// Reads the word at byte `a` of the allocation at `p`.
    #[verifier::spinoff_prover]
    #[verifier::rlimit(30)]
    pub fn load(&self, p: usize, a: usize) -> (v: usize)
        requires
            self.wf(),
            self.allocations().contains_key(p as int),
            p <= a < p + self.allocations()[p as int] - OVERHEAD,
        ensures
            v == self.word(a as int),
    {
        proof {
            lemma_store_ok(
                self.spans@,
                self.mem@,
                self.limit as int,
                self.bins_view(),
                self.binmap,
                p as int,
                a as int,
                0,
            );
        }
        self.mem[a / 8]
    }

    /// What writing `v` to the word at byte `a` does, taking the heap from `before`
    /// to `after`: that word reads `v`, every other word of the arena reads as
    /// before, and the chunks, the allocations and the limit stay as they were.
    pub open spec fn stored(before: &Heap, a: int, v: usize, after: &Heap) -> bool {
        &&& after.wf()
        &&& after.allocations() == before.allocations()
        &&& after.free_chunks() == before.free_chunks()
        &&& after.limit() == before.limit()
        &&& after.arena_len() == before.arena_len()
        &&& after.word(a) == v
        &&& after.spans() == before.spans()
        &&& forall|l: int| 0 <= l < 64 ==> #[trigger] after.bin(l) == before.bin(l)
        &&& forall|b: int|
            0 <= b < before.arena_len() && b / 8 != a / 8 ==> #[trigger] after.word(b) == before.word(b)
    }

    /// Writes `v` to the word at byte `a` of the allocation at `p`; nothing else changes.
    #[verifier::spinoff_prover]
    #[verifier::rlimit(30)]
    pub fn store(&mut self, p: usize, a: usize, v: usize)
        requires
            old(self).wf(),
            old(self).allocations().contains_key(p as int),
            p <= a < p + old(self).allocations()[p as int] - OVERHEAD,
        ensures
            Heap::stored(old(self), a as int, v, final(self)),
    {
        proof {
            lemma_store_ok(
                self.spans@,
                self.mem@,
                self.limit as int,
                self.bins_view(),
                self.binmap,
                p as int,
                a as int,
                v,
            );
        }
        self.mem.set(a / 8, v);
    }

    /// The index of the chunk of allocation `p`.
    pub closed spec fn chunk_index(&self, p: int) -> int {
        choose|k: int| 0 <= k < self.spans@.len() && (#[trigger] self.spans@[k]).start + OVERHEAD == p
    }

    /// The size of the free chunk right after allocation `p`, or 0 when there is none.
    pub closed spec fn next_free_size(&self, p: int) -> int {
        let k = self.chunk_index(p);
        if next_free(self.spans@, k) {
            self.spans@[k + 1].size
        } else {
            0
        }
    }

    /// The start of the chunk right after allocation `p`.
    pub closed spec fn next_start(&self, p: int) -> int {
        p - OVERHEAD + self.allocations()[p]
    }

    /// The free chunk of the heap that covers byte `c`, when there is one.
    pub open spec fn free_chunk_at(&self, c: int) -> int {
        choose|a: int| self.free_chunks().contains_key(a) && a <= c < a + self.free_chunks()[a]
    }

    /// The pages that freeing a chunk of `size` bytes at `c`, with no free chunk
    /// after it, gave back, read off the heap afterwards: when the free chunk that
    /// now covers `c` begins before it, a free chunk before was joined, and when
    /// that join crossed `RECLAIM` into a higher power of two, its whole pages.
    pub open spec fn joined_reclaim(&self, c: int, size: int) -> Option<Reclaim> {
        let lo = self.free_chunk_at(c);
        if lo < c && crosses(size, c - lo) {
            Some(reclaim_range(lo, c + size))
        } else {
            None
        }
    }

    /// At most one free chunk of a well-formed heap covers a byte.
    proof fn lemma_free_cover_unique(&self, a: int, b: int, x: int)
        requires
            self.wf(),
            self.free_chunks().contains_key(a),
            self.free_chunks().contains_key(b),
            a <= x < a + self.free_chunks()[a],
            b <= x < b + self.free_chunks()[b],
        ensures
            a == b,
    {
        let cs = self.spans@;
        lemma_maps_from_spans(cs);
        let ka = choose|k: int| 0 <= k < cs.len() && (#[trigger] cs[k]).start == a && !cs[k].used;
        let kb = choose|k: int| 0 <= k < cs.len() && (#[trigger] cs[k]).start == b && !cs[k].used;
        self.lemma_chunk(ka);
        self.lemma_chunk(kb);
        if ka < kb {
            lemma_order(cs, self.mem@, self.limit as int, self.bins_view(), self.binmap, ka, kb);
        } else if kb < ka {
            lemma_order(cs, self.mem@, self.limit as int, self.bins_view(), self.binmap, kb, ka);
        }
    }

    /// The chunk of an allocation is not free, and free chunks end before the end
    /// sentinel of the arena.
    proof fn lemma_used_not_free(&self, a: int, b: int)
        requires
            self.wf(),
        ensures
            self.allocations().contains_key(a) ==> !self.free_chunks().contains_key(a - OVERHEAD),
            self.free_chunks().contains_key(b) ==> b + self.free_chunks()[b] + OVERHEAD
                <= self.arena_len() && self.free_chunks()[b] >= 32,
    {
        let cs = self.spans@;
        if self.allocations().contains_key(a) {
            let j = lemma_alloc_chunk(cs, self.mem@, self.limit as int, self.bins_view(), self.binmap, a);
            self.lemma_chunk(j);
        }
        if self.free_chunks().contains_key(b) {
            lemma_maps_from_spans(cs);
            let k = choose|k: int| 0 <= k < cs.len() && (#[trigger] cs[k]).start == b && !cs[k].used;
            self.lemma_chunk(k);
        }
    }

    /// The chunk right after chunk `k` is not free when it is in use or there is none.
    proof fn lemma_next_not_free(&self, k: int)
        requires
            self.wf(),
            0 <= k < self.spans@.len(),
            k + 1 < self.spans@.len() ==> self.spans@[k + 1].used,
        ensures
            !self.free_chunks().contains_key(span_end(self.spans@[k])),
    {
        let cs = self.spans@;
        lemma_chunk_facts(cs, self.mem@, self.limit as int, self.bins_view(), self.binmap, k);
        if k + 1 < cs.len() {
            lemma_chunk_facts(cs, self.mem@, self.limit as int, self.bins_view(), self.binmap, k + 1);
        } else {
            self.lemma_used_not_free(0, span_end(cs[k]));
        }
    }

    /// When some bin at or above `i` is not empty, a lowest such bin exists.
    proof fn lemma_lowest_exists(&self, i: int, l: int)
        requires
            i <= l < 64,
            self.bin(l).len() > 0,
        ensures
            exists|j: int| #[trigger] self.lowest_bin(i, j),
        decreases l - i,
    {
        if forall|q: int| i <= q < l ==> #[trigger] self.bin(q).len() == 0 {
            assert(self.lowest_bin(i, l));
        } else {
            let q = choose|q: int| i <= q < l && #[trigger] self.bin(q).len() > 0;
            self.lemma_lowest_exists(i, q);
        }
    }

    /// What freeing allocation `p` gives back once a new allocation, at `ptr`, was
    /// made and a payload copied (`h1` to `h2` to `h3`), when no free chunk
    /// followed `p`: the pages `joined_reclaim` reads off the heap afterwards.
    #[verifier::spinoff_prover]
    #[verifier::rlimit(60)]
    proof fn lemma_relocated_freed(
        h1: Heap,
        n: int,
        ptr: usize,
        h2: Heap,
        h3: Heap,
        p: int,
        f: Option<Reclaim>,
        hf: Heap,
    )
        requires
            h1.wf(),
            h1.allocations().contains_key(p),
            !h1.free_chunks().contains_key(p - OVERHEAD + h1.allocations()[p]),
            Heap::allocated(&h1, n, Allocation::Heap { ptr }, &h2),
            h3.wf(),
            h3.allocations() == h2.allocations(),
            h3.free_chunks() == h2.free_chunks(),
            h3.arena_len() == h2.arena_len(),
            p != 0,
            Heap::released(&h3, p, f, &hf),
        ensures
            f == hf.joined_reclaim(p - OVERHEAD, h1.allocations()[p]),
    {
        let size = h1.allocations()[p];
        let x = p - OVERHEAD + size;
        assert(ptr != p);
        assert(h3.allocations().contains_key(p) && h3.allocations()[p] == size);
        // the chunk after `p` is not free once the new allocation is made
        assert(!h3.free_chunks().contains_key(x)) by {
            let cs1 = h1.spans@;
            let k1 = lemma_alloc_chunk(cs1, h1.mem@, h1.limit as int, h1.bins_view(), h1.binmap, p);
            lemma_chunk_facts(cs1, h1.mem@, h1.limit as int, h1.bins_view(), h1.binmap, k1);
            if k1 + 1 < cs1.len() {
                lemma_chunk_facts(cs1, h1.mem@, h1.limit as int, h1.bins_view(), h1.binmap, k1 + 1);
                assert(h1.allocations().contains_key(x + OVERHEAD));
                assert(h3.allocations().contains_key(x + OVERHEAD));
                h3.lemma_used_not_free(x + OVERHEAD, 0);
            } else {
                let i = bin_up_of(adjusted(n));
                if exists|j: int| #[trigger] h1.lowest_bin(i, j) {
                    if h3.free_chunks().contains_key(x) {
                        h3.lemma_used_not_free(0, x);
                    }
                } else {
                    assert forall|l: int| i <= l < 64 implies #[trigger] h1.bin(l).len() == 0 by {
                        if h1.bin(l).len() > 0 {
                            h1.lemma_lowest_exists(i, l);
                        }
                    }
                    assert(cs1.last() == cs1[k1]);
                    assert(h1.growth_start() == x);
                    assert(h3.allocations().contains_key(x + OVERHEAD));
                    h3.lemma_used_not_free(x + OVERHEAD, 0);
                }
            }
        }
        let cs3 = h3.spans@;
        let k3 = lemma_alloc_chunk(cs3, h3.mem@, h3.limit as int, h3.bins_view(), h3.binmap, p);
        h3.lemma_chunk(k3);
        assert(h3.chunk_index(p) == k3);
        assert(!next_free(cs3, k3)) by {
            if k3 + 1 < cs3.len() {
                h3.lemma_chunk(k3 + 1);
            }
        }
        let lo = freed_lo(cs3, k3);
        let hi = freed_hi(cs3, k3);
        assert(hi == x);
        if prev_free(cs3, k3) {
            h3.lemma_chunk(k3 - 1);
        }
        let fm = freed_free_map(cs3, k3);
        assert(hf.free_chunks() == fm);
        assert(fm.contains_key(lo) && fm[lo] == hi - lo);
        let a = hf.free_chunk_at(p - OVERHEAD);
        assert(hf.free_chunks().contains_key(a) && a <= p - OVERHEAD < a + hf.free_chunks()[a]);
        hf.lemma_free_cover_unique(a, lo, p - OVERHEAD);
        let kk = choose|k: int| 0 <= k < cs3.len() && (#[trigger] cs3[k]).start + OVERHEAD == p;
        assert(kk == k3);
    }

    /// Bin `l` once allocation `p` has taken in the free chunk after it, as a
    /// resize that must grow does: that chunk is no longer listed.
    pub open spec fn bin_after_growth(&self, p: int, l: int) -> Seq<usize> {
        if self.next_free_size(p) > 0 && l == bin_of(self.next_free_size(p)) {
            self.bin(l).remove_value(self.next_start(p) as usize)
        } else {
            self.bin(l)
        }
    }

    /// Whether bin `j` is the lowest bin at or above bin `i` that is not empty once
    /// allocation `p` has taken in the free chunk after it.
    pub open spec fn lowest_bin_after_growth(&self, p: int, i: int, j: int) -> bool {
        &&& i <= j < 64
        &&& self.bin_after_growth(p, j).len() > 0
        &&& forall|l: int| i <= l < j ==> self.bin_after_growth(p, l).len() == 0
    }

    /// Where growing the arena starts once allocation `p` has taken in the free
    /// chunk after it: at the end of the chunks when that chunk was the last.
    pub open spec fn growth_start_after_growth(&self, p: int) -> int {
        if self.next_free_size(p) > 0 && self.next_start(p) == self.spans().last().start {
            top(self.spans())
        } else {
            self.growth_start()
        }
    }

    /// The pages that cutting allocation `p` down in place to a chunk of `m` bytes
    /// gives back: when the rest cut off joins the free chunk after it and the
    /// joined size crosses `RECLAIM` into a higher power of two.
    pub open spec fn shrink_reclaim(&self, p: int, m: int) -> Option<Reclaim> {
        let size = self.allocations()[p];
        let next = self.next_free_size(p);
        if m + DONTCARE < size && next > 0 && crosses(size - m, next) {
            Some(reclaim_range(p - OVERHEAD + m, self.next_start(p) + next))
        } else {
            None
        }
    }

    /// The free chunks after allocation `p` is resized in place to a chunk of `m`
    /// bytes. When it must grow it takes in the free chunk after it; the rest cut
    /// off its end, when worth keeping apart, is freed, joined with the free chunk
    /// after it, if any.
    pub open spec fn free_after_resize(&self, p: int, m: int) -> Map<int, int> {
        let size = self.allocations()[p];
        let nf = self.next_free_size(p);
        let grows = m > size;
        let split = m + DONTCARE < (if grows { size + nf } else { size });
        let f = if nf > 0 && (grows || split) {
            self.free_chunks().remove(self.next_start(p))
        } else {
            self.free_chunks()
        };
        if split {
            f.insert(p - OVERHEAD + m, size + nf - m)
        } else {
            f
        }
    }

    /// Bin `l` after allocation `p` is resized in place to a chunk of `m` bytes:
    /// the free chunk after it, when taken in, leaves its bin, and the rest cut
    /// off, when worth keeping apart, goes to the tail of its bin.
    pub open spec fn bin_after_resize(&self, p: int, m: int, l: int) -> Seq<usize> {
        let size = self.allocations()[p];
        let nf = self.next_free_size(p);
        let grows = m > size;
        let split = m + DONTCARE < (if grows { size + nf } else { size });
        let b = self.bin(l);
        let b1 = if nf > 0 && (grows || split) && l == bin_of(nf) {
            b.remove_value(self.next_start(p) as usize)
        } else {
            b
        };
        if split && l == bin_of(size + nf - m) {
            b1.push((p - OVERHEAD + m) as usize)
        } else {
            b1
        }
    }

    /// What taking in the free chunk after allocation `p`, for a resize to `m`
    /// bytes larger than it, does, taking the heap from `before` to `after`: the
    /// allocation grows by that chunk, which leaves the free chunks and its bin.
    pub open spec fn grew(before: &Heap, p: int, m: int, after: &Heap) -> bool {
        &&& after.wf()
        &&& after.limit() == before.limit()
        &&& after.arena_len() == before.arena_len()
        &&& after.allocations() == before.allocations().insert(p, before.grown(p, m))
        &&& after.free_chunks() == (if before.next_free_size(p) > 0 {
            before.free_chunks().remove(before.next_start(p))
        } else {
            before.free_chunks()
        })
        &&& forall|l: int| 0 <= l < 64 ==> #[trigger] after.bin(l) == before.bin_after_growth(p, l)
    }

    /// The size allocation `p` has before a resize to `m` bytes moves it: joined
    /// with the free chunk after it when it must grow.
    pub open spec fn grown(&self, p: int, m: int) -> int {
        if m > self.allocations()[p] {
            self.allocations()[p] + self.next_free_size(p)
        } else {
            self.allocations()[p]
        }
    }

    /// Whether a moving resize of allocation `p` to `m` bytes finds memory: a free
    /// chunk, other than the one joined to `p`, in a bin whose chunks are all large
    /// enough, or room to grow the arena.
    pub open spec fn can_move(&self, p: int, m: int) -> bool {
        ||| exists|a: int|
            #[trigger] self.free_chunks().contains_key(a) && !(self.next_free_size(p) > 0 && a
                == self.next_start(p)) && bin_of(self.free_chunks()[a]) >= bin_up_of(m)
        ||| self.arena_len() + grow_len(m) <= self.limit()
    }

    /// Copies `len` bytes, word by word, from the allocation at `p` to the one at `q`.
    #[verifier::spinoff_prover]
    #[verifier::rlimit(50)]
    fn copy_payload(&mut self, p: usize, q: usize, len: usize)
        requires
            old(self).wf(),
            old(self).allocations().contains_key(p as int),
            old(self).allocations().contains_key(q as int),
            p != q,
            len % 8 == 0,
            len <= old(self).allocations()[p as int] - OVERHEAD,
            len <= old(self).allocations()[q as int] - OVERHEAD,
        ensures
            final(self).wf(),
            final(self).allocations() == old(self).allocations(),
            final(self).free_chunks() == old(self).free_chunks(),
            final(self).spans() == old(self).spans(),
            forall|l: int| 0 <= l < 64 ==> #[trigger] final(self).bin(l) == old(self).bin(l),
            final(self).limit() == old(self).limit(),
            final(self).arena_len() == old(self).arena_len(),
            forall|i: int| 0 <= i < len ==> #[trigger] final(self).word(q + i) == old(self).word(p + i),
            Heap::payloads_kept(
                old(self),
                final(self),
                old(self).allocations().remove(q as int),
            ),
    {
        proof {
            old(self).lemma_allocation_layout(p as int);
            old(self).lemma_allocation_layout(q as int);
            old(self).lemma_allocations_disjoint(p as int, q as int);
        }
        let mut i: usize = 0;
        while i < len
            invariant
                self.wf(),
                self.allocations() == old(self).allocations(),
                self.free_chunks() == old(self).free_chunks(),
                self.spans() == old(self).spans(),
                forall|l: int| 0 <= l < 64 ==> #[trigger] self.bin(l) == old(self).bin(l),
                self.limit() == old(self).limit(),
                self.arena_len() == old(self).arena_len(),
                old(self).allocations().contains_key(p as int),
                old(self).allocations().contains_key(q as int),
                i % 8 == 0,
                i <= len,
                len % 8 == 0,
                p % 32 == 0,
                q % 32 == 0,
                len <= old(self).allocations()[p as int] - OVERHEAD,
                len <= old(self).allocations()[q as int] - OVERHEAD,
                p + old(self).allocations()[p as int] <= old(self).arena_len(),
                q + old(self).allocations()[q as int] <= old(self).arena_len(),
                old(self).arena_len() <= HEAP_LIMIT,
                forall|a: int, b: int|
                    p <= a < p + old(self).allocations()[p as int] - OVERHEAD && q <= b < q
                        + old(self).allocations()[q as int] - OVERHEAD ==> #[trigger] (a / 8) != #[trigger] (b / 8),
                forall|b: int| 0 <= b < i ==> #[trigger] self.word(q + b) == old(self).word(p + b),
                forall|b: int|
                    0 <= b < old(self).arena_len() && !(q <= b && b / 8 < (q + i) / 8) ==> #[trigger] self.word(b)
                        == old(self).word(b),
            decreases len - i,
        {
            let v = self.load(p, p + i);
            proof {
                assert(!(q <= p + i && (p + i) / 8 < (q + i) / 8)) by {
                    if q <= p + i && (p + i) / 8 < (q + i) / 8 {
                        assert((p + i) / 8 == (q + 8 * ((p + i - q) / 8)) / 8);
                        assert(false);
                    }
                }
            }
            let ghost before = *self;
            self.store(q, q + i, v);
            proof {
                assert forall|b: int| 0 <= b < i + 8 implies #[trigger] self.word(q + b) == old(self).word(p + b) by {
                    if b >= i {
                        assert((q + b) / 8 == (q + i) / 8);
                        assert((p + b) / 8 == (p + i) / 8);
                    } else {
                        assert((q + b) / 8 != (q + i) / 8);
                        assert(self.word(q + b) == before.word(q + b));
                    }
                }
                assert forall|b: int|
                    0 <= b < old(self).arena_len() && !(q <= b && b / 8 < (q + i + 8) / 8) implies #[trigger] self.word(b)
                        == old(self).word(b) by {
                    assert(b / 8 != (q + i) / 8);
                    assert(self.word(b) == before.word(b));
                }
            }
            i = i + 8;
        }
        proof {
            let keep = old(self).allocations().remove(q as int);
            assert forall|r: int, b: int|
                #![trigger keep.contains_key(r), self.word(b)]
                keep.contains_key(r) && r <= b < r + keep[r] - OVERHEAD implies self.word(b) == old(self).word(b) by {
                old(self).lemma_allocations_disjoint(r, q as int);
                old(self).lemma_allocation_layout(r);
                if q <= b && b / 8 < (q + i) / 8 {
                    assert(b / 8 == (q + 8 * ((b - q) / 8)) / 8);
                    assert(false);
                }
            }
        }
    }

    /// Joins allocation `p`, which is to grow to `m` bytes, with the free chunk after
    /// it when it is too small and that chunk is free. Returns its size afterwards.
    #[verifier::spinoff_prover]
    #[verifier::rlimit(30)]
    fn grow_in_place(&mut self, p: usize, m: usize) -> (n1: usize)
        requires
            old(self).wf(),
            old(self).allocations().contains_key(p as int),
        ensures
            final(self).wf(),
            n1 == old(self).grown(p as int, m as int),
            final(self).allocations() == old(self).allocations().insert(p as int, n1 as int),
            m > old(self).allocations()[p as int] ==> final(self).free_chunks() == (if old(self).next_free_size(p as int) > 0 {
                old(self).free_chunks().remove(old(self).next_start(p as int))
            } else {
                old(self).free_chunks()
            }),
            m <= old(self).allocations()[p as int] ==> *final(self) == *old(self),
            final(self).limit() == old(self).limit(),
            final(self).arena_len() == old(self).arena_len(),
            Heap::payloads_kept(old(self), final(self), old(self).allocations()),
            forall|a: int|
                0 <= a < old(self).arena_len() && !(p / 8 - 1 <= a / 8 < p / 8) && !(
                old(self).next_start(p as int) / 8 <= a / 8 <= (p - OVERHEAD + n1) / 8) ==> #[trigger] final(self).word(a)
                    == old(self).word(a),
            final(self).spans()[old(self).chunk_index(p as int)] == (Span {
                start: p - OVERHEAD,
                size: n1 as int,
                used: true,
            }),
            m > old(self).allocations()[p as int] && old(self).chunk_index(p as int) + 1
                < final(self).spans().len() ==> final(self).spans()[old(self).chunk_index(p as int)
                + 1].used,
            0 <= old(self).chunk_index(p as int) < final(self).spans().len(),
            m > old(self).allocations()[p as int] ==> forall|l: int|
                0 <= l < 64 ==> #[trigger] final(self).bin(l) == old(self).bin_after_growth(p as int, l),
            m > old(self).allocations()[p as int] ==> final(self).growth_start()
                == old(self).growth_start_after_growth(p as int),
    {
        let ghost cs = self.spans@;
        let ghost k = lemma_alloc_chunk(
            cs,
            self.mem@,
            self.limit as int,
            self.bins_view(),
            self.binmap,
            p as int,
        );
        proof {
            self.lemma_chunk(k);
            lemma_tag_bits(cs[k].size as usize);
            if k + 1 < cs.len() {
                self.lemma_chunk(k + 1);
                lemma_tag_bits(cs[k + 1].size as usize);
            } else {
                assert(1usize & 1 == 1) by (bit_vector);
            }
            assert(self.chunk_index(p as int) == k);
        }
        let s = p - OVERHEAD;
        let n0 = self.mem[s / 8 + 1] & !1usize;
        let next = s + n0;
        if m > n0 {
            let nc = self.mem[next / 8 + 1];
            if nc & 1 == 0 {
                let i = bin_index(nc);
                self.unbin(next, i, Ghost(k + 1));
                let n1 = self.merge_used(s, Ghost(k));
                proof {
                    assert(old(self).next_free_size(p as int) == cs[k + 1].size);
                    assert(old(self).next_start(p as int) == next);
                    let cs2 = self.spans@;
                    if k + 2 == cs.len() {
                        assert(cs2.last() == cs2[k]);
                        assert(cs.last() == cs[k + 1]);
                    } else {
                        assert(cs2.last() == cs.last());
                        assert(cs[k + 1].start < cs.last().start) by {
                            self.lemma_chunk(k + 1);
                            lemma_order(
                                cs,
                                old(self).mem@,
                                old(self).limit as int,
                                old(self).bins_view(),
                                old(self).binmap,
                                k + 1,
                                cs.len() - 1,
                            );
                        }
                    }
                    assert(used_map(self.spans@) =~= used_map(cs).insert(p as int, n1 as int));
                    if k + 2 < cs.len() {
                        self.lemma_chunk(k + 1);
                    }
                    let h0 = *old(self);
                    let m0 = old(self).mem@;
                    lemma_chunks_around(cs, m0, h0.limit as int, h0.bins_view(), h0.binmap, k);
                    lemma_chunks_around(cs, m0, h0.limit as int, h0.bins_view(), h0.binmap, k + 1);
                    assert forall|j: int|
                        0 <= j < cs.len() && (#[trigger] cs[j]).used && cs[j].start + OVERHEAD != p implies span_end(
                        cs[j],
                    ) <= s || cs[j].start >= span_end(cs[k + 1]) by {
                        if j > k + 1 {
                            lemma_order(cs, m0, h0.limit as int, h0.bins_view(), h0.binmap, k + 1, j);
                        } else if j < k {
                            lemma_order(cs, m0, h0.limit as int, h0.bins_view(), h0.binmap, j, k);
                        }
                    }
                    lemma_payloads_kept(
                        cs,
                        m0,
                        h0.limit as int,
                        h0.bins_view(),
                        h0.binmap,
                        self.mem@,
                        s as int,
                        span_end(cs[k + 1]),
                        p as int,
                    );
                }
                return n1;
            }
        }
        proof {
            assert(used_map(cs).insert(p as int, n0 as int) =~= used_map(cs));
        }
        n0
    }

    /// Moves the allocation at `p`, whose payload holds `n0 - OVERHEAD` bytes worth
    /// keeping, to a new chunk of `m` bytes: asks for the chunk, copies the payload
    /// and frees the old chunk. When the new chunk is to be a private mapping or
    /// cannot be had, nothing changes.
    #[verifier::spinoff_prover]
    #[verifier::rlimit(80)]
    fn relocate(&mut self, p: usize, m: usize, n0: usize) -> (r: Resized)
        requires
            old(self).wf(),
            old(self).allocations().contains_key(p as int),
            n0 <= old(self).allocations()[p as int],
            n0 % 32 == 0,
            32 <= n0 < m,
            m == adjusted(m - OVERHEAD),
            !old(self).free_chunks().contains_key(p - OVERHEAD + old(self).allocations()[p as int]),
        ensures
            final(self).wf(),
            final(self).limit() == old(self).limit(),
            !(r is Heap) ==> *final(self) == *old(self),
            too_large(m - OVERHEAD) ==> (r is Fail),
            !too_large(m - OVERHEAD) && m > MMAP_THRESHOLD ==> (r is Mapped) && r->len == map_len(m as int)
                && r->copy == n0 - OVERHEAD,
            !too_large(m - OVERHEAD) && m <= MMAP_THRESHOLD ==> !(r is Mapped) && ((r is Heap)
                <==> old(self).can_serve(m as int)),
            (r is Heap) ==> !old(self).allocations().contains_key(r->ptr as int)
                && final(self).allocations() == old(self).allocations().remove(p as int).insert(
                r->ptr as int,
                m as int,
            ) && Heap::payloads_kept(old(self), final(self), old(self).allocations().remove(p as int))
                && forall|i: int|
                0 <= i < n0 - OVERHEAD ==> #[trigger] final(self).word(r->ptr + i) == old(self).word(p + i),
            (r is Heap) ==> r->reclaim is None,
            r matches Resized::Heap { freed: Some(x), .. } ==> final(self).safe_reclaim(x),
            (r is Heap) ==> forall|j: int|
                #[trigger] old(self).lowest_bin(bin_up_of(m as int), j) ==> r->ptr == old(self).bin(j)[0]
                    + OVERHEAD,
            (r is Heap) && (forall|l: int|
                bin_up_of(m as int) <= l < 64 ==> #[trigger] old(self).bin(l).len() == 0) ==> r->ptr
                == old(self).growth_start() + OVERHEAD,
            (r is Heap) ==> r->freed == final(self).joined_reclaim(
                p - OVERHEAD,
                old(self).allocations()[p as int],
            ),
            (r is Heap) ==> exists|h2: Heap, h3: Heap|
                Heap::allocated(old(self), m - OVERHEAD, Allocation::Heap { ptr: r->ptr }, &h2)
                    && h3.spans() == h2.spans() && (forall|l: int|
                    0 <= l < 64 ==> #[trigger] h3.bin(l) == h2.bin(l)) && Heap::released(
                    &h3,
                    p as int,
                    r->freed,
                    final(self),
                ),
    {
        let ghost h1 = *self;
        let a = self.allocate(m - OVERHEAD);
        match a {
            Allocation::Heap { ptr } => {
                let ghost h2 = *self;
                self.copy_payload(p, ptr, n0 - OVERHEAD);
                let ghost h3 = *self;
                let freed = self.free_ptr(p);
                proof {
                    Heap::lemma_relocated_freed(h1, (m - OVERHEAD) as int, ptr, h2, h3, p as int, freed, *self);
                    assert(self.allocations() =~= h1.allocations().remove(p as int).insert(
                        ptr as int,
                        m as int,
                    ));
                    assert(ptr != p);
                    assert forall|p2: int, b: int|
                        #![trigger h1.allocations().remove(p as int).contains_key(p2), self.word(b)]
                        h1.allocations().remove(p as int).contains_key(p2) && p2 <= b < p2
                            + h1.allocations().remove(p as int)[p2] - OVERHEAD implies self.word(b)
                        == h1.word(b) by {
                        assert(h2.word(b) == h1.word(b));
                        assert(h2.allocations().remove(ptr as int).contains_key(p2));
                        assert(h3.word(b) == h2.word(b));
                        assert(h3.allocations().remove(p as int).contains_key(p2));
                    }
                    assert forall|i: int| 0 <= i < n0 - OVERHEAD implies #[trigger] self.word(ptr + i)
                        == h1.word(p + i) by {
                        assert(h3.allocations().remove(p as int).contains_key(ptr as int));
                        assert(h3.allocations().remove(p as int)[ptr as int] == m);
                        assert(self.word(ptr + i) == h3.word(ptr + i));
                        assert(h3.word(ptr + i) == h2.word(p + i));
                    }
                    assert(Heap::allocated(&h1, m - OVERHEAD, Allocation::Heap { ptr: ptr }, &h2));
                    assert(Heap::released(&h3, p as int, freed, self));
                }
                Resized::Heap { ptr, reclaim: None, freed }
            },
            Allocation::Mapped { len } => Resized::Mapped { len, copy: n0 - OVERHEAD },
            Allocation::Fail => Resized::Fail,
        }
    }

    /// Resizes the allocation at `p` to `n` bytes; a null `p` asks for a new
    /// allocation. The chunk grows into a free neighbour after it when it must,
    /// and is cut down in place when it is large enough, leaving the free chunks
    /// and bins of `free_after_resize` and `bin_after_resize`. Otherwise a new
    /// chunk is allocated from the grown heap (`grew`, then `allocated`), the old
    /// payload copied into it and the old chunk freed (`released`); a new size
    /// too large for the heap is handed to a private mapping.
    #[verifier::spinoff_prover]
    #[verifier::rlimit(100)]
    pub fn reallocate(&mut self, p: usize, n: usize) -> (r: Resized)
        requires
            old(self).wf(),
            p == 0 || old(self).allocations().contains_key(p as int),
        ensures
            final(self).wf(),
            final(self).limit() == old(self).limit(),
            (r is Fail) && (p == 0 || too_large(n as int)) ==> *final(self) == *old(self),
            too_large(n as int) ==> (r is Fail),
            // a new allocation
            p == 0 ==> Heap::allocated(old(self), n as int, r.as_allocation(), final(self)),
            p == 0 && (r is Mapped) ==> r->copy == 0,
            p == 0 && (r is Heap) ==> r->reclaim is None && r->freed is None,
            // in place
            p != 0 && !too_large(n as int) && adjusted(n as int) <= old(self).grown(
                p as int,
                adjusted(n as int),
            ) ==> (r is Heap) && r->ptr == p && r->freed is None && r->reclaim == old(
                self,
            ).shrink_reclaim(p as int, adjusted(n as int)) && final(self).allocations()
                == old(self).allocations().insert(p as int, adjusted(n as int))
                && Heap::payloads_kept(old(self), final(self), old(self).allocations().remove(p as int))
                && forall|i: int|
                0 <= i < adjusted(n as int) - OVERHEAD && i < old(self).allocations()[p as int]
                    - OVERHEAD ==> #[trigger] final(self).word(p + i) == old(self).word(p + i),
            p != 0 && !too_large(n as int) && adjusted(n as int) <= old(self).grown(
                p as int,
                adjusted(n as int),
            ) ==> final(self).free_chunks() == old(self).free_after_resize(p as int, adjusted(n as int))
                && forall|l: int|
                0 <= l < 64 ==> #[trigger] final(self).bin(l) == old(self).bin_after_resize(
                    p as int,
                    adjusted(n as int),
                    l,
                ),
            // moved
            p != 0 && !too_large(n as int) && adjusted(n as int) > old(self).grown(
                p as int,
                adjusted(n as int),
            ) && adjusted(n as int) > MMAP_THRESHOLD ==> if too_large(adjusted(n as int) - OVERHEAD) {
                r is Fail
            } else {
                (r is Mapped) && r->len == map_len(adjusted(n as int)) && r->copy == old(
                    self,
                ).allocations()[p as int] - OVERHEAD
            },
            p != 0 && !too_large(n as int) && adjusted(n as int) > old(self).grown(
                p as int,
                adjusted(n as int),
            ) && adjusted(n as int) <= MMAP_THRESHOLD ==> ((r is Heap) <==> old(self).can_move(
                p as int,
                adjusted(n as int),
            )),
            p != 0 && !too_large(n as int) && adjusted(n as int) > old(self).grown(
                p as int,
                adjusted(n as int),
            ) && adjusted(n as int) <= MMAP_THRESHOLD ==> !(r is Mapped),
            p != 0 && ((r is Mapped) || (r is Fail && !too_large(n as int))) ==> Heap::grew(
                old(self),
                p as int,
                adjusted(n as int),
                final(self),
            ),
            p != 0 && ((r is Mapped) || (r is Fail && !too_large(n as int))) ==> final(self).allocations()
                == old(self).allocations().insert(
                p as int,
                old(self).grown(p as int, adjusted(n as int)),
            ) && Heap::payloads_kept(old(self), final(self), old(self).allocations()),
            p != 0 && (r is Heap) && r->ptr != p ==> !old(self).allocations().contains_key(
                r->ptr as int,
            ) && final(self).allocations() == old(self).allocations().remove(p as int).insert(
                r->ptr as int,
                adjusted(n as int),
            ) && Heap::payloads_kept(old(self), final(self), old(self).allocations().remove(p as int))
                && forall|i: int|
                0 <= i < old(self).allocations()[p as int] - OVERHEAD ==> #[trigger] final(self).word(
                    r->ptr + i,
                ) == old(self).word(p + i),
            r matches Resized::Heap { reclaim: Some(x), .. } ==> final(self).safe_reclaim(x),
            r matches Resized::Heap { freed: Some(x), .. } ==> final(self).safe_reclaim(x),
            // what freeing the old chunk of a moved allocation gives back
            p != 0 && !too_large(n as int) && adjusted(n as int) > old(self).grown(
                p as int,
                adjusted(n as int),
            ) && (r is Heap) ==> exists|h1: Heap, h2: Heap, h3: Heap|
                Heap::grew(old(self), p as int, adjusted(n as int), &h1) && Heap::allocated(
                    &h1,
                    adjusted(n as int) - OVERHEAD,
                    Allocation::Heap { ptr: r->ptr },
                    &h2,
                ) && h3.spans() == h2.spans() && (forall|l: int|
                    0 <= l < 64 ==> #[trigger] h3.bin(l) == h2.bin(l)) && Heap::released(
                    &h3,
                    p as int,
                    r->freed,
                    final(self),
                ),
            p != 0 && !too_large(n as int) && adjusted(n as int) > old(self).grown(
                p as int,
                adjusted(n as int),
            ) && (r is Heap) ==> r->freed == final(self).joined_reclaim(
                p - OVERHEAD,
                old(self).grown(p as int, adjusted(n as int)),
            ),
            // where a moved allocation lands
            p != 0 && !too_large(n as int) && adjusted(n as int) > old(self).grown(
                p as int,
                adjusted(n as int),
            ) && (r is Heap) ==> forall|j: int|
                #[trigger] old(self).lowest_bin_after_growth(p as int, bin_up_of(adjusted(n as int)), j)
                    ==> r->ptr == old(self).bin_after_growth(p as int, j)[0] + OVERHEAD,
            p != 0 && !too_large(n as int) && adjusted(n as int) > old(self).grown(
                p as int,
                adjusted(n as int),
            ) && (r is Heap) && (forall|l: int|
                bin_up_of(adjusted(n as int)) <= l < 64 ==> #[trigger] old(self).bin_after_growth(
                    p as int,
                    l,
                ).len() == 0) ==> r->ptr == old(self).growth_start_after_growth(p as int) + OVERHEAD,
    {
        if p == 0 {
            return match self.allocate(n) {
                Allocation::Heap { ptr } => Resized::Heap { ptr, reclaim: None, freed: None },
                Allocation::Mapped { len } => Resized::Mapped { len, copy: 0 },
                Allocation::Fail => Resized::Fail,
            };
        }
        let mut m = n;
        if adjust_size(&mut m) < 0 {
            return Resized::Fail;
        }
        let ghost cs0 = self.spans@;
        let ghost m0 = self.mem@;
        let ghost bv0 = self.bins_view();
        let ghost bm0 = self.binmap;
        let ghost k = lemma_alloc_chunk(cs0, m0, self.limit as int, bv0, bm0, p as int);
        proof {
            self.lemma_chunk(k);
            assert(self.chunk_index(p as int) == k);
            lemma_chunks_around(cs0, m0, self.limit as int, bv0, bm0, k);
        }
        let ghost h0 = *self;
        let n0 = self.mem[(p - OVERHEAD) / 8 + 1] & !1usize;
        proof {
            lemma_tag_bits(cs0[k].size as usize);
        }
        let n1 = self.grow_in_place(p, m);
        let ghost h1 = *self;
        if m <= n1 {
            let ghost cs1 = self.spans@;
            proof {
                self.lemma_chunk(k);
                if k + 1 < cs1.len() {
                    self.lemma_chunk(k + 1);
                }
                if k + 1 < cs0.len() {
                    self.lemma_chunk(k);
                }
                assert(freed_hi(cs1, k) <= freed_hi(cs0, k));
                assert(p - OVERHEAD + n1 <= freed_hi(cs0, k));
            }
            let reclaim = self.trim(p - OVERHEAD, m, Ghost(k));
            proof {
                assert(self.allocations() =~= h0.allocations().insert(p as int, m as int));
                let lo = cs0[k].start;
                let hi = freed_hi(cs0, k);
                assert forall|w: int| 0 <= w < m0.len() && !(lo / 8 < w <= hi / 8) implies #[trigger] self.mem@[w] == m0[w] by {
                    assert(h1.word(w * 8) == h0.word(w * 8));
                    assert((w * 8) / 8 == w);
                }
                if k + 1 < cs0.len() {
                    lemma_chunks_around(cs0, m0, h0.limit as int, bv0, bm0, k + 1);
                }
                assert forall|j: int|
                    0 <= j < cs0.len() && (#[trigger] cs0[j]).used && cs0[j].start + OVERHEAD != p implies span_end(
                    cs0[j],
                ) <= lo || cs0[j].start >= hi by {
                    if j == k + 1 {
                    } else if j > k + 1 {
                        lemma_order(cs0, m0, h0.limit as int, bv0, bm0, k + 1, j);
                    } else if j < k {
                        lemma_order(cs0, m0, h0.limit as int, bv0, bm0, j, k);
                    }
                }
                lemma_payloads_kept(cs0, m0, h0.limit as int, bv0, bm0, self.mem@, lo, hi, p as int);
                assert forall|i: int|
                    0 <= i < m - OVERHEAD && i < n0 - OVERHEAD implies #[trigger] self.word(p + i) == h0.word(p + i) by {
                    assert(h1.word(p + i) == h0.word(p + i));
                }
                // the free chunks and bins that the resize leaves
                let size = cs0[k].size;
                assert(h0.allocations()[p as int] == size);
                assert(h0.next_free_size(p as int) > 0 <==> next_free(cs0, k));
                if next_free(cs0, k) {
                    assert(h0.next_free_size(p as int) == cs0[k + 1].size);
                    assert(h0.next_start(p as int) == cs0[k + 1].start);
                }
                if m as int > size {
                    assert(!next_free(cs1, k));
                    assert(freed_hi(cs1, k) == p - OVERHEAD + n1);
                } else {
                    assert(cs1 == cs0);
                    assert(freed_hi(cs0, k) == p - OVERHEAD + size + h0.next_free_size(p as int));
                }
                assert(self.free_chunks() =~= h0.free_after_resize(p as int, m as int));
            }
            return Resized::Heap { ptr: p, reclaim, freed: None };
        }
        proof {
            lemma_adjusted(n as int);
            if h0.can_move(p as int, m as int) {
                if h0.arena_len() + grow_len(m as int) > h0.limit() {
                    let a = choose|a: int|
                        #[trigger] h0.free_chunks().contains_key(a) && !(h0.next_free_size(p as int)
                            > 0 && a == h0.next_start(p as int)) && bin_of(h0.free_chunks()[a])
                            >= bin_up_of(m as int);
                    assert(h1.free_chunks().contains_key(a));
                }
                assert(h1.can_serve(m as int));
            }
            if h1.can_serve(m as int) {
                if h1.arena_len() + grow_len(m as int) > h1.limit() {
                    let a = choose|a: int|
                        #[trigger] h1.free_chunks().contains_key(a) && bin_of(h1.free_chunks()[a])
                            >= bin_up_of(m as int);
                    assert(h0.free_chunks().contains_key(a));
                }
                assert(h0.can_move(p as int, m as int));
            }
        }
        proof {
            let kk = h0.chunk_index(p as int);
            assert(m > h0.allocations()[p as int]);
            h1.lemma_next_not_free(kk);
            assert(span_end(h1.spans@[kk]) == p - OVERHEAD + h1.allocations()[p as int]);
        }
        let r = self.relocate(p, m, n0);
        proof {
            assert(Heap::grew(&h0, p as int, m as int, &h1));
            if r is Heap {
                let (h2, h3) = choose|h2: Heap, h3: Heap|
                    Heap::allocated(&h1, m - OVERHEAD, Allocation::Heap { ptr: r->ptr }, &h2)
                        && h3.spans() == h2.spans() && (forall|l: int|
                        0 <= l < 64 ==> #[trigger] h3.bin(l) == h2.bin(l)) && Heap::released(
                        &h3,
                        p as int,
                        r->freed,
                        self,
                    );
                assert(Heap::grew(&h0, p as int, m as int, &h1) && Heap::allocated(
                    &h1,
                    m - OVERHEAD,
                    Allocation::Heap { ptr: r->ptr },
                    &h2,
                ) && h3.spans() == h2.spans() && (forall|l: int|
                    0 <= l < 64 ==> #[trigger] h3.bin(l) == h2.bin(l)) && Heap::released(
                    &h3,
                    p as int,
                    r->freed,
                    self,
                ));
                let i = bin_up_of(m as int);
                assert forall|j: int| #[trigger] h0.lowest_bin_after_growth(p as int, i, j) implies r->ptr
                    == h0.bin_after_growth(p as int, j)[0] + OVERHEAD by {
                    assert(h1.bin(j) == h0.bin_after_growth(p as int, j));
                    assert forall|l: int| i <= l < j implies #[trigger] h1.bin(l).len() == 0 by {
                        assert(h1.bin(l) == h0.bin_after_growth(p as int, l));
                    }
                    assert(h1.lowest_bin(i, j));
                }
                if forall|l: int| i <= l < 64 ==> #[trigger] h0.bin_after_growth(p as int, l).len() == 0 {
                    assert forall|l: int| i <= l < 64 implies #[trigger] h1.bin(l).len() == 0 by {
                        assert(h1.bin(l) == h0.bin_after_growth(p as int, l));
                    }
                }
                let ptr = r->ptr;
                assert(self.allocations() =~= h0.allocations().remove(p as int).insert(
                    ptr as int,
                    m as int,
                ));
                assert forall|p2: int, b: int|
                    #![trigger h0.allocations().remove(p as int).contains_key(p2), self.word(b)]
                    h0.allocations().remove(p as int).contains_key(p2) && p2 <= b < p2
                        + h0.allocations().remove(p as int)[p2] - OVERHEAD implies self.word(b)
                    == h0.word(b) by {
                    assert(h1.allocations().remove(p as int).contains_key(p2));
                    assert(h1.allocations()[p2] == h0.allocations()[p2]);
                }
                assert forall|i: int| 0 <= i < n0 - OVERHEAD implies #[trigger] self.word(ptr + i)
                    == h0.word(p + i) by {
                    assert(h1.word(p + i) == h0.word(p + i));
                }
            }
        }
        r
    }
}

impl Heap {
    /// Every allocation of a well-formed heap is 32-byte aligned, has a chunk of a
    /// positive multiple of 32 bytes, and lies in the arena.
    pub proof fn lemma_allocation_layout(&self, p: int)
        requires
            self.wf(),
            self.allocations().contains_key(p),
        ensures
            p % 32 == 0,
            self.allocations()[p] % 32 == 0,
            self.allocations()[p] >= 32,
            OVERHEAD <= p,
            p + self.allocations()[p] <= self.arena_len(),
            self.arena_len() <= HEAP_LIMIT,
    {
        let j = lemma_alloc_chunk(
            self.spans@,
            self.mem@,
            self.limit as int,
            self.bins_view(),
            self.binmap,
            p,
        );
        self.lemma_chunk(j);
    }

    /// Distinct allocations of a well-formed heap have chunks that do not overlap,
    /// so no word of one payload is a word of another.
    pub proof fn lemma_allocations_disjoint(&self, p: int, q: int)
        requires
            self.wf(),
            self.allocations().contains_key(p),
            self.allocations().contains_key(q),
            p != q,
        ensures
            p + self.allocations()[p] <= q || q + self.allocations()[q] <= p,
            forall|a: int, b: int|
                p <= a < p + self.allocations()[p] - OVERHEAD && q <= b < q + self.allocations()[q]
                    - OVERHEAD ==> #[trigger] (a / 8) != #[trigger] (b / 8),
    {
        let cs = self.spans@;
        let j = lemma_alloc_chunk(cs, self.mem@, self.limit as int, self.bins_view(), self.binmap, p);
        let l = lemma_alloc_chunk(cs, self.mem@, self.limit as int, self.bins_view(), self.binmap, q);
        assert(j != l);
        if j < l {
            lemma_order(cs, self.mem@, self.limit as int, self.bins_view(), self.binmap, j, l);
        } else {
            lemma_order(cs, self.mem@, self.limit as int, self.bins_view(), self.binmap, l, j);
        }
    }

    /// Byte `a` of the arena: the word that holds it keeps its bytes in ascending
    /// order from the low end.
    pub open spec fn byte(&self, a: int) -> u8 {
        (((self.word(a) as u64) >> ((8 * (a % 8)) as u64)) & 0xffu64) as u8
    }

    /// `after` is `before` with the bytes from `lo` up to `hi` cleared: the same
    /// chunks, bins and limit, and every other byte of the arena as it was.
    pub open spec fn cleared(before: &Heap, lo: int, hi: int, after: &Heap) -> bool {
        &&& after.wf()
        &&& after.spans() == before.spans()
        &&& after.limit() == before.limit()
        &&& after.arena_len() == before.arena_len()
        &&& forall|l: int| 0 <= l < 64 ==> #[trigger] after.bin(l) == before.bin(l)
        &&& forall|a: int|
            0 <= a < before.arena_len() ==> #[trigger] after.byte(a) == if lo <= a < hi {
                0u8
            } else {
                before.byte(a)
            }
    }

    /// Serves a request for `n` bytes as `allocate` does, and clears the first `n`
    /// bytes of an allocation from the heap, and no others. A private mapping is
    /// not cleared here: fresh mappings read as zero.
    #[verifier::spinoff_prover]
    #[verifier::rlimit(60)]
    pub fn malloc0(&mut self, n: usize) -> (r: Allocation)
        requires
            old(self).wf(),
        ensures
            Heap::allocated(old(self), n as int, r, final(self)),
            (r is Heap) ==> exists|h: Heap|
                Heap::allocated(old(self), n as int, r, &h) && Heap::cleared(
                    &h,
                    r->ptr as int,
                    r->ptr + n,
                    final(self),
                ),
    {
        let r = self.allocate(n);
        match r {
            Allocation::Heap { ptr } => {
                let ghost h1 = *self;
                proof {
                    self.lemma_allocation_layout(ptr as int);
                    lemma_adjusted(n as int);
                }
                let mut i: usize = 0;
                while i + 8 <= n
                    invariant
                        self.wf(),
                        h1.wf(),
                        self.allocations() == h1.allocations(),
                        self.spans() == h1.spans(),
                        self.limit() == h1.limit(),
                        self.arena_len() == h1.arena_len(),
                        forall|l: int| 0 <= l < 64 ==> #[trigger] self.bin(l) == h1.bin(l),
                        h1.allocations().contains_key(ptr as int),
                        h1.allocations()[ptr as int] == adjusted(n as int),
                        n + OVERHEAD <= adjusted(n as int),
                        ptr % 32 == 0,
                        ptr + adjusted(n as int) <= h1.arena_len(),
                        h1.arena_len() <= HEAP_LIMIT,
                        i % 8 == 0,
                        i <= n,
                        forall|b: int|
                            0 <= b < h1.arena_len() && !(ptr <= b && b / 8 < (ptr + i) / 8)
                                ==> #[trigger] self.word(b) == h1.word(b),
                        forall|a: int|
                            0 <= a < h1.arena_len() ==> #[trigger] self.byte(a) == if ptr <= a < ptr + i {
                                0u8
                            } else {
                                h1.byte(a)
                            },
                    decreases n - i,
                {
                    let ghost before = *self;
                    self.store(ptr, ptr + i, 0);
                    proof {
                        assert forall|a: int| 0 <= a < h1.arena_len() implies #[trigger] self.byte(a)
                            == if ptr <= a < ptr + i + 8 {
                            0u8
                        } else {
                            h1.byte(a)
                        } by {
                            if a / 8 == (ptr + i) / 8 {
                                assert(ptr + i <= a < ptr + i + 8);
                                assert(self.word(a) == 0);
                                lemma_zero_bytes((8 * (a % 8)) as u64);
                            } else {
                                assert(self.word(a) == before.word(a));
                                assert(self.byte(a) == before.byte(a));
                                assert(!(ptr + i <= a < ptr + i + 8));
                            }
                        }
                    }
                    i = i + 8;
                }
                let ghost iw: int = i as int;
                if i < n {
                    let ghost before = *self;
                    let w = self.load(ptr, ptr + i);
                    let rest = (n - i) as u64;
                    let mask: u64 = 0xffff_ffff_ffff_ffffu64 << (8 * rest);
                    self.store(ptr, ptr + i, ((w as u64) & mask) as usize);
                    proof {
                        iw = i + 8;
                        assert forall|a: int| 0 <= a < h1.arena_len() implies #[trigger] self.byte(a)
                            == if ptr <= a < ptr + n {
                            0u8
                        } else {
                            h1.byte(a)
                        } by {
                            if a / 8 == (ptr + i) / 8 {
                                assert(ptr + i <= a < ptr + i + 8);
                                let kk = (a - (ptr + i)) as u64;
                                assert(a % 8 == kk);
                                lemma_clear_low_bytes(w, rest, kk);
                                assert(self.word(a) == ((w as u64) & mask) as usize);
                                assert(before.word(a) == w);
                            } else {
                                assert(self.word(a) == before.word(a));
                                assert(self.byte(a) == before.byte(a));
                                assert(!(ptr + i <= a < ptr + i + 8));
                            }
                        }
                    }
                }
                proof {
                    assert(iw <= n + 7);
                    assert forall|b: int|
                        0 <= b < h1.arena_len() && !(ptr <= b && b / 8 < (ptr + iw) / 8) implies #[trigger] self.word(b)
                        == h1.word(b) by {
                        if iw > i {
                            assert(b / 8 != (ptr + i) / 8);
                        }
                    }
                    assert(Heap::cleared(&h1, ptr as int, ptr + n, self));
                    let keep = old(self).allocations();
                    assert forall|q: int, b: int|
                        #![trigger keep.contains_key(q), self.word(b)]
                        keep.contains_key(q) && q <= b < q + keep[q] - OVERHEAD implies self.word(b)
                            == old(self).word(b) by {
                        assert(h1.allocations().contains_key(q));
                        assert(q != ptr);
                        h1.lemma_allocations_disjoint(q, ptr as int);
                        h1.lemma_allocation_layout(q);
                        assert(h1.word(b) == old(self).word(b));
                        if ptr <= b && b / 8 < (ptr + iw) / 8 {
                            assert(b / 8 == (ptr + 8 * ((b - ptr) / 8)) / 8);
                            assert(false);
                        }
                    }
                    assert(self.free_chunks() == h1.free_chunks());
                }
                Allocation::Heap { ptr }
            },
            _ => r,
        }
    }
}

/// A zero word has zero bytes.
proof fn lemma_zero_bytes(x: u64)
    ensures
        (((0usize as u64) >> x) & 0xffu64) == 0,
{
    assert((((0usize as u64) >> x) & 0xffu64) == 0) by (bit_vector);
}

/// Masking off the low `r` bytes of a word clears those bytes and keeps the others.
proof fn lemma_clear_low_bytes(w: usize, r: u64, k: u64)
    requires
        0 < r < 8,
        k < 8,
    ensures
        ((((((w as u64) & (0xffff_ffff_ffff_ffffu64 << (8 * r))) as usize) as u64) >> (8 * k)) & 0xffu64)
            == if k < r {
            0u64
        } else {
            ((w as u64) >> (8 * k)) & 0xffu64
        },
{
    assert(((((((w as u64) & (0xffff_ffff_ffff_ffffu64 << (8 * r))) as usize) as u64) >> (8 * k)) & 0xffu64)
        == if k < r {
        0u64
    } else {
        ((w as u64) >> (8 * k)) & 0xffu64
    }) by (bit_vector)
        requires
            0 < r < 8,
            k < 8,
    ;
}

/// Serving a request depends on the heap before it alone: two heaps reached from
/// one heap by serving the same request, with `allocate` or with `reallocate` of
/// null, got the same answer and hold the same allocations in an arena of the
/// same size.
pub proof fn lemma_serving_is_determined(h0: Heap, n: int, r1: Allocation, h1: Heap, r2: Allocation, h2: Heap)
    requires
        Heap::allocated(&h0, n, r1, &h1),
        Heap::allocated(&h0, n, r2, &h2),
    ensures
        r1 == r2,
        h1.allocations() == h2.allocations(),
        h1.arena_len() == h2.arena_len(),
{
    let i = bin_up_of(adjusted(n));
    if (r1 is Heap) && (r2 is Heap) {
        if exists|l: int| i <= l < 64 && #[trigger] h0.bin(l).len() > 0 {
            let l = choose|l: int| i <= l < 64 && #[trigger] h0.bin(l).len() > 0;
            h0.lemma_lowest_exists(i, l);
            let j = choose|j: int| #[trigger] h0.lowest_bin(i, j);
            assert(r1->ptr == h0.bin(j)[0] + OVERHEAD);
            assert(r2->ptr == h0.bin(j)[0] + OVERHEAD);
        } else {
            assert forall|l: int| i <= l < 64 implies #[trigger] h0.bin(l).len() == 0 by {}
        }
    }
}

/// A request served by a private mapping leaves the heap as it was, and freeing
/// the chunk laid out in that mapping, wherever the system put it, gives back
/// exactly the mapping: the same address and the same length.
pub proof fn lemma_mapped_allocation_round_trip(h0: Heap, n: int, r: Allocation, h1: Heap, base: usize)
    requires
        Heap::allocated(&h0, n, r, &h1),
        r is Mapped,
        base + SIZE_ALIGN <= usize::MAX,
    ensures
        h1 == h0,
        r->len >= SIZE_ALIGN - OVERHEAD,
        mapping_of(
            chunk_in_mapping(base as int, r->len as int).0 as int,
            chunk_in_mapping(base as int, r->len as int).1,
        ) == Some((base, r->len)),
{
    let m = adjusted(n) + OVERHEAD + PAGE_SIZE - 1;
    assert(r->len == (m / 4096) * 4096);
    assert(m / 4096 >= 1);
    assert((m / 4096) * 4096 >= 4096) by (nonlinear_arith)
        requires
            m / 4096 >= 1,
    ;
    assert(((m / 4096) * 4096) % 2 == 0) by (nonlinear_arith);
    lemma_unmap_gives_back_mapping(base, r->len);
}

/// Freeing an allocation just made gives back the allocations there were before,
/// with their contents.
pub proof fn lemma_free_undoes_allocate(
    h0: Heap,
    n: int,
    r: Allocation,
    h1: Heap,
    f: Option<Reclaim>,
    h2: Heap,
)
    requires
        Heap::allocated(&h0, n, r, &h1),
        r is Heap,
        Heap::released(&h1, r->ptr as int, f, &h2),
    ensures
        h2.allocations() == h0.allocations(),
        Heap::payloads_kept(&h0, &h2, h0.allocations()),
{
    let p = r->ptr as int;
    assert(h2.allocations() =~= h0.allocations());
    assert forall|q: int, a: int|
        #![trigger h0.allocations().contains_key(q), h2.word(a)]
        h0.allocations().contains_key(q) && q <= a < q + h0.allocations()[q] - OVERHEAD implies h2.word(a)
            == h0.word(a) by {
        assert(h1.allocations().remove(p).contains_key(q));
        assert(h1.allocations().remove(p)[q] == h0.allocations()[q]);
    }
}

/// What an allocation from the heap hands out overlaps no allocation that was
/// live before: the new chunk lies wholly before or wholly after each of them.
pub proof fn lemma_allocate_fresh(h0: Heap, n: int, r: Allocation, h1: Heap, q: int)
    requires
        Heap::allocated(&h0, n, r, &h1),
        r is Heap,
        h0.allocations().contains_key(q),
    ensures
        r->ptr + adjusted(n) <= q || q + h0.allocations()[q] <= r->ptr,
{
    let p = r->ptr as int;
    assert(h1.allocations().contains_key(p) && h1.allocations()[p] == adjusted(n));
    assert(h1.allocations().contains_key(q) && h1.allocations()[q] == h0.allocations()[q]);
    h1.lemma_allocations_disjoint(p, q);
}

/// A write into one allocation leaves every other allocation's payload as it was,
/// and the written word reads back what was written.
pub proof fn lemma_store_isolated(h0: Heap, p: int, a: int, v: usize, h1: Heap, q: int, b: int)
    requires
        h0.wf(),
        h0.allocations().contains_key(p),
        p <= a < p + h0.allocations()[p] - OVERHEAD,
        Heap::stored(&h0, a, v, &h1),
        h0.allocations().contains_key(q),
        q != p,
        q <= b < q + h0.allocations()[q] - OVERHEAD,
    ensures
        h1.word(a) == v,
        h1.word(b) == h0.word(b),
{
    h0.lemma_allocations_disjoint(p, q);
    h0.lemma_allocation_layout(q);
    assert(a / 8 != b / 8);
}

} // verus!
