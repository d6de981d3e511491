//! The chunk layout of the heap as a sequence of spans, and the maps that
//! the heap's contracts are stated over.

use vstd::prelude::*;
use super::{OVERHEAD, SIZE_ALIGN};

verus! {

/// One chunk of the heap: where it starts, how many bytes it spans, and
/// whether it is in use (allocated, or being worked on) or free.
pub struct Span {
    pub start: int,
    pub size: int,
    pub used: bool,
}

/// The value of a size word: the size with its low bit set when the chunk is in use.
pub open spec fn tag(size: int, used: bool) -> int {
    if used {
        size + 1
    } else {
        size
    }
}

/// The first byte after a span.
pub open spec fn span_end(s: Span) -> int {
    s.start + s.size
}

/// The spans lie one after the other from the first chunk position, each a
/// positive multiple of `SIZE_ALIGN` long.
pub open spec fn tiled(cs: Seq<Span>) -> bool {
    &&& cs.len() >= 1
    &&& cs[0].start == OVERHEAD
    &&& forall|k: int|
        0 <= k < cs.len() ==> {
            &&& #[trigger] cs[k].size >= SIZE_ALIGN
            &&& cs[k].size % (SIZE_ALIGN as int) == 0
            &&& cs[k].start % (SIZE_ALIGN as int) == OVERHEAD
        }
    &&& forall|j: int, k: int|
        #![trigger cs[j], cs[k]]
        0 <= j && k == j + 1 && k < cs.len() ==> cs[k].start == span_end(cs[j])
}

/// The end of the last span, where the zero-sized end sentinel stands.
pub open spec fn top(cs: Seq<Span>) -> int {
    span_end(cs.last())
}

/// No two neighbouring chunks are both free.
pub open spec fn coalesced(cs: Seq<Span>) -> bool {
    forall|j: int, k: int|
        #![trigger cs[j], cs[k]]
        0 <= j && k == j + 1 && k < cs.len() ==> cs[j].used || cs[k].used
}

/// The allocations: the address handed out for each chunk in use, mapped to the
/// chunk's size.
pub open spec fn used_map(cs: Seq<Span>) -> Map<int, int>
    decreases cs.len(),
{
    if cs.len() == 0 {
        Map::empty()
    } else {
        let rest = used_map(cs.drop_last());
        let c = cs.last();
        if c.used {
            rest.insert(c.start + OVERHEAD, c.size)
        } else {
            rest
        }
    }
}

/// The free chunks: the start of each free chunk, mapped to its size.
pub open spec fn free_map(cs: Seq<Span>) -> Map<int, int>
    decreases cs.len(),
{
    if cs.len() == 0 {
        Map::empty()
    } else {
        let rest = free_map(cs.drop_last());
        let c = cs.last();
        if !c.used {
            rest.insert(c.start, c.size)
        } else {
            rest
        }
    }
}

/// Spans that come earlier end no later than spans that come later start.
#[verifier::spinoff_prover]
pub proof fn lemma_tiled_ordered(cs: Seq<Span>, j: int, l: int)
    requires
        tiled(cs),
        0 <= j < l < cs.len(),
    ensures
        span_end(cs[j]) <= cs[l].start,
    decreases l - j,
{
    let _ = cs[l - 1];
    if j < l - 1 {
        lemma_tiled_ordered(cs, j, l - 1);
    }
}

/// Every span ends no later than the top of the heap.
#[verifier::spinoff_prover]
pub proof fn lemma_tiled_below_top(cs: Seq<Span>, j: int)
    requires
        tiled(cs),
        0 <= j < cs.len(),
    ensures
        span_end(cs[j]) <= top(cs),
        cs[j].start >= OVERHEAD,
{
    if j < cs.len() - 1 {
        lemma_tiled_ordered(cs, j, cs.len() - 1);
    }
    if j > 0 {
        lemma_tiled_ordered(cs, 0, j);
    }
}

#[verifier::spinoff_prover]
pub proof fn lemma_used_map_concat(a: Seq<Span>, b: Seq<Span>)
    ensures
        used_map(a + b) == used_map(a).union_prefer_right(used_map(b)),
    decreases b.len(),
{
    if b.len() == 0 {
        assert(a + b =~= a);
        assert(used_map(a).union_prefer_right(used_map(b)) =~= used_map(a));
    } else {
        assert((a + b).drop_last() =~= a + b.drop_last());
        assert((a + b).last() == b.last());
        lemma_used_map_concat(a, b.drop_last());
        assert(used_map(a + b) =~= used_map(a).union_prefer_right(used_map(b)));
    }
}

#[verifier::spinoff_prover]
pub proof fn lemma_free_map_concat(a: Seq<Span>, b: Seq<Span>)
    ensures
        free_map(a + b) == free_map(a).union_prefer_right(free_map(b)),
    decreases b.len(),
{
    if b.len() == 0 {
        assert(a + b =~= a);
        assert(free_map(a).union_prefer_right(free_map(b)) =~= free_map(a));
    } else {
        assert((a + b).drop_last() =~= a + b.drop_last());
        assert((a + b).last() == b.last());
        lemma_free_map_concat(a, b.drop_last());
        assert(free_map(a + b) =~= free_map(a).union_prefer_right(free_map(b)));
    }
}

/// The keys of both maps lie within the spans' starts.
#[verifier::spinoff_prover]
pub proof fn lemma_map_keys_within(cs: Seq<Span>, lo: int, hi: int)
    requires
        forall|j: int| 0 <= j < cs.len() ==> lo <= #[trigger] cs[j].start < hi,
    ensures
        forall|a: int| #[trigger] used_map(cs).contains_key(a) ==> lo + OVERHEAD <= a < hi + OVERHEAD,
        forall|a: int| #[trigger] free_map(cs).contains_key(a) ==> lo <= a < hi,
    decreases cs.len(),
{
    if cs.len() > 0 {
        let _ = cs[cs.len() - 1];
        assert forall|j: int| 0 <= j < cs.len() - 1 implies lo <= #[trigger] cs.drop_last()[j].start
            < hi by {
            let _ = cs[j];
        }
        lemma_map_keys_within(cs.drop_last(), lo, hi);
        assert forall|a: int| #[trigger] used_map(cs).contains_key(a) implies lo + OVERHEAD <= a
            < hi + OVERHEAD by {
            if a != cs.last().start + OVERHEAD {
                assert(used_map(cs.drop_last()).contains_key(a));
            }
        }
        assert forall|a: int| #[trigger] free_map(cs).contains_key(a) implies lo <= a < hi by {
            if a != cs.last().start {
                assert(free_map(cs.drop_last()).contains_key(a));
            }
        }
    } else {
        assert(used_map(cs) =~= Map::<int, int>::empty());
        assert(free_map(cs) =~= Map::<int, int>::empty());
    }
}

#[verifier::spinoff_prover]
pub proof fn lemma_maps_single(x: Span)
    ensures
        used_map(seq![x]) == (if x.used {
            Map::<int, int>::empty().insert(x.start + OVERHEAD, x.size)
        } else {
            Map::<int, int>::empty()
        }),
        free_map(seq![x]) == (if x.used {
            Map::<int, int>::empty()
        } else {
            Map::<int, int>::empty().insert(x.start, x.size)
        }),
{
    assert(seq![x].drop_last() =~= Seq::<Span>::empty());
    assert(seq![x].last() == x);
    assert(used_map(Seq::<Span>::empty()) =~= Map::<int, int>::empty());
    assert(free_map(Seq::<Span>::empty()) =~= Map::<int, int>::empty());
    assert(used_map(seq![x]) =~= (if x.used {
        Map::<int, int>::empty().insert(x.start + OVERHEAD, x.size)
    } else {
        Map::<int, int>::empty()
    }));
    assert(free_map(seq![x]) =~= (if x.used {
        Map::<int, int>::empty()
    } else {
        Map::<int, int>::empty().insert(x.start, x.size)
    }));
}

#[verifier::spinoff_prover]
pub proof fn lemma_maps_pair(x: Span, y: Span)
    ensures
        used_map(seq![x, y]) == used_map(seq![x]).union_prefer_right(used_map(seq![y])),
        free_map(seq![x, y]) == free_map(seq![x]).union_prefer_right(free_map(seq![y])),
{
    assert(seq![x, y] =~= seq![x] + seq![y]);
    lemma_used_map_concat(seq![x], seq![y]);
    lemma_free_map_concat(seq![x], seq![y]);
}

/// The spans from `k` to `k + d` are replaced by `mid`, which covers the same bytes.
pub open spec fn replaced(cs: Seq<Span>, k: int, d: int, mid: Seq<Span>) -> Seq<Span> {
    cs.take(k) + mid + cs.skip(k + d)
}

/// Replacing a run of spans by another that covers the same bytes changes the
/// maps only at the keys that the run and its replacement hold.
#[verifier::spinoff_prover]
pub proof fn lemma_replace_maps(cs: Seq<Span>, k: int, d: int, mid: Seq<Span>)
    requires
        tiled(cs),
        0 <= k,
        1 <= d,
        k + d <= cs.len(),
        forall|j: int|
            0 <= j < mid.len() ==> cs[k].start <= #[trigger] mid[j].start < span_end(
                cs[k + d - 1],
            ),
    ensures
        used_map(replaced(cs, k, d, mid)) == used_map(cs).remove_keys(
            used_map(cs.subrange(k, k + d)).dom(),
        ).union_prefer_right(used_map(mid)),
        free_map(replaced(cs, k, d, mid)) == free_map(cs).remove_keys(
            free_map(cs.subrange(k, k + d)).dom(),
        ).union_prefer_right(free_map(mid)),
{
    let a = cs.take(k);
    let old = cs.subrange(k, k + d);
    let b = cs.skip(k + d);
    let lo = cs[k].start;
    let hi = span_end(cs[k + d - 1]);
    assert(cs =~= a + old + b);
    lemma_used_map_concat(a + old, b);
    lemma_used_map_concat(a, old);
    lemma_used_map_concat(a + mid, b);
    lemma_used_map_concat(a, mid);
    lemma_free_map_concat(a + old, b);
    lemma_free_map_concat(a, old);
    lemma_free_map_concat(a + mid, b);
    lemma_free_map_concat(a, mid);
    assert forall|j: int| 0 <= j < a.len() implies #[trigger] a[j].start < lo - SIZE_ALIGN + 1 by {
        lemma_tiled_ordered(cs, j, k);
        let _ = cs[j];
    }
    assert forall|j: int| 0 <= j < a.len() implies -1 <= #[trigger] a[j].start < lo - SIZE_ALIGN + 1 by {
        lemma_tiled_below_top(cs, j);
        lemma_tiled_ordered(cs, j, k);
        let _ = cs[j];
    }
    lemma_map_keys_within(a, -1, lo - SIZE_ALIGN + 1);
    assert forall|j: int| 0 <= j < old.len() implies lo <= #[trigger] old[j].start < hi by {
        if j > 0 {
            lemma_tiled_ordered(cs, k, k + j);
        }
        if k + j < k + d - 1 {
            lemma_tiled_ordered(cs, k + j, k + d - 1);
        }
        let _ = cs[k + j];
        let _ = cs[k + d - 1];
    }
    lemma_map_keys_within(old, lo, hi);
    lemma_map_keys_within(mid, lo, hi);
    assert forall|j: int| 0 <= j < b.len() implies hi <= #[trigger] b[j].start < top(cs) by {
        lemma_tiled_ordered(cs, k + d - 1, k + d + j);
        lemma_tiled_below_top(cs, k + d + j);
        let _ = cs[k + d + j];
    }
    lemma_map_keys_within(b, hi, top(cs));
    assert(used_map(replaced(cs, k, d, mid)) =~= used_map(cs).remove_keys(
        used_map(old).dom(),
    ).union_prefer_right(used_map(mid)));
    assert(free_map(replaced(cs, k, d, mid)) =~= free_map(cs).remove_keys(
        free_map(old).dom(),
    ).union_prefer_right(free_map(mid)));
}


/// The spans' starts increase strictly.
pub open spec fn ascending(cs: Seq<Span>) -> bool {
    forall|j: int, l: int| #![trigger cs[j], cs[l]] 0 <= j < l < cs.len() ==> cs[j].start < cs[l].start
}

#[verifier::spinoff_prover]
pub proof fn lemma_tiled_ascending(cs: Seq<Span>)
    requires
        tiled(cs),
    ensures
        ascending(cs),
{
    assert forall|j: int, l: int| #![trigger cs[j], cs[l]] 0 <= j < l < cs.len() implies cs[j].start
        < cs[l].start by {
        lemma_tiled_ordered(cs, j, l);
    }
}

/// Each span is found in the map that matches whether it is in use.
#[verifier::spinoff_prover]
pub proof fn lemma_maps_hold_spans(cs: Seq<Span>)
    requires
        ascending(cs),
    ensures
        forall|k: int|
            0 <= k < cs.len() && !(#[trigger] cs[k]).used ==> free_map(cs).contains_key(cs[k].start)
                && free_map(cs)[cs[k].start] == cs[k].size && !used_map(cs).contains_key(
                cs[k].start + OVERHEAD,
            ),
        forall|k: int|
            0 <= k < cs.len() && (#[trigger] cs[k]).used ==> used_map(cs).contains_key(
                cs[k].start + OVERHEAD,
            ) && used_map(cs)[cs[k].start + OVERHEAD] == cs[k].size && !free_map(cs).contains_key(
                cs[k].start,
            ),
    decreases cs.len(),
{
    if cs.len() > 0 {
        let d = cs.drop_last();
        assert(ascending(d)) by {
            assert forall|j: int, l: int| #![trigger d[j], d[l]] 0 <= j < l < d.len() implies d[j].start
                < d[l].start by {
                let _ = cs[j];
                let _ = cs[l];
            }
        }
        lemma_maps_hold_spans(d);
        let n = cs.len() - 1;
        let _ = cs[n];
        let _ = cs[0];
        assert forall|k: int| 0 <= k < d.len() implies cs[0].start <= #[trigger] d[k].start
            < cs[n].start by {
            let _ = cs[k];
        }
        lemma_map_keys_within(d, cs[0].start, cs[n].start);
        assert forall|k: int| 0 <= k < cs.len() && !(#[trigger] cs[k]).used implies free_map(
            cs,
        ).contains_key(cs[k].start) && free_map(cs)[cs[k].start] == cs[k].size
            && !used_map(cs).contains_key(cs[k].start + OVERHEAD) by {
            if k < n {
                let _ = d[k];
                assert(cs[k].start < cs[n].start);
                assert(free_map(d).contains_key(cs[k].start));
            } else {
                assert(!used_map(d).contains_key(cs[n].start + OVERHEAD));
            }
        }
        assert forall|k: int| 0 <= k < cs.len() && (#[trigger] cs[k]).used implies used_map(
            cs,
        ).contains_key(cs[k].start + OVERHEAD) && used_map(cs)[cs[k].start + OVERHEAD] == cs[k].size
            && !free_map(cs).contains_key(cs[k].start) by {
            if k < n {
                let _ = d[k];
                assert(cs[k].start < cs[n].start);
                assert(used_map(d).contains_key(cs[k].start + OVERHEAD));
            } else {
                assert(!free_map(d).contains_key(cs[n].start));
            }
        }
    }
}

/// Every key of the maps comes from a span.
#[verifier::spinoff_prover]
pub proof fn lemma_maps_from_spans(cs: Seq<Span>)
    ensures
        forall|a: int| #[trigger]
            free_map(cs).contains_key(a) ==> exists|k: int|
                0 <= k < cs.len() && (#[trigger] cs[k]).start == a && !cs[k].used,
        forall|a: int| #[trigger]
            used_map(cs).contains_key(a) ==> exists|k: int|
                0 <= k < cs.len() && (#[trigger] cs[k]).start + OVERHEAD == a && cs[k].used,
    decreases cs.len(),
{
    if cs.len() > 0 {
        let d = cs.drop_last();
        lemma_maps_from_spans(d);
        let n = cs.len() - 1;
        assert forall|a: int| #[trigger] free_map(cs).contains_key(a) implies exists|k: int|
            0 <= k < cs.len() && (#[trigger] cs[k]).start == a && !cs[k].used by {
            if a == cs[n].start && !cs[n].used {
            } else {
                assert(free_map(d).contains_key(a));
                let k = choose|k: int| 0 <= k < d.len() && (#[trigger] d[k]).start == a && !d[k].used;
                assert(cs[k] == d[k]);
            }
        }
        assert forall|a: int| #[trigger] used_map(cs).contains_key(a) implies exists|k: int|
            0 <= k < cs.len() && (#[trigger] cs[k]).start + OVERHEAD == a && cs[k].used by {
            if a == cs[n].start + OVERHEAD && cs[n].used {
            } else {
                assert(used_map(d).contains_key(a));
                let k = choose|k: int|
                    0 <= k < d.len() && (#[trigger] d[k]).start + OVERHEAD == a && d[k].used;
                assert(cs[k] == d[k]);
            }
        }
    } else {
        assert(used_map(cs) =~= Map::<int, int>::empty());
        assert(free_map(cs) =~= Map::<int, int>::empty());
    }
}


/// The size word of the chunk starting at byte `a`.
pub open spec fn csize_at(mem: Seq<usize>, a: int) -> int {
    mem[a / 8 + 1] as int
}

/// The size word in front of the chunk starting at byte `a`: the previous chunk's footer.
pub open spec fn psize_at(mem: Seq<usize>, a: int) -> int {
    mem[a / 8] as int
}

/// The size words in memory agree with the spans: every chunk carries its tag in
/// its header and in its footer (the next header's first word); the first chunk's
/// footer word and the end sentinel's size word read as in use with size zero.
pub open spec fn tags_ok(cs: Seq<Span>, mem: Seq<usize>) -> bool {
    &&& mem.len() * 8 == top(cs) + OVERHEAD
    &&& psize_at(mem, cs[0].start) == 1
    &&& csize_at(mem, top(cs)) == 1
    &&& forall|k: int|
        0 <= k < cs.len() ==> {
            &&& csize_at(mem, (#[trigger] cs[k]).start) == tag(cs[k].size, cs[k].used)
            &&& psize_at(mem, span_end(cs[k])) == tag(cs[k].size, cs[k].used)
        }
}

/// A run of spans that lies one after the other from `lo` to `hi`.
pub open spec fn tiles_between(mid: Seq<Span>, lo: int, hi: int) -> bool {
    &&& mid.len() >= 1
    &&& mid[0].start == lo
    &&& span_end(mid.last()) == hi
    &&& forall|j: int|
        0 <= j < mid.len() ==> {
            &&& #[trigger] mid[j].size >= SIZE_ALIGN
            &&& mid[j].size % (SIZE_ALIGN as int) == 0
            &&& mid[j].start % (SIZE_ALIGN as int) == OVERHEAD
        }
    &&& forall|j: int, l: int|
        #![trigger mid[j], mid[l]]
        0 <= j && l == j + 1 && l < mid.len() ==> mid[l].start == span_end(mid[j])
}

/// Replacing a run of chunks by another run over the same bytes, with the size
/// words of the new run written and no other word outside the run touched, keeps
/// the layout sound.
#[verifier::spinoff_prover]
pub proof fn lemma_replace_layout(
    cs: Seq<Span>,
    mem: Seq<usize>,
    k: int,
    d: int,
    mid: Seq<Span>,
    mem2: Seq<usize>,
)
    requires
        tiled(cs),
        tags_ok(cs, mem),
        coalesced(cs),
        0 <= k,
        1 <= d,
        k + d <= cs.len(),
        tiles_between(mid, cs[k].start, span_end(cs[k + d - 1])),
        mem2.len() == mem.len(),
        forall|w: int|
            0 <= w < mem.len() && !(cs[k].start / 8 < w <= span_end(cs[k + d - 1]) / 8) ==> #[trigger] mem2[w]
                == mem[w],
        forall|j: int|
            0 <= j < mid.len() ==> csize_at(mem2, (#[trigger] mid[j]).start) == tag(
                mid[j].size,
                mid[j].used,
            ) && psize_at(mem2, span_end(mid[j])) == tag(mid[j].size, mid[j].used),
        coalesced(mid),
        k > 0 ==> cs[k - 1].used || mid[0].used,
        k + d < cs.len() ==> mid.last().used || cs[k + d].used,
    ensures
        tiled(replaced(cs, k, d, mid)),
        tags_ok(replaced(cs, k, d, mid), mem2),
        coalesced(replaced(cs, k, d, mid)),
        top(replaced(cs, k, d, mid)) == top(cs),
{
    let ns = replaced(cs, k, d, mid);
    let m = mid.len();
    let lo = cs[k].start;
    let hi = span_end(cs[k + d - 1]);
    assert(ns.len() == cs.len() - d + m);
    assert forall|j: int| 0 <= j < ns.len() implies #[trigger] ns[j] == (if j < k {
        cs[j]
    } else if j < k + m {
        mid[j - k]
    } else {
        cs[j - m + d]
    }) by {}
    lemma_tiled_below_top(cs, k + d - 1);
    if k + d < cs.len() {
        let _ = cs[k + d];
        let _ = cs[k + d - 1];
    } else {
        assert(top(cs) == hi);
    }
    assert(top(ns) == top(cs)) by {
        if k + d < cs.len() {
            assert(ns.last() == cs.last());
        } else {
            assert(ns.last() == mid.last());
        }
    }
    // chunks before the run end at or before `lo`; chunks after start at or after `hi`
    assert forall|j: int| 0 <= j < k implies span_end(#[trigger] cs[j]) <= lo by {
        lemma_tiled_ordered(cs, j, k);
    }
    assert forall|j: int| k + d <= j < cs.len() implies hi <= (#[trigger] cs[j]).start by {
        lemma_tiled_ordered(cs, k + d - 1, j);
    }
    assert(tiled(ns)) by {
        assert forall|j: int, l: int|
            #![trigger ns[j], ns[l]]
            0 <= j && l == j + 1 && l < ns.len() implies ns[l].start == span_end(ns[j]) by {
            if l < k {
                let _ = cs[j];
                let _ = cs[l];
            } else if l == k {
                let _ = cs[j];
                let _ = cs[k];
            } else if l < k + m {
                let _ = mid[j - k];
                let _ = mid[l - k];
            } else if l == k + m {
                let _ = mid[m - 1];
                let _ = cs[k + d];
            } else {
                let _ = cs[j - m + d];
                let _ = cs[l - m + d];
            }
        }
        assert forall|j: int| 0 <= j < ns.len() implies {
            &&& #[trigger] ns[j].size >= SIZE_ALIGN
            &&& ns[j].size % (SIZE_ALIGN as int) == 0
            &&& ns[j].start % (SIZE_ALIGN as int) == OVERHEAD
        } by {
            if j < k {
                let _ = cs[j];
            } else if j < k + m {
                let _ = mid[j - k];
            } else {
                let _ = cs[j - m + d];
            }
        }
        if k == 0 {
            let _ = mid[0];
        } else {
            let _ = cs[0];
        }
    }
    assert(coalesced(ns)) by {
        assert forall|j: int, l: int|
            #![trigger ns[j], ns[l]]
            0 <= j && l == j + 1 && l < ns.len() implies ns[j].used || ns[l].used by {
            if l < k {
                let _ = cs[j];
                let _ = cs[l];
            } else if l == k {
            } else if l < k + m {
                let _ = mid[j - k];
                let _ = mid[l - k];
            } else if l == k + m {
            } else {
                let _ = cs[j - m + d];
                let _ = cs[l - m + d];
            }
        }
    }
    assert(tags_ok(ns, mem2)) by {
        assert forall|j: int| 0 <= j < ns.len() implies {
            &&& csize_at(mem2, (#[trigger] ns[j]).start) == tag(ns[j].size, ns[j].used)
            &&& psize_at(mem2, span_end(ns[j])) == tag(ns[j].size, ns[j].used)
        } by {
            if j < k {
                let c = cs[j];
                lemma_tiled_below_top(cs, j);
                assert(c.start + SIZE_ALIGN <= lo);
                assert(mem2[c.start / 8 + 1] == mem[c.start / 8 + 1]);
                assert(mem2[span_end(c) / 8] == mem[span_end(c) / 8]);
            } else if j < k + m {
                let _ = mid[j - k];
            } else {
                let c = cs[j - m + d];
                lemma_tiled_below_top(cs, j - m + d);
                assert(mem2[c.start / 8 + 1] == mem[c.start / 8 + 1]);
                assert(mem2[span_end(c) / 8] == mem[span_end(c) / 8]);
            }
        }
        let _ = cs[0];
        assert(mem2[cs[0].start / 8] == mem[cs[0].start / 8]);
        assert(mem2[top(cs) / 8 + 1] == mem[top(cs) / 8 + 1]);
        if k == 0 {
            let _ = mid[0];
        }
    }
}

} // verus!
