//! The boundary-tag allocator: size classes, request rounding and the heap.

use vstd::prelude::*;

pub mod expand_heap;
pub mod heap;
pub mod mapped;
pub mod model;
pub mod spans;

verus! {

/// Chunk sizes are multiples of this many bytes.
pub const SIZE_ALIGN: usize = 32;

/// Bytes of header in front of the memory handed to the caller.
pub const OVERHEAD: usize = 16;

/// Clears the bits below `SIZE_ALIGN`.
pub const SIZE_MASK: usize = !31usize;

/// Requests (after rounding) above this size are served by a private mapping.
pub const MMAP_THRESHOLD: usize = 229376;

/// A split that would leave at most this many bytes is not made.
pub const DONTCARE: usize = 16;

/// A free chunk that grows past this size has its middle returned to the system.
pub const RECLAIM: usize = 163_840;

/// The size of a page of memory.
pub const PAGE_SIZE: usize = 4096;

/// The size class of `x` above the exact classes: `4 * floor(log2 x)` plus the two
/// bits below the leading one, shifted so that `x == 33` falls in class 32.
pub open spec fn class_down(x: nat) -> nat
    decreases x,
{
    if x < 8 {
        x + 16
    } else {
        4 + class_down(x / 2)
    }
}

/// As `class_down`, but rounded up when `x` has bits below the two that
/// `class_down` keeps.
pub open spec fn class_up(x: nat) -> nat
    decreases x,
{
    if x < 8 {
        x + 16
    } else {
        4 + class_up((x + 1) / 2)
    }
}

/// The bin that holds a free chunk of `size` bytes.
pub open spec fn bin_of(size: int) -> int {
    let x = size / (SIZE_ALIGN as int) - 1;
    if x <= 32 {
        x
    } else if x > 0x1c00 {
        63
    } else {
        class_down(x as nat) as int
    }
}

/// The first bin all of whose chunks hold at least `size` bytes.
pub open spec fn bin_up_of(size: int) -> int {
    let x = size / (SIZE_ALIGN as int) - 1;
    if x <= 32 {
        x
    } else {
        class_up(x as nat) as int
    }
}

/// The chunk size that a request for `n` bytes is rounded to.
pub open spec fn adjusted(n: int) -> int {
    if n == 0 {
        SIZE_ALIGN as int
    } else {
        ((n + OVERHEAD + SIZE_ALIGN - 1) / (SIZE_ALIGN as int)) * (SIZE_ALIGN as int)
    }
}

proof fn lemma_class_down_bound(x: nat, h: nat)
    requires
        x < 8 * vstd::arithmetic::power2::pow2(h),
    ensures
        class_down(x) < 4 * h + 24,
    decreases x,
{
    if x >= 8 {
        vstd::arithmetic::power2::lemma2_to64();
        assert(h > 0);
        vstd::arithmetic::power2::lemma_pow2_unfold(h);
        lemma_class_down_bound(x / 2, (h - 1) as nat);
    }
}

proof fn lemma_class_up_lower(x: nat)
    requires
        x >= 4,
    ensures
        class_up(x) >= 20,
        x >= 8 ==> class_up(x) >= 24,
    decreases x,
{
    if x >= 8 {
        lemma_class_up_lower((x + 1) / 2);
    }
}

/// A class strictly below `class_up(z)` holds every size below `z`.
proof fn lemma_down_below_up(y: nat, z: nat)
    requires
        4 <= y < z,
    ensures
        class_down(y) < class_up(z),
    decreases z,
{
    if y < 8 {
        lemma_class_up_lower(z);
    } else {
        lemma_down_below_up(y / 2, (z + 1) / 2);
    }
}

/// `class_down` never decreases as its argument grows.
proof fn lemma_class_down_mono(y: nat, z: nat)
    requires
        y <= z,
    ensures
        class_down(y) <= class_down(z),
    decreases z,
{
    if z >= 8 {
        if y >= 8 {
            lemma_class_down_mono(y / 2, z / 2);
        } else {
            lemma_class_down_mono(4, z / 2);
            assert(class_down(4) == 20);
        }
    }
}

/// Every bin index is below 64.
pub proof fn lemma_bin_of_range(size: int)
    requires
        size >= SIZE_ALIGN,
    ensures
        0 <= bin_of(size) < 64,
{
    let x = size / (SIZE_ALIGN as int) - 1;
    if 32 < x <= 0x1c00 {
        vstd::arithmetic::power2::lemma2_to64();
        lemma_class_down_bound(x as nat, 10);
        lemma_class_down_mono(33, x as nat);
        assert(class_down(33) == 32) by {
            reveal_with_fuel(class_down, 5);
        }
    }
}

/// A larger chunk never falls in a lower bin.
pub proof fn lemma_bin_of_monotone(a: int, b: int)
    requires
        SIZE_ALIGN <= a <= b,
    ensures
        bin_of(a) <= bin_of(b),
{
    let x = a / (SIZE_ALIGN as int) - 1;
    let y = b / (SIZE_ALIGN as int) - 1;
    assert(x <= y);
    lemma_bin_of_range(a);
    assert(class_down(33) == 32) by {
        reveal_with_fuel(class_down, 5);
    }
    if 32 < y <= 0x1c00 {
        if x > 32 {
            lemma_class_down_mono(x as nat, y as nat);
        } else {
            lemma_class_down_mono(33, y as nat);
        }
    }
}

/// A chunk in a bin at or above `bin_up_of(n)` holds at least `n` bytes.
pub proof fn lemma_bin_up_sound(size: int, n: int)
    requires
        size >= SIZE_ALIGN,
        size % (SIZE_ALIGN as int) == 0,
        n >= SIZE_ALIGN,
        n % (SIZE_ALIGN as int) == 0,
        n <= MMAP_THRESHOLD,
        bin_of(size) >= bin_up_of(n),
    ensures
        size >= n,
{
    if size < n {
        let y = size / (SIZE_ALIGN as int) - 1;
        let z = n / (SIZE_ALIGN as int) - 1;
        assert(y < z);
        if z > 32 {
            if y > 32 {
                lemma_down_below_up(y as nat, z as nat);
            } else {
                lemma_class_up_lower(z as nat);
                lemma_class_up_mono_33(z as nat);
            }
        }
    }
}

proof fn lemma_class_up_mono_33(z: nat)
    requires
        z >= 33,
    ensures
        class_up(z) >= 33,
{
    lemma_down_below_up(32, z);
    assert(class_down(32) == 32) by {
        reveal_with_fuel(class_down, 5);
    }
}

/// The bin that holds a free chunk of `x` bytes.
pub fn bin_index(x: usize) -> (r: usize)
    requires
        x >= SIZE_ALIGN,
    ensures
        r == bin_of(x as int),
        r < 64,
{
    proof {
        lemma_bin_of_range(x as int);
    }
    let x = x / SIZE_ALIGN - 1;
    if x <= 32 {
        x
    } else if x > 0x1c00 {
        63
    } else {
        let mut y = x;
        let mut b: usize = 16;
        while y >= 8
            invariant
                16 <= b <= 16 + 4 * 10,
                b % 4 == 0,
                y <= 0x1c00,
                b as nat - 16 + class_down(y as nat) == class_down(x as nat),
                b >= 16 + 4 * 10 ==> y <= 7,
                b >= 16 + 4 * 9 ==> y <= 14,
                b >= 16 + 4 * 8 ==> y <= 28,
                b >= 16 + 4 * 7 ==> y <= 56,
                b >= 16 + 4 * 6 ==> y <= 112,
                b >= 16 + 4 * 5 ==> y <= 224,
                b >= 16 + 4 * 4 ==> y <= 448,
                b >= 16 + 4 * 3 ==> y <= 896,
                b >= 16 + 4 * 2 ==> y <= 1792,
                b >= 16 + 4 * 1 ==> y <= 3584,
            decreases y,
        {
            y = y / 2;
            b = b + 4;
        }
        b + y
    }
}

/// The first bin whose chunks are all large enough for a chunk of `x` bytes.
pub fn bin_index_up(x: usize) -> (r: usize)
    requires
        x >= SIZE_ALIGN,
        x <= MMAP_THRESHOLD,
    ensures
        r == bin_up_of(x as int),
        r < 64,
{
    let x = x / SIZE_ALIGN - 1;
    if x <= 32 {
        x
    } else {
        let mut y = x;
        let mut b: usize = 16;
        while y >= 8
            invariant
                16 <= b <= 16 + 4 * 10,
                b % 4 == 0,
                1 <= y <= 0x1c00,
                b as nat - 16 + class_up(y as nat) == class_up(x as nat),
                b >= 16 + 4 * 10 ==> y <= 7,
                b >= 16 + 4 * 9 ==> y <= 14,
                b >= 16 + 4 * 8 ==> y <= 28,
                b >= 16 + 4 * 7 ==> y <= 56,
                b >= 16 + 4 * 6 ==> y <= 112,
                b >= 16 + 4 * 5 ==> y <= 224,
                b >= 16 + 4 * 4 ==> y <= 448,
                b >= 16 + 4 * 3 ==> y <= 896,
                b >= 16 + 4 * 2 ==> y <= 1792,
                b >= 16 + 4 * 1 ==> y <= 3584,
            decreases y,
        {
            y = (y + 1) / 2;
            b = b + 4;
        }
        b + y
    }
}

/// The bytes that growing the arena for a chunk of `n` bytes adds: room for the
/// chunk and a sentinel, rounded up to whole pages.
pub open spec fn grow_len(n: int) -> int {
    ((n + SIZE_ALIGN + PAGE_SIZE - 1) / (PAGE_SIZE as int)) * (PAGE_SIZE as int)
}

/// The length of the private mapping that serves a chunk of `n` bytes.
pub open spec fn map_len(n: int) -> int {
    ((n + OVERHEAD + PAGE_SIZE - 1) / (PAGE_SIZE as int)) * (PAGE_SIZE as int)
}

/// Whether a request for `n` bytes is too large to be served.
pub open spec fn too_large(n: int) -> bool {
    n != 0 && n - 1 > isize::MAX - SIZE_ALIGN - PAGE_SIZE
}

proof fn lemma_mask32(x: usize)
    ensures
        x & !31usize == x - x % 32,
{
    assert(x & !31usize == x - x % 32) by (bit_vector);
}

/// Rounds the request in `n` up to a chunk size: room for the header, a multiple
/// of `SIZE_ALIGN`, at least `SIZE_ALIGN`. Returns -1 (out of memory), leaving `n`
/// as it was, when the request is too large for any chunk.
pub fn adjust_size(n: &mut usize) -> (r: i32)
    ensures
        too_large(*old(n) as int) ==> r == -1 && *final(n) == *old(n),
        !too_large(*old(n) as int) ==> r == 0 && *final(n) as int == adjusted(*old(n) as int),
{
    if *n == 0 || *n - 1 > (isize::MAX as usize) - SIZE_ALIGN - PAGE_SIZE {
        if *n != 0 {
            -1
        } else {
            *n = SIZE_ALIGN;
            0
        }
    } else {
        proof {
            lemma_mask32((*n + OVERHEAD + SIZE_ALIGN - 1) as usize);
        }
        *n = (*n + OVERHEAD + SIZE_ALIGN - 1) & SIZE_MASK;
        0
    }
}

/// A chunk size is a multiple of `SIZE_ALIGN`, holds the request and its header,
/// and asking for its payload size gives it back.
pub proof fn lemma_adjusted(n: int)
    requires
        0 <= n,
        !too_large(n),
    ensures
        adjusted(n) % (SIZE_ALIGN as int) == 0,
        adjusted(n) >= SIZE_ALIGN,
        adjusted(n) >= n + OVERHEAD,
        adjusted(n) <= n + OVERHEAD + SIZE_ALIGN,
        adjusted(n) <= MMAP_THRESHOLD ==> !too_large(adjusted(n) - OVERHEAD),
        adjusted(adjusted(n) - OVERHEAD) == adjusted(n),
{
    if n != 0 {
        let q = (n + OVERHEAD + SIZE_ALIGN - 1) / (SIZE_ALIGN as int);
        assert(q * 32 <= n + 47 < q * 32 + 32);
        assert((q * 32) % 32 == 0) by (nonlinear_arith);
        assert((q * 32 - 16 + 47) / 32 == q) by (nonlinear_arith)
            requires
                q >= 1,
        ;
    }
}

} // verus!
