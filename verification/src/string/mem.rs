//! Byte-range operations: comparing, moving and clearing.

use vstd::prelude::*;

verus! {

/// The difference of two bytes, each taken as an unsigned value.
pub open spec fn unsigned_diff(a: u8, b: u8) -> int {
    a as int - b as int
}

/// How `a` and `b` compare over positions `i` up to `n`: 0 where they agree
/// there, else the difference of the first pair of bytes that differ.
pub open spec fn order_from(a: Seq<u8>, b: Seq<u8>, i: int, n: int) -> int
    decreases n - i,
{
    if i >= n {
        0
    } else if a[i] != b[i] {
        unsigned_diff(a[i], b[i])
    } else {
        order_from(a, b, i + 1, n)
    }
}

/// How the first `n` bytes of `a` and `b` compare.
pub open spec fn byte_order(a: Seq<u8>, b: Seq<u8>, n: usize) -> int {
    order_from(a, b, 0, n as int)
}

/// The difference of two bytes, each widened as an unsigned value.
fn widened_diff(a: u8, b: u8) -> (r: i32)
    ensures
        r == unsigned_diff(a, b),
{
    a as i32 - b as i32
}

/// Scans the first `n` bytes of `s1` and `s2` for the first pair that differs.
fn first_difference(s1: &[u8], s2: &[u8], n: usize) -> (r: i32)
    requires
        n <= s1@.len(),
        n <= s2@.len(),
    ensures
        r == byte_order(s1@, s2@, n),
{
    let mut i: usize = 0;
    while i < n
        invariant
            i <= n,
            n <= s1@.len(),
            n <= s2@.len(),
            byte_order(s1@, s2@, n) == order_from(s1@, s2@, i as int, n as int),
        decreases n - i,
    {
        let a = s1[i];
        let b = s2[i];
        if a != b {
            return widened_diff(a, b);
        }
        i = i + 1;
    }
    0
}

/// Compares the first `n` bytes of `s1` and `s2`: 0 where they agree, else the
/// difference of the first pair of bytes that differ, taken as unsigned values.
pub fn bcmp(s1: &[u8], s2: &[u8], n: usize) -> (r: i32)
    requires
        n <= s1@.len(),
        n <= s2@.len(),
    ensures
        r == byte_order(s1@, s2@, n),
{
    first_difference(s1, s2, n)
}

/// Moves `n` bytes of `buf` from offset `src` to offset `dst`; the two ranges may
/// overlap, and the bytes that land are those that stood at `src` before the move.
pub fn bcopy(buf: &mut [u8], src: usize, dst: usize, n: usize)
    requires
        src + n <= old(buf)@.len(),
        dst + n <= old(buf)@.len(),
    ensures
        final(buf)@.len() == old(buf)@.len(),
        forall|j: int| dst <= j < dst + n ==> #[trigger] final(buf)@[j] == old(buf)@[j - dst + src],
        forall|j: int|
            0 <= j < old(buf)@.len() && !(dst <= j < dst + n) ==> final(buf)@[j] == old(buf)@[j],
{
    let ghost orig = buf@;
    let len = buf.len();
    if dst <= src {
        let mut i: usize = 0;
        while i < n
            invariant
                i <= n,
                dst <= src,
                src + n <= orig.len(),
                dst + n <= orig.len(),
                buf@.len() == orig.len(),
                len == orig.len(),
                forall|j: int| dst <= j < dst + i ==> #[trigger] buf@[j] == orig[j - dst + src],
                forall|j: int| 0 <= j < orig.len() && !(dst <= j < dst + i) ==> buf@[j] == orig[j],
            decreases n - i,
        {
            let b = buf[src + i];
            buf[dst + i] = b;
            i = i + 1;
        }
    } else {
        let mut i: usize = n;
        while i > 0
            invariant
                i <= n,
                src < dst,
                src + n <= orig.len(),
                dst + n <= orig.len(),
                buf@.len() == orig.len(),
                len == orig.len(),
                forall|j: int| dst + i <= j < dst + n ==> #[trigger] buf@[j] == orig[j - dst + src],
                forall|j: int|
                    0 <= j < orig.len() && !(dst + i <= j < dst + n) ==> buf@[j] == orig[j],
            decreases i,
        {
            i = i - 1;
            let b = buf[src + i];
            buf[dst + i] = b;
        }
    }
}

/// Sets the first `n` bytes of `s` to zero.
pub fn bzero(s: &mut [u8], n: usize)
    requires
        n <= old(s)@.len(),
    ensures
        final(s)@.len() == old(s)@.len(),
        forall|j: int| 0 <= j < n ==> final(s)@[j] == 0,
        forall|j: int| n <= j < old(s)@.len() ==> final(s)@[j] == old(s)@[j],
{
    let ghost orig = s@;
    let mut i: usize = 0;
    while i < n
        invariant
            i <= n,
            n <= orig.len(),
            s@.len() == orig.len(),
            forall|j: int| 0 <= j < i ==> s@[j] == 0,
            forall|j: int| i <= j < orig.len() ==> s@[j] == orig[j],
        decreases n - i,
    {
        s[i] = 0;
        i = i + 1;
    }
}

/// The comparison of `n` bytes is 0 exactly when they all agree; otherwise it is
/// the difference at the first position where they differ.
pub proof fn lemma_byte_order(a: Seq<u8>, b: Seq<u8>, i: int, n: int)
    requires
        0 <= i <= n,
    ensures
        order_from(a, b, i, n) == 0 <==> forall|j: int| i <= j < n ==> a[j] == b[j],
        order_from(a, b, i, n) != 0 ==> exists|k: int|
            i <= k < n && a[k] != b[k] && (forall|j: int| i <= j < k ==> a[j] == b[j])
                && order_from(a, b, i, n) == unsigned_diff(a[k], b[k]),
    decreases n - i,
{
    if i < n {
        lemma_byte_order(a, b, i + 1, n);
        if a[i] == b[i] && order_from(a, b, i, n) != 0 {
            let k = choose|k: int|
                i + 1 <= k < n && a[k] != b[k] && (forall|j: int| i + 1 <= j < k ==> a[j] == b[j])
                    && order_from(a, b, i + 1, n) == unsigned_diff(a[k], b[k]);
            assert(forall|j: int| i <= j < k ==> a[j] == b[j]);
        }
    }
}

/// Swapping the two ranges negates the comparison.
pub proof fn lemma_byte_order_antisymmetric(a: Seq<u8>, b: Seq<u8>, i: int, n: int)
    ensures
        order_from(b, a, i, n) == -order_from(a, b, i, n),
    decreases n - i,
{
    if i < n {
        lemma_byte_order_antisymmetric(a, b, i + 1, n);
    }
}

/// What `bcmp` answers when the first `n` bytes differ, at the first position
/// `k` where they do: the byte of `a` there less the byte of `b`, both read as
/// unsigned values. So it is negative exactly when `a[k] < b[k]`.
pub proof fn lemma_compare_is_unsigned_difference(a: Seq<u8>, b: Seq<u8>, n: usize, k: int)
    requires
        n <= a.len(),
        n <= b.len(),
        0 <= k < n,
        a[k] != b[k],
        forall|j: int| 0 <= j < k ==> a[j] == b[j],
    ensures
        byte_order(a, b, n) == (a[k] as int) - (b[k] as int),
        byte_order(a, b, n) < 0 <==> a[k] < b[k],
        byte_order(a, b, n) > 0 <==> a[k] > b[k],
{
    lemma_byte_order(a, b, 0, n as int);
    let k2 = choose|k2: int|
        0 <= k2 < n && a[k2] != b[k2] && (forall|j: int| 0 <= j < k2 ==> a[j] == b[j])
            && order_from(a, b, 0, n as int) == unsigned_diff(a[k2], b[k2]);
    if k2 < k {
        assert(a[k2] == b[k2]);
    }
    if k < k2 {
        assert(a[k] == b[k]);
    }
}

} // verus!
