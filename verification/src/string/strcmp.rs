//! Comparing C strings.

use vstd::prelude::*;
use super::{c_len, is_c_string, lemma_c_len};

verus! {

/// The first position at or after `i` where `l` ends or differs from `r`.
pub open spec fn diff_from(l: Seq<u8>, r: Seq<u8>, i: int) -> int
    decreases l.len() - i,
{
    if i >= l.len() || i >= r.len() || l[i] == 0 || l[i] != r[i] {
        i
    } else {
        diff_from(l, r, i + 1)
    }
}

/// The difference of two bytes taken as unsigned characters.
pub open spec fn byte_diff(a: u8, b: u8) -> int {
    a as int - b as int
}

/// The difference of two bytes taken as unsigned characters.
pub fn char_diff(a: u8, b: u8) -> (r: i32)
    ensures
        r == byte_diff(a, b),
{
    a as i32 - b as i32
}

proof fn lemma_diff_from(l: Seq<u8>, r: Seq<u8>, i: int)
    requires
        0 <= i <= c_len(l),
        is_c_string(l),
        is_c_string(r),
        forall|j: int| 0 <= j < i ==> l[j] == r[j],
    ensures
        i <= diff_from(l, r, i) <= c_len(l),
        diff_from(l, r, i) < r.len(),
        forall|j: int| i <= j < diff_from(l, r, i) ==> l[j] == r[j] && l[j] != 0,
        l[diff_from(l, r, i)] == 0 || l[diff_from(l, r, i)] != r[diff_from(l, r, i)],
    decreases l.len() - i,
{
    lemma_c_len(l);
    lemma_c_len(r);
    if i < r.len() && l[i] != 0 && l[i] == r[i] {
        assert(i < c_len(l));
        lemma_diff_from(l, r, i + 1);
    } else if i >= r.len() {
        assert(i <= c_len(r)) by {
            if i > c_len(r) {
                assert(l[c_len(r)] == r[c_len(r)]);
                assert(c_len(r) < c_len(l));
            }
        }
    }
}

/// Compares the C strings `l` and `r` at the first position where `l` ends or they
/// differ: the difference of the two bytes there, taken as unsigned characters.
pub fn strcmp(l: &[u8], r: &[u8]) -> (res: i32)
    requires
        is_c_string(l@),
        is_c_string(r@),
    ensures
        diff_from(l@, r@, 0) <= c_len(l@),
        diff_from(l@, r@, 0) < r@.len(),
        res == byte_diff(l@[diff_from(l@, r@, 0)], r@[diff_from(l@, r@, 0)]),
{
    proof {
        lemma_c_len(l@);
        lemma_diff_from(l@, r@, 0);
    }
    let ghost m = diff_from(l@, r@, 0);
    let mut i: usize = 0;
    loop
        invariant
            0 <= i <= m,
            m == diff_from(l@, r@, 0),
            m <= c_len(l@),
            c_len(l@) < l@.len(),
            m < r@.len(),
            forall|j: int| 0 <= j < m ==> l@[j] == r@[j] && l@[j] != 0,
            l@[m] == 0 || l@[m] != r@[m],
        decreases m - i,
    {
        let lc = l[i];
        let rc = r[i];
        if lc == 0 || lc != rc {
            return char_diff(lc, rc);
        }
        i = i + 1;
    }
}

/// A C string compares equal to itself: the first difference is at its end, and
/// the bytes there agree.
pub proof fn lemma_compare_reflexive(s: Seq<u8>)
    requires
        is_c_string(s),
    ensures
        diff_from(s, s, 0) == c_len(s),
        byte_diff(s[c_len(s)], s[c_len(s)]) == 0,
{
    lemma_c_len(s);
    lemma_diff_from(s, s, 0);
    let m = diff_from(s, s, 0);
    if m < c_len(s) {
        assert(s[m] != 0);
    }
}

/// A C string whose bytes up to and including its terminator were copied from
/// `source` compares equal to `source`.
pub proof fn lemma_copy_compares_equal(dest: Seq<u8>, source: Seq<u8>)
    requires
        is_c_string(source),
        c_len(source) < dest.len(),
        forall|j: int| 0 <= j <= c_len(source) ==> dest[j] == source[j],
    ensures
        is_c_string(dest),
        c_len(dest) == c_len(source),
        diff_from(dest, source, 0) == c_len(source),
        byte_diff(dest[c_len(dest)], source[c_len(dest)]) == 0,
{
    lemma_c_len(source);
    super::lemma_c_len_unique(dest, c_len(source));
    lemma_c_len(dest);
    lemma_diff_from(dest, source, 0);
    let m = diff_from(dest, source, 0);
    if m < c_len(dest) {
        assert(dest[m] == source[m] && dest[m] != 0);
    }
    lemma_compare_reflexive(source);
}

/// Two C strings compare equal exactly when they hold the same characters.
pub proof fn lemma_compare_zero_iff_equal(l: Seq<u8>, r: Seq<u8>)
    requires
        is_c_string(l),
        is_c_string(r),
    ensures
        byte_diff(l[diff_from(l, r, 0)], r[diff_from(l, r, 0)]) == 0 <==> (c_len(l) == c_len(r) && l.take(
            c_len(l),
        ) == r.take(c_len(r))),
{
    lemma_c_len(l);
    lemma_c_len(r);
    lemma_diff_from(l, r, 0);
    let m = diff_from(l, r, 0);
    if byte_diff(l[m], r[m]) == 0 {
        assert(l[m] == 0);
        super::lemma_c_len_unique(l, m);
        super::lemma_c_len_unique(r, m);
        assert(l.take(m) =~= r.take(m));
    }
    if c_len(l) == c_len(r) && l.take(c_len(l)) == r.take(c_len(r)) {
        if m < c_len(l) {
            assert(l.take(c_len(l))[m] == r.take(c_len(r))[m]);
        }
    }
}

/// Swapping the strings negates the comparison.
pub proof fn lemma_compare_antisymmetric(l: Seq<u8>, r: Seq<u8>)
    requires
        is_c_string(l),
        is_c_string(r),
    ensures
        diff_from(l, r, 0) == diff_from(r, l, 0),
        byte_diff(r[diff_from(l, r, 0)], l[diff_from(l, r, 0)]) == -byte_diff(
            l[diff_from(l, r, 0)],
            r[diff_from(l, r, 0)],
        ),
{
    lemma_c_len(l);
    lemma_c_len(r);
    lemma_diff_from(l, r, 0);
    lemma_diff_from(r, l, 0);
    let m = diff_from(l, r, 0);
    let k = diff_from(r, l, 0);
    if m < k {
        assert(r[m] == l[m] && r[m] != 0);
    }
    if k < m {
        assert(l[k] == r[k] && l[k] != 0);
    }
}

/// What `strcmp` answers, at the first position `k` where `l` ends or differs
/// from `r`: the byte of `l` there less the byte of `r`, both read as unsigned
/// characters. So it is negative exactly when `l` sorts before `r` byte by byte,
/// each byte an unsigned value, and positive exactly when `r` sorts before `l`.
pub proof fn lemma_compare_is_unsigned_difference(l: Seq<u8>, r: Seq<u8>, k: int)
    requires
        is_c_string(l),
        is_c_string(r),
        0 <= k < l.len(),
        k < r.len(),
        forall|j: int| 0 <= j < k ==> l[j] == r[j] && l[j] != 0,
        l[k] == 0 || l[k] != r[k],
    ensures
        diff_from(l, r, 0) == k,
        byte_diff(l[diff_from(l, r, 0)], r[diff_from(l, r, 0)]) == (l[k] as int) - (r[k] as int),
        byte_diff(l[diff_from(l, r, 0)], r[diff_from(l, r, 0)]) < 0 <==> l[k] < r[k],
        byte_diff(l[diff_from(l, r, 0)], r[diff_from(l, r, 0)]) > 0 <==> l[k] > r[k],
{
    lemma_c_len(l);
    lemma_c_len(r);
    lemma_diff_from(l, r, 0);
    let m = diff_from(l, r, 0);
    if m < k {
        assert(l[m] == r[m] && l[m] != 0);
    }
    if k < m {
        assert(l[k] == r[k] && l[k] != 0);
    }
}

} // verus!
