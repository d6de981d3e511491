//! Finding a byte in a C string or in a block of memory.

use vstd::prelude::*;
use super::{
    byte_of, c_len, has_zero, is_c_string, lemma_c_len, lemma_word_zero, load_word,
    word_has_zero_byte, ONES,
};
use super::strlen::strlen;

verus! {

/// Whether `r` is the first position of byte `c` in the C string `s`, its
/// terminating zero included, or `None` when `c` does not occur there.
pub open spec fn first_at(s: Seq<u8>, c: u8, r: Option<usize>) -> bool {
    match r {
        Some(i) => i <= c_len(s) && s[i as int] == c && forall|j: int| 0 <= j < i ==> s[j] != c,
        None => forall|j: int| 0 <= j <= c_len(s) ==> s[j] != c,
    }
}

/// Whether `r` is the last position of byte `c` in the C string `s`, its
/// terminating zero included, or `None` when `c` does not occur there.
pub open spec fn last_at(s: Seq<u8>, c: u8, r: Option<usize>) -> bool {
    match r {
        Some(i) => i <= c_len(s) && s[i as int] == c && forall|j: int| i < j <= c_len(s) ==> s[j] != c,
        None => forall|j: int| 0 <= j <= c_len(s) ==> s[j] != c,
    }
}

/// Byte `k` of `w ^ (ONES * c)` is byte `k` of `w` with the bits of `c` flipped.
proof fn lemma_xor_bytes(w: u64, c: u64, k: u64)
    requires
        c < 256,
        k == ONES * c,
    ensures
        word_has_zero_byte(w ^ k) <==> (byte_of(w, 0) == c || byte_of(w, 1) == c || byte_of(
            w,
            2,
        ) == c || byte_of(w, 3) == c || byte_of(w, 4) == c || byte_of(w, 5) == c || byte_of(w, 6)
            == c || byte_of(w, 7) == c),
{
    assert(word_has_zero_byte(w ^ k) <==> (byte_of(w, 0) == c || byte_of(
        w,
        1,
    ) == c || byte_of(w, 2) == c || byte_of(w, 3) == c || byte_of(w, 4) == c || byte_of(w, 5) == c
        || byte_of(w, 6) == c || byte_of(w, 7) == c)) by (bit_vector)
        requires
            c < 256,
            k == 0x0101010101010101u64 * c,
    ;
}

/// The position in the C string `s` of the first byte equal to `c` (as a byte),
/// or of its terminating zero byte when there is none.
pub fn strchrnul(s: &[u8], c: i32) -> (r: usize)
    requires
        is_c_string(s@),
    ensures
        r <= c_len(s@),
        s@[r as int] == 0 || s@[r as int] == c as u8,
        forall|j: int| 0 <= j < r ==> s@[j] != 0 && s@[j] != c as u8,
{
    proof {
        lemma_c_len(s@);
    }
    let cb = c as u8;
    if cb == 0 {
        return strlen(s);
    }
    let ghost n = c_len(s@);
    let mut t: usize = 0;
    let k = ONES * (cb as u64);
    while s.len() - t >= 8
        invariant
            0 <= t <= n,
            n == c_len(s@),
            n < s@.len(),
            s@[n] == 0,
            forall|j: int| 0 <= j < n ==> s@[j] != 0,
            forall|j: int| 0 <= j < t ==> s@[j] != cb,
            cb == c as u8,
            k == ONES * (cb as u64),
            cb != 0,
        decreases n - t,
    {
        let w = load_word(s, t);
        proof {
            assert forall|i: int| 0 <= i < 8 implies #[trigger] byte_of(w, i) == s@[t + i] as u64 by {}
            lemma_word_zero(s@, t as int, w);
            lemma_xor_bytes(w, cb as u64, k);
        }
        if has_zero(w) || has_zero(w ^ k) {
            break;
        }
        proof {
            assert forall|j: int| t <= j < t + 8 implies s@[j] != cb by {
                assert(byte_of(w, j - t) == s@[j] as u64);
            }
        }
        t = t + 8;
    }
    while s[t] != 0 && s[t] != cb
        invariant
            0 <= t <= n,
            n == c_len(s@),
            n < s@.len(),
            s@[n] == 0,
            forall|j: int| 0 <= j < n ==> s@[j] != 0,
            forall|j: int| 0 <= j < t ==> s@[j] != cb,
            cb == c as u8,
        decreases n - t,
    {
        t = t + 1;
    }
    t
}

/// The position in the C string `s` of the first byte equal to `c` (as a byte);
/// when `c` is zero, that of the terminating zero byte; `None` when there is none.
pub fn strchr(s: &[u8], c: i32) -> (r: Option<usize>)
    requires
        is_c_string(s@),
    ensures
        first_at(s@, c as u8, r),
{
    proof {
        lemma_c_len(s@);
    }
    let r = strchrnul(s, c);
    if s[r] == c as u8 {
        Some(r)
    } else {
        None
    }
}

/// The same as `strchr`.
pub fn index(s: &[u8], c: i32) -> (r: Option<usize>)
    requires
        is_c_string(s@),
    ensures
        first_at(s@, c as u8, r),
{
    strchr(s, c)
}

/// The position of the last byte equal to `c` (as a byte) among the first `n`
/// bytes of `m`, or `None` when there is none.
pub fn memrchr(m: &[u8], c: i32, n: usize) -> (r: Option<usize>)
    requires
        n <= m@.len(),
    ensures
        match r {
            Some(i) => i < n && m@[i as int] == c as u8 && forall|j: int| i < j < n ==> m@[j] != c as u8,
            None => forall|j: int| 0 <= j < n ==> m@[j] != c as u8,
        },
{
    let mut i = n;
    let cb = c as u8;
    while i > 0
        invariant
            i <= n <= m@.len(),
            forall|j: int| i <= j < n ==> m@[j] != cb,
            cb == c as u8,
        decreases i,
    {
        i = i - 1;
        if m[i] == cb {
            return Some(i);
        }
    }
    None
}

/// The position in the C string `s` of the last byte equal to `c` (as a byte),
/// the terminating zero byte included, or `None` when there is none.
pub fn strrchr(s: &[u8], c: i32) -> (r: Option<usize>)
    requires
        is_c_string(s@),
    ensures
        last_at(s@, c as u8, r),
{
    proof {
        lemma_c_len(s@);
    }
    let l = strlen(s);
    let len = s.len();
    assert(l < len);
    memrchr(s, c, l + 1)
}

/// The same as `strrchr`.
pub fn rindex(s: &[u8], c: i32) -> (r: Option<usize>)
    requires
        is_c_string(s@),
    ensures
        last_at(s@, c as u8, r),
{
    strrchr(s, c)
}

/// The first and the last occurrence of a byte agree on whether it occurs, and
/// the first comes no later than the last.
pub proof fn lemma_first_before_last(s: Seq<u8>, c: u8, first: Option<usize>, last: Option<usize>)
    requires
        is_c_string(s),
        first_at(s, c, first),
        last_at(s, c, last),
    ensures
        (first is None) <==> (last is None),
        first is Some && last is Some ==> first->0 <= last->0,
{
    lemma_c_len(s);
    if let Some(i) = first {
        if let Some(k) = last {
            if k < i {
                assert(s[k as int] != c);
            }
        } else {
            assert(s[i as int] != c);
        }
    } else if let Some(k) = last {
        assert(s[k as int] != c);
    }
}

/// Where `strchrnul` stops decides `strchr`: at the byte itself, or at the zero
/// byte when the byte does not occur (unless the byte sought is zero).
pub proof fn lemma_strchr_from_strchrnul(s: Seq<u8>, c: u8, k: int, r: Option<usize>)
    requires
        is_c_string(s),
        0 <= k <= c_len(s),
        s[k] == 0 || s[k] == c,
        forall|j: int| 0 <= j < k ==> s[j] != 0 && s[j] != c,
        first_at(s, c, r),
    ensures
        r == if s[k] == c {
            Some(k as usize)
        } else {
            None::<usize>
        },
{
    lemma_c_len(s);
    if s[k] == c {
        if let Some(i) = r {
            if i < k {
                assert(s[i as int] != c);
            }
            if i > k {
                assert(s[k] != c);
            }
        } else {
            assert(s[k] != c);
        }
    } else {
        assert(k == c_len(s));
        if let Some(i) = r {
            assert(s[i as int] != c);
        }
    }
}

} // verus!
