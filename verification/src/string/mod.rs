//! Byte-string routines over C strings held in slices: a C string is a slice
//! with a zero byte in it, and its contents are the bytes before the first one.
//! Positions that C returns as pointers into a string are returned as indices.

use vstd::prelude::*;

pub mod mem;
pub mod strchr;
pub mod strcmp;
pub mod strcpy;
pub mod strlen;
pub mod strspn;

verus! {

/// Every byte of a word set to one.
pub const ONES: u64 = 0x0101010101010101u64;

/// The top bit of every byte of a word.
pub const HIGHS: u64 = 0x8080808080808080u64;

/// Byte `k` (counting from the least significant) of `x`.
pub open spec fn byte_of(x: u64, k: int) -> u64 {
    (x >> ((8 * k) as u64)) & 0xff
}

/// Whether some byte of the word `x` is zero.
pub open spec fn word_has_zero_byte(x: u64) -> bool {
    ||| x & 0xff == 0
    ||| (x >> 8u64) & 0xff == 0
    ||| (x >> 16u64) & 0xff == 0
    ||| (x >> 24u64) & 0xff == 0
    ||| (x >> 32u64) & 0xff == 0
    ||| (x >> 40u64) & 0xff == 0
    ||| (x >> 48u64) & 0xff == 0
    ||| (x >> 56u64) & 0xff == 0
}

/// The classic word-at-a-time test: true exactly when some byte of `x` is zero.
pub fn has_zero(x: u64) -> (r: bool)
    ensures
        r == word_has_zero_byte(x),
{
    assert(((x.wrapping_sub(ONES) & !x & HIGHS) != 0) == word_has_zero_byte(x)) by (bit_vector);
    (x.wrapping_sub(ONES) & !x & HIGHS) != 0
}

/// The first position at or after `i` that holds a zero byte, or the length of `s`.
pub open spec fn nul_from(s: Seq<u8>, i: int) -> int
    decreases s.len() - i,
{
    if i >= s.len() {
        s.len() as int
    } else if s[i] == 0 {
        i
    } else {
        nul_from(s, i + 1)
    }
}

/// The length of the C string in `s`: the position of its first zero byte.
pub open spec fn c_len(s: Seq<u8>) -> int {
    nul_from(s, 0)
}

/// Whether `s` holds a C string: some byte of it is zero.
pub open spec fn is_c_string(s: Seq<u8>) -> bool {
    exists|i: int| 0 <= i < s.len() && s[i] == 0
}

/// `nul_from` is the first zero byte at or after `i`.
pub proof fn lemma_nul_from(s: Seq<u8>, i: int)
    requires
        0 <= i <= s.len(),
    ensures
        i <= nul_from(s, i) <= s.len(),
        nul_from(s, i) < s.len() ==> s[nul_from(s, i)] == 0,
        forall|j: int| i <= j < nul_from(s, i) ==> s[j] != 0,
        (exists|j: int| i <= j < s.len() && s[j] == 0) ==> nul_from(s, i) < s.len(),
    decreases s.len() - i,
{
    if i < s.len() && s[i] != 0 {
        lemma_nul_from(s, i + 1);
        if exists|j: int| i <= j < s.len() && s[j] == 0 {
            let j = choose|j: int| i <= j < s.len() && s[j] == 0;
            assert(i + 1 <= j);
        }
    }
}

/// The C string's length is the position of its first zero byte.
pub proof fn lemma_c_len(s: Seq<u8>)
    requires
        is_c_string(s),
    ensures
        0 <= c_len(s) < s.len(),
        s[c_len(s)] == 0,
        forall|j: int| 0 <= j < c_len(s) ==> s[j] != 0,
{
    lemma_nul_from(s, 0);
}

/// A position that holds a zero byte and none before it is the C string's length.
pub proof fn lemma_c_len_unique(s: Seq<u8>, r: int)
    requires
        0 <= r < s.len(),
        s[r] == 0,
        forall|j: int| 0 <= j < r ==> s[j] != 0,
    ensures
        c_len(s) == r,
{
    lemma_nul_from(s, 0);
}

/// Loads the eight bytes of `s` from position `i` as a little-endian word.
pub fn load_word(s: &[u8], i: usize) -> (w: u64)
    requires
        i + 8 <= s@.len(),
    ensures
        byte_of(w, 0) == s@[i as int] as u64,
        byte_of(w, 1) == s@[i + 1] as u64,
        byte_of(w, 2) == s@[i + 2] as u64,
        byte_of(w, 3) == s@[i + 3] as u64,
        byte_of(w, 4) == s@[i + 4] as u64,
        byte_of(w, 5) == s@[i + 5] as u64,
        byte_of(w, 6) == s@[i + 6] as u64,
        byte_of(w, 7) == s@[i + 7] as u64,
{
    let b0 = s[i] as u64;
    let b1 = s[i + 1] as u64;
    let b2 = s[i + 2] as u64;
    let b3 = s[i + 3] as u64;
    let b4 = s[i + 4] as u64;
    let b5 = s[i + 5] as u64;
    let b6 = s[i + 6] as u64;
    let b7 = s[i + 7] as u64;
    let w = b0 | (b1 << 8u64) | (b2 << 16u64) | (b3 << 24u64) | (b4 << 32u64) | (b5 << 40u64) | (b6
        << 48u64) | (b7 << 56u64);
    assert(byte_of(w, 0) == b0 && byte_of(w, 1) == b1 && byte_of(w, 2) == b2 && byte_of(w, 3) == b3
        && byte_of(w, 4) == b4 && byte_of(w, 5) == b5 && byte_of(w, 6) == b6 && byte_of(w, 7) == b7)
        by (bit_vector)
        requires
            b0 < 256,
            b1 < 256,
            b2 < 256,
            b3 < 256,
            b4 < 256,
            b5 < 256,
            b6 < 256,
            b7 < 256,
            w == b0 | (b1 << 8u64) | (b2 << 16u64) | (b3 << 24u64) | (b4 << 32u64) | (b5 << 40u64) | (
            b6 << 48u64) | (b7 << 56u64),
    ;
    w
}

/// A word loaded from `s` at `i` has a zero byte exactly when one of those bytes is zero.
pub proof fn lemma_word_zero(s: Seq<u8>, i: int, w: u64)
    requires
        0 <= i,
        i + 8 <= s.len(),
        forall|k: int| 0 <= k < 8 ==> #[trigger] byte_of(w, k) == s[i + k] as u64,
    ensures
        word_has_zero_byte(w) <==> exists|j: int| i <= j < i + 8 && s[j] == 0,
{
    assert(byte_of(w, 0) == s[i + 0] as u64);
    assert(byte_of(w, 1) == s[i + 1] as u64);
    assert(byte_of(w, 2) == s[i + 2] as u64);
    assert(byte_of(w, 3) == s[i + 3] as u64);
    assert(byte_of(w, 4) == s[i + 4] as u64);
    assert(byte_of(w, 5) == s[i + 5] as u64);
    assert(byte_of(w, 6) == s[i + 6] as u64);
    assert(byte_of(w, 7) == s[i + 7] as u64);
    assert(w & 0xff == byte_of(w, 0)) by (bit_vector);
    if exists|j: int| i <= j < i + 8 && s[j] == 0 {
        let j = choose|j: int| i <= j < i + 8 && s[j] == 0;
        assert(byte_of(w, j - i) == 0);
    }
}

} // verus!
