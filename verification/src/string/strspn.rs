//! The length of the prefix of a C string made of given characters.

use vstd::prelude::*;
use super::{c_len, is_c_string, lemma_c_len};

verus! {

pub const BYTE_MAX_VALUE: usize = 255;

pub const U32_N_BITS: usize = 8 * 4;

pub const BIT_ARRAY_LEN: usize = 1 + BYTE_MAX_VALUE / U32_N_BITS;

/// Whether bit `b` of `w` is set.
pub open spec fn bit32(w: u32, b: int) -> bool {
    (w >> (b as u32)) & 1 == 1
}

/// Whether `b` is one of the characters of the C string `chars`, its terminator
/// left out.
pub open spec fn in_set(chars: Seq<u8>, b: u8) -> bool {
    exists|q: int| 0 <= q < c_len(chars) && #[trigger] chars[q] == b
}

/// Whether `b` is one of the first `n` characters of `chars`.
spec fn seen(chars: Seq<u8>, n: int, b: int) -> bool {
    exists|q: int| 0 <= q < n && #[trigger] chars[q] == b
}

/// The bit array records exactly the bytes seen so far: byte `b` has bit `b % 32`
/// of word `b / 32`.
spec fn records(words: Seq<u32>, chars: Seq<u8>, n: int) -> bool {
    forall|b: int| 0 <= b <= BYTE_MAX_VALUE ==> (#[trigger] bit32(words[b / 32], b % 32) <==> seen(chars, n, b))
}

proof fn lemma_bit_or(w: u32, k: u32, b: u32)
    requires
        k < 32,
        b < 32,
    ensures
        ((w | (1u32 << k)) >> b) & 1 == 1 <==> ((w >> b) & 1 == 1 || b == k),
        (w & (1u32 << b)) > 0 <==> (w >> b) & 1 == 1,
        (0u32 >> b) & 1 != 1,
{
    assert((0u32 >> b) & 1 != 1) by (bit_vector);
    assert(((w | (1u32 << k)) >> b) & 1 == 1 <==> ((w >> b) & 1 == 1 || b == k)) by (bit_vector)
        requires
            k < 32,
            b < 32,
    ;
    assert((w & (1u32 << b)) > 0 <==> (w >> b) & 1 == 1) by (bit_vector)
        requires
            b < 32,
    ;
}

/// A set of bytes, one bit per byte value.
struct ByteBitArray {
    bit_array: [u32; BIT_ARRAY_LEN],
}

impl ByteBitArray {
    spec fn words(&self) -> Seq<u32> {
        self.bit_array@
    }

    /// The empty set.
    fn new() -> (a: ByteBitArray)
        ensures
            a.words().len() == BIT_ARRAY_LEN,
            forall|k: int| 0 <= k < BIT_ARRAY_LEN ==> a.words()[k] == 0,
    {
        ByteBitArray { bit_array: [0u32, 0u32, 0u32, 0u32, 0u32, 0u32, 0u32, 0u32] }
    }

    /// Sets the bit of the byte `index`.
    fn set_bit(&mut self, index: usize)
        requires
            index <= BYTE_MAX_VALUE,
            old(self).words().len() == BIT_ARRAY_LEN,
        ensures
            final(self).words() == old(self).words().update(
                index as int / 32,
                old(self).words()[index as int / 32] | (1u32 << ((index % 32) as u32)),
            ),
    {
        let value = 1u32 << ((index % U32_N_BITS) as u32);
        let word = index / U32_N_BITS;
        self.bit_array[word] = self.bit_array[word] | value;
    }

    /// Whether the bit of the byte `index` is set.
    fn get_bit(&self, index: usize) -> (b: bool)
        requires
            index <= BYTE_MAX_VALUE,
            self.words().len() == BIT_ARRAY_LEN,
        ensures
            b == bit32(self.words()[index as int / 32], index as int % 32),
    {
        let value = 1u32 << ((index % U32_N_BITS) as u32);
        let word = index / U32_N_BITS;
        proof {
            lemma_bit_or(self.words()[word as int], 0, (index % 32) as u32);
        }
        self.bit_array[word] & value > 0
    }
}

/// The length of the longest prefix of the C string `string` made only of bytes
/// that occur in the C string `chars`.
pub fn strspn(string: &[u8], chars: &[u8]) -> (r: usize)
    requires
        is_c_string(string@),
        is_c_string(chars@),
    ensures
        r <= c_len(string@),
        forall|j: int| 0 <= j < r ==> in_set(chars@, #[trigger] string@[j]),
        !in_set(chars@, string@[r as int]),
{
    proof {
        lemma_c_len(string@);
        lemma_c_len(chars@);
    }
    let ghost ns = c_len(string@);
    let ghost nc = c_len(chars@);
    if chars[0] == 0 {
        assert(nc == 0);
        return 0;
    }
    assert(nc >= 1);
    if chars[1] == 0 {
        assert(nc == 1);
        assert forall|x: u8| in_set(chars@, x) <==> x == chars@[0] by {
            if x == chars@[0] {
                assert(chars@[0] == x);
            }
        }
        let mut i: usize = 0;
        loop
            invariant
                0 <= i <= ns,
                ns == c_len(string@),
                ns < string@.len(),
                string@[ns] == 0,
                chars@.len() > 1,
                chars@[0] != 0,
                forall|x: u8| in_set(chars@, x) <==> x == chars@[0],
                forall|j: int| 0 <= j < i ==> string@[j] == chars@[0],
            decreases ns - i,
        {
            if string[i] != chars[0] {
                return i;
            }
            i = i + 1;
        }
    }
    let mut bit_array = ByteBitArray::new();
    proof {
        assert forall|b: int| 0 <= b <= BYTE_MAX_VALUE implies (#[trigger] bit32(
            bit_array.words()[b / 32],
            b % 32,
        ) <==> seen(chars@, 0, b)) by {
            lemma_bit_or(0u32, 0, (b % 32) as u32);
        }
    }
    let mut i: usize = 0;
    loop
        invariant_except_break
            0 <= i <= nc,
        invariant
            nc == c_len(chars@),
            nc < chars@.len(),
            chars@[nc] == 0,
            forall|j: int| 0 <= j < nc ==> chars@[j] != 0,
            bit_array.words().len() == BIT_ARRAY_LEN,
            records(bit_array.words(), chars@, i as int),
        ensures
            i == nc,
        decreases nc - i,
    {
        let c = chars[i];
        if c == 0 {
            break;
        }
        let ghost w = bit_array.words();
        bit_array.set_bit(c as usize);
        proof {
            let ci = c as int;
            assert forall|b: int| 0 <= b <= BYTE_MAX_VALUE implies (#[trigger] bit32(
                bit_array.words()[b / 32],
                b % 32,
            ) <==> seen(chars@, i + 1, b)) by {
                assert(bit32(w[b / 32], b % 32) <==> seen(chars@, i as int, b));
                if b / 32 == ci / 32 {
                    lemma_bit_or(w[b / 32], (ci % 32) as u32, (b % 32) as u32);
                    assert(b % 32 == ci % 32 <==> b == ci);
                } else {
                    assert(b != ci);
                }
                if seen(chars@, i + 1, b) && b != ci {
                    let q = choose|q: int| 0 <= q < i + 1 && #[trigger] chars@[q] == b;
                    assert(q < i);
                }
                if b == ci {
                    assert(chars@[i as int] == b);
                }
            }
        }
        i = i + 1;
    }
    assert forall|x: u8| in_set(chars@, x) <==> seen(chars@, nc, x as int) by {
        if seen(chars@, nc, x as int) {
            let q = choose|q: int| 0 <= q < nc && #[trigger] chars@[q] == x as int;
            assert(chars@[q] == x);
        }
    }
    let mut j: usize = 0;
    loop
        invariant
            0 <= j <= ns,
            ns == c_len(string@),
            ns < string@.len(),
            string@[ns] == 0,
            nc == c_len(chars@),
            nc < chars@.len(),
            chars@[nc] == 0,
            forall|k: int| 0 <= k < nc ==> chars@[k] != 0,
            bit_array.words().len() == BIT_ARRAY_LEN,
            records(bit_array.words(), chars@, nc),
            forall|x: u8| in_set(chars@, x) <==> seen(chars@, nc, x as int),
            forall|k: int| 0 <= k < j ==> in_set(chars@, #[trigger] string@[k]),
        ensures
            j <= ns,
            !in_set(chars@, string@[j as int]),
            forall|k: int| 0 <= k < j ==> in_set(chars@, #[trigger] string@[k]),
        decreases ns - j,
    {
        let s = string[j];
        let inside = bit_array.get_bit(s as usize);
        proof {
            assert(bit32(bit_array.words()[s as int / 32], s as int % 32) <==> seen(chars@, nc, s as int));
            if s == 0 {
                if in_set(chars@, s) {
                    let q = choose|q: int| 0 <= q < c_len(chars@) && #[trigger] chars@[q] == s;
                    assert(chars@[q] != 0);
                }
            }
            if j as int == ns {
                assert(s == 0);
            }
        }
        if s == 0 || !inside {
            break;
        }
        j = j + 1;
    }
    j
}

} // verus!
