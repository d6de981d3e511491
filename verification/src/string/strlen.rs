//! The length of a C string.

use vstd::prelude::*;
use super::{byte_of, c_len, has_zero, is_c_string, lemma_c_len, lemma_word_zero, load_word};

verus! {

/// The length of the C string in `s`: the position of its first zero byte. The
/// bytes are checked eight at a time while a whole word remains, then one at a
/// time.
pub fn strlen(s: &[u8]) -> (r: usize)
    requires
        is_c_string(s@),
    ensures
        r == c_len(s@),
        r < s@.len(),
        s@[r as int] == 0,
        forall|j: int| 0 <= j < r ==> s@[j] != 0,
{
    proof {
        lemma_c_len(s@);
    }
    let ghost n = c_len(s@);
    let mut t: usize = 0;
    while s.len() - t >= 8
        invariant
            0 <= t <= n,
            n == c_len(s@),
            n < s@.len(),
            s@[n] == 0,
            forall|j: int| 0 <= j < n ==> s@[j] != 0,
        decreases n - t,
    {
        let w = load_word(s, t);
        proof {
            assert forall|k: int| 0 <= k < 8 implies #[trigger] byte_of(w, k) == s@[t + k] as u64 by {}
            lemma_word_zero(s@, t as int, w);
        }
        if has_zero(w) {
            break;
        }
        t = t + 8;
    }
    while s[t] != 0
        invariant
            0 <= t <= n,
            n == c_len(s@),
            n < s@.len(),
            s@[n] == 0,
            forall|j: int| 0 <= j < n ==> s@[j] != 0,
        decreases n - t,
    {
        t = t + 1;
    }
    t
}

} // verus!
