//! Copying C strings.

use vstd::prelude::*;
use super::{c_len, is_c_string, lemma_c_len};
use super::strlen::strlen;

verus! {

/// Copies the C string `source`, its terminating zero byte included, to the front
/// of `dest`; the rest of `dest` is left as it was. Returns the position in `dest`
/// of the copied terminator.
pub fn stpcpy(dest: &mut [u8], source: &[u8]) -> (r: usize)
    requires
        is_c_string(source@),
        c_len(source@) < old(dest)@.len(),
    ensures
        r == c_len(source@),
        final(dest)@.len() == old(dest)@.len(),
        forall|j: int| 0 <= j <= c_len(source@) ==> #[trigger] final(dest)@[j] == source@[j],
        forall|j: int| c_len(source@) < j < old(dest)@.len() ==> #[trigger] final(dest)@[j] == old(dest)@[j],
{
    proof {
        lemma_c_len(source@);
    }
    let ghost n = c_len(source@);
    let mut i: usize = 0;
    loop
        invariant_except_break
            0 <= i <= n,
            forall|j: int| 0 <= j < i ==> #[trigger] dest@[j] == source@[j],
            forall|j: int| i <= j < dest@.len() ==> #[trigger] dest@[j] == old(dest)@[j],
        invariant
            n == c_len(source@),
            n < source@.len(),
            n < dest@.len(),
            source@[n] == 0,
            forall|j: int| 0 <= j < n ==> source@[j] != 0,
            dest@.len() == old(dest)@.len(),
        ensures
            i == n,
            forall|j: int| 0 <= j <= n ==> #[trigger] dest@[j] == source@[j],
            forall|j: int| n < j < dest@.len() ==> #[trigger] dest@[j] == old(dest)@[j],
        decreases n - i,
    {
        dest[i] = source[i];
        if dest[i] == 0 {
            break;
        }
        i = i + 1;
    }
    i
}

/// Copies the C string `source`, its terminating zero byte included, to the front
/// of `dest`. Returns the position of `dest` itself.
pub fn strcpy(dest: &mut [u8], source: &[u8]) -> (r: usize)
    requires
        is_c_string(source@),
        c_len(source@) < old(dest)@.len(),
    ensures
        r == 0,
        final(dest)@.len() == old(dest)@.len(),
        forall|j: int| 0 <= j <= c_len(source@) ==> #[trigger] final(dest)@[j] == source@[j],
        forall|j: int| c_len(source@) < j < old(dest)@.len() ==> #[trigger] final(dest)@[j] == old(dest)@[j],
{
    let _ = stpcpy(dest, source);
    0
}

/// A new copy of the C string `s`, its terminating zero byte included.
pub fn strdup(s: &[u8]) -> (d: Vec<u8>)
    requires
        is_c_string(s@),
    ensures
        d@ == s@.subrange(0, c_len(s@) + 1),
{
    let l = strlen(s);
    let mut d: Vec<u8> = Vec::new();
    let mut i: usize = 0;
    while i <= l
        invariant
            l < s@.len(),
            l == c_len(s@),
            i <= l + 1,
            d@ == s@.subrange(0, i as int),
        decreases l + 1 - i,
    {
        d.push(s[i]);
        proof {
            assert(d@ =~= s@.subrange(0, i + 1));
        }
        i = i + 1;
    }
    d
}

/// A duplicate holds the same C string: the same length, and it ends right after
/// its terminator.
pub proof fn lemma_dup_same_string(s: Seq<u8>, d: Seq<u8>)
    requires
        is_c_string(s),
        d == s.subrange(0, c_len(s) + 1),
    ensures
        is_c_string(d),
        c_len(d) == c_len(s),
        d.len() == c_len(s) + 1,
{
    lemma_c_len(s);
    super::lemma_c_len_unique(d, c_len(s));
}

} // verus!
