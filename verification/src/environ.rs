//! Finding the auxiliary vector past the environment block.

use vstd::prelude::*;

verus! {

/// Where the auxiliary vector starts in a block that begins with the environment
/// pointers: one past the first null entry.
pub fn auxv_ptr(envp: &[u64]) -> (r: usize)
    requires
        exists|i: int| 0 <= i < envp@.len() && envp@[i] == 0,
    ensures
        1 <= r <= envp@.len(),
        envp@[r - 1] == 0,
        forall|j: int| 0 <= j < r - 1 ==> envp@[j] != 0,
{
    let mut i: usize = 0;
    while envp[i] != 0
        invariant
            i < envp@.len(),
            exists|k: int| i <= k < envp@.len() && envp@[k] == 0,
            forall|j: int| 0 <= j < i ==> envp@[j] != 0,
        decreases envp@.len() - i,
    {
        i = i + 1;
    }
    i + 1
}

} // verus!
