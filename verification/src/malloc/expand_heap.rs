//! Guarding heap growth against the stacks.

use vstd::prelude::*;

verus! {

/// The size of the region below a stack top that counts as stack: 8 MiB.
pub const STACK_LEN: u64 = 8 << 20;

/// The lowest address of the stack that ends at `top`, clamped at 0.
pub open spec fn stack_low(top: u64) -> int {
    if top > STACK_LEN {
        top - STACK_LEN
    } else {
        0
    }
}

/// Whether the interval from `old` to `new` reaches into the stack below `top`.
pub open spec fn crosses_stack(old: u64, new: u64, top: u64) -> bool {
    new > stack_low(top) && old < top
}

/// 1 when growing the break from `old` to `new` would reach into the main
/// thread's stack (below the auxiliary vector at `auxv`) or the current one (below
/// `here`), else 0: a defence against `brk` implementations that cross a stack.
pub fn traverses_stack_p(old: u64, new: u64, auxv: u64, here: u64) -> (r: i32)
    ensures
        r == 1 <==> crosses_stack(old, new, auxv) || crosses_stack(old, new, here),
        r == 0 || r == 1,
{
    let len: u64 = 8 << 20;
    let b = auxv;
    let a = if b > len {
        b - len
    } else {
        0
    };
    if new > a && old < b {
        return 1;
    }
    let b = here;
    let a = if b > len {
        b - len
    } else {
        0
    };
    if new > a && old < b {
        return 1;
    }
    0
}

} // verus!
