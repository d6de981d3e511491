//! What a raw system call returns, read the C way: a value, or an error number
//! for `errno` and the value -1.

use vstd::prelude::*;

verus! {

/// Operation not permitted.
pub const EPERM: i32 = 1;

/// No such process.
pub const ESRCH: i32 = 3;

/// Interrupted system call.
pub const EINTR: i32 = 4;

/// Out of memory.
pub const ENOMEM: i32 = 12;

/// Device or resource busy.
pub const EBUSY: i32 = 16;

/// Invalid argument.
pub const EINVAL: i32 = 22;

/// Function not implemented.
pub const ENOSYS: i32 = 38;

/// The largest raw return that is not an error; the 4095 values above it stand
/// for the negated error numbers.
pub const MAX_ERR: u64 = 0xffff_ffff_ffff_f000;

/// A result for the caller together with the error number to store in `errno`,
/// if one was set.
pub struct Outcome<T> {
    pub ret: T,
    pub errno: Option<i32>,
}

/// Whether a raw return stands for an error.
pub open spec fn is_error(code: u64) -> bool {
    code > MAX_ERR
}

/// The error number that an erroneous raw return stands for.
pub open spec fn error_number(code: u64) -> int {
    0x1_0000_0000_0000_0000 - code
}

/// The raw return that stands for error number `e`: `-e` in 64 bits.
pub open spec fn raw_error(e: int) -> u64 {
    (0x1_0000_0000_0000_0000 - e) as u64
}

/// Reads a raw return: an error becomes the value `u64::MAX` (-1) with its error
/// number, anything else is passed through with no error.
pub fn syscall_return(code: u64) -> (r: Outcome<u64>)
    ensures
        is_error(code) ==> r.ret == u64::MAX && r.errno == Some(error_number(code) as i32),
        !is_error(code) ==> r.ret == code && r.errno is None,
        is_error(code) ==> 1 <= error_number(code) < 4096,
{
    if code > MAX_ERR {
        let e = code as i32;
        assert(code > 0xffff_ffff_ffff_f000u64 ==> (code as i32) == -((0x1_0000_0000_0000_0000
            - code) as i32) && 1 <= 0x1_0000_0000_0000_0000 - code < 4096) by (bit_vector);
        Outcome { ret: u64::MAX, errno: Some(-e) }
    } else {
        Outcome { ret: code, errno: None }
    }
}

/// How an `int` result reads once widened back to a raw return: the values from
/// -4095 to -1 stand for errors, and everything else is passed through.
pub proof fn lemma_widened_int(r: i32)
    ensures
        is_error(r as u64) <==> -4096 < r < 0,
        is_error(r as u64) ==> error_number(r as u64) == -r,
        !is_error(r as u64) ==> (r as u64) as i32 == r,
        u64::MAX as i32 == -1,
{
    assert(((r as u64) > 0xffff_ffff_ffff_f000u64) <==> (-4096 < r && r < 0)) by (bit_vector);
    assert((r as u64) > 0xffff_ffff_ffff_f000u64 ==> 0x1_0000_0000_0000_0000 - (r as u64) == -r)
        by (bit_vector);
    assert((r as u64) as i32 == r) by (bit_vector);
    assert(u64::MAX as i32 == -1) by (bit_vector);
}

/// Reads a raw return as an `int` result: -1 with the error number on error, else
/// the value truncated to 32 bits.
pub fn syscall_int(code: u64) -> (r: Outcome<i32>)
    ensures
        is_error(code) ==> r.ret == -1 && r.errno == Some(error_number(code) as i32),
        !is_error(code) ==> r.ret == code as i32 && r.errno is None,
{
    let s = syscall_return(code);
    assert(u64::MAX as i32 == -1) by (bit_vector);
    Outcome { ret: s.ret as i32, errno: s.errno }
}

} // verus!
