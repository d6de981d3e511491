//! The checks and result handling around mapping memory.

use vstd::prelude::*;
use crate::syscall::{error_number, is_error, raw_error, syscall_return, Outcome, EINVAL, ENOMEM, EPERM};

verus! {

pub const PAGE_SIZE: i64 = 4096;

pub const PROT_NONE: i32 = 0;
pub const PROT_READ: i32 = 1;
pub const PROT_WRITE: i32 = 2;
pub const PROT_EXEC: i32 = 4;
pub const PROT_GROWSDOWN: i32 = 0x01000000;
pub const PROT_GROWSUP: i32 = 0x02000000;

pub const MAP_SHARED: i32 = 0x01;
pub const MAP_PRIVATE: i32 = 0x02;
pub const MAP_FIXED: i32 = 0x10;

pub const MAP_TYPE: i32 = 0x0f;
pub const MAP_FILE: i32 = 0x00;
pub const MAP_ANON: i32 = 0x20;
pub const MAP_ANONYMOUS: i32 = 0x20;
pub const MAP_32BIT: i32 = 0x40;
pub const MAP_NORESERVE: i32 = 0x4000;
pub const MAP_GROWSDOWN: i32 = 0x0100;
pub const MAP_DENYWRITE: i32 = 0x0800;
pub const MAP_EXECUTABLE: i32 = 0x1000;
pub const MAP_LOCKED: i32 = 0x2000;
pub const MAP_POPULATE: i32 = 0x8000;
pub const MAP_NONBLOCK: i32 = 0x10000;
pub const MAP_STACK: i32 = 0x20000;
pub const MAP_HUGETLB: i32 = 0x40000;

pub const POSIX_MADV_NORMAL: i32 = 0;
pub const POSIX_MADV_RANDOM: i32 = 1;
pub const POSIX_MADV_SEQUENTIAL: i32 = 2;
pub const POSIX_MADV_WILLNEED: i32 = 3;
pub const POSIX_MADV_DONTNEED: i32 = 0;

pub const MS_ASYNC: i32 = 1;
pub const MS_INVALIDATE: i32 = 2;
pub const MS_SYNC: i32 = 4;

pub const MCL_CURRENT: i32 = 1;
pub const MCL_FUTURE: i32 = 2;
pub const MCL_ONFAULT: i32 = 4;

pub const MADV_NORMAL: i32 = 0;
pub const MADV_RANDOM: i32 = 1;
pub const MADV_SEQUENTIAL: i32 = 2;
pub const MADV_WILLNEED: i32 = 3;
pub const MADV_DONTNEED: i32 = 4;
pub const MADV_REMOVE: i32 = 9;
pub const MADV_DONTFORK: i32 = 10;
pub const MADV_DOFORK: i32 = 11;
pub const MADV_MERGEABLE: i32 = 12;
pub const MADV_UNMERGEABLE: i32 = 13;
pub const MADV_HUGEPAGE: i32 = 14;
pub const MADV_NOHUGEPAGE: i32 = 15;
pub const MADV_DONTDUMP: i32 = 16;
pub const MADV_DODUMP: i32 = 17;
pub const MADV_HWPOISON: i32 = 100;
pub const MADV_SOFT_OFFLINE: i32 = 101;

pub const MREMAP_MAYMOVE: i32 = 1;
pub const MREMAP_FIXED: i32 = 2;

pub const MLOCK_ONFAULT: i32 = 0x01;

/// The address that stands for a failed mapping.
pub const MAP_FAILED: u64 = 0xffff_ffff_ffff_ffff;

/// The largest length that a mapping may not reach.
pub const MAX_LEN: u64 = 0x7fff_ffff_ffff_ffff;

/// Checks a mapping request before it goes to the kernel: an offset that is not
/// a multiple of the page size is an invalid argument, and a length of
/// `isize::MAX` bytes or more is out of memory.
pub fn mmap_check(len: u64, off: i64) -> (r: Option<i32>)
    ensures
        off % PAGE_SIZE != 0 ==> r == Some(EINVAL),
        off % PAGE_SIZE == 0 && len >= MAX_LEN ==> r == Some(ENOMEM),
        off % PAGE_SIZE == 0 && len < MAX_LEN ==> r is None,
{
    assert((off & 4095i64) != 0 <==> off % 4096 != 0) by (bit_vector);
    if (off & (PAGE_SIZE - 1)) != 0 {
        return Some(EINVAL);
    }
    if len >= MAX_LEN {
        return Some(ENOMEM);
    }
    None
}

/// Whether a mapping request must first wait until no one holds the mapping lock:
/// when it replaces what is at a fixed address.
pub fn mmap_waits(flags: i32) -> (b: bool)
    ensures
        b == (flags & MAP_FIXED != 0),
{
    flags & MAP_FIXED != 0
}

/// Whether an anonymous mapping, asked for without an address and not fixed, is
/// the kind whose refusal means out of memory.
pub open spec fn anonymous_request(start: u64, flags: i32) -> bool {
    start == 0 && flags & MAP_ANON != 0 && flags & MAP_FIXED == 0
}

/// Reads the kernel's raw answer to a mapping request: the new address, or
/// `MAP_FAILED` with the kernel's error number in `errno`, except that a refusal
/// (`EPERM`) of an anonymous mapping asked for without an address and not fixed
/// means out of memory.
pub fn mmap_result(raw: u64, start: u64, flags: i32) -> (r: Outcome<u64>)
    ensures
        !is_error(raw) ==> r.ret == raw && r.errno is None,
        is_error(raw) ==> r.ret == MAP_FAILED && r.errno == Some(
            if raw == raw_error(EPERM as int) && anonymous_request(start, flags) {
                ENOMEM
            } else {
                error_number(raw) as i32
            },
        ),
{
    let mut ret = raw;
    if ret == 0u64.wrapping_sub(EPERM as u64) && start == 0 && (flags & MAP_ANON) != 0 && (flags
        & MAP_FIXED) == 0 {
        ret = 0u64.wrapping_sub(ENOMEM as u64);
    }
    syscall_return(ret)
}

/// Checks a remapping request: a new length of `isize::MAX` bytes or more is out
/// of memory; otherwise the new address to pass is the one given, or 0.
pub fn mremap_helper(new_len: u64, new_address: Option<u64>) -> (r: Result<u64, i32>)
    ensures
        new_len >= MAX_LEN ==> r == Err::<u64, i32>(ENOMEM),
        new_len < MAX_LEN ==> r == Ok::<u64, i32>(
            match new_address {
                Some(a) => a,
                None => 0,
            },
        ),
{
    if new_len >= MAX_LEN {
        return Err(ENOMEM);
    }
    Ok(new_address.unwrap_or(0))
}

} // verus!
