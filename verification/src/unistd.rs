//! File descriptors, the alarm clock and the terminal's name.

use vstd::prelude::*;
use crate::string::strcpy::strcpy;
use crate::string::{c_len, is_c_string};
use crate::syscall::{
    error_number, is_error, lemma_widened_int, raw_error, syscall_int, Outcome,
    EBUSY, EINTR,
};
use crate::time::{itimerval, timeval};

verus! {

/// The low 32 bits of a raw answer, read as a C `int`.
pub open spec fn low32(raw: u64) -> i32 {
    raw as i32
}

/// Reads the kernel's raw answer to `close`, taken as a C `int`: an interrupted
/// close counts as done (the descriptor is released all the same), another error
/// returns -1 with the kernel's error number, and anything else is returned.
pub fn close(raw: u64) -> (r: Outcome<i32>)
    ensures
        low32(raw) == -EINTR ==> r.ret == 0 && r.errno is None,
        low32(raw) != -EINTR && -4096 < low32(raw) && low32(raw) < 0 ==> r.ret == -1 && r.errno
            == Some((-low32(raw)) as i32),
        low32(raw) != -EINTR && !(-4096 < low32(raw) && low32(raw) < 0) ==> r.ret == low32(raw)
            && r.errno is None,
{
    let mut r = raw as i32;
    if r == -EINTR {
        r = 0;
    }
    proof {
        lemma_widened_int(r);
    }
    syscall_int(r as u64)
}

/// Reads the kernel's raw answer to `dup`.
pub fn dup(raw: u64) -> (r: Outcome<i32>)
    ensures
        is_error(raw) ==> r.ret == -1 && r.errno == Some(error_number(raw) as i32),
        !is_error(raw) ==> r.ret == low32(raw) && r.errno is None,
{
    syscall_int(raw)
}

/// What `dup2` does once the kernel has answered.
pub enum Dup2Step {
    /// The descriptor was busy: ask again.
    Retry,
    /// Return `outcome`.
    Done { outcome: Outcome<i32> },
}

/// Reads the kernel's raw answer to `dup2`: a busy descriptor (`-EBUSY`) is
/// asked again; any other answer is read as an `int` result.
pub fn dup2(raw: u64) -> (r: Dup2Step)
    ensures
        (r is Retry) <==> raw == raw_error(EBUSY as int),
        (r is Done) && is_error(raw) ==> r->outcome.ret == -1 && r->outcome.errno == Some(
            error_number(raw) as i32,
        ),
        (r is Done) && !is_error(raw) ==> r->outcome.ret == low32(raw) && r->outcome.errno is None,
{
    if raw == 0u64.wrapping_sub(EBUSY as u64) {
        Dup2Step::Retry
    } else {
        Dup2Step::Done { outcome: syscall_int(raw) }
    }
}

/// The timer that `alarm` sets: `seconds` from now, not repeating.
pub fn alarm_timer(seconds: u32) -> (it: itimerval)
    ensures
        it.it_interval.tv_sec == 0,
        it.it_interval.tv_usec == 0,
        it.it_value.tv_sec == seconds,
        it.it_value.tv_usec == 0,
{
    itimerval {
        it_interval: timeval { tv_sec: 0, tv_usec: 0 },
        it_value: timeval { tv_sec: seconds as i64, tv_usec: 0 },
    }
}

/// What `alarm` returns from the timer the kernel gave back: the seconds that were
/// left, rounded up when a fraction of a second was left too, cut to 32 bits.
pub fn alarm(previous: &itimerval) -> (r: u32)
    ensures
        r == (previous.it_value.tv_sec + if previous.it_value.tv_usec != 0 {
            1int
        } else {
            0int
        }) as u32,
{
    let sec = previous.it_value.tv_sec;
    let up: u32 = if previous.it_value.tv_usec != 0 {
        1
    } else {
        0
    };
    assert((sec as u32).wrapping_add(up) == (sec + up) as u32) by (bit_vector);
    (sec as u32).wrapping_add(up)
}

/// The name of the controlling terminal, as a C string.
pub open spec fn tty_path() -> Seq<u8> {
    seq![47u8, 100u8, 101u8, 118u8, 47u8, 116u8, 116u8, 121u8, 0u8]
}

/// Writes the name of the controlling terminal into `s`.
pub fn ctermid(s: &mut [u8])
    requires
        old(s)@.len() >= 9,
    ensures
        final(s)@.len() == old(s)@.len(),
        final(s)@.subrange(0, 9) == tty_path(),
        forall|j: int| 9 <= j < old(s)@.len() ==> #[trigger] final(s)@[j] == old(s)@[j],
{
    let tty: [u8; 9] = [47, 100, 101, 118, 47, 116, 116, 121, 0];
    proof {
        assert(tty@ =~= tty_path());
        assert(is_c_string(tty@) && c_len(tty@) == 8) by {
            crate::string::lemma_c_len_unique(tty@, 8);
        }
    }
    strcpy(s, &tty);
    assert(s@.subrange(0, 9) =~= tty_path());
}

/// The working directory is not reported: there is never a result.
pub fn getcwd(buf: &mut [u8]) -> (r: Option<usize>)
    ensures
        r is None,
        final(buf)@ == old(buf)@,
{
    None
}

} // verus!
