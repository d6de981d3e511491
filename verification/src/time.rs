//! Clocks and the time structures the kernel fills in.

use vstd::prelude::*;
use crate::syscall::{
    error_number, is_error, raw_error, syscall_int, Outcome, EINVAL, ENOSYS, ESRCH,
};

verus! {

pub const CLOCK_REALTIME: i32 = 0;
pub const CLOCK_MONOTONIC: i32 = 1;
pub const CLOCK_PROCESS_CPUTIME_ID: i32 = 2;
pub const CLOCK_THREAD_CPUTIME_ID: i32 = 3;
pub const CLOCK_MONOTONIC_RAW: i32 = 4;
pub const CLOCK_REALTIME_COARSE: i32 = 5;
pub const CLOCK_MONOTONIC_COARSE: i32 = 6;
pub const CLOCK_BOOTTIME: i32 = 7;
pub const CLOCK_REALTIME_ALARM: i32 = 8;
pub const CLOCK_BOOTTIME_ALARM: i32 = 9;
pub const CLOCK_SGI_CYCLE: i32 = 10;
pub const CLOCK_TAI: i32 = 11;

/// The timer that counts real time and raises `SIGALRM`.
pub const ITIMER_REAL: i32 = 0;

/// A broken-down calendar time; `__tm_zone` is the address of the zone's name.
#[derive(Clone, Copy)]
pub struct tm {
    pub tm_sec: i32,
    pub tm_min: i32,
    pub tm_hour: i32,
    pub tm_mday: i32,
    pub tm_mon: i32,
    pub tm_year: i32,
    pub tm_wday: i32,
    pub tm_yday: i32,
    pub tm_isdst: i32,
    pub __tm_gmtoff: i64,
    pub __tm_zone: u64,
}

/// Seconds and nanoseconds.
#[derive(Clone, Copy)]
pub struct timespec {
    pub tv_sec: i64,
    pub tv_nsec: i64,
}

/// An interval timer's period and first expiry, in `timespec`s.
#[derive(Clone, Copy)]
pub struct itimerspec {
    pub interval: timespec,
    pub value: timespec,
}

/// Seconds and microseconds.
#[derive(Clone, Copy)]
pub struct timeval {
    pub tv_sec: i64,
    pub tv_usec: i64,
}

/// An interval timer's period and time to the next expiry, in `timeval`s.
#[derive(Clone, Copy)]
pub struct itimerval {
    pub it_interval: timeval,
    pub it_value: timeval,
}

/// How a timer's expiry is signalled (no fields are used here).
#[derive(Clone, Copy)]
pub struct sigevent {}

/// What `clock_gettime` does once the kernel has answered.
pub enum ClockStep {
    /// Ask the time of day instead and scale its microseconds to nanoseconds.
    TimeOfDay,
    /// Return `outcome`.
    Done { outcome: Outcome<i32> },
}

/// Reads the kernel's raw answer to a `clock_gettime` request for `clock`. A
/// missing system call (`-ENOSYS`) falls back to the time of day for the real-time
/// clock and is an invalid argument for the others; any other answer is read as
/// an `int` result.
pub fn clock_gettime(clock: i32, raw: u64) -> (r: ClockStep)
    ensures
        raw == raw_error(ENOSYS as int) && clock == CLOCK_REALTIME ==> (r is TimeOfDay),
        raw == raw_error(ENOSYS as int) && clock != CLOCK_REALTIME ==> (r is Done) && r->outcome.ret
            == -1 && r->outcome.errno == Some(EINVAL),
        raw != raw_error(ENOSYS as int) && is_error(raw) ==> (r is Done) && r->outcome.ret == -1
            && r->outcome.errno == Some(error_number(raw) as i32),
        !is_error(raw) ==> (r is Done) && r->outcome.ret == raw as i32 && r->outcome.errno is None,
{
    let mut r = raw;
    if r == 0u64.wrapping_sub(ENOSYS as u64) {
        if clock == CLOCK_REALTIME {
            return ClockStep::TimeOfDay;
        }
        r = 0u64.wrapping_sub(EINVAL as u64);
    }
    ClockStep::Done { outcome: syscall_int(r) }
}

/// Scales the microseconds that the time of day reports into nanoseconds.
pub fn fix_timeofday(spec: &mut timespec)
    requires
        i64::MIN <= old(spec).tv_nsec * 1000 <= i64::MAX,
    ensures
        final(spec).tv_sec == old(spec).tv_sec,
        final(spec).tv_nsec == old(spec).tv_nsec * 1000,
{
    spec.tv_nsec = spec.tv_nsec * 1000;
}

/// Division that rounds toward zero, as the machine divides signed integers.
pub open spec fn trunc_div(a: int, b: int) -> int {
    if a >= 0 {
        a / b
    } else {
        -((-a) / b)
    }
}

/// Whether the processor time in `spec`, in microseconds, is too large for the
/// signed 64-bit count that `clock` returns.
pub open spec fn clock_overflows(spec: timespec) -> bool {
    spec.tv_sec > i64::MAX / 1_000_000 || trunc_div(spec.tv_nsec as int, 1000) > i64::MAX
        - 1_000_000 * spec.tv_sec
}

/// The processor time used, in microseconds, from what `clock_gettime` returned
/// (`status`) and filled in (`spec`) for the process's CPU-time clock:
/// `tv_sec * 1000000 + tv_nsec / 1000`, or -1 (`u64::MAX`) when the clock could
/// not be read or that count does not fit.
pub fn clock(status: i32, spec: &timespec) -> (r: u64)
    ensures
        status != 0 ==> r == u64::MAX,
        status == 0 && clock_overflows(*spec) ==> r == u64::MAX,
        status == 0 && !clock_overflows(*spec) ==> r == (spec.tv_sec * 1000000 + trunc_div(
            spec.tv_nsec as int,
            1000,
        )) as u64,
{
    if status != 0 {
        return u64::MAX;
    }
    let sec = spec.tv_sec as i128;
    let micros = (spec.tv_nsec as i128) / 1000;
    if sec > (i64::MAX / 1_000_000) as i128 || micros > (i64::MAX as i128) - 1_000_000 * sec {
        return u64::MAX;
    }
    (sec * 1_000_000 + micros) as u64
}

/// The CPU-time clock of process `pid`: `((-pid - 1) * 8) + 2`.
pub open spec fn cpu_clock(pid: int) -> int {
    (-pid - 1) * 8 + 2
}

/// The clock id that names the CPU-time clock of process `pid`, wrapped to 32
/// bits as unsigned arithmetic on the machine wraps it.
pub fn cpu_clock_id(pid: i32) -> (id: i32)
    ensures
        id == cpu_clock(pid as int) as i32,
{
    let p = pid as i64;
    ((-p - 1) * 8 + 2) as i32
}

/// What `clock_getcpuclockid` returns and the clock id it stores, if any; it
/// leaves `errno` alone.
pub struct CpuClock {
    pub ret: i32,
    pub clock: Option<i32>,
}

/// Reads the kernel's raw answer to a resolution query on the CPU-time clock of
/// `pid`, taken as a C `int`: on 0 the clock id is stored and 0 returned; an
/// invalid clock means no such process (`ESRCH`); any other answer is returned
/// negated, which for an error is its error number.
pub fn clock_getcpuclockid(pid: i32, raw: u64) -> (r: CpuClock)
    ensures
        raw as i32 == 0 ==> r.ret == 0 && r.clock == Some(cpu_clock(pid as int) as i32),
        raw as i32 == -EINVAL ==> r.ret == ESRCH && r.clock is None,
        raw as i32 != 0 && raw as i32 != -EINVAL ==> r.ret == (-(raw as i32)) as i32 && r.clock
            is None,
{
    let id = cpu_clock_id(pid);
    let mut ret = raw as i32;
    if ret == -EINVAL {
        ret = -ESRCH;
    }
    if ret != 0 {
        assert(0i32.wrapping_sub(ret) == (-ret) as i32) by (bit_vector);
        CpuClock { ret: 0i32.wrapping_sub(ret), clock: None }
    } else {
        CpuClock { ret: 0, clock: Some(id) }
    }
}

/// `clock` counts whole microseconds: for a time read as `tv_sec` seconds and
/// `tv_nsec` nanoseconds, neither negative, it fails (gives -1) exactly when the
/// count `tv_sec * 1000000 + tv_nsec / 1000` does not fit in a signed 64-bit
/// integer, and otherwise gives that count.
pub proof fn lemma_clock_counts_microseconds(spec: timespec)
    requires
        spec.tv_sec >= 0,
        spec.tv_nsec >= 0,
    ensures
        clock_overflows(spec) <==> spec.tv_sec * 1_000_000 + spec.tv_nsec / 1000 > i64::MAX,
        !clock_overflows(spec) ==> spec.tv_sec * 1000000 + trunc_div(spec.tv_nsec as int, 1000)
            == spec.tv_sec * 1_000_000 + spec.tv_nsec / 1000,
        !clock_overflows(spec) ==> 0 <= spec.tv_sec * 1_000_000 + spec.tv_nsec / 1000 <= u64::MAX,
{
    assert(i64::MAX / 1_000_000 == 9223372036854);
    assert(trunc_div(spec.tv_nsec as int, 1000) == spec.tv_nsec / 1000);
}

/// The CPU-time clock of a process names the process: its id, wrapped to 32 bits,
/// gives the pid back, for every pid below 2^28, so no two such processes share a
/// clock id, and every such id is negative.
pub proof fn lemma_cpu_clock_names_the_process(pid: i32, other: i32)
    requires
        0 <= pid < 0x1000_0000,
        0 <= other < 0x1000_0000,
    ensures
        -((cpu_clock(pid as int) as i32 as int - 2) / 8) - 1 == pid,
        (cpu_clock(pid as int) as i32) < 0,
        pid != other ==> (cpu_clock(pid as int) as i32) != (cpu_clock(other as int) as i32),
{
    let x = cpu_clock(pid as int);
    let y = cpu_clock(other as int);
    assert(i32::MIN <= x <= i32::MAX);
    assert(i32::MIN <= y <= i32::MAX);
    assert(x as i32 == x);
    assert(y as i32 == y);
    assert(x - 2 == -8 * (pid + 1));
    assert((x - 2) / 8 == -(pid + 1));
}

} // verus!
