//! The decisions around futex waits and wakes, and around the lock that keeps
//! memory mappings from changing under a waiting thread.

use vstd::prelude::*;
use crate::syscall::{raw_error, ENOSYS};

verus! {

pub const FUTEX_WAIT: i32 = 0;
pub const FUTEX_WAKE: i32 = 1;
pub const FUTEX_FD: i32 = 2;
pub const FUTEX_REQUEUE: i32 = 3;
pub const FUTEX_CMP_REQUEUE: i32 = 4;
pub const FUTEX_WAKE_OP: i32 = 5;
pub const FUTEX_LOCK_PI: i32 = 6;
pub const FUTEX_UNLOCK_PI: i32 = 7;
pub const FUTEX_TRYLOCK_PI: i32 = 8;
pub const FUTEX_WAIT_BITSET: i32 = 9;
pub const FUTEX_PRIVATE: i32 = 128;
pub const FUTEX_CLOCK_REALTIME: i32 = 256;

/// How many times a waiter checks the address before it sleeps.
pub const SPINS: u32 = 100;

/// The private flag for a futex operation: `FUTEX_PRIVATE` when asked for, else 0.
pub fn futex_private(private: i32) -> (r: i32)
    ensures
        r == if private != 0 {
            FUTEX_PRIVATE
        } else {
            0
        },
{
    if private != 0 {
        FUTEX_PRIVATE
    } else {
        private
    }
}

/// How many waiters a wake asks for: all of them for a negative count.
pub fn wake_count(count: i32) -> (r: i32)
    ensures
        r == if count < 0 {
            i32::MAX
        } else {
            count
        },
{
    if count < 0 {
        i32::MAX
    } else {
        count
    }
}

/// The futex operation of a wake: `FUTEX_WAKE` with the private flag.
pub fn wake_op(private: i32) -> (r: i32)
    ensures
        r == if private != 0 {
            129
        } else {
            FUTEX_WAKE
        },
{
    let p = futex_private(private);
    assert(1i32 | 128i32 == 129i32 && 1i32 | 0i32 == 1i32) by (bit_vector);
    FUTEX_WAKE | p
}

/// The futex operation of a wait: `FUTEX_WAIT` with the private flag.
pub fn wait_op(private: i32) -> (r: i32)
    ensures
        r == if private != 0 {
            128
        } else {
            FUTEX_WAIT
        },
{
    let p = futex_private(private);
    assert(0i32 | 128i32 == 128i32 && 0i32 | 0i32 == 0i32) by (bit_vector);
    FUTEX_WAIT | p
}

/// Whether a wake is asked again without the private flag, from the kernel's raw
/// answer: when the futex call is not implemented (`-ENOSYS`).
pub fn wake_again(raw: u64) -> (b: bool)
    ensures
        b == (raw == raw_error(ENOSYS as int)),
{
    raw == 0u64.wrapping_sub(ENOSYS as u64)
}

/// Whether a wait is asked again without the private flag, from the kernel's raw
/// answer: when the futex call is not implemented (`-ENOSYS`).
pub fn wait_again(raw: u64) -> (b: bool)
    ensures
        b == (raw == raw_error(ENOSYS as int)),
{
    raw == 0u64.wrapping_sub(ENOSYS as u64)
}

/// The next step of a thread that waits for the mapping lock to be let go, with
/// `holders` the holder count it read: while anyone holds the lock, it waits for
/// the count to change from that value (`Some`), and reads it again; at 0 it is
/// done (`None`).
pub fn vm_wait_step(holders: i32) -> (r: Option<i32>)
    ensures
        holders == 0 ==> r is None,
        holders != 0 ==> r == Some(holders),
{
    if holders == 0 {
        None
    } else {
        Some(holders)
    }
}

/// Whether the last holder of the mapping lock wakes the waiters when it lets go:
/// the count it held was 1 and someone is waiting.
pub fn vm_unlock_wakes(previous: i32, waiters: i32) -> (b: bool)
    ensures
        b == (previous == 1 && waiters != 0),
{
    previous == 1 && waiters != 0
}

/// What releasing a lock does, from the lock word and the waiter count: a held
/// lock is cleared, and waiters, if any, are woken.
pub fn unlock_plan(held: i32, waiters: i32) -> (r: (bool, bool))
    ensures
        r.0 == (held != 0),
        r.1 == (held != 0 && waiters != 0),
{
    if held != 0 {
        (true, waiters != 0)
    } else {
        (false, false)
    }
}

/// Where a thread waiting for a word to change stands.
#[derive(Clone, Copy)]
pub enum WaitPhase {
    /// Checking the word without sleeping; `rounds` checks are done.
    Spinning { rounds: u32 },
    /// Counted among the waiters, sleeping on the word while it keeps its value.
    Sleeping,
}

/// What a waiting thread does next.
#[derive(Clone, Copy)]
pub enum WaitAction {
    /// Pause briefly and check again.
    Spin,
    /// The word changed while spinning: return.
    Return,
    /// Count itself among the waiters, then check again.
    Register,
    /// Sleep on the word with the futex operation `op`, then check again.
    Sleep { op: i32 },
    /// The word changed while sleeping: leave the waiters and return.
    Unregister,
}

/// The next step of a thread that waits for the word, read as `current`, to
/// differ from `val`, where `others_waiting` tells whether other waiters are
/// counted: while none are, it checks up to `SPINS` times, spinning in between,
/// and returns at once if the word changed; then it registers as a waiter and
/// sleeps on the word until it changes, and unregisters.
pub fn wait_next(
    phase: WaitPhase,
    current: i32,
    val: i32,
    private: i32,
    others_waiting: bool,
) -> (r: (WaitPhase, WaitAction))
    ensures
        (phase is Spinning) && phase->rounds < SPINS && !others_waiting && current == val ==> (r.0 is Spinning)
            && r.0->rounds == phase->rounds + 1 && (r.1 is Spin),
        (phase is Spinning) && phase->rounds < SPINS && !others_waiting && current != val ==> (r.1 is Return),
        (phase is Spinning) && (phase->rounds >= SPINS || others_waiting) ==> (r.0 is Sleeping) && (r.1 is Register),
        (phase is Sleeping) && current == val ==> (r.0 is Sleeping) && r.1 == (WaitAction::Sleep {
            op: if private != 0 {
                128
            } else {
                0
            },
        }),
        (phase is Sleeping) && current != val ==> (r.1 is Unregister),
{
    match phase {
        WaitPhase::Spinning { rounds } => {
            if rounds >= SPINS || others_waiting {
                (WaitPhase::Sleeping, WaitAction::Register)
            } else if current == val {
                (WaitPhase::Spinning { rounds: rounds + 1 }, WaitAction::Spin)
            } else {
                (phase, WaitAction::Return)
            }
        },
        WaitPhase::Sleeping => {
            if current == val {
                (WaitPhase::Sleeping, WaitAction::Sleep { op: wait_op(private) })
            } else {
                (phase, WaitAction::Unregister)
            }
        },
    }
}

} // verus!
