use rusl::atomic::a_ctz_64;
use rusl::environ::auxv_ptr;
use rusl::mmap::{mmap_check, mmap_result, mmap_waits, mremap_helper, MAP_ANON, MAP_FIXED, MAP_PRIVATE};
use rusl::syscall::{syscall_int, syscall_return, EBUSY, EINTR, EINVAL, ENOMEM, ENOSYS, EPERM, ESRCH};
use rusl::thread::{wait_next, WaitAction, WaitPhase, SPINS};
use rusl::thread::{
    futex_private, unlock_plan, vm_unlock_wakes, vm_wait_step, wait_again, wait_op, wake_again, wake_count,
    wake_op,
};
use rusl::time::{clock, clock_getcpuclockid, clock_gettime, cpu_clock_id, fix_timeofday, timespec, ClockStep};
use rusl::unistd::{alarm, alarm_timer, close, ctermid, dup, dup2, getcwd, Dup2Step};

fn neg(e: i32) -> u64 {
    (-(e as i64)) as u64
}

#[test]
fn syscall_return_splits_errors() {
    let ok = syscall_return(5);
    assert_eq!(ok.ret, 5);
    assert_eq!(ok.errno, None);
    let err = syscall_return(neg(EINVAL));
    assert_eq!(err.ret, u64::MAX);
    assert_eq!(err.errno, Some(EINVAL));
    let edge = syscall_return(neg(4095));
    assert_eq!(edge.errno, Some(4095));
    let not_err = syscall_return(neg(4096));
    assert_eq!(not_err.ret, neg(4096));
    assert_eq!(not_err.errno, None);
    let i = syscall_int(neg(ENOMEM));
    assert_eq!(i.ret, -1);
    assert_eq!(i.errno, Some(ENOMEM));
}

#[test]
fn close_reports_the_kernel_error_and_takes_eintr_as_done() {
    let ok = close(0);
    assert_eq!((ok.ret, ok.errno), (0, None));
    let err = close(neg(9));
    assert_eq!((err.ret, err.errno), (-1, Some(9)));
    // an interrupted close has released the descriptor: success
    let intr = close(neg(EINTR));
    assert_eq!((intr.ret, intr.errno), (0, None));
    // the answer is read as a C int
    let low = close(0xffff_fffc);
    assert_eq!((low.ret, low.errno), (0, None));
    let low_err = close(0xffff_fff7);
    assert_eq!((low_err.ret, low_err.errno), (-1, Some(9)));
}

#[test]
fn dup_and_dup2() {
    let d = dup(3);
    assert_eq!((d.ret, d.errno), (3, None));
    let e = dup(neg(9));
    assert_eq!((e.ret, e.errno), (-1, Some(9)));
    // a busy descriptor is retried
    assert!(matches!(dup2(neg(EBUSY)), Dup2Step::Retry));
    match dup2(neg(EINVAL)) {
        Dup2Step::Done { outcome } => assert_eq!((outcome.ret, outcome.errno), (-1, Some(EINVAL))),
        Dup2Step::Retry => panic!("only a busy descriptor is retried"),
    }
    match dup2(0xffff_fff0) {
        Dup2Step::Done { outcome } => assert_eq!((outcome.ret, outcome.errno), (-16, None)),
        Dup2Step::Retry => panic!("no error, no retry"),
    }
    match dup2(4) {
        Dup2Step::Done { outcome } => assert_eq!((outcome.ret, outcome.errno), (4, None)),
        Dup2Step::Retry => panic!("no retry"),
    }
}

#[test]
fn alarm_sets_and_reads_the_timer() {
    let it = alarm_timer(30);
    assert_eq!(it.it_value.tv_sec, 30);
    assert_eq!(it.it_value.tv_usec, 0);
    assert_eq!(it.it_interval.tv_sec, 0);
    assert_eq!(it.it_interval.tv_usec, 0);
    let mut old = alarm_timer(7);
    assert_eq!(alarm(&old), 7);
    // the seconds left are rounded up
    old.it_value.tv_usec = 500;
    assert_eq!(alarm(&old), 8);
    old.it_value.tv_sec = 3;
    old.it_value.tv_usec = 500_000;
    assert_eq!(alarm(&old), 4);
    old.it_value.tv_sec = 0;
    old.it_value.tv_usec = 0;
    assert_eq!(alarm(&old), 0);
}

#[test]
fn ctermid_and_getcwd() {
    let mut buf = [b'x'; 12];
    ctermid(&mut buf);
    assert_eq!(&buf, b"/dev/tty\0xxx");
    let mut cwd = [0u8; 4];
    assert_eq!(getcwd(&mut cwd), None);
}

#[test]
fn clock_gettime_reads_the_answer() {
    match clock_gettime(0, 0) {
        ClockStep::Done { outcome } => assert_eq!((outcome.ret, outcome.errno), (0, None)),
        ClockStep::TimeOfDay => panic!("no fallback"),
    }
    // without the system call the real-time clock falls back to the time of day
    assert!(matches!(clock_gettime(0, neg(ENOSYS)), ClockStep::TimeOfDay));
    match clock_gettime(1, neg(ENOSYS)) {
        ClockStep::Done { outcome } => assert_eq!((outcome.ret, outcome.errno), (-1, Some(EINVAL))),
        ClockStep::TimeOfDay => panic!("only the real-time clock falls back"),
    }
    match clock_gettime(1000, neg(EINVAL)) {
        ClockStep::Done { outcome } => assert_eq!((outcome.ret, outcome.errno), (-1, Some(EINVAL))),
        ClockStep::TimeOfDay => panic!("no fallback"),
    }
    let mut ts = timespec { tv_sec: 3, tv_nsec: 250 };
    fix_timeofday(&mut ts);
    assert_eq!((ts.tv_sec, ts.tv_nsec), (3, 250000));
}

#[test]
fn clock_in_microseconds() {
    let ts = timespec { tv_sec: 1, tv_nsec: 500_000_000 };
    assert_eq!(clock(0, &ts), 1_500_000);
    let small = timespec { tv_sec: 0, tv_nsec: 999 };
    assert_eq!(clock(0, &small), 0);
    let five = timespec { tv_sec: 0, tv_nsec: 5000 };
    assert_eq!(clock(0, &five), 5);
    let two = timespec { tv_sec: 2, tv_nsec: 0 };
    assert_eq!(clock(0, &two), 2_000_000);
    let hour = timespec { tv_sec: 3600, tv_nsec: 1_000 };
    assert_eq!(clock(0, &hour), 3_600_000_001);
    assert_eq!(clock(-1, &ts), u64::MAX);
    let big = timespec { tv_sec: i64::MAX, tv_nsec: 0 };
    assert_eq!(clock(0, &big), u64::MAX);
    let edge = timespec { tv_sec: i64::MAX / 1_000_000, tv_nsec: 999_999_999 };
    assert_eq!(clock(0, &edge), u64::MAX);
}

#[test]
fn cpu_clock_ids() {
    assert_eq!(cpu_clock_id(0), -6);
    assert_eq!(cpu_clock_id(1), -14);
    let r = clock_getcpuclockid(1, 0);
    assert_eq!((r.ret, r.clock), (0, Some(-14)));
    // no such process: the kernel's EINVAL is reported as ESRCH
    let e = clock_getcpuclockid(1, neg(EINVAL));
    assert_eq!((e.ret, e.clock), (ESRCH, None));
    let p = clock_getcpuclockid(1, neg(EPERM));
    assert_eq!((p.ret, p.clock), (EPERM, None));
    let o = clock_getcpuclockid(1, 5);
    assert_eq!((o.ret, o.clock), (-5, None));
}

#[test]
fn futex_decisions() {
    assert_eq!(futex_private(5), 128);
    assert_eq!(futex_private(0), 0);
    assert_eq!(wake_count(-1), i32::MAX);
    assert_eq!(wake_count(3), 3);
    assert_eq!(wake_op(1), 129);
    assert_eq!(wake_op(0), 1);
    assert_eq!(wait_op(1), 128);
    assert_eq!(wait_op(0), 0);
    // a kernel without private futexes answers ENOSYS, and the call is repeated
    assert!(wake_again(neg(ENOSYS)));
    assert!(!wake_again(38));
    assert!(!wake_again(0));
    assert!(wait_again(neg(ENOSYS)));
    assert!(!wait_again(0xffff_ffda));
    assert!(!wait_again(neg(EINTR)));
    assert_eq!(vm_wait_step(0), None);
    assert_eq!(vm_wait_step(3), Some(3));
    assert!(vm_unlock_wakes(1, 2));
    assert!(!vm_unlock_wakes(2, 2));
    assert!(!vm_unlock_wakes(1, 0));
    assert_eq!(unlock_plan(1, 1), (true, true));
    assert_eq!(unlock_plan(1, 0), (true, false));
    assert_eq!(unlock_plan(0, 1), (false, false));
}

#[test]
fn mmap_checks_and_results() {
    assert_eq!(mmap_check(4096, 1), Some(EINVAL));
    assert_eq!(mmap_check(4096, -4096), None);
    assert_eq!(mmap_check(isize::MAX as u64, 0), Some(ENOMEM));
    assert_eq!(mmap_check(4096, 8192), None);
    assert!(mmap_waits(MAP_FIXED | MAP_PRIVATE));
    assert!(!mmap_waits(MAP_PRIVATE));
    let ok = mmap_result(0x1000, 0, MAP_ANON);
    assert_eq!((ok.ret, ok.errno), (0x1000, None));
    let anon = mmap_result(neg(EPERM), 0, MAP_ANON | MAP_PRIVATE);
    assert_eq!((anon.ret, anon.errno), (u64::MAX, Some(ENOMEM)));
    let fixed = mmap_result(neg(EPERM), 0, MAP_ANON | MAP_FIXED);
    assert_eq!((fixed.ret, fixed.errno), (u64::MAX, Some(EPERM)));
    let placed = mmap_result(neg(EPERM), 0x1000, MAP_ANON | MAP_PRIVATE);
    assert_eq!((placed.ret, placed.errno), (u64::MAX, Some(EPERM)));
    let file = mmap_result(neg(EPERM), 0, MAP_PRIVATE);
    assert_eq!((file.ret, file.errno), (u64::MAX, Some(EPERM)));
    let inval = mmap_result(neg(EINVAL), 0, MAP_ANON | MAP_FIXED);
    assert_eq!((inval.ret, inval.errno), (u64::MAX, Some(EINVAL)));
    let nodev = mmap_result(neg(19), 0, MAP_PRIVATE);
    assert_eq!((nodev.ret, nodev.errno), (u64::MAX, Some(19)));
    assert_eq!(mremap_helper(4096, None), Ok(0));
    assert_eq!(mremap_helper(4096, Some(0x5000)), Ok(0x5000));
    assert_eq!(mremap_helper(u64::MAX, Some(1)), Err(ENOMEM));
}

#[test]
fn auxv_follows_the_environment() {
    assert_eq!(auxv_ptr(&[11, 12, 0, 33, 34]), 3);
    assert_eq!(auxv_ptr(&[0]), 1);
}

#[test]
fn lowest_set_bit() {
    assert_eq!(a_ctz_64(1), 0);
    assert_eq!(a_ctz_64(0b1000), 3);
    assert_eq!(a_ctz_64(1 << 63), 63);
    assert_eq!(a_ctz_64(0xf0), 4);
}

#[test]
fn a_waiter_spins_then_sleeps() {
    let (p, a) = wait_next(WaitPhase::Spinning { rounds: 0 }, 5, 5, 1, false);
    assert!(matches!(p, WaitPhase::Spinning { rounds: 1 }));
    assert!(matches!(a, WaitAction::Spin));
    let (_, a) = wait_next(WaitPhase::Spinning { rounds: 3 }, 4, 5, 1, false);
    assert!(matches!(a, WaitAction::Return));
    let (p, a) = wait_next(WaitPhase::Spinning { rounds: SPINS }, 5, 5, 1, false);
    assert!(matches!(p, WaitPhase::Sleeping));
    assert!(matches!(a, WaitAction::Register));
    let (_, a) = wait_next(WaitPhase::Sleeping, 5, 5, 1, true);
    assert!(matches!(a, WaitAction::Sleep { op: 128 }));
    let (_, a) = wait_next(WaitPhase::Sleeping, 5, 5, 0, false);
    assert!(matches!(a, WaitAction::Sleep { op: 0 }));
    let (_, a) = wait_next(WaitPhase::Sleeping, 6, 5, 0, false);
    assert!(matches!(a, WaitAction::Unregister));
    // a waiter that keeps seeing the value checks SPINS times before sleeping
    let mut phase = WaitPhase::Spinning { rounds: 0 };
    let mut spins = 0;
    loop {
        let (next, action) = wait_next(phase, 1, 1, 0, false);
        phase = next;
        match action {
            WaitAction::Spin => spins += 1,
            WaitAction::Register => break,
            _ => panic!("unexpected step"),
        }
    }
    assert_eq!(spins, SPINS);
    // with other waiters counted there is no spinning at all
    let (p, a) = wait_next(WaitPhase::Spinning { rounds: 0 }, 5, 5, 1, true);
    assert!(matches!(p, WaitPhase::Sleeping));
    assert!(matches!(a, WaitAction::Register));
    let (p, a) = wait_next(WaitPhase::Spinning { rounds: 0 }, 4, 5, 1, true);
    assert!(matches!(p, WaitPhase::Sleeping));
    assert!(matches!(a, WaitAction::Register));
}
