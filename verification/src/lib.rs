//! A small C library core: byte-string routines, the boundary-tag heap
//! allocator and the decisions around system calls, stated over slices and
//! an arena instead of raw pointers.
#![allow(non_camel_case_types)]

use vstd::prelude::*;

pub mod atomic;
pub mod environ;
pub mod malloc;
pub mod mmap;
pub mod string;
pub mod syscall;
pub mod thread;
pub mod time;
pub mod unistd;
