//! Decision logic of the process system calls that compute something.
use vstd::prelude::*;

verus! {

/// A time as seconds and microseconds.
#[derive(Debug, PartialEq, Eq, Structural, Clone, Copy)]
pub struct TimeVal {
    pub sec: usize,
    pub usec: usize,
}

/// get time with second and microsecond: writes the time `us` (microseconds
/// since boot) into `ts`, split into whole seconds and the microseconds left.
pub fn sys_get_time(us: usize, ts: &mut TimeVal) -> (ret: isize)
    ensures
        ret == 0,
        final(ts).sec == us / 1_000_000,
        final(ts).usec == us % 1_000_000,
        final(ts).sec * 1_000_000 + final(ts).usec == us,
        final(ts).usec < 1_000_000,
{
    let time_val = TimeVal { sec: us / 1_000_000, usec: us % 1_000_000 };
    assert(time_val.sec * 1_000_000 + time_val.usec == us) by (nonlinear_arith)
        requires
            time_val.sec == us / 1_000_000,
            time_val.usec == us % 1_000_000,
    ;
    *ts = time_val;
    0
}

/// A page-table entry as `sys_trace` reads it.
#[derive(Debug, PartialEq, Eq, Structural, Clone, Copy)]
pub struct PageEntry {
    pub valid: bool,
    pub writable: bool,
}

/// trace syscall: three modes based on trace_request
///
/// - 0 (Read): the byte at the user address, or -1 if the address is not mapped
/// - 1 (Write): write `data` (as u8) there and return 0, or -1 if the address is
///   not mapped writable
/// - 2 (Syscall): the number of times the queried syscall was called
/// - otherwise: -1
///
/// `entry` is the page-table entry of the user address (`None` when there is
/// none), `byte` the byte at that address, and `syscall_count` the call count
/// of the queried syscall, all looked up by the caller.
pub fn sys_trace(
    trace_request: usize,
    data: usize,
    entry: Option<PageEntry>,
    byte: &mut u8,
    syscall_count: usize,
) -> (ret: isize)
    ensures
        trace_request == 0 ==> *final(byte) == *old(byte) && ret == if entry is Some
            && entry->0.valid {
            *old(byte) as isize
        } else {
            -1isize
        },
        trace_request == 1 ==> if entry is Some && entry->0.valid && entry->0.writable {
            ret == 0 && *final(byte) == #[verifier::truncate] (data as u8)
        } else {
            ret == -1 && *final(byte) == *old(byte)
        },
        trace_request == 2 ==> ret == #[verifier::truncate] (syscall_count as isize) && *final(byte) == *old(byte),
        trace_request > 2 ==> ret == -1 && *final(byte) == *old(byte),
{
    if trace_request == 0 {
        match entry {
            Some(pte) => if pte.valid {
                *byte as isize
            } else {
                -1
            },
            None => -1,
        }
    } else if trace_request == 1 {
        match entry {
            Some(pte) => if pte.valid && pte.writable {
                *byte = #[verifier::truncate] (data as u8);
                0
            } else {
                -1
            },
            None => -1,
        }
    } else if trace_request == 2 {
        #[verifier::truncate] (syscall_count as isize)
    } else {
        -1
    }
}

/// change data segment size: `old_brk` is what moving the program break
/// returned (`None` when the change was refused); gives the old break, or -1.
pub fn sys_sbrk(old_brk: Option<usize>) -> (ret: isize)
    ensures
        ret == match old_brk {
            Some(b) => #[verifier::truncate] (b as isize),
            None => -1isize,
        },
{
    if let Some(old_brk) = old_brk {
        #[verifier::truncate] (old_brk as isize)
    } else {
        -1
    }
}

} // verus!
