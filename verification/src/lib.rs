//! Synchronisation core of a small teaching kernel: counting semaphores,
//! per-process tables of mutexes, semaphores and condition variables, the two
//! deadlock detectors (wait-for chain for mutexes, banker's algorithm for
//! semaphores) and the decision logic of the sync and process system calls.
//!
//! The scheduler, timers and page tables live outside this crate. Where a
//! system call would block, wake a thread or touch user memory, the function
//! here returns that action (or takes the looked-up value) as a plain value.

pub mod seqs;
pub mod semaphore;
pub mod bankers;
pub mod mutex_deadlock;
pub mod table;
pub mod sem_deadlock;
pub mod sync;
pub mod process;
