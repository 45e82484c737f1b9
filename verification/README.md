# rcore_sync

Verified synchronisation core of a small RISC-V teaching kernel, written in
Verus.

- `semaphore`: counting semaphore that records holders and waiters; `up` and
  `down` are specified by `up_result` / `down_result` and keep the balance
  between a negative count and the number of waiters.
- `bankers`: the banker's algorithm, proved to report a deadlock exactly when
  no order lets every thread finish.
- `mutex_deadlock`: wait-for chain walk for mutexes, with proofs that a
  reported deadlock is a real cycle and that, when each thread waits on at most
  one mutex, no cycle is missed (so the detector then reports exactly the
  locks that close a cycle).
- `sem_deadlock`: builds the banker's matrices from a process's semaphores,
  with proofs that extra free units never make a safe request unsafe and that
  the answer does not depend on the order of threads or semaphores (a tid
  listed twice counts at its first position, whatever the order).
- `table`: lowest-free-slot allocation of object ids.
- `sync`, `process`: decision logic of the system calls; blocking, waking,
  timers and page-table lookups are left to the caller, which gets them back
  as plain values.

`tests/` runs the library on concrete scenarios.
