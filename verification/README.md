# rcore_os

Verified core logic of a small RISC-V teaching kernel and its file system:

- `sync::banker` — the banker's algorithm; `check_safety` is proved to give
  the outcome of its scan, to find a completion order exactly when one exists
  (for non-negative holdings), and otherwise to stop at a stuck finish order.
- `sync::detector` — mutex/semaphore deadlock detection over per-thread
  tables; `detect_deadlock` is proved exact.
- `task::manager` — the stride scheduler's ready queue (least stride first),
  with the bound on how far strides drift apart.
- `task` — the round-robin task list, context-switch decisions and per-task
  system call counters.
- `vfs` — root-directory entries: lookup, creation, hard links, unlinking.
- `syscall` — the checks and decisions of the system calls.
- `safety` — completion orders and the sum lemmas both deadlock checks use.

`app/` holds the kernel-side globals (lazily initialised, spin-locked) and
the entry points the rest of the kernel calls.
