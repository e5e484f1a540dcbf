# kernel

A small operating system kernel as a verified library: processes, virtual memory with copy on
write, a file system behind a block cache, pipes, System V semaphores and shared memory, futexes,
signals, timers, scheduling, and the calls by which programs use all of that.

- `src/` is the library. Every function carries a contract that Verus proves. Each data type has a
  view as mathematical values, and the contracts say how an operation maps one view to the next.
  Functions named `law_...` are theorems about several operations together; those about the kernel
  as a whole are in `src/kernel_laws.rs`.
- `tests/` runs the library on concrete values.
- `app/` puts the library among threads: locks, waiting and waking, and the traits of the standard
  library that the library's types do not have.

The library has no threads and no clock of its own. A thread is a number; an operation that would
wait returns what the thread has to do, and one that wakes returns the numbers of those to wake.
Time is an argument or a field. What several owners share lies in a table (`FileHeap`, `SemHeap`,
`ShmHeap`, `TaskTable`) and is referred to by its place in it.
