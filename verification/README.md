# LearnOS kernel logic, verified

The logic of the LearnOS microkernel as a Verus library (`kernel`), with
a hosted driver around it.

## Layout

- `src/` — the verified library. Physical memory is modelled as the words
  of RAM plus the allocator's bitmap (`paging`); every page-table walk,
  copy-on-write copy and unmapping is a function on that model with a
  contract. The other modules hold the process table and scheduler
  (`process`), IPC queues (`ipc`), capabilities, signals, system-call
  dispatch and the timer frame (`syscall`), the TSS, the ELF loader
  (`elf`, with what a loaded image looks like and the loader's invariant
  in `image`), the embedded filesystem and RAM disk, the VGA writer,
  scan-code decoding, interrupt forwarding, the state machines of the
  user-space servers and shell (`user_program`), and the start-up of the
  built-in services (`boot`).
- `tests/` — tests on concrete values, including the project's own.
- `app/` — a hosted program that boots the kernel state, runs the servers
  and the shell under the timer and feeds keyboard interrupts from
  standard input; the serial line is standard error.

Laws that relate several operations are public proof functions whose
names begin with `law_`.
