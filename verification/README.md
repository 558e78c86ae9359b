# rseq

A combinator algebra for Linux restartable sequences, verified with Verus.

A restartable sequence gives a thread atomicity over per-CPU data for a short
instruction window: if the thread is preempted or migrated inside the window,
the kernel restarts it at the top instead of letting it commit. A valid
sequence has a rigid shape: a replay-safe prefix, writes only to unpublished
scratch memory, and one committing store at the end. Here that shape is a data
structure. The same program value is validated, simulated under every abort
schedule, and compiled to x86-64 with its `rseq_cs` descriptor.

## What is proved

- The validator accepts exactly the well-shaped programs (`ir`).
- Prefixes that exclude the commit leave published memory alone, and a run
  commits at most once, to the slice of the CPU it ends on (`sim`, `laws`).
- A program that cannot tell what an earlier attempt left behind ends, under
  every abort schedule, as a clean run would (`laws`).
- The checker passes a program exactly if every schedule up to its bound is
  indistinguishable from a clean run, and what it reports is a real
  counterexample (`check`, `laws`).
- The example programs count, link, unlink and publish exactly once
  (`behaviour`); the checker passes them and catches the buggy ones
  (`verdicts`).
- Over any number of calls, increments and nodes are conserved
  (`conservation`), also where calls are in flight at the same time and their
  operations follow one another in any order (`flights`).
- The emitted bytes are those of the instruction listing, and the listing does
  on a model of the machine what the simulator does, restarts included
  (`x86`, `codegen`, `machine`).
- A drain takes exactly the list of its CPU (`drain`), whatever operations of
  pushes and pops in flight and whatever steps of other drains come between its
  own: the fence keeps a call that has seen the CPU unlocked from committing to
  it (`race`).
- The benchmark's analysis pairs samples within complete blocks only, and does
  not depend on the order of rows or files (`bench`, `analysis`, `orders`).

## Layout

- `src/`: the library.
- `tests/`: its tests, among them an interpreter for the emitted bytes.
- `app/`: the benchmark on the live kernel: system calls, executable mappings,
  threads, files, and the floating-point part of the report.
