//! A combinator algebra for Linux restartable sequences (rseq).
//!
//! One IR feeds every backend: the simulator and the exhaustive abort-schedule
//! checker work on the same program value that the code generator turns into
//! x86-64 machine code with its `rseq_cs` descriptor.
//!
//! - `ir`, `progs`: programs, their validation and their builder; the examples.
//! - `sim`, `check`: the simulator and the checker; `meaning` has what their
//!   answers stand for, `schedules` what is tried and in which order, `laws`
//!   what holds of every program, `behaviour` what holds of the examples,
//!   `verdicts` what the checker says of them, `conservation` what many calls
//!   conserve, `flights` what they conserve with many in flight at once.
//! - `x86`, `codegen`: encoding, register allocation, the compiled sequence;
//!   `machine` has what compiled code does, `decode` how its bytes read,
//!   `pressure` when it fits the pool.
//! - `rt`, `drain`: per-CPU data at rest, and the decisions of a drain;
//!   `race` has drains racing with pushes and pops in flight.
//! - `bench`, `analysis`, `text`: the benchmark's block design and its report;
//!   `draws` has how the order of a block is drawn, `readings` how what was
//!   written is read back, `reports` which rows the report is about, `orders`
//!   why the order of rows and files does not matter.
//! - `sys`: the reading of system call results.

pub mod ir;
pub mod sim;
pub mod check;
pub mod laws;
pub mod meaning;
pub mod schedules;
pub mod progs;
pub mod x86;
pub mod codegen;
pub mod machine;
pub mod decode;
pub mod rt;
pub mod pressure;
pub mod behaviour;
pub mod verdicts;
pub mod conservation;
pub mod flights;
pub mod drain;
pub mod race;
pub mod text;
pub mod bench;
pub mod draws;
pub mod readings;
pub mod analysis;
pub mod orders;
pub mod reports;
pub mod sys;
