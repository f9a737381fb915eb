//! A per-process memory and swap inspector for macOS: everything but the system calls.
//!
//! macOS keeps no count of swap per process. The compressed memory and the footprint of a process
//! are exact; its swap is estimated by splitting the swap in use in proportion to the compressed
//! memory.
//!
//! * [`kernel`] reads the records, return codes and lists that the kernel answers with.
//! * [`names`] finds the name under which a process is shown.
//! * [`share`] splits the swap in use, and shows that the estimates add up to it.
//! * [`snapshot`] lists the processes; [`watch`] compares two samples of them.
//! * [`order`] puts rows in order and picks the ones to show.
//! * [`cli`] reads the command line.
//! * [`double`], [`accuracy`], [`rate`] and [`human`] hold doubles as integers, round as the
//!   machine does, bound what rounding does to a result, and write amounts.
//! * [`text`] holds what is left to do with strings, and [`reading`] reads what was written.

pub mod accuracy;
pub mod cli;
pub mod double;
pub mod human;
pub mod kernel;
pub mod names;
pub mod order;
pub mod rate;
pub mod reading;
pub mod share;
pub mod snapshot;
pub mod text;
pub mod watch;
