//! Capability analysis of compiled programs: a taxonomy of coarse privilege
//! classes, a line-oriented capability-map format, canonical function
//! identities, a call-graph closure that propagates capabilities, the state
//! tracking behind a syscall tracer, and seccomp policy emission.
pub mod annotate;
pub mod capmap;
pub mod caps;
pub mod cargo;
pub mod cm;
pub mod fd;
pub mod fncaps;
pub mod function;
pub mod graph;
pub mod location;
pub mod process;
pub mod report;
pub mod seccomp;
pub mod strset;
pub mod syscall;
pub mod text;
pub mod tracer;
