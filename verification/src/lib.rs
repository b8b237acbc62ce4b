//! A client layer for SMT solvers that speak the SMT-LIB2 text protocol.
//!
//! A constraint problem is built as an expression graph, written out as
//! SMT-LIB2 commands, and the solver's answers are read back into typed
//! values. The library itself performs no I/O: it says what to send and what
//! to make of each reply, and a driver moves the bytes.

pub mod backends;
