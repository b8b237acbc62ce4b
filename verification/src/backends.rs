//! The backend interfaces and the SMT-LIB2 text backend.

pub mod backend;
pub mod exchange;
pub mod graph;
pub mod model;
pub mod smtlib2;
pub mod text;
