//! A virtual machine for interaction nets.
pub mod host;
pub mod laws;
pub mod program;
pub mod runtime;
pub mod text;
