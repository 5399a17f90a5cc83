//! The seam between the local store and an upstream controller: the
//! mutation shape, the buffer of mutations awaiting a controller, and
//! the controller's retry policy.

pub mod mutation;
pub mod mutation_log;
pub mod controller;
pub mod retry;
