//! A queuing port: a fixed-capacity circular message queue of `i32` values,
//! with one slot kept free so that the two cursors alone tell "full" from
//! "empty", and a registry that binds one queue to each name, reserving the
//! shared memory region of that name while the queue itself stays in the
//! registry's memory.
pub mod ring;
pub mod laws;
pub mod registry;
