//! An asynchronous log-persistence pipeline: a bounded shared byte buffer fed
//! by any number of producers through a non-blocking sink, drained by a single
//! background writer into a size- and count-limited rotating set of files.
//!
//! This crate holds the verified core of the pipeline:
//!
//! * [`config`] — the immutable configuration and its invariant;
//! * [`notice`] — the fixed overflow notice stamped into the buffer when a
//!   write finds it full;
//! * [`buffer`] — the bounded buffer together with the sink's write policy
//!   (truncation and overflow handling);
//! * [`rotation`] — a model of the rotating file store: size-bounded active
//!   file, count-bounded archives, oldest deleted first;
//! * [`pipeline`] — the two combined, with the writer's drain step and the
//!   end-to-end persistence law.
//!
//! The concurrent shell — the mutex and condition variable the handles share,
//! the writer thread, and the actual file I/O — is unverified glue that calls
//! into this core.

pub mod buffer;
pub mod config;
pub mod notice;
pub mod pipeline;
pub mod rotation;
