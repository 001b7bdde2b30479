//! Avatar rotation state: a persisted pool of candidate image paths and the
//! currently active selection, rotated one step per run.
//!
//! Paths are byte strings. The pool is built from a directory listing handed
//! in by the caller, shuffled, and consumed from the end; the whole state is
//! persisted as a small JSON object whose encoding and decoding are verified.

pub mod codec;
pub mod rotation;
