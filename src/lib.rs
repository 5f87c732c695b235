//! A garbage-collected, copy-on-write memory layer: a typed arena addressed by
//! handles, a capability trait through which stored values report the handles
//! they reference, a mark-and-sweep collector, and persistent containers
//! (sequence, set, key/value mapping) built on copy-on-write handles.

pub mod gccompat;
pub mod gc;
pub mod list;
pub mod gcset;
pub mod gcmap;
