//! A cache-aside wrapping library.
//!
//! Given a computation, a key template such as `"user:{id}-{token}"`, and a
//! time-to-live, the library derives a concrete cache key from the live
//! argument values, decides whether a stored entry answers the call, and
//! otherwise encodes the computed result for a best-effort write-back.
//!
//! The pieces, in dependency order:
//! * [`value`] — the plain values placeholders and cached results range
//!   over, with their mathematical model;
//! * [`template`] — the template compiler: template text to an ordered plan
//!   of literal fragments and field paths, a proven round trip;
//! * [`key`] — the binding resolver: a plan plus named argument values to
//!   the concrete cache key;
//! * [`codec`] — the transport codec: a value to its stored string form and
//!   back, a proven round trip;
//! * [`store`] — a verified in-memory key-value store with per-entry
//!   expiry, the reference model of the backing store;
//! * [`executor`] — the cache-aside protocol: per call, one read and its
//!   decision, then at most one best-effort write-back, uniform for
//!   blocking and suspending callers.

pub mod codec;
pub mod executor;
pub mod key;
pub mod store;
pub mod template;
pub mod value;
