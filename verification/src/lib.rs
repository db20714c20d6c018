//! A latency probe's measurement core: a bounded rolling window of samples,
//! an exact percentile estimator over it, the table that matches replies to
//! outstanding probes, the probe scheduler, and the event loop's transition
//! function.
//!
//! Times and samples are whole numbers in a unit of the caller's choosing
//! (the probe loop is fed nanoseconds, quote ages are microseconds);
//! percentiles are exact rationals, returned in hundredths of that unit.
//! Nothing here reads a clock or touches a connection: the caller does, and
//! hands over what it saw.

pub mod pending;
pub mod percentile;
pub mod probe_loop;
pub mod quote;
pub mod scheduler;
pub mod window;
