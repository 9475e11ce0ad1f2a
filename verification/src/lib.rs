//! The core of a tool that drives a device's memory use upward at a fixed
//! pace, to exercise the host's low memory killer.
//!
//! - [`interval`] and [`size`] read the operator's quantities: a pause such
//!   as `1s` or `1000ms`, a size such as `10GiB`, `10gb` or `123`.
//! - [`number`] and [`text`] hold what the two parsers share.
//! - [`priority`] knows the range of the priority score and the text that
//!   sets it.
//! - [`pool`] is the memory that only grows, and [`driver`] the state
//!   machine that sets the score once and then grows the pool between
//!   pauses.
//! - [`host`] tells whether the host is one the tool is meant for.
//!
//! The library neither sleeps nor touches a file: the caller does both and
//! tells the driver what came of it.

pub mod driver;
pub mod host;
pub mod interval;
pub mod number;
pub mod pool;
pub mod priority;
pub mod size;
pub mod text;

pub use crate::interval::convert_interval;
pub use crate::size::convert_si_size;
