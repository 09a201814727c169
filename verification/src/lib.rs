//! Streaming normalization of line endings in byte streams.
//!
//! Two chunk transducers rewrite line endings to a single target convention:
//! [`CRLF`] turns every bare LF or bare CR into a CR LF pair, and [`LF`] turns
//! every CR LF pair or bare CR into a single LF. Both process data in
//! arbitrarily sized chunks, carrying one bit of state (whether the previous
//! chunk ended in an unresolved CR) across chunk boundaries, so that a stream
//! of any size can be normalized without materializing it in memory.

pub mod async_core;
mod bytes;
pub mod compat;
pub mod crlf;
pub mod formats;
pub mod io;
pub mod laws;
pub mod lf;
pub mod mem;
pub mod model;
mod scan;
pub mod text;

pub use crlf::CRLF;
pub use formats::{Error, Normalize, NormalizeChunkResult};
pub use io::{IoExt, ReadExt, WriteExt};
pub use lf::LF;
