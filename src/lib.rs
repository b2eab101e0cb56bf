//! Double-ended containers with FIFO or LIFO retrieval: an index-linked
//! ring with O(1) removal at any position, a double-ended-queue fallback, a
//! facade over either, and a bounded time series.

mod enums;
mod traits;
pub mod ring_buffer;
mod timeseries;

pub use crate::enums::BufferType;
pub use crate::ring_buffer::RingBuffer;
pub use crate::timeseries::{Timeseries, TimeseriesStorage};
pub use crate::traits::{after_poll, out_index, polled, Buffer, BufferMode, Capacity, Peek, Snapshot};
