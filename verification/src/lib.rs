//! A ring buffer that keeps a first-in first-out queue in a key-value store:
//! items sit one by one under wrapping integer indices, and a pair of
//! indices marks where the queue starts and ends.
//!
//! - [`wrapping`]: the index types and their wrap-around arithmetic.
//! - [`storage`]: the contracts of the two stores underneath.
//! - [`memory`]: stores in plain memory that meet those contracts.
//! - [`ringbuffer`]: the buffer itself and what holds of it.
//! - [`pallet`]: the queue as callers use it, one committed call at a time.
pub mod memory;
pub mod pallet;
pub mod ringbuffer;
pub mod storage;
pub mod wrapping;

pub use pallet::{BufferIndex, BufferIndexDefaultValue, Event, Pallet, ValueStruct};
