//! Per-component reconstruction stage of a block-based image decoder.
//!
//! Streams of quantized frequency-domain coefficient blocks are turned into
//! spatial-domain pixel samples and accumulated into one plane per colour
//! component.  A [`sync_worker::WorkerContext`] owns the accumulation state
//! and exposes a three-message protocol: begin a component's plane, append
//! one MCU row's worth of coefficient blocks, and extract the finished plane.

pub mod component;
pub mod idct;
pub mod sync_worker;
