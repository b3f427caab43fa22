//! Runtime core of a small kernel: heap-allocation strategies over an address
//! model, a cooperative executor and the keyboard scancode bridge.

pub mod allocator;
pub mod task;
