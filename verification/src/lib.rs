//! Block-level storage accounting for a batched autoregressive
//! generation engine.
//!
//! A [`block_allocator::BlockAllocator`] owns a finite space of physical
//! block ids and hands them out with strict exclusivity; a
//! [`request::Request`] tracks one generation job, growing its
//! logical-to-physical block map as tokens arrive and returning every
//! held block when it finishes.

pub mod block_allocator;
pub mod request;
pub mod sequence;
