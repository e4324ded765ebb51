//! A minimal record of one generation job: the token history and the
//! logical-to-physical block map, without a stopping policy.

use vstd::prelude::*;

verus! {

/// Lifecycle state of a [`Sequence`].
#[derive(Clone, Copy, Debug, PartialEq, Eq, Structural)]
#[allow(dead_code)]
enum Status {
    Waiting,
    Running,
    Finished,
}

/// A lightweight record of one in-flight generation job: its identity,
/// token history, lifecycle state, and the ordered map from logical
/// block index to the physical block id backing it.
#[allow(dead_code)]
pub struct Sequence {
    request_id: u32,
    prompt_token_ids: Vec<u32>,
    output_token_ids: Vec<u32>,
    status: Status,
    mmap: Vec<u32>,
}

} // verus!
