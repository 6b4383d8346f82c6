//! A hashed timing wheel: a fixed ring of buckets that holds payloads until
//! the tick that reaches their bucket hands them back.
use vstd::prelude::*;

mod laws;
mod view;
mod wheel_timer;

verus! {

pub use crate::laws::{
    lemma_bucket_fifo, lemma_idle_ticks, lemma_placement, lemma_schedule_wraps,
    lemma_size_accounting, schedules, WheelOp,
};
pub use crate::view::{lemma_count_accounting, total_len, WheelView};
pub use crate::wheel_timer::{WheelError, WheelTimer};

} // verus!
