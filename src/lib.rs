//! A batch pipeline that splits each work item into sub-units, counts pattern
//! matches in them on a bounded worker pool, and reduces the counts into one
//! account per item.

pub mod aggregator;
pub mod pipeline;
pub mod split;
pub mod transform;
