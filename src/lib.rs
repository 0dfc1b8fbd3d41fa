//! Rebuilds partition images from an update payload: the container head, a
//! logical stream laid over scattered extents, a bounded window of the
//! input, and the install operations that move bytes between them.

pub mod fragment;
pub mod section;
pub mod container;
pub mod operation;
