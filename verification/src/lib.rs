//! Writing ROS bag (v2.0) files, verified with Verus.
pub mod codec;
pub mod decode;
pub mod error;
pub mod format;
pub mod readback;
pub mod writer;
