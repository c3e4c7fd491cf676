//! Utilities for writing ROS bag files.
pub mod bag_writer;
pub mod error;
pub mod model;
pub mod op;
pub mod records;
pub mod write_cursor;

pub use bag_writer::{Channel, RosBagWriter, RosBagWriterBuilder};
pub use error::WriteError;
pub use records::Compression;
pub use write_cursor::WriteCursor;
