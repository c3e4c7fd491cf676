//! The error type of the writer.
use crate::error::{decimal, push_decimal};
use vstd::prelude::*;
use vstd::string::StringExecFns;

verus! {

/// The error type for ROS bag file writing operations.
#[derive(Debug)]
pub enum WriteError {
    /// The output could not take the bytes (the message describes why).
    IoError(String),
    /// Bzip2 compression failure.
    Bzip2CompressionError(String),
    /// Lz4 compression failure.
    Lz4CompressionError(String),
    /// Invalid writer state (e.g., writing after finish).
    InvalidWriterState(&'static str),
    /// Unknown connection ID.
    UnknownConnectionId(u32),
}

impl WriteError {
    /// The text of the error's message.
    pub open spec fn message_text(&self) -> Seq<char> {
        "rosbag::writer::WriteError: "@ + match *self {
            WriteError::IoError(e) => "I/O error: "@ + e@,
            WriteError::Bzip2CompressionError(e) => "bzip2 compression error: "@ + e@,
            WriteError::Lz4CompressionError(e) => "LZ4 compression error: "@ + e@,
            WriteError::InvalidWriterState(m) => "invalid writer state: "@ + m@,
            WriteError::UnknownConnectionId(id) => "unknown connection ID: "@ + decimal(id as nat),
        }
    }

    /// The error's message.
    pub fn message(&self) -> (r: String)
        ensures
            r@ == self.message_text(),
    {
        let mut s = String::from_str("rosbag::writer::WriteError: ");
        match self {
            WriteError::IoError(e) => {
                s.append("I/O error: ");
                s.append(e.as_str());
            },
            WriteError::Bzip2CompressionError(e) => {
                s.append("bzip2 compression error: ");
                s.append(e.as_str());
            },
            WriteError::Lz4CompressionError(e) => {
                s.append("LZ4 compression error: ");
                s.append(e.as_str());
            },
            WriteError::InvalidWriterState(m) => {
                s.append("invalid writer state: ");
                s.append(m);
            },
            WriteError::UnknownConnectionId(id) => {
                s.append("unknown connection ID: ");
                push_decimal(&mut s, *id);
            },
        }
        s
    }
}

} // verus!
