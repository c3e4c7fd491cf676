//! Error types of the library.
use vstd::prelude::*;
use vstd::string::StringExecFns;

verus! {

/// The error type for ROS bag file reading, parsing, and writing.
#[derive(Debug)]
pub enum Error {
    /// Invalid headed.
    InvalidHeader,
    /// Invalid record.
    InvalidRecord,
    /// Encountered unsupported version in record.
    UnsupportedVersion,
    /// Tried to access outside of rosbag file.
    OutOfBounds,
    /// Got unexpected record type in the chunk section.
    UnexpectedChunkSectionRecord(&'static str),
    /// Got unexpected record type in the index section.
    UnexpectedIndexSectionRecord(&'static str),
    /// Got unexpected record type inside a chunk payload.
    UnexpectedMessageRecord(&'static str),
    /// Bzip2 decompression failure.
    Bzip2DecompressionError(String),
    /// Lz4 decompression failure.
    Lz4DecompressionError(String),
    /// I/O error during write operations (the message describes it).
    IoError(String),
    /// Bzip2 compression failure.
    Bzip2CompressionError(String),
    /// Lz4 compression failure.
    Lz4CompressionError(String),
    /// Invalid writer state (e.g., writing after finish).
    InvalidWriterState(&'static str),
    /// Unknown connection ID.
    UnknownConnectionId(u32),
}

impl Error {
    /// The text of the error's message.
    pub open spec fn message_text(&self) -> Seq<char> {
        "rosbag::Error: "@ + match *self {
            Error::InvalidHeader => "invalid header"@,
            Error::InvalidRecord => "invalid record"@,
            Error::UnsupportedVersion => "unsupported version"@,
            Error::OutOfBounds => "out of bounds"@,
            Error::UnexpectedChunkSectionRecord(t) => "unexpected "@ + t@ + " in the chunk section"@,
            Error::UnexpectedIndexSectionRecord(t) => "unexpected "@ + t@ + " in the index section"@,
            Error::UnexpectedMessageRecord(t) => "unexpected "@ + t@ + " in chunk payload"@,
            Error::Bzip2DecompressionError(e) => "bzip2 decompression error: "@ + e@,
            Error::Lz4DecompressionError(e) => "LZ4 decompression error: "@ + e@,
            Error::IoError(e) => "I/O error: "@ + e@,
            Error::Bzip2CompressionError(e) => "bzip2 compression error: "@ + e@,
            Error::Lz4CompressionError(e) => "LZ4 compression error: "@ + e@,
            Error::InvalidWriterState(m) => "invalid writer state: "@ + m@,
            Error::UnknownConnectionId(id) => "unknown connection ID: "@ + decimal(id as nat),
        }
    }

    /// The error's message.
    pub fn message(&self) -> (r: String)
        ensures
            r@ == self.message_text(),
    {
        let mut s = String::from_str("rosbag::Error: ");
        match self {
            Error::InvalidHeader => s.append("invalid header"),
            Error::InvalidRecord => s.append("invalid record"),
            Error::UnsupportedVersion => s.append("unsupported version"),
            Error::OutOfBounds => s.append("out of bounds"),
            Error::UnexpectedChunkSectionRecord(t) => {
                s.append("unexpected ");
                s.append(t);
                s.append(" in the chunk section");
            },
            Error::UnexpectedIndexSectionRecord(t) => {
                s.append("unexpected ");
                s.append(t);
                s.append(" in the index section");
            },
            Error::UnexpectedMessageRecord(t) => {
                s.append("unexpected ");
                s.append(t);
                s.append(" in chunk payload");
            },
            Error::Bzip2DecompressionError(e) => {
                s.append("bzip2 decompression error: ");
                s.append(e.as_str());
            },
            Error::Lz4DecompressionError(e) => {
                s.append("LZ4 decompression error: ");
                s.append(e.as_str());
            },
            Error::IoError(e) => {
                s.append("I/O error: ");
                s.append(e.as_str());
            },
            Error::Bzip2CompressionError(e) => {
                s.append("bzip2 compression error: ");
                s.append(e.as_str());
            },
            Error::Lz4CompressionError(e) => {
                s.append("LZ4 compression error: ");
                s.append(e.as_str());
            },
            Error::InvalidWriterState(m) => {
                s.append("invalid writer state: ");
                s.append(m);
            },
            Error::UnknownConnectionId(id) => {
                s.append("unknown connection ID: ");
                push_decimal(&mut s, *id);
            },
        }
        s
    }
}

/// The decimal digit character of `d`.
pub open spec fn digit_char(d: nat) -> char {
    if d == 0 {
        '0'
    } else if d == 1 {
        '1'
    } else if d == 2 {
        '2'
    } else if d == 3 {
        '3'
    } else if d == 4 {
        '4'
    } else if d == 5 {
        '5'
    } else if d == 6 {
        '6'
    } else if d == 7 {
        '7'
    } else if d == 8 {
        '8'
    } else {
        '9'
    }
}

/// The decimal digits of `n`, most significant first.
pub open spec fn decimal(n: nat) -> Seq<char>
    decreases n,
{
    if n < 10 {
        seq![digit_char(n)]
    } else {
        decimal(n / 10).push(digit_char(n % 10))
    }
}

/// The one-character text of the digit `d`.
fn digit_str(d: u32) -> (r: &'static str)
    requires
        d < 10,
    ensures
        r@ == seq![digit_char(d as nat)],
{
    match d {
        0 => {
            proof {
                reveal_strlit("0");
            }
            "0"
        },
        1 => {
            proof {
                reveal_strlit("1");
            }
            "1"
        },
        2 => {
            proof {
                reveal_strlit("2");
            }
            "2"
        },
        3 => {
            proof {
                reveal_strlit("3");
            }
            "3"
        },
        4 => {
            proof {
                reveal_strlit("4");
            }
            "4"
        },
        5 => {
            proof {
                reveal_strlit("5");
            }
            "5"
        },
        6 => {
            proof {
                reveal_strlit("6");
            }
            "6"
        },
        7 => {
            proof {
                reveal_strlit("7");
            }
            "7"
        },
        8 => {
            proof {
                reveal_strlit("8");
            }
            "8"
        },
        _ => {
            proof {
                reveal_strlit("9");
            }
            "9"
        },
    }
}

/// Append the decimal digits of `n` to `s`.
pub(crate) fn push_decimal(s: &mut String, n: u32)
    ensures
        final(s)@ == old(s)@ + decimal(n as nat),
    decreases n,
{
    if n >= 10 {
        push_decimal(s, n / 10);
    }
    s.append(digit_str(n % 10));
}

} // verus!
