use vstd::prelude::*;

verus! {

/// Every failure the library reports, carrying a human-readable detail.
#[derive(Debug, PartialEq, Eq)]
pub enum VideoEncodeError {
    Io(String),
    Encoding(String),
    FfmpegNotFound,
    Serialization(String),
    Concatenation(String),
    Config(String),
    TonicTransport(String),
    NodeConnection(String),
    ChunkProcessing(String),
}

pub type VideoEncodeResult<T> = Result<T, VideoEncodeError>;

} // verus!
