//! The interface of source connectors, which hand the core decoded messages
//! and the splits of their upstream.
use vstd::prelude::*;
use crate::error::StreamError;

verus! {

/// Position of a message in its split.
#[derive(Debug)]
pub enum SourceOffset {
    Number(i64),
    String(String),
}

/// A message read from an upstream source.
pub trait SourceMessage {
    /// The bytes of the message, if any.
    fn payload(&self) -> Result<Option<Vec<u8>>, StreamError>;

    /// Where the message stands in its split.
    fn offset(&self) -> Result<Option<SourceOffset>, StreamError>;

    /// The message as text.
    fn serialize(&self) -> Result<String, StreamError>;
}

/// A partition of an upstream source that one reader consumes.
pub trait SourceSplit: Sized {
    fn id(&self) -> String;

    /// The split in its stored form.
    fn to_string(&self) -> Result<String, StreamError>;

    /// The split from its stored form.
    fn restore_from_bytes(bytes: &[u8]) -> Result<Self, StreamError>;

    /// The kind of source the split belongs to.
    fn get_type(&self) -> String;
}

/// Lists the splits of an upstream source.
pub trait SplitEnumerator {
    type Split: SourceSplit;

    fn list_splits(&mut self) -> Result<Vec<Self::Split>, StreamError>;
}

} // verus!
