use vstd::prelude::*;

verus! {

/// Why an operation of the library gave up. Every one of these ends the stage that met it.
#[derive(Clone, Copy, Debug, PartialEq, Eq, Structural)]
pub enum Error {
    /// The other end of the channel is gone and nothing is left to drain.
    PeerGone,
    /// A channel was asked for with no slots.
    CapacityZero,
    /// The operation has to wait for the other end: the ring is full for a writer, or
    /// empty for a reader whose producer is still there.
    WouldBlock,
    /// The stream ended before an exact read or skip was complete.
    UnexpectedEof,
    /// The stream handed over an empty chunk where bytes were needed.
    NoProgress,
    /// An argument is outside the range the operation is defined on.
    Argument,
    /// The first audio record of a stream does not say what its samples are.
    FormatUndeclared,
}

impl Error {
    /// The words of the diagnostic for this error, with the component that it comes from
    /// in front.
    pub open spec fn words(self) -> Seq<char> {
        match self {
            Error::PeerGone => "Channel: Peer is dropped"@,
            Error::CapacityZero => "Channel: A channel needs a slot"@,
            Error::WouldBlock => "Channel: Peer has to act first"@,
            Error::UnexpectedEof => "Stream: Unexpected EOF"@,
            Error::NoProgress => "Stream: Not progressing"@,
            Error::Argument => "Stream: Argument out of range"@,
            Error::FormatUndeclared => "caf::Muxer: Unknown sample type"@,
        }
    }

    /// The diagnostic that a stage gives when it ends with this error.
    pub fn message(&self) -> (text: &'static str)
        ensures
            text@ == self.words(),
    {
        match self {
            Error::PeerGone => "Channel: Peer is dropped",
            Error::CapacityZero => "Channel: A channel needs a slot",
            Error::WouldBlock => "Channel: Peer has to act first",
            Error::UnexpectedEof => "Stream: Unexpected EOF",
            Error::NoProgress => "Stream: Not progressing",
            Error::Argument => "Stream: Argument out of range",
            Error::FormatUndeclared => "caf::Muxer: Unknown sample type",
        }
    }
}

} // verus!
