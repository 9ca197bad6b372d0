//! A stream over bytes that are all in memory already.

use crate::error::Error;
use crate::stream::{Feed, Model, Stream};
use crate::BinaryView;
use vstd::prelude::*;

verus! {

/// The source of a stream that holds all its bytes from the start: it has no chunk to
/// give and none will come.
pub struct MemoryStream {}

impl Feed for MemoryStream {
    open spec fn valid(&self) -> bool {
        true
    }

    open spec fn chunks(&self) -> Seq<BinaryView> {
        Seq::empty()
    }

    open spec fn open(&self) -> bool {
        false
    }

    fn feed(&mut self, buffer: &mut Vec<u8>) -> (r: Result<bool, Error>) {
        Err(Error::PeerGone)
    }
}

impl MemoryStream {
    /// The stream of the bytes of `buffer`, which ends behind them.
    pub fn new(buffer: Vec<u8>) -> (stream: Stream<MemoryStream>)
        ensures
            stream.wf(),
            stream@ == (Model {
                ready: buffer@,
                ended: true,
                chunks: Seq::empty(),
                open: false,
            }),
    {
        Stream::over(buffer, MemoryStream {  })
    }
}

} // verus!
