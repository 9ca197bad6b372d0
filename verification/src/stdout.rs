//! The standard output stage, without the output: what it takes off its channel for a
//! write.

use crate::channel::Source;
use crate::error::Error;
use crate::file::{drain, drain_into};
use crate::{binary_views, Binary};
use vstd::prelude::*;

verus! {

/// The stage that takes records off a channel and writes their bytes to standard output.
pub struct Output {
    source: Source<Binary>,
}

impl Output {
    /// The channel is sound.
    pub closed spec fn wf(&self) -> bool {
        self.source.wf()
    }

    /// The channel that the stage reads from.
    pub closed spec fn source(&self) -> Source<Binary> {
        self.source
    }

    /// The stage in front of the first record.
    pub fn new(source: Source<Binary>) -> (stage: Output)
        requires
            source.wf(),
        ensures
            stage.wf(),
            stage.source() == source,
    {
        Output { source }
    }

    /// Lends the channel out, so that more records can be written to it.
    pub fn source_mut(&mut self) -> (source: &mut Source<Binary>)
        requires
            old(self).wf(),
        ensures
            *source == old(self).source(),
            final(self).source() == *final(source),
            final(source).wf() ==> final(self).wf(),
    {
        &mut self.source
    }

    /// Gives the channel back.
    pub fn into_source(self) -> (source: Source<Binary>)
        ensures
            source == self.source(),
            self.wf() ==> source.wf(),
    {
        self.source
    }

    /// Takes records off the channel and puts their bytes behind what `out` holds, for
    /// one write to standard output, until the terminal record has been taken.
    ///
    /// Fails when the records run out before that: with `PeerGone` if the producer is
    /// gone, with `WouldBlock` if it is still there. The records that were waiting are
    /// taken all the same, and a later call goes on behind them.
    pub fn run(&mut self, out: &mut Vec<u8>) -> (r: Result<(), Error>)
        requires
            old(self).wf(),
        ensures
            final(self).wf(),
            ({
                let run = drain(binary_views(old(self).source()@.pending));
                &&& final(out)@ == old(out)@ + run.bytes
                &&& final(self).source()@ == old(self).source()@.pop_many(run.consumed)
                &&& r == (if run.done {
                    Ok::<(), Error>(())
                } else if old(self).source()@.producer {
                    Err::<(), Error>(Error::WouldBlock)
                } else {
                    Err::<(), Error>(Error::PeerGone)
                })
            }),
    {
        drain_into(&mut self.source, out)
    }
}

} // verus!