use vstd::prelude::*;

verus! {

/// Byte order of the samples in an audio record.
#[derive(Clone, Copy, Debug, PartialEq, Eq, Structural)]
pub enum Endian {
    Big,
    Little,
}

} // verus!
