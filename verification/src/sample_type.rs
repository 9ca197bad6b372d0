use vstd::prelude::*;

verus! {

/// Encoding of one sample; the number is its width in bits.
#[derive(Clone, Copy, Debug, PartialEq, Eq, Structural)]
pub enum SampleType {
    Unknown,
    Unsigned(usize),
    Signed(usize),
    Float(usize),
}

/// Width in bits of one sample of type `t`; an undeclared type has none.
pub open spec fn bits(t: SampleType) -> nat {
    match t {
        SampleType::Unknown => 0,
        SampleType::Unsigned(n) => n as nat,
        SampleType::Signed(n) => n as nat,
        SampleType::Float(n) => n as nat,
    }
}

/// Width in bits of one sample of type `t`.
pub fn size(t: SampleType) -> (n: usize)
    ensures
        n == bits(t),
{
    match t {
        SampleType::Unknown => 0,
        SampleType::Unsigned(n) => n,
        SampleType::Signed(n) => n,
        SampleType::Float(n) => n,
    }
}

} // verus!
