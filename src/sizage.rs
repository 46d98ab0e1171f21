use vstd::prelude::*;

verus! {

/// Structural sizes of one code, in characters of the text form, and
/// the number of zero lead bytes put before the raw payload.
#[derive(Clone, Copy, Debug, PartialEq, Eq, Structural)]
pub struct Sizage {
    /// Hard size: characters of the header.
    pub hs: usize,
    /// Soft size: characters of the soft (count) part of the header.
    pub ss: usize,
    /// Full size: characters of the whole encoding.
    pub fs: usize,
    /// Lead size: zero bytes prepended to the raw payload.
    pub ls: usize,
}

impl Sizage {
    pub fn new(hs: usize, ss: usize, fs: usize, ls: usize) -> (r: Sizage)
        ensures
            r == (Sizage { hs, ss, fs, ls }),
    {
        Sizage { hs, ss, fs, ls }
    }
}

} // verus!
