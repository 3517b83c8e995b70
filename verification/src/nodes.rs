use vstd::prelude::*;

verus! {

/// Configuration of a summing mixer node: how many output channels it
/// fills.  The sample processing itself works on floating-point buffers
/// and lives with the host application.
#[derive(Debug)]
pub struct Add {
    /// The number of output channels.
    pub channels: usize,
}

impl Add {
    /// A summing node with the given channel count.
    pub fn new(channels: u16) -> (r: Add)
        ensures
            r.channels == channels as usize,
    {
        Add { channels: channels as usize }
    }
}

/// Configuration of a multiplying mixer node: how many output channels it
/// fills.
#[derive(Debug)]
pub struct Multiply {
    /// The number of output channels.
    pub channels: usize,
}

impl Multiply {
    /// A multiplying node with the given channel count.
    pub fn new(channels: u16) -> (r: Multiply)
        ensures
            r.channels == channels as usize,
    {
        Multiply { channels: channels as usize }
    }
}

} // verus!
