use vstd::prelude::*;

verus! {

/// A stack: a buffer of `size` bytes at `base`, or none.
#[derive(Debug, Clone, Copy)]
pub struct Stack {
    pub buffer: Option<(u64, u64)>,
}

impl Stack {
    /// A stack over the `size` bytes at `base`.
    pub fn new(base: u64, size: u64) -> (r: Stack)
        ensures
            r.buffer == Some((base, size)),
    {
        Stack { buffer: Some((base, size)) }
    }

    /// A stand-in with no buffer.
    pub fn dummy() -> (r: Stack)
        ensures
            r.buffer is None,
    {
        Stack { buffer: None }
    }

    /// The top of the stack, the end of its buffer; zero for a stand-in.
    pub fn get_ptr(&self) -> (r: u64)
        requires
            self.buffer matches Some(b) ==> b.0 + b.1 <= u64::MAX,
        ensures
            r == match self.buffer {
                Some(b) => (b.0 + b.1) as u64,
                None => 0,
            },
    {
        match self.buffer {
            Some(b) => b.0 + b.1,
            None => 0,
        }
    }
}

} // verus!
