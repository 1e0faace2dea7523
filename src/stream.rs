//! The bound on reads from a stream-backed body: a body with a declared length
//! yields exactly that many bytes of its stream, one without yields the
//! stream up to its end.
use vstd::prelude::*;

verus! {

/// What is left to read of a stream-backed body.
pub struct StreamBound {
    left: Option<u64>,
}

impl StreamBound {
    /// The bytes still owed: a count where the length was declared.
    pub closed spec fn left(&self) -> Option<u64> {
        self.left
    }

    /// The bound of a body of the given declared length.
    pub fn new(length: Option<u64>) -> (r: StreamBound)
        ensures
            r.left() == length,
    {
        StreamBound { left: length }
    }

    /// How many bytes the next read may take into a buffer of `buf_len`.
    pub fn window(&self, buf_len: usize) -> (r: usize)
        ensures
            match self.left() {
                Some(n) => r as int == if n < buf_len {
                    n as int
                } else {
                    buf_len as int
                },
                None => r == buf_len,
            },
    {
        match self.left {
            Some(n) => if n < buf_len as u64 {
                n as usize
            } else {
                buf_len
            },
            None => buf_len,
        }
    }

    /// Records that a read returned `n` bytes.
    pub fn consumed(&mut self, n: usize)
        requires
            match old(self).left() {
                Some(k) => n <= k,
                None => true,
            },
        ensures
            final(self).left() == match old(self).left() {
                Some(k) => Some((k - n) as u64),
                None => None,
            },
    {
        match self.left {
            Some(k) => {
                self.left = Some(k - n as u64);
            },
            None => {},
        }
    }

    /// Whether the declared length has been read in full.
    pub fn is_done(&self) -> (r: bool)
        ensures
            r == (self.left() == Some(0u64)),
    {
        match self.left {
            Some(k) => k == 0,
            None => false,
        }
    }
}

} // verus!
