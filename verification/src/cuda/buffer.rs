//! Device memory.

use super::CUDART_OK;
use vstd::prelude::*;

verus! {

/// What a device allocation call came back with: its status code and the device
/// address, `0` for none.
#[derive(Clone, Copy, Debug)]
pub struct Allocation {
    pub code: i32,
    pub ptr: u64,
}

impl Allocation {
    /// The call handed out memory.
    pub open spec fn succeeded(self) -> bool {
        self.code == CUDART_OK && self.ptr != 0
    }
}

/// A grow-only device allocation of `u64`s.
#[derive(Debug)]
pub struct CudaBuffer {
    ptr: u64,
    len: usize,
}

impl CudaBuffer {
    /// Only the empty buffer has no memory.
    #[verifier::type_invariant]
    spec fn inv(self) -> bool {
        self.ptr == 0 <==> self.len == 0
    }

    /// The device address.
    pub closed spec fn addr(&self) -> u64 {
        self.ptr
    }

    /// The number of words.
    pub closed spec fn words(&self) -> usize {
        self.len
    }

    /// How many bytes to allocate before a buffer of `len` words can be made,
    /// if any.
    pub fn request(len: usize) -> (r: Option<usize>)
        requires
            len * 8 <= usize::MAX,
        ensures
            r == (if len == 0 {
                None
            } else {
                Some((len * 8) as usize)
            }),
    {
        if len == 0 {
            return None;
        }
        Some(len * 8)
    }

    /// A buffer of `len` words in the memory that was allocated for it. The
    /// empty buffer needs none.
    pub fn new(len: usize, memory: Allocation) -> (r: Option<CudaBuffer>)
        ensures
            r is Some <==> len == 0 || memory.succeeded(),
            r matches Some(b) ==> b.words() == len && b.addr() == (if len == 0 {
                0
            } else {
                memory.ptr
            }),
    {
        if len == 0 {
            return Some(CudaBuffer { ptr: 0, len: 0 });
        }
        if memory.code != CUDART_OK || memory.ptr == 0 {
            return None;
        }
        Some(CudaBuffer { ptr: memory.ptr, len })
    }

    pub fn ptr(&self) -> (r: u64)
        ensures
            r == self.addr(),
            r == 0 <==> self.words() == 0,
    {
        proof {
            use_type_invariant(self);
        }
        self.ptr
    }

    pub fn len(&self) -> (r: usize)
        ensures
            r == self.words(),
    {
        self.len
    }

    /// How many bytes to allocate before the buffer can grow to `len` words, if
    /// it is not that large already.
    pub fn growth(&self, len: usize) -> (r: Option<usize>)
        requires
            len * 8 <= usize::MAX,
        ensures
            r == (if len <= self.words() {
                None
            } else {
                Some((len * 8) as usize)
            }),
    {
        if len <= self.len {
            return None;
        }
        Self::request(len)
    }

    /// Grows the buffer to `len` words in newly allocated memory, unless it is
    /// that large already. Where the memory was not to be had, the buffer stays
    /// as it was.
    pub fn grow(&mut self, len: usize, memory: Allocation) -> (r: Option<()>)
        ensures
            r is Some <==> len <= old(self).words() || memory.succeeded(),
            len <= old(self).words() || !memory.succeeded() ==> *final(self) == *old(self),
            old(self).words() < len && memory.succeeded() ==> final(self).words() == len
                && final(self).addr() == memory.ptr,
            r is Some ==> len <= final(self).words(),
            old(self).words() <= final(self).words(),
    {
        if len <= self.len {
            return Some(());
        }
        match Self::new(len, memory) {
            None => None,
            Some(bigger) => {
                *self = bigger;
                Some(())
            },
        }
    }
}

} // verus!
