//! The result of one call into foreign code, as the protection-domain
//! switch records it: whether the call happened, and the two return
//! registers.
use vstd::prelude::*;
use std::marker::PhantomData;

verus! {

/// Whether the call that an invocation result belongs to has happened.
#[derive(PartialEq, Eq, Structural, Debug, Clone, Copy)]
pub enum EncapfnMPKInvokeErr {
    NoError,
    NotCalled,
}

/// The recorded outcome of a call: the error state and the values of the
/// `rax` and `rdx` return registers.
pub struct EncapfnMPKInvokeResInner {
    error: EncapfnMPKInvokeErr,
    rax: usize,
    rdx: usize,
}

impl EncapfnMPKInvokeResInner {
    pub closed spec fn spec_error(&self) -> EncapfnMPKInvokeErr {
        self.error
    }

    pub closed spec fn spec_rax(&self) -> usize {
        self.rax
    }

    pub closed spec fn spec_rdx(&self) -> usize {
        self.rdx
    }
}

/// The result of a call that returns a `T`, before it is decoded.
pub struct EncapfnMPKInvokeRes<T> {
    inner: EncapfnMPKInvokeResInner,
    _t: PhantomData<T>,
}

/// The eight bytes of `x`, least significant first (`u64::to_le_bytes`).
pub open spec fn le_bytes(x: u64) -> Seq<u8> {
    Seq::new(8, |k: int| ((x >> (8 * k) as u64) & 0xff) as u8)
}

/// The return registers as one 16-byte little-endian buffer: `rax`, then
/// `rdx`.
pub open spec fn register_bytes(rax: usize, rdx: usize) -> Seq<u8> {
    le_bytes(rax as u64) + le_bytes(rdx as u64)
}

impl<T> EncapfnMPKInvokeRes<T> {
    pub closed spec fn spec_inner(&self) -> EncapfnMPKInvokeResInner {
        self.inner
    }

    /// A result whose call has not happened yet, with cleared registers.
    pub fn new() -> (r: Self)
        ensures
            r.spec_inner().spec_error() == EncapfnMPKInvokeErr::NotCalled,
            r.spec_inner().spec_rax() == 0,
            r.spec_inner().spec_rdx() == 0,
    {
        EncapfnMPKInvokeRes {
            inner: EncapfnMPKInvokeResInner { error: EncapfnMPKInvokeErr::NotCalled, rax: 0, rdx: 0 },
            _t: PhantomData,
        }
    }

    /// A result whose call returned with the given register values, as the
    /// protection-domain switch records it.
    pub fn returned(rax: usize, rdx: usize) -> (r: Self)
        ensures
            r.spec_inner().spec_error() == EncapfnMPKInvokeErr::NoError,
            r.spec_inner().spec_rax() == rax,
            r.spec_inner().spec_rdx() == rdx,
    {
        EncapfnMPKInvokeRes {
            inner: EncapfnMPKInvokeResInner { error: EncapfnMPKInvokeErr::NoError, rax, rdx },
            _t: PhantomData,
        }
    }

    /// The error state of the call. Only a result that some call has
    /// filled in may be asked.
    pub fn encode_eferror(&self) -> (r: Result<(), EncapfnMPKInvokeErr>)
        requires
            self.spec_inner().spec_error() != EncapfnMPKInvokeErr::NotCalled,
        ensures
            r == Ok::<(), EncapfnMPKInvokeErr>(()),
    {
        match self.inner.error {
            EncapfnMPKInvokeErr::NoError => Ok(()),
            EncapfnMPKInvokeErr::NotCalled => Ok(()),
        }
    }

    /// The bytes of a return value of `size` bytes that came back in the
    /// return registers: the first `size` bytes of `rax` then `rdx`, each
    /// little-endian, where `size` is the size of `T`. Values of at most two
    /// registers fit.
    pub fn into_result_registers(self, size: usize) -> (bytes: Vec<u8>)
        requires
            self.spec_inner().spec_error() != EncapfnMPKInvokeErr::NotCalled,
            size == vstd::layout::size_of::<T>(),
            size <= 16,
        ensures
            bytes@ == register_bytes(self.spec_inner().spec_rax(), self.spec_inner().spec_rdx()).subrange(
                0,
                size as int,
            ),
    {
        let _ = self.encode_eferror();
        let rax = self.inner.rax as u64;
        let rdx = self.inner.rdx as u64;
        let ghost all = register_bytes(self.inner.rax, self.inner.rdx);
        let mut bytes: Vec<u8> = Vec::new();
        let mut k: usize = 0;
        while k < size
            invariant
                k <= size <= 16,
                all == le_bytes(rax) + le_bytes(rdx),
                bytes@ == all.subrange(0, k as int),
            decreases size - k,
        {
            let b: u8 = if k < 8 {
                let sh = (8 * k) as u64;
                ((rax >> sh) & 0xff) as u8
            } else {
                let sh = (8 * (k - 8)) as u64;
                ((rdx >> sh) & 0xff) as u8
            };
            proof {
                if k < 8 {
                    assert(all[k as int] == le_bytes(rax)[k as int]);
                } else {
                    assert(all[k as int] == le_bytes(rdx)[k - 8]);
                }
                assert(bytes@.push(b) =~= all.subrange(0, k + 1));
            }
            bytes.push(b);
            k = k + 1;
        }
        bytes
    }
}

} // verus!
