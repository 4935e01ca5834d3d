//! What a backing device holds, and what it is asked to do.
//!
//! The library does no I/O of its own. A device is modelled as the bytes
//! it holds; an operation hands out requests, whoever runs it carries them
//! out on the device and hands back what was read.
use vstd::prelude::*;

verus! {

/// `bytes` is what a device that holds `dev` answers to a read of `len`
/// bytes at `offset`.
pub open spec fn answers(dev: Seq<u8>, offset: int, len: int, bytes: Seq<u8>) -> bool {
    &&& 0 <= offset
    &&& 0 <= len
    &&& offset + len <= dev.len()
    &&& bytes == dev.subrange(offset, offset + len)
}

/// What a device that held `dev` holds once `bytes` have been written at
/// `offset`: a write past the end makes the device longer.
pub open spec fn written(dev: Seq<u8>, offset: int, bytes: Seq<u8>) -> Seq<u8> {
    Seq::new(
        (if offset + bytes.len() > dev.len() {
            offset + bytes.len()
        } else {
            dev.len() as int
        }) as nat,
        |i: int| if offset <= i < offset + bytes.len() { bytes[i - offset] } else { dev[i] },
    )
}

/// `len` zero bytes.
pub open spec fn zeros(len: int) -> Seq<u8> {
    Seq::new(len as nat, |i: int| 0u8)
}

/// A vector of `len` zero bytes.
pub fn zero_bytes(len: usize) -> (r: Vec<u8>)
    ensures
        r@ == zeros(len as int),
{
    let r: Vec<u8> = vec![0u8; len];
    proof {
        assert(r@ =~= zeros(len as int));
    }
    r
}

} // verus!
