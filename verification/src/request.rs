//! The payload of a `request` (or `cancel`) message: piece index, byte
//! offset within the piece, and block length, each big-endian.

use vstd::prelude::*;
use crate::message::{push_u32_be, u32_be_bytes};

verus! {

/// A block request.
#[derive(Debug)]
pub struct Request {
    pub index: u32,
    pub begin: u32,
    pub length: u32,
}

impl Request {
    pub fn new(index: u32, begin: u32, length: u32) -> (r: Request)
        ensures
            r.index == index,
            r.begin == begin,
            r.length == length,
    {
        Request { index, begin, length }
    }

    /// The 12-byte payload: index, begin, length, big-endian each.
    pub fn as_bytes(&self) -> (r: Vec<u8>)
        ensures
            r@ == u32_be_bytes(self.index) + u32_be_bytes(self.begin) + u32_be_bytes(self.length),
    {
        let mut bytes: Vec<u8> = Vec::new();
        push_u32_be(&mut bytes, self.index);
        push_u32_be(&mut bytes, self.begin);
        push_u32_be(&mut bytes, self.length);
        bytes
    }
}

} // verus!
