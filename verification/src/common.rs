//! The wire protocol's message types and framing.
//!
//! Each message on the wire is an eight-byte big-endian length followed by
//! that many bytes of payload. A request asks for one operation; a response
//! reports its outcome. The server answers one request per connection.

use vstd::prelude::*;

use crate::codec::{be64_bytes, be64_val, lemma_be64_inverse};

verus! {

/// A request sent by a client: one operation on the store.
#[derive(Debug)]
pub enum Request {
    /// Get the value of `key`.
    Get { key: String },
    /// Set `key` to `value`, overwriting any previous value.
    Put { key: String, value: String },
    /// Remove `key`.
    Remove { key: String },
}

/// A response sent by the server: the outcome of one operation.
#[derive(Debug)]
pub enum Response {
    /// The value the requested key held, if any.
    Get(Option<String>),
    /// The `Put` succeeded.
    Put,
    /// The `Remove` succeeded.
    Remove,
    /// The operation failed; the message says why.
    Failure(String),
}

/// The eight-byte big-endian length prefix that frames each wire message.
pub struct PacketSize(u64);

impl PacketSize {
    /// The framed length.
    pub closed spec fn spec_size(self) -> u64 {
        self.0
    }

    /// Frames a payload of `size` bytes.
    pub fn new(size: u64) -> (r: Self)
        ensures
            r.spec_size() == size,
    {
        PacketSize(size)
    }

    /// The eight big-endian digits of the framed length.
    pub fn to_bytes(&self) -> (r: [u8; 8])
        ensures
            r@ == be64_bytes(self.spec_size()),
    {
        let x = self.0;
        let r: [u8; 8] = [
            (x / 0x100000000000000 % 0x100) as u8,
            (x / 0x1000000000000 % 0x100) as u8,
            (x / 0x10000000000 % 0x100) as u8,
            (x / 0x100000000 % 0x100) as u8,
            (x / 0x1000000 % 0x100) as u8,
            (x / 0x10000 % 0x100) as u8,
            (x / 0x100 % 0x100) as u8,
            (x % 0x100) as u8,
        ];
        proof {
            assert(r@ =~= be64_bytes(x));
        }
        r
    }

    /// Reads a framed length from the first eight bytes of `bytes` and
    /// advances the slice past them.
    pub fn from_bytes(bytes: &mut &[u8]) -> (r: Self)
        requires
            old(bytes)@.len() >= 8,
        ensures
            r.spec_size() == be64_val(old(bytes)@.subrange(0, 8)),
            final(bytes)@ == old(bytes)@.skip(8),
    {
        let (head, rest) = bytes.split_at(8);
        let x: u64 = (head[0] as u64) * 0x100000000000000 + (head[1] as u64) * 0x1000000000000 + (
        head[2] as u64) * 0x10000000000 + (head[3] as u64) * 0x100000000 + (head[4] as u64)
            * 0x1000000 + (head[5] as u64) * 0x10000 + (head[6] as u64) * 0x100 + (head[7] as u64);
        proof {
            let s = old(bytes)@.subrange(0, 8);
            lemma_be64_inverse(s);
            assert(head@ =~= s);
            assert(rest@ =~= old(bytes)@.skip(8));
        }
        *bytes = rest;
        PacketSize(x)
    }

    /// The framed length.
    pub fn get_size(&self) -> (r: u64)
        ensures
            r == self.spec_size(),
    {
        self.0
    }
}

} // verus!
