//! Primitive little-endian reads and writes over a byte buffer.
//!
//! [`BinaryCursor`] is a sequential, forward-only reader.  The spec
//! functions `p_u32`, `p_bytes` and `p_lp` are the mathematical counterparts
//! of its reads: each takes the whole buffer and a position and yields the
//! value read together with the position after it, or `None` when the input
//! is too short.  The write side only appends to a `Vec<u8>`.

use vstd::bytes::{
    spec_u32_from_le_bytes, spec_u32_to_le_bytes, u32_from_le_bytes, u32_to_le_bytes,
};
use vstd::prelude::*;
use vstd::slice::{slice_subrange, slice_to_vec};
use vstd::string::StringSliceAdditionalSpecFns;
use vstd::utf8::{decode_utf8, valid_utf8};

use crate::errors::KshError;
use crate::strutil::string_from_utf8;

verus! {

/// Little-endian read of a `u32` at position `i` of `b`.
pub open spec fn p_u32(b: Seq<u8>, i: int) -> Option<(u32, int)> {
    if 0 <= i && i + 4 <= b.len() {
        Some((spec_u32_from_le_bytes(b.subrange(i, i + 4)), i + 4))
    } else {
        None
    }
}

/// Read of `n` raw bytes at position `i` of `b`.
pub open spec fn p_bytes(b: Seq<u8>, i: int, n: int) -> Option<(Seq<u8>, int)> {
    if 0 <= i && 0 <= n && i + n <= b.len() {
        Some((b.subrange(i, i + n), i + n))
    } else {
        None
    }
}

/// Read of a length-prefixed byte block: a `u32` byte count, then that many
/// bytes.
pub open spec fn p_lp(b: Seq<u8>, i: int) -> Option<(Seq<u8>, int)> {
    match p_u32(b, i) {
        Some((n, j)) => p_bytes(b, j, n as int),
        None => None,
    }
}

/// The little-endian serialization of a length-prefixed byte block.
pub open spec fn spec_lp(payload: Seq<u8>) -> Seq<u8> {
    spec_u32_to_le_bytes(payload.len() as u32) + payload
}

/// A sequential forward-only reader over a byte buffer.
pub struct BinaryCursor<'a> {
    data: &'a [u8],
    pos: usize,
}

impl<'a> BinaryCursor<'a> {
    /// The whole underlying buffer.
    pub closed spec fn bytes(&self) -> Seq<u8> {
        self.data@
    }

    /// The current read position.
    pub closed spec fn position(&self) -> int {
        self.pos as int
    }

    /// The position never passes the end of the buffer.
    pub open spec fn wf(&self) -> bool {
        0 <= self.position() <= self.bytes().len()
    }

    /// A cursor at the start of `data`.
    pub fn new(data: &'a [u8]) -> (r: BinaryCursor<'a>)
        ensures
            r.bytes() == data@,
            r.position() == 0,
            r.wf(),
    {
        BinaryCursor { data, pos: 0 }
    }

    /// Consumes 4 bytes and returns them as a little-endian `u32`; fails
    /// without moving when fewer than 4 bytes remain.
    pub fn read_u32(&mut self) -> (r: Result<u32, KshError>)
        requires
            old(self).wf(),
        ensures
            final(self).wf(),
            final(self).bytes() == old(self).bytes(),
            r is Ok <==> p_u32(old(self).bytes(), old(self).position()) is Some,
            r matches Ok(x) ==> {
                let (v, j) = p_u32(old(self).bytes(), old(self).position())->Some_0;
                x == v && final(self).position() == j
            },
            r matches Err(e) ==> e == KshError::TruncatedInput && *final(self) == *old(self),
    {
        if self.data.len() - self.pos >= 4 {
            let s = slice_subrange(self.data, self.pos, self.pos + 4);
            let x = u32_from_le_bytes(s);
            self.pos = self.pos + 4;
            Ok(x)
        } else {
            Err(KshError::TruncatedInput)
        }
    }

    /// Consumes `n` bytes; fails without moving when fewer remain.
    pub fn read_bytes(&mut self, n: usize) -> (r: Result<Vec<u8>, KshError>)
        requires
            old(self).wf(),
        ensures
            final(self).wf(),
            final(self).bytes() == old(self).bytes(),
            r is Ok <==> p_bytes(old(self).bytes(), old(self).position(), n as int) is Some,
            r matches Ok(v) ==> {
                let (payload, j) = p_bytes(old(self).bytes(), old(self).position(), n as int)->Some_0;
                v@ == payload && final(self).position() == j
            },
            r matches Err(e) ==> e == KshError::TruncatedInput && *final(self) == *old(self),
    {
        if self.data.len() - self.pos >= n {
            let s = slice_subrange(self.data, self.pos, self.pos + n);
            let v = slice_to_vec(s);
            self.pos = self.pos + n;
            Ok(v)
        } else {
            Err(KshError::TruncatedInput)
        }
    }

    /// Reads a `u32` byte count, that many bytes, and decodes them as UTF-8.
    /// Fails with `TruncatedInput` when the buffer is too short and with
    /// `InvalidEncoding` when the bytes are not UTF-8.
    pub fn read_string(&mut self) -> (r: Result<String, KshError>)
        requires
            old(self).wf(),
        ensures
            final(self).wf(),
            final(self).bytes() == old(self).bytes(),
            r is Ok <==> (p_lp(old(self).bytes(), old(self).position()) matches Some((payload, _))
                && valid_utf8(payload)),
            r matches Ok(s) ==> {
                let (payload, j) = p_lp(old(self).bytes(), old(self).position())->Some_0;
                s@ == decode_utf8(payload) && final(self).position() == j
            },
            r matches Err(e) ==> match p_lp(old(self).bytes(), old(self).position()) {
                Some((payload, _)) => e == KshError::InvalidEncoding && !valid_utf8(payload),
                None => e == KshError::TruncatedInput,
            },
    {
        let n = match self.read_u32() {
            Ok(x) => x,
            Err(e) => {
                return Err(e);
            },
        };
        let bytes = match self.read_bytes(n as usize) {
            Ok(v) => v,
            Err(e) => {
                return Err(e);
            },
        };
        match string_from_utf8(bytes) {
            Some(s) => Ok(s),
            None => Err(KshError::InvalidEncoding),
        }
    }
}

/// Appends the 4 little-endian bytes of `x`.
pub fn write_u32(buf: &mut Vec<u8>, x: u32)
    ensures
        final(buf)@ == old(buf)@ + spec_u32_to_le_bytes(x),
{
    let bytes = u32_to_le_bytes(x);
    buf.extend_from_slice(bytes.as_slice());
}

/// Appends a length-prefixed byte block: the byte count, then the bytes.
pub fn write_lp_bytes(buf: &mut Vec<u8>, payload: &[u8])
    requires
        payload@.len() <= u32::MAX,
    ensures
        final(buf)@ == old(buf)@ + spec_lp(payload@),
{
    write_u32(buf, payload.len() as u32);
    buf.extend_from_slice(payload);
    proof {
        assert(buf@ =~= old(buf)@ + spec_lp(payload@));
    }
}

/// Appends a length-prefixed string: the UTF-8 byte count, then the bytes.
pub fn write_lp_str(buf: &mut Vec<u8>, s: &str)
    requires
        s.spec_bytes().len() <= u32::MAX,
    ensures
        final(buf)@ == old(buf)@ + spec_lp(s.spec_bytes()),
{
    write_lp_bytes(buf, s.as_bytes());
}

} // verus!
