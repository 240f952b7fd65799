//! Length-bounded binary cursors for reading and writing record payloads.
//!
//! The decoder always knows how many bytes remain of the record it was given
//! and fails a read that would run past them; the encoder appends to a growing
//! buffer, so a raw write itself cannot fail.

use vstd::prelude::*;

use crate::errors::ProtoError;

verus! {

/// The two big-endian bytes of a 16-bit value, high byte first.
pub open spec fn u16_to_bytes(v: u16) -> Seq<u8> {
    seq![(v / 256) as u8, (v % 256) as u8]
}

/// The 16-bit value carried by two big-endian bytes.
pub open spec fn u16_from_bytes(hi: u8, lo: u8) -> u16 {
    (hi * 256 + lo) as u16
}

/// A read cursor over the remaining bytes of one record's payload.
pub struct BinDecoder<'a> {
    buffer: &'a [u8],
}

impl<'a> View for BinDecoder<'a> {
    type V = Seq<u8>;

    closed spec fn view(&self) -> Seq<u8> {
        self.buffer@
    }
}

impl<'a> BinDecoder<'a> {
    /// A cursor over the whole of `bytes`.
    pub fn new(bytes: &'a [u8]) -> (r: Self)
        ensures
            r@ == bytes@,
    {
        BinDecoder { buffer: bytes }
    }

    /// How many bytes remain unread.
    pub fn len(&self) -> (r: usize)
        ensures
            r == self@.len(),
    {
        self.buffer.len()
    }

    /// Reads one byte, or fails when none remain.
    pub fn read_u8(&mut self) -> (r: Result<u8, ProtoError>)
        ensures
            match r {
                Ok(b) => old(self)@.len() >= 1 && b == old(self)@[0] && final(self)@ == old(self)@.skip(
                    1,
                ),
                Err(e) => old(self)@.len() == 0 && e == ProtoError::BufferUnderflow && final(self)@ == old(
                    self,
                )@,
            },
    {
        if self.buffer.len() < 1 {
            return Err(ProtoError::BufferUnderflow);
        }
        let b = *vstd::slice::slice_index_get(self.buffer, 0);
        self.buffer = vstd::slice::slice_subrange(self.buffer, 1, self.buffer.len());
        Ok(b)
    }

    /// Reads a big-endian 16-bit value, or fails when fewer than two bytes
    /// remain.
    pub fn read_u16(&mut self) -> (r: Result<u16, ProtoError>)
        ensures
            match r {
                Ok(v) => old(self)@.len() >= 2 && v == u16_from_bytes(
                    old(self)@[0],
                    old(self)@[1],
                ) && final(self)@ == old(self)@.skip(2),
                Err(e) => old(self)@.len() < 2 && e == ProtoError::BufferUnderflow && final(self)@ == old(
                    self,
                )@,
            },
    {
        if self.buffer.len() < 2 {
            return Err(ProtoError::BufferUnderflow);
        }
        let hi = *vstd::slice::slice_index_get(self.buffer, 0);
        let lo = *vstd::slice::slice_index_get(self.buffer, 1);
        self.buffer = vstd::slice::slice_subrange(self.buffer, 2, self.buffer.len());
        Ok((hi as u16) * 256 + (lo as u16))
    }

    /// Reads exactly `count` raw bytes, or fails when fewer remain.
    pub fn read_vec(&mut self, count: usize) -> (r: Result<Vec<u8>, ProtoError>)
        ensures
            match r {
                Ok(bytes) => old(self)@.len() >= count && bytes@ == old(self)@.take(
                    count as int,
                ) && final(self)@ == old(self)@.skip(count as int),
                Err(e) => old(self)@.len() < count && e == ProtoError::BufferUnderflow
                    && final(self)@ == old(self)@,
            },
    {
        if self.buffer.len() < count {
            return Err(ProtoError::BufferUnderflow);
        }
        let mut bytes: Vec<u8> = Vec::new();
        let mut i: usize = 0;
        while i < count
            invariant
                i <= count,
                count <= self.buffer@.len(),
                bytes@ == self.buffer@.take(i as int),
            decreases count - i,
        {
            bytes.push(*vstd::slice::slice_index_get(self.buffer, i));
            i = i + 1;
            proof {
                assert(bytes@ =~= self.buffer@.take(i as int));
            }
        }
        self.buffer = vstd::slice::slice_subrange(self.buffer, count, self.buffer.len());
        Ok(bytes)
    }
}

/// A write cursor that appends a record's payload to a growing buffer.
pub struct BinEncoder {
    bytes: Vec<u8>,
    canonical_names: bool,
}

impl View for BinEncoder {
    type V = Seq<u8>;

    closed spec fn view(&self) -> Seq<u8> {
        self.bytes@
    }
}

impl BinEncoder {
    /// Whether names are to be emitted in canonical (lowercase) form.
    pub closed spec fn spec_canonical_names(&self) -> bool {
        self.canonical_names
    }

    /// An empty encoder with canonical-name emission off.
    pub fn new() -> (r: Self)
        ensures
            r@ == Seq::<u8>::empty(),
            !r.spec_canonical_names(),
    {
        BinEncoder { bytes: Vec::new(), canonical_names: false }
    }

    /// An empty encoder; `canonical_names` asks for lowercase name emission,
    /// as cryptographic signing contexts require.
    pub fn with_canonical_names(canonical_names: bool) -> (r: Self)
        ensures
            r@ == Seq::<u8>::empty(),
            r.spec_canonical_names() == canonical_names,
    {
        BinEncoder { bytes: Vec::new(), canonical_names }
    }

    /// Whether this encoder was configured for canonical-name emission.
    pub fn is_canonical_names(&self) -> (r: bool)
        ensures
            r == self.spec_canonical_names(),
    {
        self.canonical_names
    }

    /// Appends one byte.
    pub fn emit_u8(&mut self, b: u8)
        ensures
            final(self)@ == old(self)@ + seq![b],
            final(self).spec_canonical_names() == old(self).spec_canonical_names(),
    {
        self.bytes.push(b);
        proof {
            assert(self@ =~= old(self)@ + seq![b]);
        }
    }

    /// Appends a 16-bit value, big-endian.
    pub fn emit_u16(&mut self, v: u16)
        ensures
            final(self)@ == old(self)@ + u16_to_bytes(v),
            final(self).spec_canonical_names() == old(self).spec_canonical_names(),
    {
        self.bytes.push((v / 256) as u8);
        self.bytes.push((v % 256) as u8);
        proof {
            assert(self@ =~= old(self)@ + u16_to_bytes(v));
        }
    }

    /// Appends raw bytes unchanged.
    pub fn emit_bytes(&mut self, bytes: &[u8])
        ensures
            final(self)@ == old(self)@ + bytes@,
            final(self).spec_canonical_names() == old(self).spec_canonical_names(),
    {
        self.bytes.extend_from_slice(bytes);
    }

    /// Hands the written bytes out.
    pub fn into_bytes(self) -> (r: Vec<u8>)
        ensures
            r@ == self@,
    {
        self.bytes
    }
}

} // verus!
