use crate::bytes::codec::{be_bytes, encode_be, encode_le, le_bytes};
use crate::error::Result;
use vstd::prelude::*;

verus! {

/// A destination of bytes that writes append to, in order.
///
/// A write that fails appends nothing.
pub trait ByteWriter: Sized {
    /// The writer is in a state that writes accept.
    spec fn writer_wf(&self) -> bool;

    /// The bytes written so far, in order.
    spec fn written(&self) -> Seq<u8>;

    /// Writes one byte.
    fn write_u8(&mut self, val: u8) -> (r: Result<()>)
        requires
            old(self).writer_wf(),
        ensures
            final(self).writer_wf(),
            r is Ok ==> (*final(self)).written() == old(self).written().push(val),
            r is Err ==> (*final(self)).written() == old(self).written(),
    ;

    /// Writes the bytes of `src`.
    fn write_bytes(&mut self, src: &[u8]) -> (r: Result<()>)
        requires
            old(self).writer_wf(),
        ensures
            final(self).writer_wf(),
            r is Ok ==> (*final(self)).written() == old(self).written() + src@,
            r is Err ==> (*final(self)).written() == old(self).written(),
    ;

    /// Writes a `u16`, least significant byte first.
    fn write_u16_le(&mut self, val: u16) -> (r: Result<()>)
        requires
            old(self).writer_wf(),
        ensures
            final(self).writer_wf(),
            r is Ok ==> (*final(self)).written() == old(self).written() + le_bytes(val as nat, 2),
            r is Err ==> (*final(self)).written() == old(self).written(),
    {
        let bytes = encode_le(val as u64, 2);
        self.write_bytes(bytes.as_slice())
    }

    /// Writes a `u16`, most significant byte first.
    fn write_u16_be(&mut self, val: u16) -> (r: Result<()>)
        requires
            old(self).writer_wf(),
        ensures
            final(self).writer_wf(),
            r is Ok ==> (*final(self)).written() == old(self).written() + be_bytes(val as nat, 2),
            r is Err ==> (*final(self)).written() == old(self).written(),
    {
        let bytes = encode_be(val as u64, 2);
        self.write_bytes(bytes.as_slice())
    }

    /// Writes a `u32`, least significant byte first.
    fn write_u32_le(&mut self, val: u32) -> (r: Result<()>)
        requires
            old(self).writer_wf(),
        ensures
            final(self).writer_wf(),
            r is Ok ==> (*final(self)).written() == old(self).written() + le_bytes(val as nat, 4),
            r is Err ==> (*final(self)).written() == old(self).written(),
    {
        let bytes = encode_le(val as u64, 4);
        self.write_bytes(bytes.as_slice())
    }

    /// Writes a `u32`, most significant byte first.
    fn write_u32_be(&mut self, val: u32) -> (r: Result<()>)
        requires
            old(self).writer_wf(),
        ensures
            final(self).writer_wf(),
            r is Ok ==> (*final(self)).written() == old(self).written() + be_bytes(val as nat, 4),
            r is Err ==> (*final(self)).written() == old(self).written(),
    {
        let bytes = encode_be(val as u64, 4);
        self.write_bytes(bytes.as_slice())
    }

    /// Writes a `u64`, least significant byte first.
    fn write_u64_le(&mut self, val: u64) -> (r: Result<()>)
        requires
            old(self).writer_wf(),
        ensures
            final(self).writer_wf(),
            r is Ok ==> (*final(self)).written() == old(self).written() + le_bytes(val as nat, 8),
            r is Err ==> (*final(self)).written() == old(self).written(),
    {
        let bytes = encode_le(val, 8);
        self.write_bytes(bytes.as_slice())
    }

    /// Writes a `u64`, most significant byte first.
    fn write_u64_be(&mut self, val: u64) -> (r: Result<()>)
        requires
            old(self).writer_wf(),
        ensures
            final(self).writer_wf(),
            r is Ok ==> (*final(self)).written() == old(self).written() + be_bytes(val as nat, 8),
            r is Err ==> (*final(self)).written() == old(self).written(),
    {
        let bytes = encode_be(val, 8);
        self.write_bytes(bytes.as_slice())
    }

    /// Writes an `i32` in two's complement, least significant byte first.
    fn write_i32_le(&mut self, val: i32) -> (r: Result<()>)
        requires
            old(self).writer_wf(),
        ensures
            final(self).writer_wf(),
            r is Ok ==> (*final(self)).written() == old(self).written() + le_bytes(
                (val as u32) as nat,
                4,
            ),
            r is Err ==> (*final(self)).written() == old(self).written(),
    {
        let bytes = encode_le((val as u32) as u64, 4);
        self.write_bytes(bytes.as_slice())
    }

    /// Writes an `i32` in two's complement, most significant byte first.
    fn write_i32_be(&mut self, val: i32) -> (r: Result<()>)
        requires
            old(self).writer_wf(),
        ensures
            final(self).writer_wf(),
            r is Ok ==> (*final(self)).written() == old(self).written() + be_bytes(
                (val as u32) as nat,
                4,
            ),
            r is Err ==> (*final(self)).written() == old(self).written(),
    {
        let bytes = encode_be((val as u32) as u64, 4);
        self.write_bytes(bytes.as_slice())
    }

    /// Writes an `i64` in two's complement, least significant byte first.
    fn write_i64_le(&mut self, val: i64) -> (r: Result<()>)
        requires
            old(self).writer_wf(),
        ensures
            final(self).writer_wf(),
            r is Ok ==> (*final(self)).written() == old(self).written() + le_bytes(
                (val as u64) as nat,
                8,
            ),
            r is Err ==> (*final(self)).written() == old(self).written(),
    {
        let bytes = encode_le(val as u64, 8);
        self.write_bytes(bytes.as_slice())
    }

    /// Writes an `i64` in two's complement, most significant byte first.
    fn write_i64_be(&mut self, val: i64) -> (r: Result<()>)
        requires
            old(self).writer_wf(),
        ensures
            final(self).writer_wf(),
            r is Ok ==> (*final(self)).written() == old(self).written() + be_bytes(
                (val as u64) as nat,
                8,
            ),
            r is Err ==> (*final(self)).written() == old(self).written(),
    {
        let bytes = encode_be(val as u64, 8);
        self.write_bytes(bytes.as_slice())
    }
}

} // verus!
