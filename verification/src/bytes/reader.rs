use crate::bytes::codec::{
    be_value, decode_be, decode_le, le_value, lemma_le_value_bound, lemma_pow256_values,
};
use crate::error::Result;
use vstd::prelude::*;

verus! {

/// A source of bytes that reads consume in order.
///
/// A read that fails consumes nothing; a read of more bytes than remain fails.
pub trait ByteReader: Sized {
    /// The bytes that reads would deliver, in order.
    spec fn remaining(&self) -> Seq<u8>;

    /// Reads one byte.
    fn read_u8(&mut self) -> (r: Result<u8>)
        ensures
            r matches Ok(b) ==> old(self).remaining().len() > 0 && b == old(self).remaining()[0]
                && (*final(self)).remaining() == old(self).remaining().drop_first(),
            r is Err ==> (*final(self)).remaining() == old(self).remaining(),
            old(self).remaining().len() == 0 ==> r is Err,
    ;

    /// Fills `dest` with the next `dest.len()` bytes.
    fn read_bytes(&mut self, dest: &mut [u8]) -> (r: Result<()>)
        ensures
            final(dest)@.len() == old(dest)@.len(),
            r is Ok ==> old(dest)@.len() <= old(self).remaining().len() && final(dest)@ == old(
                self,
            ).remaining().take(old(dest)@.len() as int) && (*final(self)).remaining() == old(
                self,
            ).remaining().skip(old(dest)@.len() as int),
            r is Err ==> (*final(self)).remaining() == old(self).remaining() && final(dest)@ == old(
                dest,
            )@,
            old(dest)@.len() > old(self).remaining().len() ==> r is Err,
    ;

    /// Reads a `u16`, least significant byte first.
    fn read_u16_le(&mut self) -> (r: Result<u16>)
        ensures
            r matches Ok(v) ==> consumed(old(self).remaining(), (*final(self)).remaining(), 2)
                && v == le_value(old(self).remaining().take(2)),
            r is Err ==> (*final(self)).remaining() == old(self).remaining(),
            old(self).remaining().len() < 2 ==> r is Err,
    {
        let mut buf: Vec<u8> = vec![0u8; 2];
        self.read_bytes(buf.as_mut_slice())?;
        proof {
            lemma_word_bound(buf@, false);
        }
        let v = decode_le(buf.as_slice());
        Ok(v as u16)
    }

    /// Reads a `u16`, most significant byte first.
    fn read_u16_be(&mut self) -> (r: Result<u16>)
        ensures
            r matches Ok(v) ==> consumed(old(self).remaining(), (*final(self)).remaining(), 2)
                && v == be_value(old(self).remaining().take(2)),
            r is Err ==> (*final(self)).remaining() == old(self).remaining(),
            old(self).remaining().len() < 2 ==> r is Err,
    {
        let mut buf: Vec<u8> = vec![0u8; 2];
        self.read_bytes(buf.as_mut_slice())?;
        proof {
            lemma_word_bound(buf@, true);
        }
        let v = decode_be(buf.as_slice());
        Ok(v as u16)
    }

    /// Reads a `u32`, least significant byte first.
    fn read_u32_le(&mut self) -> (r: Result<u32>)
        ensures
            r matches Ok(v) ==> consumed(old(self).remaining(), (*final(self)).remaining(), 4)
                && v == le_value(old(self).remaining().take(4)),
            r is Err ==> (*final(self)).remaining() == old(self).remaining(),
            old(self).remaining().len() < 4 ==> r is Err,
    {
        let mut buf: Vec<u8> = vec![0u8; 4];
        self.read_bytes(buf.as_mut_slice())?;
        proof {
            lemma_word_bound(buf@, false);
        }
        let v = decode_le(buf.as_slice());
        Ok(v as u32)
    }

    /// Reads a `u32`, most significant byte first.
    fn read_u32_be(&mut self) -> (r: Result<u32>)
        ensures
            r matches Ok(v) ==> consumed(old(self).remaining(), (*final(self)).remaining(), 4)
                && v == be_value(old(self).remaining().take(4)),
            r is Err ==> (*final(self)).remaining() == old(self).remaining(),
            old(self).remaining().len() < 4 ==> r is Err,
    {
        let mut buf: Vec<u8> = vec![0u8; 4];
        self.read_bytes(buf.as_mut_slice())?;
        proof {
            lemma_word_bound(buf@, true);
        }
        let v = decode_be(buf.as_slice());
        Ok(v as u32)
    }

    /// Reads a `u64`, least significant byte first.
    fn read_u64_le(&mut self) -> (r: Result<u64>)
        ensures
            r matches Ok(v) ==> consumed(old(self).remaining(), (*final(self)).remaining(), 8)
                && v == le_value(old(self).remaining().take(8)),
            r is Err ==> (*final(self)).remaining() == old(self).remaining(),
            old(self).remaining().len() < 8 ==> r is Err,
    {
        let mut buf: Vec<u8> = vec![0u8; 8];
        self.read_bytes(buf.as_mut_slice())?;
        proof {
            lemma_word_bound(buf@, false);
        }
        let v = decode_le(buf.as_slice());
        Ok(v)
    }

    /// Reads a `u64`, most significant byte first.
    fn read_u64_be(&mut self) -> (r: Result<u64>)
        ensures
            r matches Ok(v) ==> consumed(old(self).remaining(), (*final(self)).remaining(), 8)
                && v == be_value(old(self).remaining().take(8)),
            r is Err ==> (*final(self)).remaining() == old(self).remaining(),
            old(self).remaining().len() < 8 ==> r is Err,
    {
        let mut buf: Vec<u8> = vec![0u8; 8];
        self.read_bytes(buf.as_mut_slice())?;
        proof {
            lemma_word_bound(buf@, true);
        }
        let v = decode_be(buf.as_slice());
        Ok(v)
    }

    /// Reads an `i32` in two's complement, least significant byte first.
    fn read_i32_le(&mut self) -> (r: Result<i32>)
        ensures
            r matches Ok(v) ==> consumed(old(self).remaining(), (*final(self)).remaining(), 4)
                && v == (le_value(old(self).remaining().take(4)) as u32) as i32,
            r is Err ==> (*final(self)).remaining() == old(self).remaining(),
            old(self).remaining().len() < 4 ==> r is Err,
    {
        let mut buf: Vec<u8> = vec![0u8; 4];
        self.read_bytes(buf.as_mut_slice())?;
        proof {
            lemma_word_bound(buf@, false);
        }
        let v = decode_le(buf.as_slice());
        Ok((v as u32) as i32)
    }

    /// Reads an `i32` in two's complement, most significant byte first.
    fn read_i32_be(&mut self) -> (r: Result<i32>)
        ensures
            r matches Ok(v) ==> consumed(old(self).remaining(), (*final(self)).remaining(), 4)
                && v == (be_value(old(self).remaining().take(4)) as u32) as i32,
            r is Err ==> (*final(self)).remaining() == old(self).remaining(),
            old(self).remaining().len() < 4 ==> r is Err,
    {
        let mut buf: Vec<u8> = vec![0u8; 4];
        self.read_bytes(buf.as_mut_slice())?;
        proof {
            lemma_word_bound(buf@, true);
        }
        let v = decode_be(buf.as_slice());
        Ok((v as u32) as i32)
    }

    /// Reads an `i64` in two's complement, least significant byte first.
    fn read_i64_le(&mut self) -> (r: Result<i64>)
        ensures
            r matches Ok(v) ==> consumed(old(self).remaining(), (*final(self)).remaining(), 8)
                && v == (le_value(old(self).remaining().take(8)) as u64) as i64,
            r is Err ==> (*final(self)).remaining() == old(self).remaining(),
            old(self).remaining().len() < 8 ==> r is Err,
    {
        let mut buf: Vec<u8> = vec![0u8; 8];
        self.read_bytes(buf.as_mut_slice())?;
        proof {
            lemma_word_bound(buf@, false);
        }
        let v = decode_le(buf.as_slice());
        Ok(v as i64)
    }

    /// Reads an `i64` in two's complement, most significant byte first.
    fn read_i64_be(&mut self) -> (r: Result<i64>)
        ensures
            r matches Ok(v) ==> consumed(old(self).remaining(), (*final(self)).remaining(), 8)
                && v == (be_value(old(self).remaining().take(8)) as u64) as i64,
            r is Err ==> (*final(self)).remaining() == old(self).remaining(),
            old(self).remaining().len() < 8 ==> r is Err,
    {
        let mut buf: Vec<u8> = vec![0u8; 8];
        self.read_bytes(buf.as_mut_slice())?;
        proof {
            lemma_word_bound(buf@, true);
        }
        let v = decode_be(buf.as_slice());
        Ok(v as i64)
    }
}

/// A read of `n` bytes took them off the front of `before`, leaving `after`.
pub open spec fn consumed(before: Seq<u8>, after: Seq<u8>, n: nat) -> bool {
    &&& n <= before.len()
    &&& after == before.skip(n as int)
}

/// A word of `n` bytes is below `256^n`.
proof fn lemma_word_bound(s: Seq<u8>, big_endian: bool)
    requires
        s.len() <= 8,
    ensures
        s.len() == 2 ==> (if big_endian {
            be_value(s)
        } else {
            le_value(s)
        }) < 0x1_0000,
        s.len() == 4 ==> (if big_endian {
            be_value(s)
        } else {
            le_value(s)
        }) < 0x1_0000_0000,
{
    lemma_le_value_bound(s);
    lemma_le_value_bound(s.reverse());
    lemma_pow256_values();
}

} // verus!
