use crate::allocator::GlobalAlloc;
use crate::bytes::buffer::{grown_capacity, ByteBuffer};
use crate::error::{Error, Result};
use crate::string::small::{SmallString, INLINE_CAPACITY};
use crate::string::utf8::{encode_char, lemma_decode_concat, str_from_utf8};
use vstd::prelude::*;
use vstd::string::StringSliceAdditionalSpecFns;
use vstd::utf8::{decode_utf8, encode_utf8, valid_utf8};

verus! {

broadcast use vstd::utf8::group_utf8_lib;

/// Accumulates UTF-8 text in a byte buffer.
pub struct StringBuilder {
    buffer: ByteBuffer<GlobalAlloc>,
}

impl StringBuilder {
    /// The buffer is well formed and holds valid UTF-8.
    pub closed spec fn wf(&self) -> bool {
        &&& self.buffer.wf()
        &&& valid_utf8(self.buffer@)
    }

    /// The characters built so far.
    pub closed spec fn view(&self) -> Seq<char> {
        decode_utf8(self.buffer@)
    }

    /// The number of bytes the buffer can hold without growing.
    pub closed spec fn spec_capacity(&self) -> nat {
        self.buffer.spec_capacity()
    }

    /// Creates an empty builder without allocating.
    pub fn new() -> (r: Self)
        ensures
            r.wf(),
            r@ == Seq::<char>::empty(),
            r.spec_capacity() == 0,
    {
        StringBuilder { buffer: ByteBuffer::new(GlobalAlloc) }
    }

    /// Creates an empty builder whose buffer holds `capacity` bytes; fails with
    /// `CapacityOverflow` when `capacity` exceeds `isize::MAX`, or with the allocator's
    /// error.
    pub fn with_capacity(capacity: usize) -> (r: Result<Self>)
        ensures
            r matches Ok(b) ==> b.wf() && b@ == Seq::<char>::empty() && b.spec_capacity()
                == capacity,
            capacity == 0 ==> r is Ok,
            capacity > isize::MAX ==> r == Err::<Self, Error>(
                Error::CapacityOverflow { limit: usize::MAX, requested: capacity },
            ),
            r matches Err(e) ==> e == Error::AllocError || capacity > isize::MAX,
    {
        let buffer = ByteBuffer::with_capacity(capacity, GlobalAlloc)?;
        Ok(StringBuilder { buffer })
    }

    /// Returns the length of the text in bytes.
    pub fn len(&self) -> (r: usize)
        requires
            self.wf(),
        ensures
            r == encode_utf8(self@).len(),
    {
        self.buffer.len()
    }

    /// Returns `true` if no text has been added.
    pub fn is_empty(&self) -> (r: bool)
        requires
            self.wf(),
        ensures
            r == (self@.len() == 0),
    {
        proof {
            if self@.len() == 0 {
                assert(encode_utf8(self@) =~= Seq::<u8>::empty());
            }
        }
        self.buffer.is_empty()
    }

    /// Appends a character.
    pub fn push(&mut self, ch: char) -> (r: Result<()>)
        requires
            old(self).wf(),
        ensures
            final(self).wf(),
            r is Ok ==> final(self)@ == old(self)@.push(ch),
            r is Err ==> final(self)@ == old(self)@,
            encode_utf8(old(self)@).len() + encode_utf8(seq![ch]).len() <= old(self).spec_capacity()
                ==> r is Ok && final(self).spec_capacity() == old(self).spec_capacity(),
            r is Err ==> *final(self) == *old(self),
            r matches Err(e) ==> e == Error::AllocError || e is CapacityOverflow,
            r is Ok ==> final(self).spec_capacity() == (if encode_utf8(old(self)@).len()
                + encode_utf8(seq![ch]).len() <= old(self).spec_capacity() {
                old(self).spec_capacity()
            } else {
                grown_capacity(
                    old(self).spec_capacity(),
                    encode_utf8(old(self)@).len() + encode_utf8(seq![ch]).len(),
                )
            }),
            r matches Err(e) && e is CapacityOverflow ==> encode_utf8(old(self)@).len()
                + encode_utf8(seq![ch]).len() > usize::MAX || grown_capacity(
                old(self).spec_capacity(),
                encode_utf8(old(self)@).len() + encode_utf8(seq![ch]).len(),
            ) > isize::MAX,
    {
        let encoded = encode_char(ch);
        let r = self.buffer.extend_from_slice(encoded.as_slice());
        proof {
            lemma_decode_concat(old(self).buffer@, encoded@);
            assert(old(self)@ + seq![ch] =~= old(self)@.push(ch));
        }
        r
    }

    /// Appends a string slice.
    pub fn push_str(&mut self, s: &str) -> (r: Result<()>)
        requires
            old(self).wf(),
        ensures
            final(self).wf(),
            r is Ok ==> final(self)@ == old(self)@ + s@,
            r is Err ==> final(self)@ == old(self)@,
            encode_utf8(old(self)@).len() + s.spec_bytes().len() <= old(self).spec_capacity()
                ==> r is Ok && final(self).spec_capacity() == old(self).spec_capacity(),
            r is Err ==> *final(self) == *old(self),
            r matches Err(e) ==> e == Error::AllocError || e is CapacityOverflow,
            r is Ok ==> final(self).spec_capacity() == (if encode_utf8(old(self)@).len()
                + s.spec_bytes().len() <= old(self).spec_capacity() {
                old(self).spec_capacity()
            } else {
                grown_capacity(
                    old(self).spec_capacity(),
                    encode_utf8(old(self)@).len() + s.spec_bytes().len(),
                )
            }),
            r matches Err(e) && e is CapacityOverflow ==> encode_utf8(old(self)@).len()
                + s.spec_bytes().len() > usize::MAX || grown_capacity(
                old(self).spec_capacity(),
                encode_utf8(old(self)@).len() + s.spec_bytes().len(),
            ) > isize::MAX,
    {
        let r = self.buffer.extend_from_slice(s.as_bytes());
        proof {
            lemma_decode_concat(old(self).buffer@, s.spec_bytes());
        }
        r
    }

    /// Removes all text, keeping the buffer.
    pub fn clear(&mut self)
        requires
            old(self).wf(),
        ensures
            final(self).wf(),
            final(self)@ == Seq::<char>::empty(),
            final(self).spec_capacity() == old(self).spec_capacity(),
    {
        self.buffer.clear();
    }

    /// Returns the text as a string slice.
    pub fn as_str(&self) -> (r: &str)
        requires
            self.wf(),
        ensures
            r@ == self@,
    {
        match str_from_utf8(self.buffer.as_slice()) {
            Some(s) => s,
            None => "",
        }
    }

    /// Consumes the builder and copies its text into a [`SmallString`].
    pub fn into_string(self) -> (r: Result<SmallString>)
        requires
            self.wf(),
        ensures
            r matches Ok(t) ==> t.wf() && t@ == self@,
            encode_utf8(self@).len() <= INLINE_CAPACITY ==> r is Ok,
            r matches Err(e) ==> e == Error::AllocError || (encode_utf8(self@).len() > isize::MAX
                && e == Error::CapacityOverflow {
                limit: usize::MAX,
                requested: encode_utf8(self@).len() as usize,
            }),
    {
        SmallString::from_str(self.as_str())
    }
}

impl Default for StringBuilder {
    /// An empty builder.
    fn default() -> (r: Self)
        ensures
            r.wf(),
            r@ == Seq::<char>::empty(),
    {
        StringBuilder::new()
    }
}

/// The error that formatting reports.
///
/// Trusted: constructs the unit struct `core::fmt::Error`; nothing is claimed of it.
#[verifier::external_body]
fn format_error() -> core::fmt::Error {
    core::fmt::Error
}

impl core::fmt::Write for StringBuilder {
    /// Appends a string slice; fails with `core::fmt::Error` where the buffer cannot
    /// grow.
    fn write_str(&mut self, s: &str) -> (r: core::fmt::Result)
        ensures
            old(self).wf() ==> final(self).wf(),
            old(self).wf() && r is Ok ==> final(self)@ == old(self)@ + s@,
            old(self).wf() && r is Err ==> final(self)@ == old(self)@,
            old(self).wf() && encode_utf8(old(self)@).len() + s.spec_bytes().len() <= old(
                self,
            ).spec_capacity() ==> r is Ok,
    {
        if !self.buffer.check_wf() {
            return Err(format_error());
        }
        let r = self.buffer.extend_from_slice(s.as_bytes());
        proof {
            if old(self).wf() {
                lemma_decode_concat(old(self).buffer@, s.spec_bytes());
            }
        }
        match r {
            Ok(()) => Ok(()),
            Err(_) => Err(format_error()),
        }
    }
}

} // verus!
