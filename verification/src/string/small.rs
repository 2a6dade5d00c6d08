use crate::allocator::GlobalAlloc;
use crate::bytes::buffer::ByteBuffer;
use crate::error::{Error, Result};
use crate::hash::hasher::bytes_eq;
use crate::string::utf8::{bytes_of_slice, chars_of_str, encode_char, lemma_decode_concat, str_from_utf8};
use vstd::prelude::*;
use vstd::string::StringSliceAdditionalSpecFns;
use vstd::utf8::{decode_utf8, encode_utf8, valid_utf8};

verus! {

broadcast use {vstd::utf8::group_utf8_lib, vstd::array::group_array_axioms};

/// The most bytes a [`SmallString`] keeps inline.
pub const INLINE_CAPACITY: usize = 22;

/// A UTF-8 string that keeps up to 22 bytes inline and moves longer contents to a
/// heap buffer.
#[derive(Clone, Debug)]
pub enum SmallString {
    /// Contents of at most 22 bytes, held in place.
    Inline {
        /// The byte storage; the first `len` bytes are the contents.
        bytes: [u8; 22],
        /// The length of the contents in bytes.
        len: u8,
    },
    /// Contents held in a heap buffer.
    Heap(ByteBuffer<GlobalAlloc>),
}

impl SmallString {
    /// The UTF-8 bytes of the contents.
    pub open spec fn spec_bytes(&self) -> Seq<u8> {
        match self {
            SmallString::Inline { bytes, len } => bytes@.take(*len as int),
            SmallString::Heap(buf) => buf@,
        }
    }

    /// The stored length fits and the contents are valid UTF-8.
    pub open spec fn wf(&self) -> bool {
        &&& match self {
            SmallString::Inline { len, .. } => *len as nat <= INLINE_CAPACITY,
            SmallString::Heap(buf) => buf.wf(),
        }
        &&& valid_utf8(self.spec_bytes())
    }

    /// The characters of the string.
    pub open spec fn view(&self) -> Seq<char> {
        decode_utf8(self.spec_bytes())
    }

    /// The characters that the string shows through `Deref`, `AsRef` and comparisons:
    /// its contents when it is well formed.
    pub closed spec fn spec_text(&self) -> Seq<char> {
        let b = self.spec_shown();
        if valid_utf8(b) {
            decode_utf8(b)
        } else {
            Seq::empty()
        }
    }

    /// The bytes the string can show: its contents, or its whole storage where the
    /// stored length does not fit.
    closed spec fn spec_shown(&self) -> Seq<u8> {
        match self {
            SmallString::Inline { bytes, len } => if *len as nat <= INLINE_CAPACITY {
                bytes@.take(*len as int)
            } else {
                bytes@
            },
            SmallString::Heap(buf) => buf.spec_contents(),
        }
    }

    /// A well-formed string shows its contents.
    pub proof fn lemma_text(&self)
        requires
            self.wf(),
        ensures
            self.spec_text() == self@,
    {
        match self {
            SmallString::Heap(buf) => {
                buf.lemma_wf_bounds();
            },
            _ => {},
        }
    }

    /// Creates an empty inline string.
    pub fn new() -> (r: Self)
        ensures
            r.wf(),
            r@ == Seq::<char>::empty(),
            r is Inline,
    {
        let r = SmallString::Inline { bytes: [0u8; 22], len: 0 };
        assert(r.spec_bytes() =~= Seq::<u8>::empty());
        r
    }

    /// Copies `s`: inline when it has at most 22 bytes, otherwise into a heap buffer
    /// (which can fail with the allocator's error).
    pub fn from_str(s: &str) -> (r: Result<Self>)
        ensures
            r matches Ok(t) ==> t.wf() && t@ == s@ && t.spec_bytes() == s.spec_bytes() && (
            t is Inline <==> s.spec_bytes().len() <= INLINE_CAPACITY),
            s.spec_bytes().len() <= INLINE_CAPACITY ==> r is Ok,
            r matches Err(e) ==> e == Error::AllocError || (s.spec_bytes().len() > isize::MAX && e
                == Error::CapacityOverflow {
                limit: usize::MAX,
                requested: s.spec_bytes().len() as usize,
            }),
    {
        let src = s.as_bytes();
        let n = src.len();
        if n <= INLINE_CAPACITY {
            let mut bytes = [0u8; 22];
            let mut i: usize = 0;
            while i < n
                invariant
                    i <= n,
                    n <= 22,
                    n == src@.len(),
                    bytes@.len() == 22,
                    forall|j: int| 0 <= j < i ==> bytes@[j] == src@[j],
                decreases n - i,
            {
                bytes[i] = src[i];
                i = i + 1;
            }
            let r = SmallString::Inline { bytes, len: n as u8 };
            assert(r.spec_bytes() =~= src@);
            Ok(r)
        } else {
            let mut buf = ByteBuffer::with_capacity(n, GlobalAlloc)?;
            buf.extend_from_slice(src)?;
            assert(Seq::<u8>::empty() + src@ =~= src@);
            Ok(SmallString::Heap(buf))
        }
    }

    /// Returns the length in bytes.
    pub fn len(&self) -> (r: usize)
        requires
            self.wf(),
        ensures
            r == self.spec_bytes().len(),
    {
        match self {
            SmallString::Inline { len, .. } => *len as usize,
            SmallString::Heap(buf) => buf.len(),
        }
    }

    /// Returns `true` if the string is empty.
    pub fn is_empty(&self) -> (r: bool)
        requires
            self.wf(),
        ensures
            r == (self@.len() == 0),
    {
        proof {
            if self@.len() == 0 {
                assert(encode_utf8(self@) =~= Seq::<u8>::empty());
            }
        }
        self.len() == 0
    }

    /// Returns the contents as a string slice.
    pub fn as_str(&self) -> (r: &str)
        requires
            self.wf(),
        ensures
            r@ == self@,
    {
        proof {
            self.lemma_text();
        }
        self.text()
    }

    /// The characters the string shows.
    fn text(&self) -> (r: &str)
        ensures
            r@ == self.spec_text(),
    {
        let shown: &[u8] = match self {
            SmallString::Inline { bytes, len } => {
                if (*len as usize) <= INLINE_CAPACITY {
                    let (contents, _) = bytes.as_slice().split_at(*len as usize);
                    contents
                } else {
                    bytes.as_slice()
                }
            },
            SmallString::Heap(buf) => buf.contents(),
        };
        assert(shown@ == self.spec_shown());
        match str_from_utf8(shown) {
            Some(s) => s,
            None => {
                proof {
                    reveal_strlit("");
                }
                ""
            },
        }
    }

    /// Appends a character.
    pub fn push(&mut self, ch: char) -> (r: Result<()>)
        requires
            old(self).wf(),
        ensures
            final(self).wf(),
            r is Ok ==> final(self)@ == old(self)@.push(ch),
            r is Err ==> final(self)@ == old(self)@,
            *old(self) is Inline && old(self).spec_bytes().len() + encode_utf8(seq![ch]).len()
                <= INLINE_CAPACITY ==> r is Ok && *final(self) is Inline,
            *old(self) is Heap ==> *final(self) is Heap,
            r is Ok ==> (*final(self) is Inline <==> (*old(self) is Inline
                && old(self).spec_bytes().len() + encode_utf8(seq![ch]).len() <= INLINE_CAPACITY)),
            r is Err ==> *final(self) == *old(self),
            *old(self) matches SmallString::Heap(b) && b@.len() + encode_utf8(seq![ch]).len()
                <= b.spec_capacity() ==> r is Ok,
            r matches Err(e) ==> e == Error::AllocError || e is CapacityOverflow,
    {
        let encoded = encode_char(ch);
        let r = self.push_bytes(encoded.as_slice());
        proof {
            lemma_decode_concat(old(self).spec_bytes(), encoded@);
            assert(old(self)@ + seq![ch] =~= old(self)@.push(ch));
        }
        r
    }

    /// Appends a string slice; contents that no longer fit inline move to a heap
    /// buffer, which can fail with the allocator's error.
    pub fn push_str(&mut self, s: &str) -> (r: Result<()>)
        requires
            old(self).wf(),
        ensures
            final(self).wf(),
            r is Ok ==> final(self)@ == old(self)@ + s@,
            r is Err ==> final(self)@ == old(self)@,
            *old(self) is Inline && old(self).spec_bytes().len() + s.spec_bytes().len()
                <= INLINE_CAPACITY ==> r is Ok && *final(self) is Inline,
            *old(self) is Heap ==> *final(self) is Heap,
            r is Ok ==> (*final(self) is Inline <==> (*old(self) is Inline
                && old(self).spec_bytes().len() + s.spec_bytes().len() <= INLINE_CAPACITY)),
            r is Err ==> *final(self) == *old(self),
            s@.len() == 0 ==> r is Ok && *final(self) == *old(self),
            *old(self) matches SmallString::Heap(b) && b@.len() + s.spec_bytes().len()
                <= b.spec_capacity() ==> r is Ok,
            r matches Err(e) ==> e == Error::AllocError || e is CapacityOverflow,
    {
        proof {
            if s@.len() == 0 {
                assert(s.spec_bytes() =~= Seq::<u8>::empty());
            }
        }
        let r = self.push_bytes(s.as_bytes());
        proof {
            lemma_decode_concat(old(self).spec_bytes(), s.spec_bytes());
        }
        r
    }

    /// Appends valid UTF-8 bytes.
    fn push_bytes(&mut self, extra: &[u8]) -> (r: Result<()>)
        requires
            old(self).wf(),
            valid_utf8(extra@),
        ensures
            final(self).wf(),
            r is Ok ==> final(self).spec_bytes() == old(self).spec_bytes() + extra@,
            r is Err ==> final(self).spec_bytes() == old(self).spec_bytes(),
            *old(self) is Inline && old(self).spec_bytes().len() + extra@.len() <= INLINE_CAPACITY
                ==> r is Ok && *final(self) is Inline,
            *old(self) is Heap ==> *final(self) is Heap,
            r is Ok ==> (*final(self) is Inline <==> (*old(self) is Inline
                && old(self).spec_bytes().len() + extra@.len() <= INLINE_CAPACITY)),
            r is Err ==> *final(self) == *old(self),
            extra@.len() == 0 ==> r is Ok && *final(self) == *old(self),
            *old(self) matches SmallString::Heap(b) && b@.len() + extra@.len() <= b.spec_capacity()
                ==> r is Ok,
            r matches Err(e) ==> e == Error::AllocError || e is CapacityOverflow,
    {
        let n = extra.len();
        if n == 0 {
            assert(old(self).spec_bytes() + extra@ =~= old(self).spec_bytes());
            return Ok(());
        }
        proof {
            lemma_decode_concat(old(self).spec_bytes(), extra@);
        }
        let fits = match &*self {
            SmallString::Inline { len, .. } => (*len as usize) <= INLINE_CAPACITY && n
                <= INLINE_CAPACITY - (*len as usize),
            SmallString::Heap(_) => false,
        };
        if fits {
            match self {
                SmallString::Inline { bytes, len } => {
                    let cur = *len as usize;
                    let ghost before = bytes@;
                    let mut i: usize = 0;
                    while i < n
                        invariant
                            i <= n,
                            n == extra@.len(),
                            cur + n <= 22,
                            bytes@.len() == 22,
                            forall|j: int| 0 <= j < cur ==> bytes@[j] == before[j],
                            forall|j: int| 0 <= j < i ==> bytes@[cur + j] == extra@[j],
                        decreases n - i,
                    {
                        bytes[cur + i] = extra[i];
                        i = i + 1;
                    }
                    *len = (cur + n) as u8;
                    assert(bytes@.take(cur + n) =~= before.take(cur as int) + extra@);
                },
                SmallString::Heap(_) => {},
            }
            return Ok(());
        }
        let spilled = match &*self {
            SmallString::Inline { bytes, len } => {
                let cur = *len as usize;
                let (contents, _) = bytes.as_slice().split_at(cur);
                let total = match cur.checked_add(n) {
                    Some(t) => t,
                    None => {
                        return Err(Error::CapacityOverflow { limit: usize::MAX, requested: n });
                    },
                };
                let mut buf = ByteBuffer::with_capacity(total, GlobalAlloc)?;
                buf.extend_from_slice(contents)?;
                buf.extend_from_slice(extra)?;
                assert(Seq::<u8>::empty() + contents@ =~= contents@);
                Some(buf)
            },
            SmallString::Heap(_) => None,
        };
        match spilled {
            Some(buf) => {
                *self = SmallString::Heap(buf);
                Ok(())
            },
            None => match self {
                SmallString::Heap(buf) => buf.extend_from_slice(extra),
                SmallString::Inline { .. } => Ok(()),
            },
        }
    }

    /// Empties the string, keeping a heap buffer's allocation.
    pub fn clear(&mut self)
        requires
            old(self).wf(),
        ensures
            final(self).wf(),
            final(self)@ == Seq::<char>::empty(),
            *old(self) is Inline ==> *final(self) is Inline,
            *old(self) is Heap ==> *final(self) is Heap,
            *final(self) matches SmallString::Inline { bytes, len } ==> len == 0 && bytes@
                == Seq::new(22, |i: int| 0u8),
            *old(self) matches SmallString::Heap(b0) ==> (*final(self) matches SmallString::Heap(b1)
                && b1@ == Seq::<u8>::empty() && b1.spec_capacity() == b0.spec_capacity()
                && b1.spec_block() == b0.spec_block() && b1.spec_allocator()
                == b0.spec_allocator()),
    {
        match self {
            SmallString::Inline { bytes, len } => {
                *bytes = [0u8; 22];
                assert(bytes@ =~= Seq::new(22, |i: int| 0u8));
                *len = 0;
            },
            SmallString::Heap(buf) => {
                buf.clear();
            },
        }
        assert(self.spec_bytes() =~= Seq::<u8>::empty());
    }
}

impl Default for SmallString {
    /// An empty inline string.
    fn default() -> (r: Self)
        ensures
            r.wf(),
            r@ == Seq::<char>::empty(),
            r is Inline,
    {
        SmallString::new()
    }
}

impl core::ops::Deref for SmallString {
    type Target = str;

    /// The contents.
    fn deref(&self) -> (r: &str)
        ensures
            r@ == self.spec_text(),
    {
        self.text()
    }
}

impl AsRef<str> for SmallString {
    /// The contents (as `Deref` shows them).
    fn as_ref(&self) -> (r: &str)
        ensures
            chars_of_str(r) == self.spec_text(),
    {
        self.text()
    }
}

impl AsRef<[u8]> for SmallString {
    /// The UTF-8 bytes of the contents (as `Deref` shows them).
    fn as_ref(&self) -> (r: &[u8])
        ensures
            bytes_of_slice(r) == encode_utf8(self.spec_text()),
            self.wf() ==> bytes_of_slice(r) == self.spec_bytes(),
    {
        proof {
            if self.wf() {
                self.lemma_text();
                vstd::utf8::decode_utf8_encode_utf8(self.spec_bytes());
            }
        }
        self.text().as_bytes()
    }
}

impl PartialEq for SmallString {
    fn eq(&self, other: &Self) -> (r: bool) {
        let a = self.text();
        let b = other.text();
        proof {
            vstd::utf8::encode_utf8_decode_utf8(a@);
            vstd::utf8::encode_utf8_decode_utf8(b@);
        }
        bytes_eq(a.as_bytes(), b.as_bytes())
    }
}

impl vstd::std_specs::cmp::PartialEqSpecImpl for SmallString {
    open spec fn obeys_eq_spec() -> bool {
        true
    }

    open spec fn eq_spec(&self, other: &Self) -> bool {
        self.spec_text() == other.spec_text()
    }
}

impl Eq for SmallString {

}

impl<'a> PartialEq<&'a str> for SmallString {
    fn eq(&self, other: &&'a str) -> (r: bool) {
        let a = self.text();
        proof {
            vstd::utf8::encode_utf8_decode_utf8(a@);
            vstd::utf8::encode_utf8_decode_utf8((**other)@);
        }
        bytes_eq(a.as_bytes(), other.as_bytes())
    }
}

impl<'a> vstd::std_specs::cmp::PartialEqSpecImpl<&'a str> for SmallString {
    open spec fn obeys_eq_spec() -> bool {
        true
    }

    open spec fn eq_spec(&self, other: &&'a str) -> bool {
        self.spec_text() == (**other)@
    }
}

} // verus!
