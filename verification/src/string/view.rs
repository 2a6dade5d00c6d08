use crate::bytes::view::ByteView;
use crate::error::{Error, Result};
use crate::hash::hasher::bytes_eq;
use crate::string::utf8::{bytes_of_slice, chars_of_str, str_from_utf8};
use vstd::prelude::*;
use vstd::string::StringSliceAdditionalSpecFns;
use vstd::utf8::{decode_utf8, encode_utf8, is_char_boundary, valid_utf8};

verus! {

broadcast use vstd::utf8::group_utf8_lib;

/// Why [`StringView::new`] refuses bytes.
pub const INVALID_UTF8: &'static str = "Invalid UTF-8 sequence in ByteView";

/// Why [`StringView::slice`] refuses a range.
pub const NOT_CHAR_BOUNDARY: &'static str = "Slice range boundaries are not on character boundaries";

/// The bytes between two character boundaries of valid UTF-8 are valid UTF-8.
pub proof fn lemma_valid_between(bytes: Seq<u8>, start: int, end: int)
    requires
        valid_utf8(bytes),
        0 <= start <= end <= bytes.len(),
        is_char_boundary(bytes, start),
        is_char_boundary(bytes, end),
    ensures
        valid_utf8(bytes.subrange(start, end)),
{
    let suffix = bytes.subrange(start, bytes.len() as int);
    vstd::utf8::valid_utf8_split(bytes, start);
    let k = end - start;
    if k < suffix.len() {
        vstd::utf8::is_char_boundary_iff_not_is_continuation_byte(bytes, end);
        assert(suffix[k] == bytes[end]);
        vstd::utf8::is_char_boundary_iff_not_is_continuation_byte(suffix, k);
    } else {
        vstd::utf8::is_char_boundary_start_end_of_seq(suffix);
    }
    vstd::utf8::valid_utf8_split(suffix, k);
    assert(suffix.subrange(0, k) =~= bytes.subrange(start, end));
}

/// A shared, read-only window onto UTF-8 text.
///
/// Cloning and slicing share the underlying buffer instead of copying it.
#[derive(Clone, Debug)]
pub struct StringView {
    inner: ByteView,
}

impl StringView {
    /// The window lies inside its buffer and holds valid UTF-8.
    pub closed spec fn wf(&self) -> bool {
        &&& self.inner.wf()
        &&& valid_utf8(self.inner@)
    }

    /// The characters in the window.
    pub closed spec fn view(&self) -> Seq<char> {
        decode_utf8(self.inner@)
    }

    /// The UTF-8 bytes in the window.
    pub closed spec fn spec_bytes(&self) -> Seq<u8> {
        self.inner@
    }

    /// Where the window starts in the shared buffer.
    pub closed spec fn spec_offset(&self) -> nat {
        self.inner.spec_offset()
    }

    /// The characters the view shows through `Deref`, `AsRef` and comparisons: its
    /// contents when it is well formed.
    pub closed spec fn spec_text(&self) -> Seq<char> {
        let b = self.inner.spec_window();
        if valid_utf8(b) {
            decode_utf8(b)
        } else {
            Seq::empty()
        }
    }

    /// A well-formed view shows its contents.
    pub proof fn lemma_text(&self)
        requires
            self.wf(),
        ensures
            self.spec_text() == self@,
            self.spec_bytes().len() <= isize::MAX,
    {
        self.inner.lemma_window();
    }

    /// Checks that the bytes of `view` are UTF-8; fails with `InvalidData` otherwise.
    pub fn new(view: ByteView) -> (r: Result<Self>)
        requires
            view.wf(),
        ensures
            r is Ok <==> valid_utf8(view@),
            r matches Ok(s) ==> s.wf() && s.spec_bytes() == view@ && s.spec_offset()
                == view.spec_offset(),
            r is Err ==> r == Err::<Self, Error>(Error::InvalidData { reason: INVALID_UTF8 }),
    {
        match str_from_utf8(view.as_slice()) {
            Some(_) => Ok(StringView { inner: view }),
            None => Err(Error::InvalidData { reason: INVALID_UTF8 }),
        }
    }

    /// A view of a copy of `s`; fails with the allocator's error.
    pub fn from_str(s: &str) -> (r: Result<Self>)
        ensures
            r matches Ok(v) ==> v.wf() && v@ == s@ && v.spec_offset() == 0,
            s@.len() == 0 ==> r is Ok,
            r matches Err(e) ==> e == Error::AllocError || (s.spec_bytes().len() > isize::MAX && e
                == Error::CapacityOverflow {
                limit: usize::MAX,
                requested: s.spec_bytes().len() as usize,
            }),
    {
        let inner = ByteView::from_slice(s.as_bytes())?;
        Ok(StringView { inner })
    }

    /// Returns the length in bytes.
    pub fn len(&self) -> (r: usize)
        requires
            self.wf(),
        ensures
            r == self.spec_bytes().len(),
    {
        self.inner.len()
    }

    /// Returns `true` if the view is empty.
    pub fn is_empty(&self) -> (r: bool)
        requires
            self.wf(),
        ensures
            r == (self@.len() == 0),
    {
        self.inner.is_empty()
    }

    /// Returns where the window starts in the shared buffer.
    pub fn offset(&self) -> (r: usize)
        ensures
            r == self.spec_offset(),
    {
        self.inner.offset()
    }

    /// Returns the text.
    pub fn as_str(&self) -> (r: &str)
        requires
            self.wf(),
        ensures
            r@ == self@,
            r.spec_bytes() == self.spec_bytes(),
    {
        self.text()
    }

    /// The characters the view shows.
    fn text(&self) -> (r: &str)
        ensures
            r@ == self.spec_text(),
            self.wf() ==> r.spec_bytes() == self.spec_bytes(),
    {
        proof {
            if self.wf() {
                self.lemma_text();
            }
        }
        match str_from_utf8(self.inner.window()) {
            Some(s) => s,
            None => {
                proof {
                    reveal_strlit("");
                }
                ""
            },
        }
    }

    /// A view of bytes `range.start..range.end`, sharing the buffer.
    ///
    /// Fails with `OutOfBounds` (reporting the range's end) unless
    /// `range.start <= range.end <= self.len()`, and with `InvalidData` unless both ends
    /// lie on character boundaries.
    pub fn slice(&self, range: core::ops::Range<usize>) -> (r: Result<Self>)
        requires
            self.wf(),
        ensures
            !(range.start <= range.end <= self.spec_bytes().len()) ==> r == Err::<Self, Error>(
                Error::OutOfBounds { index: range.end, len: self.spec_bytes().len() as usize },
            ),
            range.start <= range.end <= self.spec_bytes().len() && !(is_char_boundary(
                self.spec_bytes(),
                range.start as int,
            ) && is_char_boundary(self.spec_bytes(), range.end as int)) ==> r == Err::<
                Self,
                Error,
            >(Error::InvalidData { reason: NOT_CHAR_BOUNDARY }),
            r is Ok <==> range.start <= range.end <= self.spec_bytes().len() && is_char_boundary(
                self.spec_bytes(),
                range.start as int,
            ) && is_char_boundary(self.spec_bytes(), range.end as int),
            r matches Ok(v) ==> v.wf() && v.spec_bytes() == self.spec_bytes().subrange(
                range.start as int,
                range.end as int,
            ) && v@ == decode_utf8(
                self.spec_bytes().subrange(range.start as int, range.end as int),
            ) && v.spec_offset() == self.spec_offset() + range.start,
    {
        let s = self.as_str();
        proof {
            self.lemma_text();
        }
        if !(range.start <= range.end && range.end <= s.len()) {
            return Err(Error::OutOfBounds { index: range.end, len: s.len() });
        }
        if !(s.is_char_boundary(range.start) && s.is_char_boundary(range.end)) {
            return Err(Error::InvalidData { reason: NOT_CHAR_BOUNDARY });
        }
        proof {
            lemma_valid_between(self.spec_bytes(), range.start as int, range.end as int);
        }
        let inner = self.inner.slice(range)?;
        Ok(StringView { inner })
    }
}

impl core::ops::Deref for StringView {
    type Target = str;

    /// The text.
    fn deref(&self) -> (r: &str)
        ensures
            r@ == self.spec_text(),
    {
        self.text()
    }
}

impl AsRef<str> for StringView {
    /// The text (as `Deref` shows it).
    fn as_ref(&self) -> (r: &str)
        ensures
            chars_of_str(r) == self.spec_text(),
    {
        self.text()
    }
}

impl AsRef<[u8]> for StringView {
    /// The UTF-8 bytes of the text (as `Deref` shows it).
    fn as_ref(&self) -> (r: &[u8])
        ensures
            bytes_of_slice(r) == encode_utf8(self.spec_text()),
            self.wf() ==> bytes_of_slice(r) == self.spec_bytes(),
    {
        proof {
            if self.wf() {
                self.lemma_text();
                vstd::utf8::decode_utf8_encode_utf8(self.spec_bytes());
            }
        }
        self.text().as_bytes()
    }
}

impl PartialEq for StringView {
    fn eq(&self, other: &Self) -> (r: bool) {
        let a = self.text();
        let b = other.text();
        proof {
            vstd::utf8::encode_utf8_decode_utf8(a@);
            vstd::utf8::encode_utf8_decode_utf8(b@);
        }
        bytes_eq(a.as_bytes(), b.as_bytes())
    }
}

impl vstd::std_specs::cmp::PartialEqSpecImpl for StringView {
    open spec fn obeys_eq_spec() -> bool {
        true
    }

    open spec fn eq_spec(&self, other: &Self) -> bool {
        self.spec_text() == other.spec_text()
    }
}

impl Eq for StringView {

}

impl<'a> PartialEq<&'a str> for StringView {
    fn eq(&self, other: &&'a str) -> (r: bool) {
        let a = self.text();
        proof {
            vstd::utf8::encode_utf8_decode_utf8(a@);
            vstd::utf8::encode_utf8_decode_utf8((**other)@);
        }
        bytes_eq(a.as_bytes(), other.as_bytes())
    }
}

impl<'a> vstd::std_specs::cmp::PartialEqSpecImpl<&'a str> for StringView {
    open spec fn obeys_eq_spec() -> bool {
        true
    }

    open spec fn eq_spec(&self, other: &&'a str) -> bool {
        self.spec_text() == (**other)@
    }
}

} // verus!
