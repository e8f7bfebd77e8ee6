//! Reading up to a delimiter, borrowing from the input.
use vstd::prelude::*;

use crate::error::DecodeError;
use crate::reader::Reference;

verus! {

/// The position of the first `d` in `s`, if there is one.
pub open spec fn first_index(s: Seq<u8>, d: u8) -> Option<nat>
    decreases s.len(),
{
    if s.len() == 0 {
        None
    } else if s[0] == d {
        Some(0)
    } else {
        match first_index(s.drop_first(), d) {
            Some(i) => Some(i + 1),
            None => None,
        }
    }
}

/// The first position of a byte, from a run that does not hold it.
pub proof fn lemma_first_index(s: Seq<u8>, d: u8, i: int)
    requires
        0 <= i <= s.len(),
        forall|j: int| 0 <= j < i ==> s[j] != d,
    ensures
        i < s.len() && s[i] == d ==> first_index(s, d) == Some(i as nat),
        i == s.len() ==> first_index(s, d) is None,
    decreases i,
{
    if i > 0 {
        lemma_first_index(s.drop_first(), d, i - 1);
    }
}

/// Relies on `memchr::memchr`: the index of the first occurrence of `needle`
/// in `haystack`, or `None` when there is none.
#[verifier::external_body]
fn find_byte(needle: u8, haystack: &[u8]) -> (r: Option<usize>)
    ensures
        r matches Some(i) ==> i < haystack@.len() && haystack@[i as int] == needle && forall|j: int|
            0 <= j < i ==> haystack@[j] != needle,
        r is None ==> forall|j: int| 0 <= j < haystack@.len() ==> haystack@[j] != needle,
{
    memchr::memchr(needle, haystack)
}

/// Sources that can hand out the bytes up to a delimiter.
pub trait ReadReference<'de> {
    /// The input not read yet.
    spec fn unread(&self) -> Seq<u8>;

    /// Reads up to the next `delimiter` and past it; the bytes before it are
    /// returned.
    fn read_reference_until(&mut self, delimiter: u8) -> (r: Result<Reference<'de>, DecodeError>)
        ensures
            match first_index(old(self).unread(), delimiter) {
                Some(i) => r matches Ok(c) && c.bytes() == old(self).unread().take(i as int)
                    && final(self).unread() == old(self).unread().skip((i + 1) as int),
                None => r matches Err(DecodeError::UnexpectedEnd) && final(self).unread() == old(
                    self,
                ).unread(),
            },
    ;
}

/// A byte slice read from the front.
pub struct SliceReader<'a> {
    inner: &'a [u8],
}

impl<'a> SliceReader<'a> {
    /// A reader over `inner`.
    pub fn new(inner: &'a [u8]) -> (r: Self)
        ensures
            r.unread() == inner@,
    {
        SliceReader { inner }
    }
}

impl<'de> ReadReference<'de> for SliceReader<'de> {
    closed spec fn unread(&self) -> Seq<u8> {
        self.inner@
    }

    fn read_reference_until(&mut self, delimiter: u8) -> (r: Result<Reference<'de>, DecodeError>) {
        match find_byte(delimiter, self.inner) {
            Some(end) => {
                proof {
                    lemma_first_index(self.inner@, delimiter, end as int);
                }
                let n = self.inner.len();
                let before = vstd::slice::slice_subrange(self.inner, 0, end);
                self.inner = vstd::slice::slice_subrange(self.inner, end + 1, n);
                Ok(Reference::Borrowed(before))
            },
            None => {
                proof {
                    lemma_first_index(self.inner@, delimiter, self.inner@.len() as int);
                }
                Err(DecodeError::UnexpectedEnd)
            },
        }
    }
}

} // verus!
