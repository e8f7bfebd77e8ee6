//! Borrowed views of sequences still in their escaped, terminated form.
use vstd::prelude::*;

use crate::format::{lemma_unescape_body, unescape, unescape_body, unescape_chars};
use vstd::string::StringSliceAdditionalSpecFns;

verus! {

/// Whether `s` is exactly one escaped sequence with its terminator.
pub open spec fn escaped_form(s: Seq<u8>) -> bool {
    match unescape(s) {
        Some((_, n)) => n == s.len(),
        None => false,
    }
}

/// A byte sequence in escaped form: escaped bytes followed by the terminator.
pub struct EscapedSlice<'a> {
    inner: &'a [u8],
}

impl<'a> EscapedSlice<'a> {
    #[verifier::type_invariant]
    spec fn inv(&self) -> bool {
        escaped_form(self.inner@)
    }

    /// The raw bytes, escapes and terminator included.
    pub closed spec fn raw(&self) -> Seq<u8> {
        self.inner@
    }

    /// The logical contents, escapes removed.
    pub open spec fn contents(&self) -> Seq<u8> {
        match unescape(self.raw()) {
            Some((v, _)) => v,
            None => Seq::empty(),
        }
    }

    /// Views `b`, which must be one escaped sequence with its terminator.
    pub fn from_slice(b: &'a [u8]) -> (r: Self)
        requires
            escaped_form(b@),
        ensures
            r.raw() == b@,
    {
        EscapedSlice { inner: b }
    }

    /// The raw bytes, escapes and terminator included.
    pub fn as_bytes(&self) -> (r: &'a [u8])
        ensures
            r@ == self.raw(),
            escaped_form(r@),
    {
        proof {
            use_type_invariant(self);
        }
        self.inner
    }

    /// The unescaped bytes one at a time.
    pub fn iter(&self) -> (r: EscapedIter<'a>)
        ensures
            r.remaining() == self.contents(),
    {
        proof {
            use_type_invariant(self);
            lemma_unescape_body(self.inner@);
        }
        let n = self.inner.len() - 1;
        let body = vstd::slice::slice_subrange(self.inner, 0, n);
        assert(body@ =~= self.inner@.take(n as int));
        assert(body@.skip(0) =~= body@);
        EscapedIter { bytes: body, pos: 0 }
    }

    /// Whether the logical contents are `other`.
    pub fn eq_bytes(&self, other: &[u8]) -> (r: bool)
        ensures
            r == (self.contents() == other@),
    {
        let mut it = self.iter();
        let mut j: usize = 0;
        let ghost c = self.contents();
        loop
            invariant
                c == self.contents(),
                j <= other@.len(),
                j <= c.len(),
                it.remaining() == c.skip(j as int),
                c.take(j as int) == other@.take(j as int),
            decreases it.remaining().len(),
        {
            match it.next() {
                None => {
                    assert(c.skip(j as int).len() == 0);
                    assert(c.len() == j);
                    if j == other.len() {
                        assert(c =~= c.take(j as int));
                        assert(other@ =~= other@.take(j as int));
                    } else {
                        assert(c.len() != other@.len());
                    }
                    return j == other.len();
                },
                Some(a) => {
                    assert(c.skip(j as int).len() > 0);
                    assert(c.skip(j as int)[0] == c[j as int]);
                    if j >= other.len() {
                        assert(c.len() > other@.len());
                        return false;
                    }
                    if a != other[j] {
                        assert(c[j as int] != other@[j as int]);
                        return false;
                    }
                    assert(c.take(j + 1) =~= c.take(j as int).push(a));
                    assert(other@.take(j + 1) =~= other@.take(j as int).push(other@[j as int]));
                    assert(c.skip(j as int).drop_first() =~= c.skip(j + 1));
                    j = j + 1;
                },
            }
        }
    }
}

impl<'a> EscapedSlice<'a> {
    /// The logical contents, in a new buffer.
    pub fn to_vec(&self) -> (r: Vec<u8>)
        ensures
            r@ == self.contents(),
    {
        let mut it = self.iter();
        let mut out: Vec<u8> = Vec::new();
        let ghost c = self.contents();
        loop
            invariant
                c == self.contents(),
                out@ + it.remaining() == c,
            decreases it.remaining().len(),
        {
            let ghost before = it.remaining();
            match it.next() {
                None => {
                    assert(out@ + before =~= out@);
                    return out;
                },
                Some(b) => {
                    out.push(b);
                    assert(out@ + it.remaining() =~= c);
                },
            }
        }
    }
}

impl<'a> PartialEq for EscapedSlice<'a> {
    /// Equal when the logical contents are.
    fn eq(&self, other: &EscapedSlice<'a>) -> (r: bool) {
        let v = other.to_vec();
        self.eq_bytes(v.as_slice())
    }
}

impl<'a> vstd::std_specs::cmp::PartialEqSpecImpl for EscapedSlice<'a> {
    open spec fn obeys_eq_spec() -> bool {
        true
    }

    open spec fn eq_spec(&self, other: &EscapedSlice<'a>) -> bool {
        self.contents() == other.contents()
    }
}

/// The unescaped bytes of an escaped body, one at a time.
pub struct EscapedIter<'a> {
    bytes: &'a [u8],
    pos: usize,
}

impl<'a> EscapedIter<'a> {
    #[verifier::type_invariant]
    spec fn inv(&self) -> bool {
        self.pos <= self.bytes@.len()
    }

    /// The bytes still to come.
    pub closed spec fn remaining(&self) -> Seq<u8> {
        unescape_body(self.bytes@.skip(self.pos as int))
    }

    /// The next unescaped byte, if any.
    pub fn next(&mut self) -> (r: Option<u8>)
        ensures
            old(self).remaining().len() == 0 ==> r is None && final(self).remaining().len() == 0,
            old(self).remaining().len() > 0 ==> r == Some(old(self).remaining()[0])
                && final(self).remaining() == old(self).remaining().drop_first(),
    {
        proof {
            use_type_invariant(&*self);
        }
        let ghost s = self.bytes@.skip(self.pos as int);
        if self.pos >= self.bytes.len() {
            return None;
        }
        let c = self.bytes[self.pos];
        if c == 1 {
            if self.pos + 1 >= self.bytes.len() {
                self.pos = self.bytes.len();
                assert(self.bytes@.skip(self.pos as int).len() == 0);
                return None;
            }
            let d = self.bytes[self.pos + 1];
            self.pos = self.pos + 2;
            assert(s.skip(2) =~= self.bytes@.skip(self.pos as int));
            assert((seq![d] + unescape_body(s.skip(2))).drop_first() =~= unescape_body(s.skip(2)));
            Some(d)
        } else {
            self.pos = self.pos + 1;
            assert(s.skip(1) =~= self.bytes@.skip(self.pos as int));
            assert((seq![c] + unescape_body(s.skip(1))).drop_first() =~= unescape_body(s.skip(1)));
            Some(c)
        }
    }
}

/// A string in escaped form: escaped characters followed by the terminator.
pub struct EscapedStr<'a> {
    inner: &'a str,
}

impl<'a> EscapedStr<'a> {
    #[verifier::type_invariant]
    spec fn inv(&self) -> bool {
        escaped_form(self.inner.spec_bytes()) && self.inner@.len() > 0
    }

    /// The raw bytes, escapes and terminator included.
    pub closed spec fn raw(&self) -> Seq<u8> {
        self.inner.spec_bytes()
    }

    /// The raw characters, escapes and terminator included.
    pub closed spec fn text(&self) -> Seq<char> {
        self.inner@
    }

    /// The logical characters: the last character (the terminator) dropped, then
    /// the escapes removed.
    pub open spec fn contents(&self) -> Seq<char> {
        unescape_chars(self.text().drop_last())
    }

    /// Views `s`, which must be one escaped sequence with its terminator.
    pub fn from_str(s: &'a str) -> (r: Self)
        requires
            escaped_form(s.spec_bytes()),
            s@.len() > 0,
        ensures
            r.raw() == s.spec_bytes(),
            r.text() == s@,
    {
        EscapedStr { inner: s }
    }

    /// The raw bytes, escapes and terminator included.
    pub fn as_bytes(&self) -> (r: &'a [u8])
        ensures
            r@ == self.raw(),
    {
        self.inner.as_bytes()
    }

    /// The same bytes as an escaped byte view.
    pub fn as_slice(&self) -> (r: EscapedSlice<'a>)
        ensures
            r.raw() == self.raw(),
    {
        proof {
            use_type_invariant(self);
        }
        EscapedSlice::from_slice(self.inner.as_bytes())
    }

    /// The unescaped characters one at a time.
    pub fn chars(&self) -> (r: EscapedChars<'a>)
        ensures
            r.remaining() == self.contents(),
    {
        proof {
            use_type_invariant(self);
        }
        let n = self.inner.unicode_len();
        let r = EscapedChars { text: self.inner, pos: 0, end: n - 1 };
        assert(self.inner@.subrange(0, n - 1) =~= self.inner@.drop_last());
        r
    }

    /// Whether the logical characters are those of `other`.
    pub fn eq_str(&self, other: &str) -> (r: bool)
        ensures
            r == (self.contents() == other@),
    {
        let mut it = self.chars();
        let mut j: usize = 0;
        let n = other.unicode_len();
        let ghost c = self.contents();
        loop
            invariant
                c == self.contents(),
                n == other@.len(),
                j <= other@.len(),
                j <= c.len(),
                it.remaining() == c.skip(j as int),
                c.take(j as int) == other@.take(j as int),
            decreases it.remaining().len(),
        {
            match it.next() {
                None => {
                    assert(c.skip(j as int).len() == 0);
                    assert(c.len() == j);
                    if j == n {
                        assert(c =~= c.take(j as int));
                        assert(other@ =~= other@.take(j as int));
                    } else {
                        assert(c.len() != other@.len());
                    }
                    return j == n;
                },
                Some(a) => {
                    assert(c.skip(j as int).len() > 0);
                    assert(c.skip(j as int)[0] == c[j as int]);
                    if j >= n {
                        assert(c.len() > other@.len());
                        return false;
                    }
                    let b = other.get_char(j);
                    if a != b {
                        assert(c[j as int] != other@[j as int]);
                        return false;
                    }
                    assert(c.take(j + 1) =~= c.take(j as int).push(a));
                    assert(other@.take(j + 1) =~= other@.take(j as int).push(other@[j as int]));
                    assert(c.skip(j as int).drop_first() =~= c.skip(j + 1));
                    j = j + 1;
                },
            }
        }
    }
}

/// The unescaped characters of an escaped string, one at a time.
pub struct EscapedChars<'a> {
    text: &'a str,
    pos: usize,
    end: usize,
}

impl<'a> EscapedChars<'a> {
    #[verifier::type_invariant]
    spec fn inv(&self) -> bool {
        self.pos <= self.end <= self.text@.len()
    }

    /// The characters still to come.
    pub closed spec fn remaining(&self) -> Seq<char> {
        unescape_chars(self.text@.subrange(self.pos as int, self.end as int))
    }

    /// The next unescaped character, if any.
    pub fn next(&mut self) -> (r: Option<char>)
        ensures
            old(self).remaining().len() == 0 ==> r is None && final(self).remaining().len() == 0,
            old(self).remaining().len() > 0 ==> r == Some(old(self).remaining()[0])
                && final(self).remaining() == old(self).remaining().drop_first(),
    {
        proof {
            use_type_invariant(&*self);
        }
        let ghost s = self.text@.subrange(self.pos as int, self.end as int);
        if self.pos >= self.end {
            return None;
        }
        let c = self.text.get_char(self.pos);
        if c == '\x01' {
            if self.pos + 1 >= self.end {
                self.pos = self.end;
                assert(self.text@.subrange(self.pos as int, self.end as int).len() == 0);
                return None;
            }
            let d = self.text.get_char(self.pos + 1);
            self.pos = self.pos + 2;
            assert(s.skip(2) =~= self.text@.subrange(self.pos as int, self.end as int));
            assert((seq![d] + unescape_chars(s.skip(2))).drop_first() =~= unescape_chars(
                s.skip(2),
            ));
            Some(d)
        } else {
            self.pos = self.pos + 1;
            assert(s.skip(1) =~= self.text@.subrange(self.pos as int, self.end as int));
            assert((seq![c] + unescape_chars(s.skip(1))).drop_first() =~= unescape_chars(
                s.skip(1),
            ));
            Some(c)
        }
    }
}

} // verus!
