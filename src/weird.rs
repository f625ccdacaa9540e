//! The byte sequence that message hashes are computed over: the low byte of
//! each UTF-16 code unit of the signing form.

use vstd::prelude::*;
use vstd::utf8::{
    decode_first_scalar, decode_utf8, length_of_first_scalar, pop_first_scalar, valid_first_scalar,
    valid_utf8,
};

verus! {

broadcast use vstd::utf8::group_utf8_lib;

/// The UTF-16 code units of one character.
pub open spec fn char_units(c: char) -> Seq<u16> {
    let v = c as u32;
    if v < 0x10000 {
        seq![v as u16]
    } else {
        seq![(0xd800 + (v - 0x10000) / 0x400) as u16, (0xdc00 + (v - 0x10000) % 0x400) as u16]
    }
}

/// The UTF-16 encoding of a string.
pub open spec fn utf16_of(s: Seq<char>) -> Seq<u16>
    decreases s.len(),
{
    if s.len() == 0 {
        Seq::empty()
    } else {
        utf16_of(s.drop_last()) + char_units(s.last())
    }
}

/// The low byte of a code unit.
pub open spec fn low_byte(u: u16) -> u8 {
    (u % 256) as u8
}

/// The low bytes of the UTF-16 code units of a string.
pub open spec fn weird_of(s: Seq<char>) -> Seq<u8>
    decreases s.len(),
{
    if s.len() == 0 {
        Seq::empty()
    } else {
        weird_of(s.drop_last()) + char_units(s.last()).map_values(|u: u16| low_byte(u))
    }
}

/// The low bytes of the code units of one character.
pub open spec fn char_bytes(c: char) -> Seq<u8> {
    char_units(c).map_values(|u: u16| low_byte(u))
}

/// The low bytes of the UTF-16 code units of a string, front first.
pub open spec fn weird_front(s: Seq<char>) -> Seq<u8>
    decreases s.len(),
{
    if s.len() == 0 {
        Seq::empty()
    } else {
        char_bytes(s[0]) + weird_front(s.drop_first())
    }
}

/// Both ways of walking a string give the same bytes.
pub proof fn lemma_weird_front(s: Seq<char>)
    ensures
        weird_front(s) == weird_of(s),
    decreases s.len(),
{
    if s.len() > 0 {
        lemma_weird_front(s.drop_first());
        if s.len() > 1 {
            lemma_weird_front(s.drop_last());
            lemma_weird_front(s.drop_first().drop_last());
            assert(s.drop_first().drop_last() =~= s.drop_last().drop_first());
            assert(s.drop_first().last() == s.last());
            assert(s.drop_last()[0] == s[0]);
            assert(weird_front(s.drop_last()) == char_bytes(s[0]) + weird_front(
                s.drop_last().drop_first(),
            ));
        } else {
            assert(s.drop_first() =~= Seq::<char>::empty());
            assert(s.drop_last() =~= Seq::<char>::empty());
            assert(s.last() == s[0]);
        }
        assert(weird_front(s) =~= weird_of(s));
    }
}

proof fn lemma_first_char(rest: Seq<u8>, cp: u32, w: int)
    requires
        rest.len() > 0,
        valid_utf8(rest),
        cp == decode_first_scalar(rest),
        w == length_of_first_scalar(rest),
    ensures
        0 < w <= rest.len(),
        valid_utf8(rest.subrange(w, rest.len() as int)),
        decode_utf8(rest) == seq![cp as char] + decode_utf8(rest.subrange(w, rest.len() as int)),
        (cp as char) as u32 == cp,
{
    let chars = decode_utf8(rest);
    vstd::utf8::decode_utf8_encode_utf8(rest);
    vstd::utf8::encode_utf8_first_scalar(chars);
    assert(pop_first_scalar(rest) == rest.subrange(w, rest.len() as int));
    assert(chars[0] as u32 == cp);
}

/// An iterator that yields, one at a time, the bytes needed to compute the
/// hash of a message. The total number of bytes yielded by this is the length
/// of the message.
pub struct WeirdEncodingIterator<'a> {
    bytes: &'a [u8],
    pos: usize,
    pending: Option<u8>,
}

impl<'a> WeirdEncodingIterator<'a> {
    /// The characters not yet read.
    closed spec fn rest(&self) -> Seq<char> {
        decode_utf8(self.bytes@.subrange(self.pos as int, self.bytes@.len() as int))
    }

    /// The bytes that are still to come.
    pub closed spec fn remaining(&self) -> Seq<u8> {
        match self.pending {
            Some(b) => seq![b] + weird_front(self.rest()),
            None => weird_front(self.rest()),
        }
    }

    /// The position lies within the input, at the start of a character.
    pub closed spec fn wf(&self) -> bool {
        &&& self.pos <= self.bytes@.len()
        &&& valid_utf8(self.bytes@.subrange(self.pos as int, self.bytes@.len() as int))
    }

    /// Yields the next byte, if any is left.
    #[verifier::rlimit(100)]
    #[verifier::spinoff_prover]
    pub fn next(&mut self) -> (r: Option<u8>)
        requires
            old(self).wf(),
        ensures
            final(self).wf(),
            old(self).remaining().len() == 0 ==> r is None && final(self).remaining()
                == old(self).remaining(),
            old(self).remaining().len() > 0 ==> r == Some(old(self).remaining()[0])
                && final(self).remaining() == old(self).remaining().drop_first(),
    {
        if let Some(b) = self.pending {
            self.pending = None;
            assert(self.remaining() =~= old(self).remaining().drop_first());
            return Some(b);
        }
        let ghost rest = self.bytes@.subrange(self.pos as int, self.bytes@.len() as int);
        if self.pos >= self.bytes.len() {
            assert(rest =~= Seq::<u8>::empty());
            assert(old(self).remaining() =~= Seq::<u8>::empty());
            return None;
        }
        let b0 = self.bytes[self.pos];
        let (cp, w) = if b0 <= 0x7f {
            ((b0 & 0x7f) as u32, 1usize)
        } else if b0 <= 0xdf {
            let b1 = self.bytes[self.pos + 1];
            ((((b0 & 0x1f) as u32) << 6) | ((b1 & 0x3f) as u32), 2usize)
        } else if b0 <= 0xef {
            let b1 = self.bytes[self.pos + 1];
            let b2 = self.bytes[self.pos + 2];
            ((((b0 & 0x0f) as u32) << 12) | (((b1 & 0x3f) as u32) << 6) | ((b2 & 0x3f) as u32), 3usize)
        } else {
            let b1 = self.bytes[self.pos + 1];
            let b2 = self.bytes[self.pos + 2];
            let b3 = self.bytes[self.pos + 3];
            (
                (((b0 & 0x07) as u32) << 18) | (((b1 & 0x3f) as u32) << 12) | (((b2 & 0x3f) as u32)
                    << 6) | ((b3 & 0x3f) as u32),
                4usize,
            )
        };
        proof {
            assert(rest[0] == b0);
            lemma_first_char(rest, cp, w as int);
            let tail = rest.subrange(w as int, rest.len() as int);
            assert(tail =~= self.bytes@.subrange(self.pos + w, self.bytes@.len() as int));
            let chars = decode_utf8(rest);
            assert(chars[0] == cp as char);
            assert(chars.drop_first() =~= decode_utf8(tail));
            assert(weird_front(chars) == char_bytes(cp as char) + weird_front(decode_utf8(tail)));
        }
        self.pos = self.pos + w;
        if cp < 0x10000 {
            assert(self.remaining() =~= old(self).remaining().drop_first());
            Some((cp % 256) as u8)
        } else {
            self.pending = Some(((0xdc00 + (cp - 0x10000) % 0x400) % 256) as u8);
            assert(self.remaining() =~= old(self).remaining().drop_first());
            Some(((0xd800 + (cp - 0x10000) / 0x400) % 256) as u8)
        }
    }

    /// Consumes the iterator and counts the bytes it would still yield.
    pub fn count(self) -> (r: usize)
        requires
            self.wf(),
            self.remaining().len() <= usize::MAX,
        ensures
            r == self.remaining().len(),
    {
        let mut it = self;
        let mut n: usize = 0;
        loop
            invariant
                it.wf(),
                n + it.remaining().len() == self.remaining().len(),
                self.remaining().len() <= usize::MAX,
            ensures
                n == self.remaining().len(),
            decreases it.remaining().len(),
        {
            match it.next() {
                Some(_) => n = n + 1,
                None => break,
            }
        }
        n
    }
}

/// Creates the iterator over the bytes used to compute the hash of a legacy
/// message whose signing form is `s`: the low byte of each of its UTF-16 code
/// units. Their number is also the length used for message size checks.
pub fn to_weird_encoding<'a>(s: &'a str) -> (r: WeirdEncodingIterator<'a>)
    ensures
        r.wf(),
        r.remaining() == weird_of(s@),
{
    let r = WeirdEncodingIterator { bytes: s.as_bytes(), pos: 0, pending: None };
    proof {
        lemma_weird_front(s@);
        assert(r.bytes@.subrange(0, r.bytes@.len() as int) =~= r.bytes@);
    }
    r
}

/// The length of a message, for size checks: the number of bytes that
/// `to_weird_encoding` yields for it.
pub fn legacy_length(msg: &str) -> (r: usize)
    requires
        weird_of(msg@).len() <= usize::MAX,
    ensures
        r == weird_of(msg@).len(),
{
    to_weird_encoding(msg).count()
}

/// The hashing bytes of a string are as many as its UTF-16 code units, and
/// each is the low byte of the code unit at its place.
pub proof fn lemma_weird_units(s: Seq<char>)
    ensures
        weird_of(s).len() == utf16_of(s).len(),
        forall|i: int| 0 <= i < weird_of(s).len() ==> #[trigger] weird_of(s)[i] == low_byte(utf16_of(s)[i]),
    decreases s.len(),
{
    if s.len() > 0 {
        lemma_weird_units(s.drop_last());
    }
}

} // verus!
