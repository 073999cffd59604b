//! A sequential reader over a finite byte source.
//!
//! The cursor never reads past the end of its source: a read that asks for
//! more bytes than are left fails with [`MidiError::TruncatedInput`] and
//! consumes nothing. Its position is the count of bytes consumed so far, so a
//! caller bounds a scope by the difference of two positions.

use byteorder::{BigEndian, ByteOrder};
use vstd::prelude::*;
use vstd::slice::slice_subrange;
use vstd::slice::slice_to_vec;

use crate::error::MidiError;

verus! {

/// The number that the bytes of `s` spell in base 256, first byte most
/// significant.
pub open spec fn big_endian(s: Seq<u8>) -> nat
    decreases s.len(),
{
    if s.len() == 0 {
        0
    } else {
        256 * big_endian(s.drop_last()) + s.last() as nat
    }
}

/// The first two bytes of `buf` as a big-endian number, computed by
/// `byteorder::BigEndian::read_u16`.
///
/// The contract restates what the crate documents of that function and is
/// taken on trust: Verus does not look into the body. The function panics on
/// a buffer of fewer than two bytes, which the precondition rules out.
#[verifier::external_body]
fn be_read_u16(buf: &[u8]) -> (r: u16)
    requires
        buf@.len() >= 2,
    ensures
        r as nat == big_endian(buf@.subrange(0, 2)),
{
    BigEndian::read_u16(buf)
}

/// The first four bytes of `buf` as a big-endian number, computed by
/// `byteorder::BigEndian::read_u32`.
///
/// The contract restates what the crate documents of that function and is
/// taken on trust: Verus does not look into the body. The function panics on
/// a buffer of fewer than four bytes, which the precondition rules out.
#[verifier::external_body]
fn be_read_u32(buf: &[u8]) -> (r: u32)
    requires
        buf@.len() >= 4,
    ensures
        r as nat == big_endian(buf@.subrange(0, 4)),
{
    BigEndian::read_u32(buf)
}

/// A read position inside a borrowed byte source.
#[derive(Clone, Copy)]
pub struct ByteCursor<'a> {
    data: &'a [u8],
    pos: usize,
}

impl<'a> ByteCursor<'a> {
    /// The position never lies behind the end of the source.
    #[verifier::type_invariant]
    pub closed spec fn in_bounds(&self) -> bool {
        self.pos <= self.data@.len()
    }

    /// The whole byte source, consumed part included.
    pub closed spec fn bytes(&self) -> Seq<u8> {
        self.data@
    }

    /// The count of bytes consumed so far.
    pub closed spec fn spec_position(&self) -> usize {
        self.pos
    }

    /// The bytes not consumed yet.
    pub open spec fn unread(&self) -> Seq<u8> {
        self.bytes().subrange(self.position() as int, self.bytes().len() as int)
    }

    /// A cursor at the start of `data`.
    pub fn new(data: &'a [u8]) -> (c: Self)
        ensures
            c.bytes() == data@,
            c.position() == 0,
    {
        ByteCursor { data, pos: 0 }
    }

    /// The count of bytes consumed so far, which never exceeds the length of
    /// the source.
    #[verifier::when_used_as_spec(spec_position)]
    pub fn position(&self) -> (p: usize)
        ensures
            p == self.position(),
            p <= self.bytes().len(),
    {
        proof {
            use_type_invariant(self);
        }
        self.pos
    }

    /// The count of bytes not consumed yet.
    pub fn remaining(&self) -> (n: usize)
        ensures
            n == self.bytes().len() - self.position(),
    {
        proof {
            use_type_invariant(self);
        }
        self.data.len() - self.pos
    }

    /// Consumes one byte.
    pub fn read_u8(&mut self) -> (r: Result<u8, MidiError>)
        ensures
            final(self).bytes() == old(self).bytes(),
            match r {
                Ok(b) => {
                    &&& old(self).position() < old(self).bytes().len()
                    &&& b == old(self).bytes()[old(self).position() as int]
                    &&& final(self).position() == old(self).position() + 1
                },
                Err(e) => {
                    &&& e == MidiError::TruncatedInput
                    &&& old(self).position() >= old(self).bytes().len()
                    &&& final(self).position() == old(self).position()
                },
            },
    {
        proof {
            use_type_invariant(&*self);
        }
        if self.pos < self.data.len() {
            let b = self.data[self.pos];
            self.pos = self.pos + 1;
            Ok(b)
        } else {
            Err(MidiError::TruncatedInput)
        }
    }

    /// Consumes `n` bytes and returns them in source order.
    pub fn read_exact(&mut self, n: usize) -> (r: Result<Vec<u8>, MidiError>)
        ensures
            final(self).bytes() == old(self).bytes(),
            match r {
                Ok(v) => {
                    &&& old(self).position() + n <= old(self).bytes().len()
                    &&& v@ == old(self).bytes().subrange(
                        old(self).position() as int,
                        old(self).position() + n,
                    )
                    &&& final(self).position() == old(self).position() + n
                },
                Err(e) => {
                    &&& e == MidiError::TruncatedInput
                    &&& old(self).position() + n > old(self).bytes().len()
                    &&& final(self).position() == old(self).position()
                },
            },
    {
        proof {
            use_type_invariant(&*self);
        }
        if n <= self.data.len() - self.pos {
            let part = slice_subrange(self.data, self.pos, self.pos + n);
            let v = slice_to_vec(part);
            self.pos = self.pos + n;
            Ok(v)
        } else {
            Err(MidiError::TruncatedInput)
        }
    }

    /// Consumes two bytes and returns the big-endian number they spell.
    pub fn read_u16(&mut self) -> (r: Result<u16, MidiError>)
        ensures
            final(self).bytes() == old(self).bytes(),
            match r {
                Ok(v) => {
                    &&& old(self).position() + 2 <= old(self).bytes().len()
                    &&& v as nat == big_endian(
                        old(self).bytes().subrange(
                            old(self).position() as int,
                            old(self).position() + 2,
                        ),
                    )
                    &&& final(self).position() == old(self).position() + 2
                },
                Err(e) => {
                    &&& e == MidiError::TruncatedInput
                    &&& old(self).position() + 2 > old(self).bytes().len()
                    &&& final(self).position() == old(self).position()
                },
            },
    {
        proof {
            use_type_invariant(&*self);
        }
        if 2 <= self.data.len() - self.pos {
            let part = slice_subrange(self.data, self.pos, self.pos + 2);
            assert(part@.subrange(0, 2) =~= part@);
            let v = be_read_u16(part);
            self.pos = self.pos + 2;
            Ok(v)
        } else {
            Err(MidiError::TruncatedInput)
        }
    }

    /// Consumes four bytes and returns the big-endian number they spell.
    pub fn read_u32(&mut self) -> (r: Result<u32, MidiError>)
        ensures
            final(self).bytes() == old(self).bytes(),
            match r {
                Ok(v) => {
                    &&& old(self).position() + 4 <= old(self).bytes().len()
                    &&& v as nat == big_endian(
                        old(self).bytes().subrange(
                            old(self).position() as int,
                            old(self).position() + 4,
                        ),
                    )
                    &&& final(self).position() == old(self).position() + 4
                },
                Err(e) => {
                    &&& e == MidiError::TruncatedInput
                    &&& old(self).position() + 4 > old(self).bytes().len()
                    &&& final(self).position() == old(self).position()
                },
            },
    {
        proof {
            use_type_invariant(&*self);
        }
        if 4 <= self.data.len() - self.pos {
            let part = slice_subrange(self.data, self.pos, self.pos + 4);
            assert(part@.subrange(0, 4) =~= part@);
            let v = be_read_u32(part);
            self.pos = self.pos + 4;
            Ok(v)
        } else {
            Err(MidiError::TruncatedInput)
        }
    }

    /// Moves the position back by `n` bytes, so that they are read again.
    pub fn seek_back(&mut self, n: usize)
        requires
            n <= old(self).position(),
        ensures
            final(self).bytes() == old(self).bytes(),
            final(self).position() == old(self).position() - n,
    {
        proof {
            use_type_invariant(&*self);
        }
        self.pos = self.pos - n;
    }
}

} // verus!
