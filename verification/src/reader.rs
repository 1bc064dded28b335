//! A cursor over the bytes of a header, and the fixed-width reads that the
//! decoders are built from.

use byteorder::{BigEndian, ByteOrder};
use vstd::prelude::*;
use vstd::slice::{slice_subrange, slice_to_vec};
use crate::error::Error;
use crate::grammar::{
    agrees, spec_i32_be, spec_i64_be, spec_u32_be, spec_u64_be, take_bytes, take_i32, take_i64,
    take_u32, take_u64, take_u8,
};

verus! {

/// `byteorder::BigEndian::read_u32`: the unsigned value of the first four bytes
/// of `buf`, most significant byte first. It panics on a shorter slice, which
/// the precondition excludes.
#[verifier::external_body]
fn be_u32(buf: &[u8]) -> (v: u32)
    requires
        buf@.len() >= 4,
    ensures
        v == spec_u32_be(buf@),
{
    BigEndian::read_u32(buf)
}

/// `byteorder::BigEndian::read_u64`: the unsigned value of the first eight
/// bytes of `buf`, most significant byte first. It panics on a shorter slice,
/// which the precondition excludes.
#[verifier::external_body]
fn be_u64(buf: &[u8]) -> (v: u64)
    requires
        buf@.len() >= 8,
    ensures
        v == spec_u64_be(buf@),
{
    BigEndian::read_u64(buf)
}

/// `byteorder::BigEndian::read_i32`: the first four bytes of `buf` as a
/// two's-complement value, most significant byte first. It panics on a shorter
/// slice, which the precondition excludes.
#[verifier::external_body]
fn be_i32(buf: &[u8]) -> (v: i32)
    requires
        buf@.len() >= 4,
    ensures
        v == spec_i32_be(buf@),
{
    BigEndian::read_i32(buf)
}

/// `byteorder::BigEndian::read_i64`: the first eight bytes of `buf` as a
/// two's-complement value, most significant byte first. It panics on a shorter
/// slice, which the precondition excludes.
#[verifier::external_body]
fn be_i64(buf: &[u8]) -> (v: i64)
    requires
        buf@.len() >= 8,
    ensures
        v == spec_i64_be(buf@),
{
    BigEndian::read_i64(buf)
}

/// A byte source with a position. Reads never go past the end and never hand
/// out part of a field.
pub struct ByteReader<'a> {
    data: &'a [u8],
    pos: usize,
}

impl<'a> ByteReader<'a> {
    #[verifier::type_invariant]
    spec fn in_bounds(self) -> bool {
        self.pos <= self.data@.len()
    }

    /// All the bytes of the source.
    pub closed spec fn bytes(self) -> Seq<u8> {
        self.data@
    }

    /// The index of the next byte to read.
    pub closed spec fn cursor(self) -> int {
        self.pos as int
    }

    /// Starts reading `data` at its first byte.
    pub fn new(data: &'a [u8]) -> (reader: Self)
        ensures
            reader.bytes() == data@,
            reader.cursor() == 0,
    {
        ByteReader { data, pos: 0 }
    }

    /// Returns the index of the next byte to read.
    pub fn position(&self) -> (p: usize)
        ensures
            p == self.cursor(),
            p <= self.bytes().len(),
    {
        proof {
            use_type_invariant(self);
        }
        self.pos
    }

    /// Returns the number of bytes that are left.
    pub fn remaining(&self) -> (n: usize)
        ensures
            n == self.bytes().len() - self.cursor(),
            self.bytes().len() <= usize::MAX,
    {
        proof {
            use_type_invariant(self);
        }
        self.data.len() - self.pos
    }

    /// Hands out the next `n` bytes as a slice and moves past them.
    fn advance(&mut self, n: usize) -> (r: Result<&'a [u8], Error>)
        ensures
            final(self).bytes() == old(self).bytes(),
            agrees(r, final(self).cursor(), take_bytes(old(self).bytes(), old(self).cursor(), n as int)),
            r is Err ==> final(self).cursor() == old(self).cursor(),
    {
        proof {
            use_type_invariant(&*self);
        }
        if n > self.data.len() - self.pos {
            return Err(Error::TruncatedInput);
        }
        let start: usize = self.pos;
        let out = slice_subrange(self.data, start, start + n);
        self.pos = start + n;
        Ok(out)
    }

    /// Reads one byte.
    pub fn read_u8(&mut self) -> (r: Result<u8, Error>)
        ensures
            final(self).bytes() == old(self).bytes(),
            agrees(r, final(self).cursor(), take_u8(old(self).bytes(), old(self).cursor())),
            r is Err ==> final(self).cursor() == old(self).cursor(),
    {
        match self.advance(1) {
            Ok(field) => Ok(field[0]),
            Err(e) => Err(e),
        }
    }

    /// Reads an unsigned 32-bit integer, most significant byte first.
    pub fn read_u32(&mut self) -> (r: Result<u32, Error>)
        ensures
            final(self).bytes() == old(self).bytes(),
            agrees(r, final(self).cursor(), take_u32(old(self).bytes(), old(self).cursor())),
            r is Err ==> final(self).cursor() == old(self).cursor(),
    {
        match self.advance(4) {
            Ok(field) => Ok(be_u32(field)),
            Err(e) => Err(e),
        }
    }

    /// Reads an unsigned 64-bit integer, most significant byte first.
    pub fn read_u64(&mut self) -> (r: Result<u64, Error>)
        ensures
            final(self).bytes() == old(self).bytes(),
            agrees(r, final(self).cursor(), take_u64(old(self).bytes(), old(self).cursor())),
            r is Err ==> final(self).cursor() == old(self).cursor(),
    {
        match self.advance(8) {
            Ok(field) => Ok(be_u64(field)),
            Err(e) => Err(e),
        }
    }

    /// Reads a signed 32-bit integer, most significant byte first.
    pub fn read_i32(&mut self) -> (r: Result<i32, Error>)
        ensures
            final(self).bytes() == old(self).bytes(),
            agrees(r, final(self).cursor(), take_i32(old(self).bytes(), old(self).cursor())),
            r is Err ==> final(self).cursor() == old(self).cursor(),
    {
        match self.advance(4) {
            Ok(field) => Ok(be_i32(field)),
            Err(e) => Err(e),
        }
    }

    /// Reads a signed 64-bit integer, most significant byte first.
    pub fn read_i64(&mut self) -> (r: Result<i64, Error>)
        ensures
            final(self).bytes() == old(self).bytes(),
            agrees(r, final(self).cursor(), take_i64(old(self).bytes(), old(self).cursor())),
            r is Err ==> final(self).cursor() == old(self).cursor(),
    {
        match self.advance(8) {
            Ok(field) => Ok(be_i64(field)),
            Err(e) => Err(e),
        }
    }

    /// Reads exactly `n` bytes.
    pub fn read_bytes(&mut self, n: u64) -> (r: Result<Vec<u8>, Error>)
        ensures
            final(self).bytes() == old(self).bytes(),
            agrees(r, final(self).cursor(), take_bytes(old(self).bytes(), old(self).cursor(), n as int)),
            r is Err ==> final(self).cursor() == old(self).cursor(),
    {
        if n > self.remaining() as u64 {
            return Err(Error::TruncatedInput);
        }
        match self.advance(n as usize) {
            Ok(field) => Ok(slice_to_vec(field)),
            Err(e) => Err(e),
        }
    }

    /// Moves past `n` bytes without looking at them.
    pub fn skip(&mut self, n: u64) -> (r: Result<(), Error>)
        ensures
            final(self).bytes() == old(self).bytes(),
            match take_bytes(old(self).bytes(), old(self).cursor(), n as int) {
                Ok((_, end)) => r is Ok && final(self).cursor() == end,
                Err(e) => r == Err::<(), Error>(e) && final(self).cursor() == old(self).cursor(),
            },
    {
        if n > self.remaining() as u64 {
            return Err(Error::TruncatedInput);
        }
        match self.advance(n as usize) {
            Ok(_) => Ok(()),
            Err(e) => Err(e),
        }
    }
}

} // verus!
