//! Sources of bytes.

use vstd::prelude::*;

use crate::error::Error;

verus! {

/// A source of bytes.
pub trait Read: Sized {
    /// The bytes that are still to come. Unless a source says what they are, nothing is known of
    /// them but that they depend on the source.
    closed spec fn remaining(&self) -> Seq<u8> {
        let bytes: spec_fn(Self) -> Seq<u8> = arbitrary();
        bytes(*self)
    }

    /// The errors with which the source can fail. Unless a source says otherwise, that may be any.
    closed spec fn errors(&self) -> Set<Error> {
        Set::full()
    }

    /// The source gives as many bytes as it has and as fit.
    closed spec fn eager(&self) -> bool {
        false
    }

    /// Reads some bytes into `buf` and returns how many. There are none only at the end of the
    /// source, or if `buf` is empty.
    fn read(&mut self, buf: &mut [u8]) -> (result: Result<usize, Error>)
        ensures
            final(self).errors() == old(self).errors(),
            final(self).eager() == old(self).eager(),
            final(buf)@.len() == old(buf)@.len(),
            match result {
                Ok(n) => {
                    &&& n <= old(buf)@.len()
                    &&& old(self).remaining() == final(buf)@.take(n as int)
                        + final(self).remaining()
                    &&& n == 0 ==> old(buf)@.len() == 0 || old(self).remaining().len() == 0
                    &&& old(self).eager() ==> n == old(buf)@.len() || n == old(
                        self,
                    ).remaining().len()
                },
                Err(error) => old(self).errors().contains(error),
            },
    ;
}

impl<'a> Read for &'a [u8] {
    open spec fn remaining(&self) -> Seq<u8> {
        (**self)@
    }

    open spec fn errors(&self) -> Set<Error> {
        Set::empty()
    }

    open spec fn eager(&self) -> bool {
        true
    }

    fn read(&mut self, buf: &mut [u8]) -> (result: Result<usize, Error>) {
        let source: &'a [u8] = *self;
        let n: usize = if buf.len() < source.len() { buf.len() } else { source.len() };
        let mut i: usize = 0;
        while i < n
            invariant
                i <= n,
                n <= buf@.len(),
                n <= source@.len(),
                buf@.len() == old(buf)@.len(),
                forall|j: int| 0 <= j < i ==> buf@[j] == source@[j],
            decreases n - i,
        {
            buf[i] = source[i];
            i += 1;
        }
        *self = vstd::slice::slice_subrange(source, n, source.len());
        assert(old(self).remaining() =~= buf@.take(n as int) + self.remaining());
        Ok(n)
    }
}

/// Fills `buf`, or fails if the source ends before.
pub fn read_exact<R: Read>(reader: &mut R, buf: &mut [u8]) -> (result: Result<(), Error>)
    ensures
        final(reader).errors() == old(reader).errors(),
        final(buf)@.len() == old(buf)@.len(),
        match result {
            Ok(_) => {
                &&& old(reader).remaining().len() >= old(buf)@.len()
                &&& final(buf)@ == old(reader).remaining().take(old(buf)@.len() as int)
                &&& final(reader).remaining() == old(reader).remaining().skip(
                    old(buf)@.len() as int,
                )
            },
            Err(error) => old(reader).errors().contains(error) || {
                &&& error == Error::Eof
                &&& old(reader).remaining().len() < old(buf)@.len()
            },
        },
{
    let mut pos: usize = 0;
    let ghost all = reader.remaining();
    while pos < buf.len()
        invariant
            pos <= buf@.len(),
            buf@.len() == old(buf)@.len(),
            pos <= all.len(),
            all == old(reader).remaining(),
            buf@.take(pos as int) == all.take(pos as int),
            reader.remaining() == all.skip(pos as int),
            reader.errors() == old(reader).errors(),
        decreases buf@.len() - pos,
    {
        let ghost before = buf@;
        let (_, rest) = buf.split_at_mut(pos);
        match reader.read(rest) {
            Ok(0) => {
                return Err(Error::Eof);
            },
            Ok(n) => {
                proof {
                    let got = buf@.subrange(pos as int, pos + n);
                    assert(all.skip(pos as int) == got + reader.remaining());
                    assert(reader.remaining() =~= all.skip(pos + n)) by {
                        assert forall|i: int|
                            0 <= i < reader.remaining().len() implies reader.remaining()[i]
                            == all.skip(pos + n)[i] by {
                            assert(reader.remaining()[i] == (got + reader.remaining())[n + i]);
                        }
                    }
                    assert(buf@.take(pos + n) =~= all.take(pos + n)) by {
                        assert forall|i: int| 0 <= i < pos + n implies buf@[i] == all[i] by {
                            if i < pos {
                                assert(buf@[i] == before.take(pos as int)[i]);
                                assert(all.take(pos as int)[i] == all[i]);
                            } else {
                                assert(got[i - pos] == all.skip(pos as int)[i - pos]);
                            }
                        }
                    }
                }
                pos += n;
            },
            Err(error) => {
                return Err(error);
            },
        }
    }
    assert(buf@ =~= buf@.take(pos as int));
    Ok(())
}

/// The number that four bytes stand for, the most significant first.
pub open spec fn be32(bytes: Seq<u8>) -> int {
    bytes[0] * 0x1000000 + bytes[1] * 0x10000 + bytes[2] * 0x100 + bytes[3]
}

/// The number that two bytes stand for, the most significant first.
pub open spec fn be16(bytes: Seq<u8>) -> int {
    bytes[0] * 0x100 + bytes[1]
}

/// Reads one byte.
pub fn read_u8<R: Read>(reader: &mut R) -> (result: Result<u8, Error>)
    ensures
        final(reader).errors() == old(reader).errors(),
        match result {
            Ok(byte) => {
                &&& old(reader).remaining().len() >= 1
                &&& byte == old(reader).remaining()[0]
                &&& final(reader).remaining() == old(reader).remaining().skip(1)
            },
            Err(error) => old(reader).errors().contains(error) || {
                &&& error == Error::Eof
                &&& old(reader).remaining().len() < 1
            },
        },
{
    let mut buf: [u8; 1] = [0; 1];
    match read_exact(reader, &mut buf) {
        Ok(_) => Ok(buf[0]),
        Err(error) => Err(error),
    }
}

/// Reads a number of two bytes, the most significant first.
pub fn read_u16_be<R: Read>(reader: &mut R) -> (result: Result<u16, Error>)
    ensures
        final(reader).errors() == old(reader).errors(),
        match result {
            Ok(value) => {
                &&& old(reader).remaining().len() >= 2
                &&& value == be16(old(reader).remaining())
                &&& final(reader).remaining() == old(reader).remaining().skip(2)
            },
            Err(error) => old(reader).errors().contains(error) || {
                &&& error == Error::Eof
                &&& old(reader).remaining().len() < 2
            },
        },
{
    let mut buf: [u8; 2] = [0; 2];
    match read_exact(reader, &mut buf) {
        Ok(_) => Ok(buf[0] as u16 * 0x100 + buf[1] as u16),
        Err(error) => Err(error),
    }
}

/// Reads a number of four bytes, the most significant first.
pub fn read_u32_be<R: Read>(reader: &mut R) -> (result: Result<u32, Error>)
    ensures
        final(reader).errors() == old(reader).errors(),
        match result {
            Ok(value) => {
                &&& old(reader).remaining().len() >= 4
                &&& value == be32(old(reader).remaining())
                &&& final(reader).remaining() == old(reader).remaining().skip(4)
            },
            Err(error) => old(reader).errors().contains(error) || {
                &&& error == Error::Eof
                &&& old(reader).remaining().len() < 4
            },
        },
{
    let mut buf: [u8; 4] = [0; 4];
    match read_exact(reader, &mut buf) {
        Ok(_) => Ok(
            buf[0] as u32 * 0x1000000 + buf[1] as u32 * 0x10000 + buf[2] as u32 * 0x100
                + buf[3] as u32,
        ),
        Err(error) => Err(error),
    }
}

} // verus!
