//! Reading bytes off the front of an input.

use crate::error::Error;
use vstd::prelude::*;

verus! {

/// The number that four bytes stand for, most significant byte first.
pub open spec fn be_u32(bytes: Seq<u8>) -> int
    recommends
        bytes.len() == 4,
{
    bytes[0] * 0x100_0000 + bytes[1] * 0x1_0000 + bytes[2] * 0x100 + bytes[3]
}

/// A position in an input.
pub(crate) struct Reader<'a> {
    pub(crate) bytes: &'a [u8],
    pub(crate) pos: usize,
}

impl<'a> Reader<'a> {
    /// The position lies in the input or at its end.
    pub(crate) open spec fn wf(self) -> bool {
        self.pos <= self.bytes@.len()
    }

    /// What has not been read yet.
    pub(crate) open spec fn rest(self) -> Seq<u8> {
        self.bytes@.skip(self.pos as int)
    }

    /// This reader after `n` more bytes of the same input.
    pub(crate) open spec fn advanced(self, n: int, next: Self) -> bool {
        &&& next.wf()
        &&& next.bytes == self.bytes
        &&& next.pos == self.pos + n
    }

    pub(crate) fn new(bytes: &'a [u8]) -> (reader: Self)
        ensures
            reader.wf(),
            reader.bytes == bytes,
            reader.pos == 0,
    {
        Reader { bytes, pos: 0 }
    }

    /// Reads the next byte.
    pub(crate) fn read_u8(&mut self) -> (result: Result<u8, Error>)
        requires
            old(self).wf(),
        ensures
            old(self).rest().len() > 0 ==> {
                &&& result == Ok::<u8, Error>(old(self).rest()[0])
                &&& old(self).advanced(1, *final(self))
            },
            old(self).rest().len() == 0 ==> {
                &&& result == Err::<u8, Error>(Error::TruncatedInput)
                &&& *final(self) == *old(self)
            },
    {
        match self.bytes.get(self.pos) {
            Some(byte) => {
                self.pos = self.pos + 1;
                Ok(*byte)
            },
            None => Err(Error::TruncatedInput),
        }
    }

    /// Reads the next four bytes as a number, most significant byte first.
    /// Where fewer are left, all of them are passed over.
    pub(crate) fn read_u32_be(&mut self) -> (result: Result<u32, Error>)
        requires
            old(self).wf(),
        ensures
            old(self).rest().len() >= 4 ==> {
                &&& result matches Ok(n) && n == be_u32(old(self).rest().take(4))
                &&& old(self).advanced(4, *final(self))
            },
            old(self).rest().len() < 4 ==> {
                &&& result == Err::<u32, Error>(Error::TruncatedInput)
                &&& old(self).advanced(old(self).rest().len() as int, *final(self))
            },
    {
        let b0 = self.read_u8()?;
        let b1 = self.read_u8()?;
        let b2 = self.read_u8()?;
        let b3 = self.read_u8()?;
        let n: u32 = b0 as u32 * 0x100_0000 + b1 as u32 * 0x1_0000 + b2 as u32 * 0x100 + b3 as u32;
        Ok(n)
    }
}

} // verus!
