//! Stream primitives: a cursor over the bytes of an archive, exact-width
//! integer reads and a length-bounded copy.

use vstd::prelude::*;
use crate::error::UnpackError;

verus! {

/// Largest number of bytes that one step of a copy moves.
pub const BUFFER_SIZE: usize = 1024 * 1024;

/// Value of the first four bytes of `b`, read as an unsigned integer in
/// little-endian byte order.
pub open spec fn le_u32(b: Seq<u8>) -> int
    recommends
        b.len() >= 4,
{
    b[0] + b[1] * 0x100 + b[2] * 0x1_0000 + b[3] * 0x100_0000
}

/// The four bytes that hold `v` in little-endian byte order.
#[verifier::opaque]
pub open spec fn le_bytes(v: u32) -> Seq<u8> {
    seq![
        (v % 0x100) as u8,
        (v / 0x100 % 0x100) as u8,
        (v / 0x1_0000 % 0x100) as u8,
        (v / 0x100_0000 % 0x100) as u8,
    ]
}

/// Reading four bytes as a little-endian integer and writing that integer
/// back in little-endian order gives the same four bytes.
pub proof fn law_read_then_write(b: Seq<u8>)
    requires
        b.len() == 4,
    ensures
        0 <= le_u32(b) <= u32::MAX,
        le_bytes(le_u32(b) as u32) == b,
{
    reveal(le_bytes);
    let v = le_u32(b) as u32;
    let (b0, b1, b2, b3) = (b[0], b[1], b[2], b[3]);
    assert(v % 0x100 == b0 && v / 0x100 % 0x100 == b1 && v / 0x1_0000 % 0x100 == b2 && v
        / 0x100_0000 % 0x100 == b3) by (bit_vector)
        requires
            v == b0 + b1 * 0x100 + b2 * 0x1_0000 + b3 * 0x100_0000,
    ;
}

/// Writing an integer in little-endian order and reading the four bytes back
/// gives the same integer.
pub proof fn law_write_then_read(v: u32)
    ensures
        le_bytes(v).len() == 4,
        le_u32(le_bytes(v)) == v,
{
    reveal(le_bytes);
    assert(v == v % 0x100 + (v / 0x100 % 0x100) * 0x100 + (v / 0x1_0000 % 0x100) * 0x1_0000 + (v
        / 0x100_0000 % 0x100) * 0x100_0000) by (bit_vector);
}

/// Number of bytes that a copy of `length` bytes moves when the input still
/// holds `available` bytes.
pub open spec fn transferred(length: int, available: int) -> int {
    if length <= available {
        length
    } else {
        available
    }
}

/// A sequential input over the bytes of an archive. The cursor only moves
/// forward; the view is the sequence of bytes that have not been read yet.
#[derive(Clone, Copy)]
pub struct ByteReader<'a> {
    data: &'a [u8],
    pos: usize,
}

impl<'a> View for ByteReader<'a> {
    type V = Seq<u8>;

    closed spec fn view(&self) -> Seq<u8> {
        self.data@.skip(self.pos as int)
    }
}

impl<'a> ByteReader<'a> {
    #[verifier::type_invariant]
    spec fn inv(self) -> bool {
        self.pos <= self.data@.len()
    }

    /// A reader placed at the first byte of `data`.
    pub fn new(data: &'a [u8]) -> (reader: Self)
        ensures
            reader@ == data@,
    {
        ByteReader { data, pos: 0 }
    }

    /// Number of bytes that are still unread.
    pub fn remaining(&self) -> (n: usize)
        ensures
            n == self@.len(),
    {
        proof {
            use_type_invariant(self);
        }
        self.data.len() - self.pos
    }

    /// Reads up to `limit` bytes: as many as are left, and no more than
    /// `limit`. An empty result for a positive `limit` means end of input.
    pub fn read(&mut self, limit: usize) -> (chunk: &'a [u8])
        ensures
            chunk@ == old(self)@.take(transferred(limit as int, old(self)@.len() as int)),
            final(self)@ == old(self)@.skip(chunk@.len() as int),
    {
        proof {
            use_type_invariant(&*self);
        }
        let left: usize = self.data.len() - self.pos;
        let n: usize = if limit <= left { limit } else { left };
        let start: usize = self.pos;
        let chunk = &self.data[start..start + n];
        self.pos = start + n;
        chunk
    }

    /// Reads exactly `n` bytes, or nothing when fewer than `n` are left.
    pub fn read_exact(&mut self, n: usize) -> (r: Result<&'a [u8], UnpackError>)
        ensures
            match r {
                Ok(bytes) => {
                    &&& n <= old(self)@.len()
                    &&& bytes@ == old(self)@.take(n as int)
                    &&& final(self)@ == old(self)@.skip(n as int)
                },
                Err(e) => {
                    &&& n > old(self)@.len()
                    &&& e == UnpackError::TruncatedInput
                    &&& final(self)@ == old(self)@
                },
            },
    {
        proof {
            use_type_invariant(&*self);
        }
        if self.data.len() - self.pos < n {
            return Err(UnpackError::TruncatedInput);
        }
        let start: usize = self.pos;
        let bytes = &self.data[start..start + n];
        self.pos = start + n;
        Ok(bytes)
    }

    /// Moves the cursor past `n` bytes without looking at them, or not at
    /// all when fewer than `n` are left.
    pub fn skip(&mut self, n: usize) -> (r: Result<(), UnpackError>)
        ensures
            match r {
                Ok(_) => n <= old(self)@.len() && final(self)@ == old(self)@.skip(n as int),
                Err(e) => {
                    &&& n > old(self)@.len()
                    &&& e == UnpackError::TruncatedInput
                    &&& final(self)@ == old(self)@
                },
            },
    {
        proof {
            use_type_invariant(&*self);
        }
        if self.data.len() - self.pos < n {
            return Err(UnpackError::TruncatedInput);
        }
        self.pos = self.pos + n;
        Ok(())
    }
}

/// Reads four bytes and interprets them as a little-endian unsigned integer.
/// A failed read leaves the cursor where it was.
pub fn read_int32(reader: &mut ByteReader) -> (r: Result<u32, UnpackError>)
    ensures
        match r {
            Ok(v) => {
                &&& old(reader)@.len() >= 4
                &&& v == le_u32(old(reader)@)
                &&& le_bytes(v) == old(reader)@.take(4)
                &&& final(reader)@ == old(reader)@.skip(4)
            },
            Err(e) => {
                &&& old(reader)@.len() < 4
                &&& e == UnpackError::TruncatedInput
                &&& final(reader)@ == old(reader)@
            },
        },
{
    match reader.read_exact(4) {
        Err(e) => Err(e),
        Ok(b) => {
            let v: u32 = b[0] as u32 + b[1] as u32 * 0x100 + b[2] as u32 * 0x1_0000 + b[3] as u32
                * 0x100_0000;
            proof {
                law_read_then_write(b@);
            }
            Ok(v)
        },
    }
}

/// Moves exactly `length` bytes from `input` to the end of `output`, in
/// steps of at most `BUFFER_SIZE` bytes. When the input ends first, every
/// byte that was left has been moved and the error tells how many are
/// missing.
pub fn copy_stream_data(input: &mut ByteReader, output: &mut Vec<u8>, length: u64) -> (r: Result<
    (),
    UnpackError,
>)
    ensures
        final(output)@ == old(output)@ + old(input)@.take(
            transferred(length as int, old(input)@.len() as int),
        ),
        final(input)@ == old(input)@.skip(transferred(length as int, old(input)@.len() as int)),
        match r {
            Ok(_) => length <= old(input)@.len(),
            Err(e) => {
                &&& length > old(input)@.len()
                &&& e == UnpackError::TruncatedPayload {
                    expected: length,
                    remaining: (length - old(input)@.len()) as u64,
                }
            },
        },
{
    let mut remaining: u64 = length;
    while remaining > 0
        invariant
            remaining <= length,
            length - remaining <= old(input)@.len(),
            output@ == old(output)@ + old(input)@.take(length - remaining),
            input@ == old(input)@.skip(length - remaining),
        decreases remaining,
    {
        let to_read: usize = if remaining < BUFFER_SIZE as u64 {
            remaining as usize
        } else {
            BUFFER_SIZE
        };
        let chunk = input.read(to_read);
        if chunk.len() == 0 {
            return Err(UnpackError::TruncatedPayload { expected: length, remaining });
        }
        output.extend_from_slice(chunk);
        remaining = remaining - chunk.len() as u64;
    }
    Ok(())
}

} // verus!
