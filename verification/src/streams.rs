//! The stream primitives: a cursor-based reader over a borrowed byte buffer
//! and an append-only byte writer, together with the closed error taxonomy
//! every decode step reports through.
//!
//! The reader checks that the requested bytes are present *before* it
//! allocates anything, so a hostile length field can never force an
//! allocation beyond the bytes actually present in the source buffer.

use vstd::prelude::*;
use vstd::string::StringSliceAdditionalSpecFns;

use crate::encoding::clamp_isize;
use crate::encoding::clamp_usize;
use crate::encoding::i32_of_u32_bits;
use crate::encoding::i64_of_u64_bits;
use crate::encoding::lemma_pad_len_bounds;
use crate::encoding::lemma_padded_len_overflow;
use crate::encoding::lemma_u32_be_bytes;
use crate::encoding::lemma_u64_be_bytes;
use crate::encoding::pad_len;
use crate::encoding::padded_len;
use crate::encoding::u32_be_bytes;
use crate::encoding::u32_bits_of_i32;
use crate::encoding::u32_of_be_bytes;
use crate::encoding::u64_be_bytes;
use crate::encoding::u64_bits_of_i64;
use crate::encoding::u64_of_be_bytes;
use crate::encoding::zero_pad;

verus! {

/// Everything that can go wrong while decoding. Each variant carries the
/// diagnostic context of its failure.
#[derive(Clone, Copy, Debug, PartialEq, Eq, Structural)]
pub enum ReadStreamError {
    /// A read required more bytes than the buffer holds.
    SuddenEnd { at_position: usize, expected_length: usize },
    /// A top-level decode finished but left unconsumed trailing bytes.
    TypeEndsTooEarly { missing_no_of_bytes: isize },
    /// A boolean discriminant other than 0 or 1.
    InvalidBoolean { found_integer: i32 },
    /// A variable-length byte field declared a length above its bound.
    VarOpaqueExceedsMaxLength { at_position: usize, max_length: u32, actual_length: u32 },
    /// A text field declared a length above its bound.
    StringExceedsMaxLength { at_position: usize, max_length: u32, actual_length: u32 },
    /// A variable-length sequence declared a count above its bound.
    VarArrayExceedsMaxLength { at_position: usize, max_length: u32, actual_length: u32 },
    /// An optional discriminant other than 0 or 1.
    InvalidOptional { at_position: usize, has_code: u32 },
    /// Reserved for enum-like schema types built on this layer.
    InvalidEnumDiscriminator { at_position: usize },
}

/// The error an encoder may report before writing a value whose length
/// exceeds an intended bound; the streams themselves never fail.
#[derive(Clone, Copy, Debug, PartialEq, Eq, Structural)]
pub enum WriteStreamError {
    StringTooLong { string_length: usize },
}

/// The error a read of `wanted` bytes starting at `start` raises when `buf`
/// is too short: it reports the buffer's length and the offset the read
/// would have needed.
pub open spec fn sudden_end(buf: Seq<u8>, start: int, wanted: int) -> ReadStreamError {
    ReadStreamError::SuddenEnd {
        at_position: buf.len() as usize,
        expected_length: clamp_usize(start + wanted),
    }
}

/// A cursor over a borrowed byte buffer. The cursor only ever advances.
pub struct ReadStream<'a> {
    pub read_index: usize,
    pub source: &'a Vec<u8>,
}

impl<'a> ReadStream<'a> {
    /// The bytes being decoded.
    pub open spec fn data(&self) -> Seq<u8> {
        self.source@
    }

    /// The cursor never passes the end of the buffer.
    pub open spec fn wf(&self) -> bool {
        self.read_index <= self.source@.len()
    }

    /// A fresh reader over `source` with the cursor at the start.
    pub fn new(source: &'a Vec<u8>) -> (r: ReadStream<'a>)
        ensures
            r.data() == source@,
            r.read_index == 0,
            r.wf(),
    {
        ReadStream { read_index: 0, source }
    }

    /// Succeeds exactly when `no_of_bytes_to_read` more bytes are available.
    fn ensure_size(&self, no_of_bytes_to_read: usize) -> (r: Result<(), ReadStreamError>)
        requires
            self.wf(),
        ensures
            r is Ok <==> self.read_index + no_of_bytes_to_read <= self.data().len(),
            r matches Err(e) ==> e == sudden_end(
                self.data(),
                self.read_index as int,
                no_of_bytes_to_read as int,
            ),
    {
        if no_of_bytes_to_read > self.source.len() - self.read_index {
            return Err(self.generate_sudden_end_error(no_of_bytes_to_read));
        }
        Ok(())
    }

    /// The error for a failed read of `no_of_bytes_to_read` bytes here.
    fn generate_sudden_end_error(&self, no_of_bytes_to_read: usize) -> (e: ReadStreamError)
        ensures
            e == sudden_end(self.data(), self.read_index as int, no_of_bytes_to_read as int),
    {
        ReadStreamError::SuddenEnd {
            at_position: self.source.len(),
            expected_length: self.read_index.saturating_add(no_of_bytes_to_read),
        }
    }

    /// Consumes four bytes as a big-endian unsigned 32-bit integer.
    pub fn read_next_u32(&mut self) -> (r: Result<u32, ReadStreamError>)
        requires
            old(self).wf(),
        ensures
            final(self).wf(),
            final(self).source == old(self).source,
            match r {
                Ok(v) => {
                    &&& old(self).read_index + 4 <= old(self).data().len()
                    &&& final(self).read_index == old(self).read_index + 4
                    &&& v == u32_of_be_bytes(
                        old(self).data().subrange(
                            old(self).read_index as int,
                            old(self).read_index + 4,
                        ),
                    )
                },
                Err(e) => {
                    &&& old(self).data().len() < old(self).read_index + 4
                    &&& *final(self) == *old(self)
                    &&& e == sudden_end(old(self).data(), old(self).read_index as int, 4)
                },
            },
    {
        self.ensure_size(4)?;
        proof {
            assert(self.data().len() == self.source.len());
        }
        let i = self.read_index;
        let b0 = self.source[i];
        let b1 = self.source[i + 1];
        let b2 = self.source[i + 2];
        let b3 = self.source[i + 3];
        let v = ((b0 as u32) << 24) | ((b1 as u32) << 16) | ((b2 as u32) << 8) | (b3 as u32);
        self.read_index = i + 4;
        proof {
            let s = old(self).data().subrange(i as int, i + 4);
            assert(s[0] == b0 && s[1] == b1 && s[2] == b2 && s[3] == b3);
        }
        Ok(v)
    }

    /// Consumes four bytes as a big-endian signed 32-bit integer.
    pub fn read_next_i32(&mut self) -> (r: Result<i32, ReadStreamError>)
        requires
            old(self).wf(),
        ensures
            final(self).wf(),
            final(self).source == old(self).source,
            match r {
                Ok(v) => {
                    &&& old(self).read_index + 4 <= old(self).data().len()
                    &&& final(self).read_index == old(self).read_index + 4
                    &&& v == i32_of_u32_bits(
                        u32_of_be_bytes(
                            old(self).data().subrange(
                                old(self).read_index as int,
                                old(self).read_index + 4,
                            ),
                        ),
                    )
                },
                Err(e) => {
                    &&& old(self).data().len() < old(self).read_index + 4
                    &&& *final(self) == *old(self)
                    &&& e == sudden_end(old(self).data(), old(self).read_index as int, 4)
                },
            },
    {
        let u = self.read_next_u32()?;
        if u < 0x8000_0000 {
            Ok(u as i32)
        } else {
            Ok(((u as i64) - 0x1_0000_0000i64) as i32)
        }
    }

    /// Consumes eight bytes as a big-endian unsigned 64-bit integer.
    pub fn read_next_u64(&mut self) -> (r: Result<u64, ReadStreamError>)
        requires
            old(self).wf(),
        ensures
            final(self).wf(),
            final(self).source == old(self).source,
            match r {
                Ok(v) => {
                    &&& old(self).read_index + 8 <= old(self).data().len()
                    &&& final(self).read_index == old(self).read_index + 8
                    &&& v == u64_of_be_bytes(
                        old(self).data().subrange(
                            old(self).read_index as int,
                            old(self).read_index + 8,
                        ),
                    )
                },
                Err(e) => {
                    &&& old(self).data().len() < old(self).read_index + 8
                    &&& *final(self) == *old(self)
                    &&& e == sudden_end(old(self).data(), old(self).read_index as int, 8)
                },
            },
    {
        self.ensure_size(8)?;
        proof {
            assert(self.data().len() == self.source.len());
        }
        let i = self.read_index;
        let b0 = self.source[i];
        let b1 = self.source[i + 1];
        let b2 = self.source[i + 2];
        let b3 = self.source[i + 3];
        let b4 = self.source[i + 4];
        let b5 = self.source[i + 5];
        let b6 = self.source[i + 6];
        let b7 = self.source[i + 7];
        let v = ((b0 as u64) << 56) | ((b1 as u64) << 48) | ((b2 as u64) << 40) | ((b3 as u64)
            << 32) | ((b4 as u64) << 24) | ((b5 as u64) << 16) | ((b6 as u64) << 8) | (b7 as u64);
        self.read_index = i + 8;
        proof {
            let s = old(self).data().subrange(i as int, i + 8);
            assert(s[0] == b0 && s[1] == b1 && s[2] == b2 && s[3] == b3 && s[4] == b4 && s[5] == b5
                && s[6] == b6 && s[7] == b7);
        }
        Ok(v)
    }

    /// Consumes eight bytes as a big-endian signed 64-bit integer.
    pub fn read_next_i64(&mut self) -> (r: Result<i64, ReadStreamError>)
        requires
            old(self).wf(),
        ensures
            final(self).wf(),
            final(self).source == old(self).source,
            match r {
                Ok(v) => {
                    &&& old(self).read_index + 8 <= old(self).data().len()
                    &&& final(self).read_index == old(self).read_index + 8
                    &&& v == i64_of_u64_bits(
                        u64_of_be_bytes(
                            old(self).data().subrange(
                                old(self).read_index as int,
                                old(self).read_index + 8,
                            ),
                        ),
                    )
                },
                Err(e) => {
                    &&& old(self).data().len() < old(self).read_index + 8
                    &&& *final(self) == *old(self)
                    &&& e == sudden_end(old(self).data(), old(self).read_index as int, 8)
                },
            },
    {
        let u = self.read_next_u64()?;
        if u < 0x8000_0000_0000_0000 {
            Ok(u as i64)
        } else {
            Ok(((u as i128) - 0x1_0000_0000_0000_0000i128) as i64)
        }
    }

    /// Consumes `no_of_bytes` raw bytes plus their alignment padding and
    /// returns the unpadded bytes. The availability of the whole padded
    /// range is checked before anything is allocated. The padding bytes are
    /// skipped without inspecting their values: non-zero padding is
    /// deliberately accepted.
    pub fn read_next_binary_data(&mut self, no_of_bytes: usize) -> (r: Result<
        Vec<u8>,
        ReadStreamError,
    >)
        requires
            old(self).wf(),
        ensures
            final(self).wf(),
            final(self).source == old(self).source,
            match r {
                Ok(v) => {
                    &&& old(self).read_index + padded_len(no_of_bytes as int) <= old(
                        self,
                    ).data().len()
                    &&& final(self).read_index == old(self).read_index + padded_len(
                        no_of_bytes as int,
                    )
                    &&& v@ == old(self).data().subrange(
                        old(self).read_index as int,
                        old(self).read_index + no_of_bytes,
                    )
                },
                Err(e) => {
                    &&& old(self).data().len() < old(self).read_index + padded_len(
                        no_of_bytes as int,
                    )
                    &&& *final(self) == *old(self)
                    &&& e == sudden_end(
                        old(self).data(),
                        old(self).read_index as int,
                        padded_len(no_of_bytes as int),
                    )
                },
            },
    {
        proof {
            lemma_pad_len_bounds(no_of_bytes as int);
        }
        if no_of_bytes > usize::MAX - 3 {
            proof {
                lemma_padded_len_overflow(no_of_bytes as int);
            }
            return Err(ReadStreamError::SuddenEnd {
                at_position: self.source.len(),
                expected_length: usize::MAX,
            });
        }
        let padded = extend_to_multiple_of_4(no_of_bytes);
        self.ensure_size(padded)?;
        proof {
            assert(self.data().len() == self.source.len());
        }
        let i = self.read_index;
        let mut result: Vec<u8> = Vec::with_capacity(no_of_bytes);
        let mut j: usize = 0;
        while j < no_of_bytes
            invariant
                j <= no_of_bytes,
                i + no_of_bytes <= self.data().len(),
                i + no_of_bytes <= usize::MAX,
                result@ == self.data().subrange(i as int, i + j),
            decreases no_of_bytes - j,
        {
            result.push(self.source[i + j]);
            proof {
                assert(result@ =~= self.data().subrange(i as int, i + j + 1));
            }
            j += 1;
        }
        self.read_index = i + padded;
        Ok(result)
    }

    /// How many bytes remain unread, clamped into `isize`.
    pub fn no_of_bytes_left_to_read(&self) -> (r: isize)
        requires
            self.wf(),
        ensures
            r == clamp_isize(self.data().len() - self.read_index),
    {
        let left = self.source.len() - self.read_index;
        if left > isize::MAX as usize {
            isize::MAX
        } else {
            left as isize
        }
    }

    /// The cursor's current offset from the start of the buffer.
    pub fn get_position(&self) -> (r: usize)
        ensures
            r == self.read_index,
    {
        self.read_index
    }
}

/// An append-only growable byte buffer. Writes never fail.
pub struct WriteStream {
    pub result: Vec<u8>,
}

impl View for WriteStream {
    type V = Seq<u8>;

    open spec fn view(&self) -> Seq<u8> {
        self.result@
    }
}

impl WriteStream {
    /// A fresh, empty writer. The initial capacity is only a hint.
    pub fn new() -> (ws: WriteStream)
        ensures
            ws@ == Seq::<u8>::empty(),
    {
        WriteStream { result: Vec::with_capacity(128) }
    }

    /// Appends the four big-endian bytes of `value`.
    pub fn write_next_u32(&mut self, value: u32)
        ensures
            final(self)@ == old(self)@ + u32_be_bytes(value),
    {
        proof {
            lemma_u32_be_bytes(value);
        }
        self.result.push(((value >> 24) & 0xff) as u8);
        self.result.push(((value >> 16) & 0xff) as u8);
        self.result.push(((value >> 8) & 0xff) as u8);
        self.result.push((value & 0xff) as u8);
        proof {
            assert(self.result@ =~= old(self)@ + u32_be_bytes(value));
        }
    }

    /// Appends the four big-endian bytes of `value`'s bit pattern.
    pub fn write_next_i32(&mut self, value: i32)
        ensures
            final(self)@ == old(self)@ + u32_be_bytes(u32_bits_of_i32(value)),
    {
        let bits: u32 = if value >= 0 {
            value as u32
        } else {
            ((value as i64) + 0x1_0000_0000i64) as u32
        };
        self.write_next_u32(bits);
    }

    /// Appends the eight big-endian bytes of `value`.
    pub fn write_next_u64(&mut self, value: u64)
        ensures
            final(self)@ == old(self)@ + u64_be_bytes(value),
    {
        proof {
            lemma_u64_be_bytes(value);
        }
        self.result.push(((value >> 56) & 0xff) as u8);
        self.result.push(((value >> 48) & 0xff) as u8);
        self.result.push(((value >> 40) & 0xff) as u8);
        self.result.push(((value >> 32) & 0xff) as u8);
        self.result.push(((value >> 24) & 0xff) as u8);
        self.result.push(((value >> 16) & 0xff) as u8);
        self.result.push(((value >> 8) & 0xff) as u8);
        self.result.push((value & 0xff) as u8);
        proof {
            assert(self.result@ =~= old(self)@ + u64_be_bytes(value));
        }
    }

    /// Appends the eight big-endian bytes of `value`'s bit pattern.
    pub fn write_next_i64(&mut self, value: i64)
        ensures
            final(self)@ == old(self)@ + u64_be_bytes(u64_bits_of_i64(value)),
    {
        let bits: u64 = if value >= 0 {
            value as u64
        } else {
            ((value as i128) + 0x1_0000_0000_0000_0000i128) as u64
        };
        self.write_next_u64(bits);
    }

    /// Appends `value` followed by the zero bytes that pad it to a multiple
    /// of four.
    pub fn write_next_binary_data(&mut self, value: &[u8])
        ensures
            final(self)@ == old(self)@ + value@ + zero_pad(pad_len(value@.len() as int)),
    {
        let length = value.len();
        let mut j: usize = 0;
        while j < length
            invariant
                j <= length,
                length == value@.len(),
                self@ == old(self)@ + value@.subrange(0, j as int),
            decreases length - j,
        {
            self.result.push(value[j]);
            proof {
                assert(self@ =~= old(self)@ + value@.subrange(0, j + 1));
            }
            j += 1;
        }
        proof {
            assert(value@.subrange(0, length as int) =~= value@);
        }
        let rem = length % 4;
        let no_of_padding_bytes = if rem == 0 {
            0
        } else {
            4 - rem
        };
        let mut k: usize = 0;
        while k < no_of_padding_bytes
            invariant
                k <= no_of_padding_bytes,
                no_of_padding_bytes == pad_len(value@.len() as int),
                self@ == old(self)@ + value@ + zero_pad(k as int),
            decreases no_of_padding_bytes - k,
        {
            self.result.push(0);
            proof {
                assert(self@ =~= old(self)@ + value@ + zero_pad(k + 1));
            }
            k += 1;
        }
    }

    /// Consumes the writer and hands back the accumulated bytes.
    pub fn get_result(self) -> (r: Vec<u8>)
        ensures
            r@ == self@,
    {
        self.result
    }
}

/// `value` rounded up to the next multiple of four: the number of bytes a
/// `value`-byte payload occupies on the wire once padded.
pub fn extend_to_multiple_of_4(value: usize) -> (r: usize)
    requires
        value + 3 <= usize::MAX,
    ensures
        r == padded_len(value as int),
{
    let rem = value % 4;
    if rem == 0 {
        value
    } else {
        value + (4 - rem)
    }
}

/// True exactly when `value`'s UTF-8 byte length fits the given bound, and
/// therefore also fits an unsigned 32-bit length field.
pub fn is_valid_string(value: &str, max_no_of_bytes: u32) -> (r: bool)
    ensures
        r == (value.spec_bytes().len() <= max_no_of_bytes),
{
    let bytes = value.as_bytes();
    (bytes.len() as u64) <= (max_no_of_bytes as u64)
}

} // verus!
