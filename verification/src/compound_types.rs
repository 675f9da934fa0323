//! The bounded containers: byte strings, text and homogeneous sequences
//! whose length is capped by a type-level bound `N`. The bound is checked
//! when a value is constructed and, during decoding, as soon as the length
//! field has been read — before any payload is touched, so a hostile length
//! can never force a large read or allocation.

use vstd::prelude::*;

use crate::encoding::lemma_pad_len_bounds;
use crate::encoding::lemma_u32_be_bytes;
use crate::encoding::pad_len;
use crate::encoding::padded_len;
use crate::encoding::u32_be_bytes;
use crate::encoding::u32_of_be_bytes;
use crate::encoding::zero_pad;
use crate::streams::sudden_end;
use crate::streams::ReadStream;
use crate::streams::ReadStreamError;
use crate::streams::WriteStream;
use crate::streams::WriteStreamError;
use crate::xdr_codec::all_valid;
use crate::xdr_codec::lemma_seq_dec_err_after_prefix;
use crate::xdr_codec::lemma_seq_dec_ok_push;
use crate::xdr_codec::lemma_seq_enc_decodes;
use crate::xdr_codec::lemma_seq_enc_push;
use crate::xdr_codec::seq_dec_err;
use crate::xdr_codec::seq_dec_ok;
use crate::xdr_codec::seq_enc;
use crate::xdr_codec::XdrCodec;

verus! {

// ---------------------------------------------------------------------------
// Bounded variable-length bytes.
// ---------------------------------------------------------------------------

/// A byte string of at most `N` bytes. On the wire: a four-byte length,
/// the bytes, and zero padding to the next multiple of four.
#[derive(Debug, Clone, Eq, PartialEq)]
pub struct LimitedVarOpaque<const N: u32>(Vec<u8>);

/// A byte string with no bound beyond the 32-bit length field itself.
pub type UnlimitedVarOpaque = LimitedVarOpaque<0xffff_ffff>;

impl<const N: u32> View for LimitedVarOpaque<N> {
    type V = Seq<u8>;

    closed spec fn view(&self) -> Seq<u8> {
        self.0@
    }
}

impl<const N: u32> DeepView for LimitedVarOpaque<N> {
    type V = Seq<u8>;

    closed spec fn deep_view(&self) -> Seq<u8> {
        self.0@
    }
}

impl<const N: u32> LimitedVarOpaque<N> {
    /// The container is modelled by the bytes it owns.
    pub proof fn lemma_views_agree(&self)
        ensures
            self.deep_view() == self@,
    {
    }

    /// Wraps `vec` when its length respects the bound.
    pub fn new(vec: Vec<u8>) -> (r: Option<Self>)
        ensures
            match r {
                Some(x) => vec@.len() <= N && x@ == vec@,
                None => vec@.len() > N,
            },
    {
        if vec.len() > N as usize {
            None
        } else {
            Some(LimitedVarOpaque(vec))
        }
    }

    /// The owned bytes.
    pub fn get_vec(&self) -> (r: &Vec<u8>)
        ensures
            r@ == self@,
    {
        &self.0
    }
}

impl<const N: u32> XdrCodec for LimitedVarOpaque<N> {
    open spec fn valid(&self) -> bool {
        self@.len() <= N
    }

    open spec fn enc(&self) -> Seq<u8> {
        u32_be_bytes(self@.len() as u32) + self@ + zero_pad(pad_len(self@.len() as int))
    }

    open spec fn dec_ok(s: Seq<u8>, pos: int, v: Self, n: int) -> bool {
        &&& pos + 4 <= s.len()
        &&& {
            let l = u32_of_be_bytes(s.subrange(pos, pos + 4));
            &&& l <= N
            &&& pos + 4 + padded_len(l as int) <= s.len()
            &&& v@ == s.subrange(pos + 4, pos + 4 + l)
            &&& n == 4 + padded_len(l as int)
        }
    }

    open spec fn dec_err(s: Seq<u8>, pos: int, e: ReadStreamError) -> bool {
        ||| s.len() < pos + 4 && e == sudden_end(s, pos, 4)
        ||| pos + 4 <= s.len() && {
            let l = u32_of_be_bytes(s.subrange(pos, pos + 4));
            ||| l > N && e == (ReadStreamError::VarOpaqueExceedsMaxLength {
                at_position: (pos + 4) as usize,
                max_length: N,
                actual_length: l,
            })
            ||| l <= N && s.len() < pos + 4 + padded_len(l as int) && e == sudden_end(
                s,
                pos + 4,
                padded_len(l as int),
            )
        }
    }

    proof fn lemma_enc_decodes(v: Self, s: Seq<u8>, pos: int) {
        let len = v@.len() as int;
        let len32 = v@.len() as u32;
        lemma_u32_be_bytes(len32);
        lemma_pad_len_bounds(len);
        assert(v.enc().len() == 4 + padded_len(len));
        assert forall|k: int| 0 <= k < 4 implies s.subrange(pos, pos + 4)[k] == u32_be_bytes(
            len32,
        )[k] by {
            assert(s.subrange(pos, pos + v.enc().len() as int)[k] == s[pos + k]);
            assert(v.enc()[k] == u32_be_bytes(len32)[k]);
            assert(s.subrange(pos, pos + 4)[k] == s[pos + k]);
        }
        assert(s.subrange(pos, pos + 4) =~= u32_be_bytes(len32));
        assert(u32_of_be_bytes(s.subrange(pos, pos + 4)) == len32);
        assert forall|k: int| 0 <= k < len implies s.subrange(pos + 4, pos + 4 + len)[k]
            == v@[k] by {
            assert(s.subrange(pos, pos + v.enc().len() as int)[4 + k] == s[pos + 4 + k]);
            assert(v.enc()[4 + k] == v@[k]);
            assert(s.subrange(pos + 4, pos + 4 + len)[k] == s[pos + 4 + k]);
        }
        assert(s.subrange(pos + 4, pos + 4 + len) =~= v@);
    }

    fn to_xdr_buffered(&self, write_stream: &mut WriteStream) -> (r: Result<(), WriteStreamError>) {
        write_stream.write_next_u32(self.0.len() as u32);
        write_stream.write_next_binary_data(self.0.as_slice());
        proof {
            assert(write_stream@ =~= old(write_stream)@ + self.enc());
        }
        Ok(())
    }

    fn from_xdr_buffered(read_stream: &mut ReadStream<'_>) -> (r: Result<Self, ReadStreamError>) {
        let length = read_stream.read_next_u32()?;
        if length > N {
            return Err(ReadStreamError::VarOpaqueExceedsMaxLength {
                at_position: read_stream.get_position(),
                max_length: N,
                actual_length: length,
            });
        }
        let value = read_stream.read_next_binary_data(length as usize)?;
        Ok(LimitedVarOpaque::new(value).unwrap())
    }
}

/// Bound enforcement for bounded bytes: a length field above `N` admits no
/// successful decode, and the one decode error it admits is
/// `VarOpaqueExceedsMaxLength` carrying the bound and the offending length.
pub proof fn lemma_opaque_bound_enforcement<const N: u32>(s: Seq<u8>, pos: int, e: ReadStreamError)
    requires
        0 <= pos,
        pos + 4 <= s.len(),
        u32_of_be_bytes(s.subrange(pos, pos + 4)) > N,
    ensures
        forall|w: LimitedVarOpaque<N>, n: int|
            !(#[trigger] LimitedVarOpaque::<N>::dec_ok(s, pos, w, n)),
        LimitedVarOpaque::<N>::dec_err(s, pos, e) <==> e
            == (ReadStreamError::VarOpaqueExceedsMaxLength {
            at_position: (pos + 4) as usize,
            max_length: N,
            actual_length: u32_of_be_bytes(s.subrange(pos, pos + 4)),
        }),
{
}

// ---------------------------------------------------------------------------
// Bounded text.
// ---------------------------------------------------------------------------

/// Text of at most `N` bytes. Byte-identical on the wire to
/// [`LimitedVarOpaque`]; only the bound-violation error differs.
#[derive(Debug, Clone, Eq, PartialEq)]
pub struct LimitedString<const N: u32>(Vec<u8>);

/// Text with no bound beyond the 32-bit length field itself.
pub type UnlimitedString = LimitedString<0xffff_ffff>;

impl<const N: u32> View for LimitedString<N> {
    type V = Seq<u8>;

    closed spec fn view(&self) -> Seq<u8> {
        self.0@
    }
}

impl<const N: u32> DeepView for LimitedString<N> {
    type V = Seq<u8>;

    closed spec fn deep_view(&self) -> Seq<u8> {
        self.0@
    }
}

impl<const N: u32> LimitedString<N> {
    /// The container is modelled by the bytes it owns.
    pub proof fn lemma_views_agree(&self)
        ensures
            self.deep_view() == self@,
    {
    }

    /// Wraps `vec` when its length respects the bound.
    pub fn new(vec: Vec<u8>) -> (r: Option<Self>)
        ensures
            match r {
                Some(x) => vec@.len() <= N && x@ == vec@,
                None => vec@.len() > N,
            },
    {
        if vec.len() > N as usize {
            None
        } else {
            Some(LimitedString(vec))
        }
    }

    /// The owned bytes.
    pub fn get_vec(&self) -> (r: &Vec<u8>)
        ensures
            r@ == self@,
    {
        &self.0
    }
}

impl<const N: u32> XdrCodec for LimitedString<N> {
    open spec fn valid(&self) -> bool {
        self@.len() <= N
    }

    open spec fn enc(&self) -> Seq<u8> {
        u32_be_bytes(self@.len() as u32) + self@ + zero_pad(pad_len(self@.len() as int))
    }

    open spec fn dec_ok(s: Seq<u8>, pos: int, v: Self, n: int) -> bool {
        &&& pos + 4 <= s.len()
        &&& {
            let l = u32_of_be_bytes(s.subrange(pos, pos + 4));
            &&& l <= N
            &&& pos + 4 + padded_len(l as int) <= s.len()
            &&& v@ == s.subrange(pos + 4, pos + 4 + l)
            &&& n == 4 + padded_len(l as int)
        }
    }

    open spec fn dec_err(s: Seq<u8>, pos: int, e: ReadStreamError) -> bool {
        ||| s.len() < pos + 4 && e == sudden_end(s, pos, 4)
        ||| pos + 4 <= s.len() && {
            let l = u32_of_be_bytes(s.subrange(pos, pos + 4));
            ||| l > N && e == (ReadStreamError::StringExceedsMaxLength {
                at_position: (pos + 4) as usize,
                max_length: N,
                actual_length: l,
            })
            ||| l <= N && s.len() < pos + 4 + padded_len(l as int) && e == sudden_end(
                s,
                pos + 4,
                padded_len(l as int),
            )
        }
    }

    proof fn lemma_enc_decodes(v: Self, s: Seq<u8>, pos: int) {
        let len = v@.len() as int;
        let len32 = v@.len() as u32;
        lemma_u32_be_bytes(len32);
        lemma_pad_len_bounds(len);
        assert(v.enc().len() == 4 + padded_len(len));
        assert forall|k: int| 0 <= k < 4 implies s.subrange(pos, pos + 4)[k] == u32_be_bytes(
            len32,
        )[k] by {
            assert(s.subrange(pos, pos + v.enc().len() as int)[k] == s[pos + k]);
            assert(v.enc()[k] == u32_be_bytes(len32)[k]);
            assert(s.subrange(pos, pos + 4)[k] == s[pos + k]);
        }
        assert(s.subrange(pos, pos + 4) =~= u32_be_bytes(len32));
        assert(u32_of_be_bytes(s.subrange(pos, pos + 4)) == len32);
        assert forall|k: int| 0 <= k < len implies s.subrange(pos + 4, pos + 4 + len)[k]
            == v@[k] by {
            assert(s.subrange(pos, pos + v.enc().len() as int)[4 + k] == s[pos + 4 + k]);
            assert(v.enc()[4 + k] == v@[k]);
            assert(s.subrange(pos + 4, pos + 4 + len)[k] == s[pos + 4 + k]);
        }
        assert(s.subrange(pos + 4, pos + 4 + len) =~= v@);
    }

    fn to_xdr_buffered(&self, write_stream: &mut WriteStream) -> (r: Result<(), WriteStreamError>) {
        write_stream.write_next_u32(self.0.len() as u32);
        write_stream.write_next_binary_data(self.0.as_slice());
        proof {
            assert(write_stream@ =~= old(write_stream)@ + self.enc());
        }
        Ok(())
    }

    fn from_xdr_buffered(read_stream: &mut ReadStream<'_>) -> (r: Result<Self, ReadStreamError>) {
        let length = read_stream.read_next_u32()?;
        if length > N {
            return Err(ReadStreamError::StringExceedsMaxLength {
                at_position: read_stream.get_position(),
                max_length: N,
                actual_length: length,
            });
        }
        let value = read_stream.read_next_binary_data(length as usize)?;
        Ok(LimitedString::new(value).unwrap())
    }
}

/// Bound enforcement for bounded text: a length field above `N` admits no
/// successful decode, and the one decode error it admits is
/// `StringExceedsMaxLength` carrying the bound and the offending length.
pub proof fn lemma_string_bound_enforcement<const N: u32>(s: Seq<u8>, pos: int, e: ReadStreamError)
    requires
        0 <= pos,
        pos + 4 <= s.len(),
        u32_of_be_bytes(s.subrange(pos, pos + 4)) > N,
    ensures
        forall|w: LimitedString<N>, n: int| !(#[trigger] LimitedString::<N>::dec_ok(s, pos, w, n)),
        LimitedString::<N>::dec_err(s, pos, e) <==> e == (ReadStreamError::StringExceedsMaxLength {
            at_position: (pos + 4) as usize,
            max_length: N,
            actual_length: u32_of_be_bytes(s.subrange(pos, pos + 4)),
        }),
{
}

// ---------------------------------------------------------------------------
// Bounded homogeneous sequences.
// ---------------------------------------------------------------------------

/// An ordered sequence of at most `N` values of `T`. On the wire: a
/// four-byte count followed by the encodings of the elements in order.
#[derive(Debug, Clone, Eq, PartialEq)]
pub struct LimitedVarArray<T, const N: u32>(Vec<T>);

/// A sequence with no bound beyond the 32-bit count field itself.
pub type UnlimitedVarArray<T> = LimitedVarArray<T, 0xffff_ffff>;

impl<T, const N: u32> View for LimitedVarArray<T, N> {
    type V = Seq<T>;

    closed spec fn view(&self) -> Seq<T> {
        self.0@
    }
}

impl<T: DeepView, const N: u32> DeepView for LimitedVarArray<T, N> {
    type V = Seq<T::V>;

    closed spec fn deep_view(&self) -> Seq<T::V> {
        self.0.deep_view()
    }
}

impl<T: DeepView, const N: u32> LimitedVarArray<T, N> {
    /// The container is modelled by the values it owns, element for element.
    pub proof fn lemma_views_agree(&self)
        ensures
            self.deep_view().len() == self@.len(),
            forall|i: int|
                0 <= i < self@.len() ==> self.deep_view()[i] == (#[trigger] self@[i]).deep_view(),
    {
    }
}

impl<T, const N: u32> LimitedVarArray<T, N> {
    /// Wraps `vec` when its count respects the bound.
    pub fn new(vec: Vec<T>) -> (r: Option<Self>)
        ensures
            match r {
                Some(x) => vec@.len() <= N && x@ == vec@,
                None => vec@.len() > N,
            },
    {
        if vec.len() > N as usize {
            None
        } else {
            Some(LimitedVarArray(vec))
        }
    }

    /// The owned values.
    pub fn get_vec(&self) -> (r: &Vec<T>)
        ensures
            r@ == self@,
    {
        &self.0
    }

    /// Appends `item` unless that would push the count past the bound.
    pub fn push(&mut self, item: T) -> (r: Result<(), ()>)
        ensures
            old(self)@.len() < N ==> r is Ok && final(self)@ == old(self)@.push(item),
            old(self)@.len() >= N ==> r is Err && final(self)@ == old(self)@,
    {
        if self.0.len() >= N as usize {
            return Err(());
        }
        self.0.push(item);
        Ok(())
    }
}

impl<T: XdrCodec, const N: u32> XdrCodec for LimitedVarArray<T, N> {
    open spec fn valid(&self) -> bool {
        self@.len() <= N && all_valid(self@)
    }

    open spec fn enc(&self) -> Seq<u8> {
        u32_be_bytes(self@.len() as u32) + seq_enc(self@)
    }

    open spec fn dec_ok(s: Seq<u8>, pos: int, v: Self, n: int) -> bool {
        &&& pos + 4 <= s.len()
        &&& {
            let c = u32_of_be_bytes(s.subrange(pos, pos + 4));
            &&& c <= N
            &&& v@.len() == c
            &&& seq_dec_ok(s, pos + 4, v@, n - 4)
        }
    }

    open spec fn dec_err(s: Seq<u8>, pos: int, e: ReadStreamError) -> bool {
        ||| s.len() < pos + 4 && e == sudden_end(s, pos, 4)
        ||| pos + 4 <= s.len() && {
            let c = u32_of_be_bytes(s.subrange(pos, pos + 4));
            ||| c > N && e == (ReadStreamError::VarArrayExceedsMaxLength {
                at_position: (pos + 4) as usize,
                max_length: N,
                actual_length: c,
            })
            ||| c <= N && seq_dec_err::<T>(s, pos + 4, c as int, e)
        }
    }

    proof fn lemma_enc_decodes(v: Self, s: Seq<u8>, pos: int) {
        let count = v@.len() as int;
        let count32 = v@.len() as u32;
        let body = seq_enc(v@);
        let lbody = body.len() as int;
        lemma_u32_be_bytes(count32);
        assert(v.enc().len() == 4 + lbody);
        assert forall|k: int| 0 <= k < 4 implies s.subrange(pos, pos + 4)[k] == u32_be_bytes(
            count32,
        )[k] by {
            assert(s.subrange(pos, pos + v.enc().len() as int)[k] == s[pos + k]);
            assert(v.enc()[k] == u32_be_bytes(count32)[k]);
            assert(s.subrange(pos, pos + 4)[k] == s[pos + k]);
        }
        assert(s.subrange(pos, pos + 4) =~= u32_be_bytes(count32));
        assert(u32_of_be_bytes(s.subrange(pos, pos + 4)) == count32);
        assert forall|k: int| 0 <= k < lbody implies s.subrange(pos + 4, pos + 4 + lbody)[k]
            == body[k] by {
            assert(s.subrange(pos, pos + v.enc().len() as int)[4 + k] == s[pos + 4 + k]);
            assert(v.enc()[4 + k] == body[k]);
            assert(s.subrange(pos + 4, pos + 4 + lbody)[k] == s[pos + 4 + k]);
        }
        assert(s.subrange(pos + 4, pos + 4 + lbody) =~= body);
        lemma_seq_enc_decodes(v@, s, pos + 4);
        assert forall|w: Self, n: int| #[trigger] Self::dec_ok(s, pos, w, n) implies w.deep_view()
            == v.deep_view() && n == v.enc().len() by {
            assert(seq_dec_ok(s, pos + 4, w@, n - 4));
            assert(w@.len() == v@.len());
            assert(n - 4 == lbody);
            w.lemma_views_agree();
            v.lemma_views_agree();
            assert(w.deep_view() =~= v.deep_view());
        }
    }

    fn to_xdr_buffered(&self, write_stream: &mut WriteStream) -> (r: Result<(), WriteStreamError>) {
        write_stream.write_next_u32(self.0.len() as u32);
        let ghost base = write_stream@;
        let mut index: usize = 0;
        while index < self.0.len()
            invariant
                self.valid(),
                index <= self.0.len(),
                base == old(write_stream)@ + u32_be_bytes(self@.len() as u32),
                write_stream@ == base + seq_enc(self@.take(index as int)),
            decreases self.0.len() - index,
        {
            let item = &self.0[index];
            proof {
                assert(self@[index as int].valid());
            }
            item.to_xdr_buffered(write_stream)?;
            proof {
                lemma_seq_enc_push::<T>(self@.take(index as int), self@[index as int]);
                assert(self@.take(index + 1) =~= self@.take(index as int).push(
                    self@[index as int],
                ));
            }
            index += 1;
        }
        proof {
            assert(self@.take(self@.len() as int) =~= self@);
            assert(write_stream@ =~= old(write_stream)@ + self.enc());
        }
        Ok(())
    }

    fn from_xdr_buffered(read_stream: &mut ReadStream<'_>) -> (r: Result<Self, ReadStreamError>) {
        let length = read_stream.read_next_u32()?;
        if length > N {
            return Err(ReadStreamError::VarArrayExceedsMaxLength {
                at_position: read_stream.get_position(),
                max_length: N,
                actual_length: length,
            });
        }
        let ghost s = read_stream.data();
        let ghost base_pos = read_stream.read_index as int;
        let mut result: Vec<T> = Vec::with_capacity(length as usize);
        let mut index: u32 = 0;
        while index < length
            invariant
                read_stream.wf(),
                read_stream.source == old(read_stream).source,
                s == read_stream.data(),
                index <= length,
                result@.len() == index,
                all_valid(result@),
                base_pos <= read_stream.read_index,
                base_pos == old(read_stream).read_index + 4,
                old(read_stream).read_index + 4 <= s.len(),
                length <= N,
                u32_of_be_bytes(
                    s.subrange(
                        old(read_stream).read_index as int,
                        old(read_stream).read_index + 4,
                    ),
                ) == length,
                seq_dec_ok(s, base_pos, result@, read_stream.read_index - base_pos),
            decreases length - index,
        {
            let ghost prev = read_stream.read_index as int;
            let ghost prev_items = result@;
            match T::from_xdr_buffered(read_stream) {
                Ok(value) => {
                    proof {
                        lemma_seq_dec_ok_push::<T>(
                            s,
                            base_pos,
                            prev_items,
                            prev - base_pos,
                            value,
                            read_stream.read_index - prev,
                        );
                    }
                    result.push(value);
                    index += 1;
                },
                Err(e) => {
                    proof {
                        assert(seq_dec_err::<T>(s, prev, (length - index) as int, e));
                        lemma_seq_dec_err_after_prefix::<T>(
                            s,
                            base_pos,
                            prev_items,
                            prev - base_pos,
                            (length - index) as int,
                            e,
                        );
                        assert(seq_dec_err::<T>(s, base_pos, length as int, e));
                    }
                    return Err(e);
                },
            }
        }
        Ok(LimitedVarArray::new(result).unwrap())
    }
}

/// Bound enforcement for bounded sequences: a count field above `N` admits
/// no successful decode, and the one decode error it admits is
/// `VarArrayExceedsMaxLength` carrying the bound and the offending count.
pub proof fn lemma_array_bound_enforcement<T: XdrCodec, const N: u32>(
    s: Seq<u8>,
    pos: int,
    e: ReadStreamError,
)
    requires
        0 <= pos,
        pos + 4 <= s.len(),
        u32_of_be_bytes(s.subrange(pos, pos + 4)) > N,
    ensures
        forall|w: LimitedVarArray<T, N>, n: int|
            !(#[trigger] LimitedVarArray::<T, N>::dec_ok(s, pos, w, n)),
        LimitedVarArray::<T, N>::dec_err(s, pos, e) <==> e
            == (ReadStreamError::VarArrayExceedsMaxLength {
            at_position: (pos + 4) as usize,
            max_length: N,
            actual_length: u32_of_be_bytes(s.subrange(pos, pos + 4)),
        }),
{
}

} // verus!
