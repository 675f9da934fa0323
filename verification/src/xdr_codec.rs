//! The codec contract: every serializable type encodes itself into a
//! [`WriteStream`] and decodes itself from a [`ReadStream`], and proves that
//! a buffer carrying the encoding of a valid value decodes to that value
//! and to nothing else.

use vstd::array::array_as_slice;
use vstd::array::array_index_get;
use vstd::prelude::*;

use crate::encoding::clamp_isize;
use crate::encoding::lemma_pad_len_bounds;
use crate::encoding::pad_len;
use crate::encoding::padded_len;
use crate::encoding::zero_pad;
use crate::encoding::i32_of_u32_bits;
use crate::encoding::i64_of_u64_bits;
use crate::encoding::lemma_i32_bits_round_trip;
use crate::encoding::lemma_i64_bits_round_trip;
use crate::encoding::lemma_u32_be_bytes;
use crate::encoding::lemma_u64_be_bytes;
use crate::encoding::u32_be_bytes;
use crate::encoding::u32_bits_of_i32;
use crate::encoding::u32_of_be_bytes;
use crate::encoding::u64_be_bytes;
use crate::encoding::u64_bits_of_i64;
use crate::encoding::u64_of_be_bytes;
use crate::streams::sudden_end;
use crate::streams::ReadStream;
use crate::streams::ReadStreamError;
use crate::streams::WriteStream;
use crate::streams::WriteStreamError;

verus! {

/// The contract every XDR-serializable type implements.
///
/// The two spec functions `enc` and `dec_ok`/`dec_err` describe the wire
/// format; the executable methods are proved against them, and
/// [`XdrCodec::lemma_enc_decodes`] obliges every implementation to prove
/// that decoding is the inverse of encoding.
pub trait XdrCodec: Sized + DeepView {
    /// The bound a value must respect to be encodable. Most types place no
    /// bound; the bounded containers restrict their length.
    spec fn valid(&self) -> bool;

    /// The wire bytes of `self`.
    spec fn enc(&self) -> Seq<u8>;

    /// Decoding `s` at position `pos` succeeds, yields `v` and consumes
    /// `n` bytes.
    spec fn dec_ok(s: Seq<u8>, pos: int, v: Self, n: int) -> bool;

    /// Decoding `s` at position `pos` fails with error `e`.
    spec fn dec_err(s: Seq<u8>, pos: int, e: ReadStreamError) -> bool;

    /// The decoding law: where the stream carries the encoding of a valid
    /// value `v`, the only possible decode outcome is `v` itself (with the
    /// same contents), consuming exactly the encoding, and no decode error
    /// can arise.
    proof fn lemma_enc_decodes(v: Self, s: Seq<u8>, pos: int)
        requires
            v.valid(),
            0 <= pos,
            pos + v.enc().len() <= s.len(),
            s.subrange(pos, pos + v.enc().len() as int) == v.enc(),
        ensures
            forall|w: Self, n: int|
                #[trigger] Self::dec_ok(s, pos, w, n) ==> w.deep_view() == v.deep_view() && n
                    == v.enc().len(),
            forall|e: ReadStreamError| !(#[trigger] Self::dec_err(s, pos, e)),
    ;

    /// Appends the encoding of `self` to `write_stream`. The streams never
    /// fail; the error type exists for encoders layered on top.
    fn to_xdr_buffered(&self, write_stream: &mut WriteStream) -> (r: Result<(), WriteStreamError>)
        requires
            self.valid(),
        ensures
            r is Ok,
            final(write_stream)@ == old(write_stream)@ + self.enc(),
    ;

    /// Decodes one value of `Self` from the cursor onward, advancing the
    /// cursor past exactly the bytes the value occupies.
    fn from_xdr_buffered(read_stream: &mut ReadStream<'_>) -> (r: Result<Self, ReadStreamError>)
        requires
            old(read_stream).wf(),
        ensures
            final(read_stream).wf(),
            final(read_stream).source == old(read_stream).source,
            old(read_stream).read_index <= final(read_stream).read_index,
            match r {
                Ok(v) => v.valid() && Self::dec_ok(
                    old(read_stream).data(),
                    old(read_stream).read_index as int,
                    v,
                    final(read_stream).read_index - old(read_stream).read_index,
                ),
                Err(e) => Self::dec_err(
                    old(read_stream).data(),
                    old(read_stream).read_index as int,
                    e,
                ),
            },
    ;

    /// Encodes `self` into a fresh buffer.
    fn to_xdr(&self) -> (r: Result<Vec<u8>, WriteStreamError>)
        requires
            self.valid(),
        ensures
            r matches Ok(bytes) && bytes@ == self.enc(),
    {
        let mut write_stream = WriteStream::new();
        self.to_xdr_buffered(&mut write_stream)?;
        let bytes = write_stream.get_result();
        proof {
            assert(bytes@ =~= self.enc());
        }
        Ok(bytes)
    }

    /// Decodes one value of `Self` from `buffer`, which must be consumed
    /// exactly: trailing bytes fail with `TypeEndsTooEarly`.
    fn from_xdr(buffer: &Vec<u8>) -> (r: Result<Self, ReadStreamError>)
        ensures
            match r {
                Ok(v) => v.valid() && Self::dec_ok(buffer@, 0, v, buffer@.len() as int),
                Err(e) => Self::dec_err(buffer@, 0, e) || (exists|v: Self, n: int|
                    #[trigger] Self::dec_ok(buffer@, 0, v, n) && n < buffer@.len()
                        && e == (ReadStreamError::TypeEndsTooEarly {
                        missing_no_of_bytes: clamp_isize(buffer@.len() - n),
                    })),
            },
    {
        let mut read_stream = ReadStream::new(buffer);
        let value = Self::from_xdr_buffered(&mut read_stream)?;
        let left = read_stream.no_of_bytes_left_to_read();
        if left != 0 {
            return Err(ReadStreamError::TypeEndsTooEarly { missing_no_of_bytes: left });
        }
        Ok(value)
    }
}

// ---------------------------------------------------------------------------
// The decoding laws, stated once over any implementation.
// ---------------------------------------------------------------------------

/// Round trip: a buffer holding exactly the encoding of a valid value
/// decodes to that value (with the same contents) and consumes the whole
/// buffer; no decode error is possible. Together with the contracts of
/// `to_xdr` and `from_xdr` this pins `from_xdr(to_xdr(v))` down to `v`.
pub proof fn lemma_round_trip<T: XdrCodec>(v: T, s: Seq<u8>)
    requires
        v.valid(),
        s == v.enc(),
    ensures
        forall|w: T, n: int|
            #[trigger] T::dec_ok(s, 0, w, n) ==> w.deep_view() == v.deep_view() && n == s.len(),
        forall|e: ReadStreamError| !(#[trigger] T::dec_err(s, 0, e)),
{
    assert(s.subrange(0, v.enc().len() as int) =~= v.enc());
    T::lemma_enc_decodes(v, s, 0);
}

/// Exact consumption: on a buffer holding a valid encoding followed by at
/// least one extra byte, every successful decode stops short of the end and
/// no decode error is possible, so `from_xdr` must report
/// `TypeEndsTooEarly` carrying the number of trailing bytes.
pub proof fn lemma_exact_consumption<T: XdrCodec>(v: T, s: Seq<u8>, extra: Seq<u8>)
    requires
        v.valid(),
        s == v.enc() + extra,
        extra.len() >= 1,
    ensures
        forall|w: T, n: int|
            #[trigger] T::dec_ok(s, 0, w, n) ==> n == v.enc().len() && n < s.len(),
        forall|e: ReadStreamError| !(#[trigger] T::dec_err(s, 0, e)),
{
    assert(s.subrange(0, v.enc().len() as int) =~= v.enc());
    T::lemma_enc_decodes(v, s, 0);
}

// ---------------------------------------------------------------------------
// Sequences of values, encoded back to back: the shape shared by fixed
// arrays and by the bounded sequence container.
// ---------------------------------------------------------------------------

/// The concatenated encodings of `items`, in order.
pub open spec fn seq_enc<T: XdrCodec>(items: Seq<T>) -> Seq<u8>
    decreases items.len(),
{
    if items.len() == 0 {
        Seq::empty()
    } else {
        items[0].enc() + seq_enc(items.drop_first())
    }
}

/// Every item satisfies its type's bound.
pub open spec fn all_valid<T: XdrCodec>(items: Seq<T>) -> bool {
    forall|i: int| 0 <= i < items.len() ==> (#[trigger] items[i]).valid()
}

/// Decoding `items.len()` consecutive values of `T` from `s` at `pos`
/// succeeds, yields `items` and consumes `n` bytes.
pub open spec fn seq_dec_ok<T: XdrCodec>(s: Seq<u8>, pos: int, items: Seq<T>, n: int) -> bool
    decreases items.len(),
{
    if items.len() == 0 {
        n == 0
    } else {
        exists|m: int|
            #[trigger] T::dec_ok(s, pos, items[0], m) && seq_dec_ok(
                s,
                pos + m,
                items.drop_first(),
                n - m,
            )
    }
}

/// Decoding `count` consecutive values of `T` from `s` at `pos` fails with
/// error `e`: some item decodes up to a point, and the next one fails.
pub open spec fn seq_dec_err<T: XdrCodec>(s: Seq<u8>, pos: int, count: int, e: ReadStreamError) -> bool
    decreases count,
{
    count > 0 && {
        ||| T::dec_err(s, pos, e)
        ||| exists|v: T, m: int|
            #[trigger] T::dec_ok(s, pos, v, m) && seq_dec_err::<T>(s, pos + m, count - 1, e)
    }
}

/// Appending one more decodable value extends a decodable sequence.
pub proof fn lemma_seq_dec_ok_push<T: XdrCodec>(
    s: Seq<u8>,
    pos: int,
    items: Seq<T>,
    n: int,
    v: T,
    m: int,
)
    requires
        seq_dec_ok(s, pos, items, n),
        T::dec_ok(s, pos + n, v, m),
    ensures
        seq_dec_ok(s, pos, items.push(v), n + m),
    decreases items.len(),
{
    let extended = items.push(v);
    if items.len() == 0 {
        assert(extended[0] == v);
        assert(extended.drop_first() =~= Seq::<T>::empty());
        assert(T::dec_ok(s, pos, extended[0], m) && seq_dec_ok(
            s,
            pos + m,
            extended.drop_first(),
            n + m - m,
        ));
    } else {
        let m0 = choose|m0: int|
            #[trigger] T::dec_ok(s, pos, items[0], m0) && seq_dec_ok(
                s,
                pos + m0,
                items.drop_first(),
                n - m0,
            );
        lemma_seq_dec_ok_push(s, pos + m0, items.drop_first(), n - m0, v, m);
        assert(extended.drop_first() =~= items.drop_first().push(v));
        assert(T::dec_ok(s, pos, extended[0], m0) && seq_dec_ok(
            s,
            pos + m0,
            extended.drop_first(),
            n + m - m0,
        ));
    }
}

/// A failure after a decodable prefix is a failure of the whole run.
pub proof fn lemma_seq_dec_err_after_prefix<T: XdrCodec>(
    s: Seq<u8>,
    pos: int,
    items: Seq<T>,
    n: int,
    count: int,
    e: ReadStreamError,
)
    requires
        seq_dec_ok(s, pos, items, n),
        seq_dec_err::<T>(s, pos + n, count, e),
    ensures
        seq_dec_err::<T>(s, pos, count + items.len(), e),
    decreases items.len(),
{
    if items.len() == 0 {
    } else {
        let m0 = choose|m0: int|
            #[trigger] T::dec_ok(s, pos, items[0], m0) && seq_dec_ok(
                s,
                pos + m0,
                items.drop_first(),
                n - m0,
            );
        lemma_seq_dec_err_after_prefix(s, pos + m0, items.drop_first(), n - m0, count, e);
        assert(T::dec_ok(s, pos, items[0], m0) && seq_dec_err::<T>(
            s,
            pos + m0,
            count + items.len() - 1,
            e,
        ));
    }
}

/// Appending one more encoding extends a concatenated encoding.
pub proof fn lemma_seq_enc_push<T: XdrCodec>(items: Seq<T>, v: T)
    ensures
        seq_enc(items.push(v)) == seq_enc(items) + v.enc(),
    decreases items.len(),
{
    let extended = items.push(v);
    if items.len() == 0 {
        assert(extended.drop_first() =~= Seq::<T>::empty());
        assert(extended[0] == v);
        assert(seq_enc(Seq::<T>::empty()) == Seq::<u8>::empty());
        assert(seq_enc(extended) == v.enc() + Seq::<u8>::empty());
        assert(v.enc() + Seq::<u8>::empty() =~= Seq::<u8>::empty() + v.enc());
    } else {
        lemma_seq_enc_push(items.drop_first(), v);
        assert(extended.drop_first() =~= items.drop_first().push(v));
        assert(extended[0] == items[0]);
        assert(items[0].enc() + (seq_enc(items.drop_first()) + v.enc()) =~= (items[0].enc()
            + seq_enc(items.drop_first())) + v.enc());
    }
}

/// The decoding law for back-to-back sequences: where the stream carries
/// the concatenated encodings of `items`, the only sequence of the same
/// count that decodes is `items` itself (with the same contents), consuming
/// exactly the concatenation, and no failure of the run is possible.
pub proof fn lemma_seq_enc_decodes<T: XdrCodec>(items: Seq<T>, s: Seq<u8>, pos: int)
    requires
        all_valid(items),
        0 <= pos,
        pos + seq_enc(items).len() <= s.len(),
        s.subrange(pos, pos + seq_enc(items).len() as int) == seq_enc(items),
    ensures
        forall|ws: Seq<T>, n: int|
            ws.len() == items.len() && #[trigger] seq_dec_ok(s, pos, ws, n) ==> n == seq_enc(
                items,
            ).len() && forall|i: int|
                0 <= i < items.len() ==> (#[trigger] ws[i]).deep_view() == items[i].deep_view(),
        forall|e: ReadStreamError| !(#[trigger] seq_dec_err::<T>(s, pos, items.len() as int, e)),
    decreases items.len(),
{
    if items.len() == 0 {
    } else {
        let first = items[0];
        let rest = items.drop_first();
        let l0 = first.enc().len() as int;
        let ltail = seq_enc(rest).len() as int;
        assert(seq_enc(items) == first.enc() + seq_enc(rest));
        assert forall|k: int| 0 <= k < l0 implies s.subrange(pos, pos + l0)[k]
            == first.enc()[k] by {
            assert(s.subrange(pos, pos + seq_enc(items).len() as int)[k] == s[pos + k]);
            assert(seq_enc(items)[k] == first.enc()[k]);
            assert(s.subrange(pos, pos + l0)[k] == s[pos + k]);
        }
        assert(s.subrange(pos, pos + l0) =~= first.enc());
        assert forall|k: int| 0 <= k < ltail implies s.subrange(pos + l0, pos + l0 + ltail)[k]
            == seq_enc(rest)[k] by {
            assert(s.subrange(pos, pos + seq_enc(items).len() as int)[l0 + k] == s[pos + l0 + k]);
            assert(seq_enc(items)[l0 + k] == seq_enc(rest)[k]);
            assert(s.subrange(pos + l0, pos + l0 + ltail)[k] == s[pos + l0 + k]);
        }
        assert(s.subrange(pos + l0, pos + l0 + ltail) =~= seq_enc(rest));
        assert(all_valid(rest)) by {
            assert forall|i: int| 0 <= i < rest.len() implies (#[trigger] rest[i]).valid() by {
                assert(rest[i] == items[i + 1]);
            }
        }
        T::lemma_enc_decodes(first, s, pos);
        lemma_seq_enc_decodes(rest, s, pos + l0);
        assert forall|ws: Seq<T>, n: int|
            ws.len() == items.len() && #[trigger] seq_dec_ok(s, pos, ws, n) implies n == seq_enc(
            items,
        ).len() && forall|i: int|
            0 <= i < items.len() ==> (#[trigger] ws[i]).deep_view() == items[i].deep_view() by {
            let m0 = choose|m0: int|
                #[trigger] T::dec_ok(s, pos, ws[0], m0) && seq_dec_ok(
                    s,
                    pos + m0,
                    ws.drop_first(),
                    n - m0,
                );
            assert(m0 == l0);
            assert(seq_dec_ok(s, pos + l0, ws.drop_first(), n - l0));
            assert(n - l0 == ltail);
            assert forall|i: int| 0 <= i < items.len() implies (#[trigger] ws[i]).deep_view()
                == items[i].deep_view() by {
                if i > 0 {
                    assert(ws.drop_first()[i - 1] == ws[i]);
                    assert(rest[i - 1] == items[i]);
                    assert(ws.drop_first()[i - 1].deep_view() == rest[i - 1].deep_view());
                }
            }
        }
        assert forall|e: ReadStreamError| !(#[trigger] seq_dec_err::<T>(
            s,
            pos,
            items.len() as int,
            e,
        )) by {
            if seq_dec_err::<T>(s, pos, items.len() as int, e) {
                if !T::dec_err(s, pos, e) {
                    let (v0, m0) = choose|v0: T, m0: int|
                        #[trigger] T::dec_ok(s, pos, v0, m0) && seq_dec_err::<T>(
                            s,
                            pos + m0,
                            items.len() - 1,
                            e,
                        );
                    assert(m0 == l0);
                    assert(rest.len() as int == items.len() - 1);
                }
            }
        }
    }
}

// ---------------------------------------------------------------------------
// The fixed-width integers: four or eight big-endian bytes.
// ---------------------------------------------------------------------------

impl XdrCodec for u32 {
    open spec fn valid(&self) -> bool {
        true
    }

    open spec fn enc(&self) -> Seq<u8> {
        u32_be_bytes(*self)
    }

    open spec fn dec_ok(s: Seq<u8>, pos: int, v: Self, n: int) -> bool {
        &&& pos + 4 <= s.len()
        &&& n == 4
        &&& v == u32_of_be_bytes(s.subrange(pos, pos + 4))
    }

    open spec fn dec_err(s: Seq<u8>, pos: int, e: ReadStreamError) -> bool {
        s.len() < pos + 4 && e == sudden_end(s, pos, 4)
    }

    proof fn lemma_enc_decodes(v: Self, s: Seq<u8>, pos: int) {
        lemma_u32_be_bytes(v);
    }

    fn to_xdr_buffered(&self, write_stream: &mut WriteStream) -> (r: Result<(), WriteStreamError>) {
        write_stream.write_next_u32(*self);
        Ok(())
    }

    fn from_xdr_buffered(read_stream: &mut ReadStream<'_>) -> (r: Result<Self, ReadStreamError>) {
        read_stream.read_next_u32()
    }
}

impl XdrCodec for i32 {
    open spec fn valid(&self) -> bool {
        true
    }

    open spec fn enc(&self) -> Seq<u8> {
        u32_be_bytes(u32_bits_of_i32(*self))
    }

    open spec fn dec_ok(s: Seq<u8>, pos: int, v: Self, n: int) -> bool {
        &&& pos + 4 <= s.len()
        &&& n == 4
        &&& v == i32_of_u32_bits(u32_of_be_bytes(s.subrange(pos, pos + 4)))
    }

    open spec fn dec_err(s: Seq<u8>, pos: int, e: ReadStreamError) -> bool {
        s.len() < pos + 4 && e == sudden_end(s, pos, 4)
    }

    proof fn lemma_enc_decodes(v: Self, s: Seq<u8>, pos: int) {
        lemma_u32_be_bytes(u32_bits_of_i32(v));
        lemma_i32_bits_round_trip(v);
    }

    fn to_xdr_buffered(&self, write_stream: &mut WriteStream) -> (r: Result<(), WriteStreamError>) {
        write_stream.write_next_i32(*self);
        Ok(())
    }

    fn from_xdr_buffered(read_stream: &mut ReadStream<'_>) -> (r: Result<Self, ReadStreamError>) {
        read_stream.read_next_i32()
    }
}

impl XdrCodec for u64 {
    open spec fn valid(&self) -> bool {
        true
    }

    open spec fn enc(&self) -> Seq<u8> {
        u64_be_bytes(*self)
    }

    open spec fn dec_ok(s: Seq<u8>, pos: int, v: Self, n: int) -> bool {
        &&& pos + 8 <= s.len()
        &&& n == 8
        &&& v == u64_of_be_bytes(s.subrange(pos, pos + 8))
    }

    open spec fn dec_err(s: Seq<u8>, pos: int, e: ReadStreamError) -> bool {
        s.len() < pos + 8 && e == sudden_end(s, pos, 8)
    }

    proof fn lemma_enc_decodes(v: Self, s: Seq<u8>, pos: int) {
        lemma_u64_be_bytes(v);
    }

    fn to_xdr_buffered(&self, write_stream: &mut WriteStream) -> (r: Result<(), WriteStreamError>) {
        write_stream.write_next_u64(*self);
        Ok(())
    }

    fn from_xdr_buffered(read_stream: &mut ReadStream<'_>) -> (r: Result<Self, ReadStreamError>) {
        read_stream.read_next_u64()
    }
}

impl XdrCodec for i64 {
    open spec fn valid(&self) -> bool {
        true
    }

    open spec fn enc(&self) -> Seq<u8> {
        u64_be_bytes(u64_bits_of_i64(*self))
    }

    open spec fn dec_ok(s: Seq<u8>, pos: int, v: Self, n: int) -> bool {
        &&& pos + 8 <= s.len()
        &&& n == 8
        &&& v == i64_of_u64_bits(u64_of_be_bytes(s.subrange(pos, pos + 8)))
    }

    open spec fn dec_err(s: Seq<u8>, pos: int, e: ReadStreamError) -> bool {
        s.len() < pos + 8 && e == sudden_end(s, pos, 8)
    }

    proof fn lemma_enc_decodes(v: Self, s: Seq<u8>, pos: int) {
        lemma_u64_be_bytes(u64_bits_of_i64(v));
        lemma_i64_bits_round_trip(v);
    }

    fn to_xdr_buffered(&self, write_stream: &mut WriteStream) -> (r: Result<(), WriteStreamError>) {
        write_stream.write_next_i64(*self);
        Ok(())
    }

    fn from_xdr_buffered(read_stream: &mut ReadStream<'_>) -> (r: Result<Self, ReadStreamError>) {
        read_stream.read_next_i64()
    }
}

// ---------------------------------------------------------------------------
// Booleans: a four-byte discriminant that must be 0 or 1.
// ---------------------------------------------------------------------------

/// The wire discriminant of a boolean.
pub open spec fn bool_discriminant(b: bool) -> u32 {
    if b {
        1
    } else {
        0
    }
}

impl XdrCodec for bool {
    open spec fn valid(&self) -> bool {
        true
    }

    open spec fn enc(&self) -> Seq<u8> {
        u32_be_bytes(bool_discriminant(*self))
    }

    open spec fn dec_ok(s: Seq<u8>, pos: int, v: Self, n: int) -> bool {
        &&& pos + 4 <= s.len()
        &&& n == 4
        &&& {
            let d = i32_of_u32_bits(u32_of_be_bytes(s.subrange(pos, pos + 4)));
            (d == 0 || d == 1) && v == (d == 1)
        }
    }

    open spec fn dec_err(s: Seq<u8>, pos: int, e: ReadStreamError) -> bool {
        ||| s.len() < pos + 4 && e == sudden_end(s, pos, 4)
        ||| pos + 4 <= s.len() && {
            let d = i32_of_u32_bits(u32_of_be_bytes(s.subrange(pos, pos + 4)));
            d != 0 && d != 1 && e == (ReadStreamError::InvalidBoolean { found_integer: d })
        }
    }

    proof fn lemma_enc_decodes(v: Self, s: Seq<u8>, pos: int) {
        lemma_u32_be_bytes(bool_discriminant(v));
    }

    fn to_xdr_buffered(&self, write_stream: &mut WriteStream) -> (r: Result<(), WriteStreamError>) {
        write_stream.write_next_i32(
            if *self {
                1
            } else {
                0
            },
        );
        Ok(())
    }

    fn from_xdr_buffered(read_stream: &mut ReadStream<'_>) -> (r: Result<Self, ReadStreamError>) {
        let parsed_int = read_stream.read_next_i32()?;
        match parsed_int {
            0 => Ok(false),
            1 => Ok(true),
            _ => Err(ReadStreamError::InvalidBoolean { found_integer: parsed_int }),
        }
    }
}

/// The boolean wire law: `false` is four zero bytes, `true` is three zero
/// bytes and a one; every other discriminant is rejected (see
/// [`XdrCodec::dec_err`] for `bool`).
pub proof fn lemma_boolean_encoding(b: bool)
    ensures
        b.enc() == (if b {
            seq![0u8, 0u8, 0u8, 1u8]
        } else {
            seq![0u8, 0u8, 0u8, 0u8]
        }),
{
    assert((0u32 >> 24) & 0xff == 0 && (0u32 >> 16) & 0xff == 0 && (0u32 >> 8) & 0xff == 0 && 0u32
        & 0xff == 0) by (bit_vector);
    assert((1u32 >> 24) & 0xff == 0 && (1u32 >> 16) & 0xff == 0 && (1u32 >> 8) & 0xff == 0 && 1u32
        & 0xff == 1) by (bit_vector);
    assert(u32_be_bytes(0) =~= seq![0u8, 0u8, 0u8, 0u8]);
    assert(u32_be_bytes(1) =~= seq![0u8, 0u8, 0u8, 1u8]);
}

// ---------------------------------------------------------------------------
// The unit type: zero bytes on the wire.
// ---------------------------------------------------------------------------

impl XdrCodec for () {
    open spec fn valid(&self) -> bool {
        true
    }

    open spec fn enc(&self) -> Seq<u8> {
        Seq::empty()
    }

    open spec fn dec_ok(s: Seq<u8>, pos: int, v: Self, n: int) -> bool {
        n == 0
    }

    open spec fn dec_err(s: Seq<u8>, pos: int, e: ReadStreamError) -> bool {
        // A zero-byte read cannot pass the end of the buffer, so decoding
        // the unit type never fails: this condition never holds where the
        // cursor sits within the buffer.
        s.len() < pos && e == sudden_end(s, pos, 0)
    }

    proof fn lemma_enc_decodes(v: Self, s: Seq<u8>, pos: int) {
    }

    fn to_xdr_buffered(&self, write_stream: &mut WriteStream) -> (r: Result<(), WriteStreamError>) {
        proof {
            assert(old(write_stream)@ + Seq::<u8>::empty() =~= old(write_stream)@);
        }
        Ok(())
    }

    fn from_xdr_buffered(read_stream: &mut ReadStream<'_>) -> (r: Result<Self, ReadStreamError>) {
        Ok(())
    }
}

// ---------------------------------------------------------------------------
// Optional values: a four-byte discriminant, then the value when present.
// ---------------------------------------------------------------------------

impl<T: XdrCodec> XdrCodec for Option<T> {
    open spec fn valid(&self) -> bool {
        match self {
            None => true,
            Some(v) => v.valid(),
        }
    }

    open spec fn enc(&self) -> Seq<u8> {
        match self {
            None => u32_be_bytes(0),
            Some(v) => u32_be_bytes(1) + v.enc(),
        }
    }

    open spec fn dec_ok(s: Seq<u8>, pos: int, v: Self, n: int) -> bool {
        &&& pos + 4 <= s.len()
        &&& {
            let d = u32_of_be_bytes(s.subrange(pos, pos + 4));
            match v {
                None => d == 0 && n == 4,
                Some(inner) => d == 1 && T::dec_ok(s, pos + 4, inner, n - 4),
            }
        }
    }

    open spec fn dec_err(s: Seq<u8>, pos: int, e: ReadStreamError) -> bool {
        ||| s.len() < pos + 4 && e == sudden_end(s, pos, 4)
        ||| pos + 4 <= s.len() && {
            let d = u32_of_be_bytes(s.subrange(pos, pos + 4));
            ||| d != 0 && d != 1 && e == (ReadStreamError::InvalidOptional {
                at_position: (pos + 4) as usize,
                has_code: d,
            })
            ||| d == 1 && T::dec_err(s, pos + 4, e)
        }
    }

    proof fn lemma_enc_decodes(v: Self, s: Seq<u8>, pos: int) {
        match v {
            None => {
                lemma_u32_be_bytes(0);
                assert(s.subrange(pos, pos + 4) =~= v.enc());
            },
            Some(inner) => {
                lemma_u32_be_bytes(1);
                let l = inner.enc().len() as int;
                assert(s.subrange(pos, pos + 4) =~= u32_be_bytes(1));
                assert(v.enc() == u32_be_bytes(1) + inner.enc());
                assert forall|k: int| 0 <= k < l implies s.subrange(pos + 4, pos + 4 + l)[k]
                    == inner.enc()[k] by {
                    let total = pos + v.enc().len() as int;
                    assert(s.subrange(pos, total)[4 + k] == s[pos + 4 + k]);
                    assert(v.enc()[4 + k] == inner.enc()[k]);
                    assert(s.subrange(pos + 4, pos + 4 + l)[k] == s[pos + 4 + k]);
                }
                assert(s.subrange(pos + 4, pos + 4 + l) =~= inner.enc());
                T::lemma_enc_decodes(inner, s, pos + 4);
                assert forall|w: Self, n: int| #[trigger] Self::dec_ok(s, pos, w, n) implies
                    w.deep_view() == v.deep_view() && n == v.enc().len() by {
                    match w {
                        None => {},
                        Some(w_inner) => {
                            assert(T::dec_ok(s, pos + 4, w_inner, n - 4));
                        },
                    }
                }
            },
        }
    }

    fn to_xdr_buffered(&self, write_stream: &mut WriteStream) -> (r: Result<(), WriteStreamError>) {
        match self {
            None => {
                write_stream.write_next_u32(0);
                Ok(())
            },
            Some(value) => {
                write_stream.write_next_u32(1);
                value.to_xdr_buffered(write_stream)?;
                proof {
                    assert(write_stream@ =~= old(write_stream)@ + self.enc());
                }
                Ok(())
            },
        }
    }

    fn from_xdr_buffered(read_stream: &mut ReadStream<'_>) -> (r: Result<Self, ReadStreamError>) {
        let code = read_stream.read_next_u32()?;
        if code == 0 {
            Ok(None)
        } else if code == 1 {
            match T::from_xdr_buffered(read_stream) {
                Ok(value) => Ok(Some(value)),
                Err(e) => Err(e),
            }
        } else {
            Err(ReadStreamError::InvalidOptional {
                at_position: read_stream.get_position(),
                has_code: code,
            })
        }
    }
}

/// The optional wire law: `None` encodes to four zero bytes, `Some(v)` to
/// three zero bytes and a one followed by `v`'s encoding; every other
/// discriminant is rejected (see [`XdrCodec::dec_err`] for `Option`).
pub proof fn lemma_optional_encoding<T: XdrCodec>(v: Option<T>)
    ensures
        v is None ==> v.enc() == seq![0u8, 0u8, 0u8, 0u8],
        v matches Some(inner) ==> v.enc() == seq![0u8, 0u8, 0u8, 1u8] + inner.enc(),
{
    assert((0u32 >> 24) & 0xff == 0 && (0u32 >> 16) & 0xff == 0 && (0u32 >> 8) & 0xff == 0 && 0u32
        & 0xff == 0) by (bit_vector);
    assert((1u32 >> 24) & 0xff == 0 && (1u32 >> 16) & 0xff == 0 && (1u32 >> 8) & 0xff == 0 && 1u32
        & 0xff == 1) by (bit_vector);
    assert(u32_be_bytes(0) =~= seq![0u8, 0u8, 0u8, 0u8]);
    assert(u32_be_bytes(1) =~= seq![0u8, 0u8, 0u8, 1u8]);
}

// ---------------------------------------------------------------------------
// Fixed-size arrays: the count is part of the type, so the wire carries no
// length prefix.
// ---------------------------------------------------------------------------

/// Relies on std's `TryFrom<Vec<T>> for [T; N]`: a vector of exactly `N`
/// elements converts into an array of the same elements in the same order.
#[verifier::external_body]
fn vec_into_array<T, const N: usize>(vec: Vec<T>) -> (r: [T; N])
    requires
        vec@.len() == N,
    ensures
        r@ == vec@,
{
    match vec.try_into() {
        Ok(array) => array,
        // A vector of length `N` always converts; retrying is unreachable.
        Err(rest) => vec_into_array(rest),
    }
}

/// A fixed-size byte array travels as one padded binary blob of exactly
/// `N` bytes, with no length prefix.
impl<const N: usize> XdrCodec for [u8; N] {
    open spec fn valid(&self) -> bool {
        N + 3 <= usize::MAX
    }

    open spec fn enc(&self) -> Seq<u8> {
        self@ + zero_pad(pad_len(N as int))
    }

    open spec fn dec_ok(s: Seq<u8>, pos: int, v: Self, n: int) -> bool {
        &&& pos + padded_len(N as int) <= s.len()
        &&& v@ == s.subrange(pos, pos + N)
        &&& n == padded_len(N as int)
    }

    open spec fn dec_err(s: Seq<u8>, pos: int, e: ReadStreamError) -> bool {
        s.len() < pos + padded_len(N as int) && e == sudden_end(s, pos, padded_len(N as int))
    }

    proof fn lemma_enc_decodes(v: Self, s: Seq<u8>, pos: int) {
        lemma_pad_len_bounds(N as int);
        assert(v.enc().len() == padded_len(N as int));
        assert forall|k: int| 0 <= k < N implies s.subrange(pos, pos + N)[k] == v@[k] by {
            assert(s.subrange(pos, pos + v.enc().len() as int)[k] == s[pos + k]);
            assert(v.enc()[k] == v@[k]);
            assert(s.subrange(pos, pos + N)[k] == s[pos + k]);
        }
        assert(s.subrange(pos, pos + N as int) =~= v@);
    }

    fn to_xdr_buffered(&self, write_stream: &mut WriteStream) -> (r: Result<(), WriteStreamError>) {
        write_stream.write_next_binary_data(array_as_slice(self));
        Ok(())
    }

    fn from_xdr_buffered(read_stream: &mut ReadStream<'_>) -> (r: Result<Self, ReadStreamError>) {
        let value = read_stream.read_next_binary_data(N)?;
        Ok(vec_into_array(value))
    }
}

/// A fixed-size array of values encodes its `N` elements back to back,
/// with no length prefix.
impl<T: XdrCodec, const N: usize> XdrCodec for [T; N] {
    open spec fn valid(&self) -> bool {
        all_valid(self@)
    }

    open spec fn enc(&self) -> Seq<u8> {
        seq_enc(self@)
    }

    open spec fn dec_ok(s: Seq<u8>, pos: int, v: Self, n: int) -> bool {
        seq_dec_ok(s, pos, v@, n)
    }

    open spec fn dec_err(s: Seq<u8>, pos: int, e: ReadStreamError) -> bool {
        seq_dec_err::<T>(s, pos, N as int, e)
    }

    proof fn lemma_enc_decodes(v: Self, s: Seq<u8>, pos: int) {
        lemma_seq_enc_decodes(v@, s, pos);
        assert forall|w: Self, n: int| #[trigger] Self::dec_ok(s, pos, w, n) implies w.deep_view()
            == v.deep_view() && n == v.enc().len() by {
            assert(seq_dec_ok(s, pos, w@, n));
            assert(w@.len() == v@.len());
            assert(w.deep_view() =~= v.deep_view());
        }
    }

    fn to_xdr_buffered(&self, write_stream: &mut WriteStream) -> (r: Result<(), WriteStreamError>) {
        let ghost base = write_stream@;
        let mut index: usize = 0;
        while index < N
            invariant
                self.valid(),
                index <= N,
                base == old(write_stream)@,
                write_stream@ == base + seq_enc(self@.take(index as int)),
            decreases N - index,
        {
            let item = array_index_get(self, index);
            proof {
                assert(self@[index as int].valid());
            }
            item.to_xdr_buffered(write_stream)?;
            proof {
                lemma_seq_enc_push::<T>(self@.take(index as int), self@[index as int]);
                assert(self@.take(index + 1) =~= self@.take(index as int).push(
                    self@[index as int],
                ));
            }
            index += 1;
        }
        proof {
            assert(self@.take(self@.len() as int) =~= self@);
        }
        Ok(())
    }

    fn from_xdr_buffered(read_stream: &mut ReadStream<'_>) -> (r: Result<Self, ReadStreamError>) {
        let ghost s = read_stream.data();
        let ghost base_pos = read_stream.read_index as int;
        let mut result: Vec<T> = Vec::with_capacity(N);
        let mut index: usize = 0;
        while index < N
            invariant
                read_stream.wf(),
                read_stream.source == old(read_stream).source,
                s == read_stream.data(),
                index <= N,
                result@.len() == index,
                all_valid(result@),
                base_pos == old(read_stream).read_index,
                base_pos <= read_stream.read_index,
                seq_dec_ok(s, base_pos, result@, read_stream.read_index - base_pos),
            decreases N - index,
        {
            let ghost prev = read_stream.read_index as int;
            let ghost prev_items = result@;
            match T::from_xdr_buffered(read_stream) {
                Ok(value) => {
                    proof {
                        lemma_seq_dec_ok_push::<T>(
                            s,
                            base_pos,
                            prev_items,
                            prev - base_pos,
                            value,
                            read_stream.read_index - prev,
                        );
                    }
                    result.push(value);
                    index += 1;
                },
                Err(e) => {
                    proof {
                        assert(seq_dec_err::<T>(s, prev, (N - index) as int, e));
                        lemma_seq_dec_err_after_prefix::<T>(
                            s,
                            base_pos,
                            prev_items,
                            prev - base_pos,
                            (N - index) as int,
                            e,
                        );
                        assert(seq_dec_err::<T>(s, base_pos, N as int, e));
                    }
                    return Err(e);
                },
            }
        }
        Ok(vec_into_array(result))
    }
}

// ---------------------------------------------------------------------------
// Owned indirection: a box encodes exactly as its contents.
// ---------------------------------------------------------------------------

impl<T: XdrCodec> XdrCodec for Box<T> {
    open spec fn valid(&self) -> bool {
        (**self).valid()
    }

    open spec fn enc(&self) -> Seq<u8> {
        (**self).enc()
    }

    open spec fn dec_ok(s: Seq<u8>, pos: int, v: Self, n: int) -> bool {
        T::dec_ok(s, pos, *v, n)
    }

    open spec fn dec_err(s: Seq<u8>, pos: int, e: ReadStreamError) -> bool {
        T::dec_err(s, pos, e)
    }

    proof fn lemma_enc_decodes(v: Self, s: Seq<u8>, pos: int) {
        T::lemma_enc_decodes(*v, s, pos);
    }

    fn to_xdr_buffered(&self, write_stream: &mut WriteStream) -> (r: Result<(), WriteStreamError>) {
        (**self).to_xdr_buffered(write_stream)
    }

    fn from_xdr_buffered(read_stream: &mut ReadStream<'_>) -> (r: Result<Self, ReadStreamError>) {
        match T::from_xdr_buffered(read_stream) {
            Ok(value) => Ok(Box::new(value)),
            Err(e) => Err(e),
        }
    }
}

} // verus!
