//! Segment descriptors: compact (offset, length) addresses of typed runs of
//! elements inside a payload buffer.
use crate::LayoutError;
use crate::fixed::Fixed;
use crate::fixed::SegWidth;
use crate::fixed::decoded_seq;
use core::marker::PhantomData;
use core::ops::Range;
use vstd::prelude::*;
use vstd::slice::*;
use vstd::string::StringSliceAdditionalSpecFns;
use vstd::utf8::decode_utf8;
use vstd::utf8::encode_utf8;
use vstd::utf8::valid_utf8;

verus! {

/// Generic way to represent a segment.
///
/// A segment stores where a run of `len` elements of type `T` lives inside
/// some payload buffer, as a base byte offset and an element count, each in
/// a configurable unsigned width.  It does not own or reference the buffer:
/// resolution is always an explicit operation taking the payload as an
/// argument, so a segment can itself be serialized as plain data.
///
/// Equality, ordering and hashing are structural, by offset and then length.
#[derive(Debug, Default, PartialEq, Eq, PartialOrd, Ord, Hash)]
pub struct Seg<T, Length = u32, Offset = u32> {
    offset: Offset,
    len: Length,
    _ty: PhantomData<T>,
}

impl<T, Length: Copy, Offset: Copy> Clone for Seg<T, Length, Offset> {
    fn clone(&self) -> (r: Self)
        ensures
            r == *self,
    {
        *self
    }
}

impl<T, Length: Copy, Offset: Copy> Copy for Seg<T, Length, Offset> {

}

impl<T, Length: SegWidth, Offset: SegWidth> Seg<T, Length, Offset> {
    /// The offset value exactly as stored, before any widening.
    pub closed spec fn offset_val(self) -> int {
        self.offset.as_int()
    }

    /// The length value exactly as stored, before any widening.
    pub closed spec fn len_val(self) -> int {
        self.len.as_int()
    }

    /// The offset in the canonical domain: the stored value, or 0 when the
    /// domain cannot hold it (the documented lossy fallback).
    pub open spec fn spec_offset(self) -> int {
        if self.offset_val() <= usize::MAX as int {
            self.offset_val()
        } else {
            0
        }
    }

    /// The element count in the canonical domain, with the same fallback.
    pub open spec fn spec_len(self) -> int {
        if self.len_val() <= usize::MAX as int {
            self.len_val()
        } else {
            0
        }
    }

    /// The stored values are never negative.
    pub proof fn lemma_stored_nonneg(self)
        ensures
            0 <= self.offset_val(),
            0 <= self.len_val(),
    {
        self.offset.lemma_as_int();
        self.len.lemma_as_int();
    }
}

impl<T: Fixed, Length: SegWidth, Offset: SegWidth> Seg<T, Length, Offset> {
    /// One past the last byte the segment addresses, in the canonical
    /// domain, before any overflow check.
    pub open spec fn spec_end(self) -> int {
        self.spec_offset() + self.spec_len() * T::fixed_size()
    }

    /// Whether the segment's byte range neither overflows the canonical
    /// domain nor reaches past the payload.  An empty range is in bounds for
    /// every payload, whatever its offset.
    pub open spec fn in_bounds(self, payload: Seq<u8>) -> bool {
        self.spec_end() <= usize::MAX as int && (self.spec_len() == 0 || self.spec_end()
            <= payload.len())
    }

    /// The bytes the segment addresses inside `payload`.
    pub open spec fn resolved(self, payload: Seq<u8>) -> Seq<u8> {
        if self.spec_len() == 0 {
            Seq::empty()
        } else {
            payload.subrange(self.spec_offset(), self.spec_end())
        }
    }

    /// Constructs a new segment with the given values.  No validation:
    /// callers are expected to have obtained the values from a writer or
    /// from a trusted header.
    pub fn new(offset: Offset, len: Length) -> (r: Self)
        ensures
            r.offset_val() == offset.as_int(),
            r.len_val() == len.as_int(),
    {
        Seg { offset, len, _ty: PhantomData }
    }

    /// Returns the offset of the segment as usize in bytes.
    pub fn offset(&self) -> (r: usize)
        ensures
            r as int == self.spec_offset(),
    {
        proof {
            self.lemma_stored_nonneg();
        }
        self.offset.to_index()
    }

    /// Returns the length of the segment as usize as count.
    pub fn len(&self) -> (r: usize)
        ensures
            r as int == self.spec_len(),
    {
        proof {
            self.lemma_stored_nonneg();
        }
        self.len.to_index()
    }

    /// Returns the size in bytes of a single item.
    pub fn item_size(&self) -> (r: usize)
        ensures
            r as int == T::fixed_size(),
    {
        T::size()
    }

    /// Returns the byte range for this segment, or `None` when computing
    /// `offset + len * item_size` overflows the canonical domain.
    pub fn byte_range(&self) -> (r: Option<Range<usize>>)
        ensures
            r is Some <==> self.spec_end() <= usize::MAX as int,
            r matches Some(rg) ==> rg.start as int == self.spec_offset() && rg.end as int
                == self.spec_end(),
    {
        proof {
            T::lemma_props();
            self.lemma_stored_nonneg();
        }
        let off = self.offset();
        let count = self.len();
        let item = T::size();
        match count.checked_mul(item) {
            Some(nbytes) => match off.checked_add(nbytes) {
                Some(end) => Some(Range { start: off, end }),
                None => None,
            },
            None => None,
        }
    }

    /// Given payload bytes returns the segment's elements, decoded.
    ///
    /// Succeeds exactly when the byte range neither overflows nor reaches
    /// past the payload (an empty segment always succeeds), and then yields
    /// the `len` elements read back to back from the resolved bytes; fails
    /// with `OutOfRange` otherwise.
    pub fn to_slice(&self, data: &[u8]) -> (r: Result<Vec<T>, LayoutError>)
        ensures
            r is Ok <==> self.in_bounds(data@),
            r matches Ok(v) ==> v@ == decoded_seq::<T>(data@, self.spec_offset(), self.spec_len())
                && v@.len() == self.spec_len(),
            r matches Err(e) ==> e == LayoutError::OutOfRange,
    {
        proof {
            T::lemma_props();
        }
        let count = self.len();
        if count == 0 {
            return Ok(Vec::new());
        }
        let range = match self.byte_range() {
            Some(rg) => rg,
            None => {
                return Err(LayoutError::OutOfRange);
            },
        };
        if range.end > data.len() {
            return Err(LayoutError::OutOfRange);
        }
        let off = range.start;
        let item = T::size();
        let ghost end = self.spec_end();
        let mut out: Vec<T> = Vec::new();
        let mut i: usize = 0;
        while i < count
            invariant
                0 <= i <= count,
                off as int == self.spec_offset(),
                count as int == self.spec_len(),
                item as int == T::fixed_size(),
                1 <= item,
                end == off as int + count as int * item as int,
                end <= data@.len(),
                data@.len() <= usize::MAX as int,
                out@ == decoded_seq::<T>(data@, off as int, i as int),
                out@.len() == i,
            decreases count - i,
        {
            proof {
                assert(i as int * item as int + item as int == (i as int + 1) * item as int)
                    by (nonlinear_arith);
                assert((i as int + 1) * item as int <= count as int * item as int)
                    by (nonlinear_arith)
                    requires
                        i as int + 1 <= count as int && item as int >= 0,
                ;
                assert(i as int * item as int >= 0) by (nonlinear_arith)
                    requires
                        i as int >= 0 && item as int >= 0,
                ;
            }
            let v = T::read_from(data, off + i * item);
            out.push(v);
            i = i + 1;
        }
        Ok(out)
    }
}

impl<T: Copy, Length: SegWidth, Offset: SegWidth> Fixed for Seg<T, Length, Offset> {
    open spec fn fixed_size() -> int {
        Offset::fixed_size() + Length::fixed_size()
    }

    closed spec fn as_bytes(self) -> Seq<u8> {
        self.offset.as_bytes() + self.len.as_bytes()
    }

    closed spec fn of_bytes(b: Seq<u8>) -> Self {
        Seg {
            offset: Offset::of_bytes(b.subrange(0, Offset::fixed_size())),
            len: Length::of_bytes(
                b.subrange(Offset::fixed_size(), Offset::fixed_size() + Length::fixed_size()),
            ),
            _ty: PhantomData,
        }
    }

    proof fn lemma_props() {
        Offset::lemma_props();
        Length::lemma_props();
        Offset::lemma_width_props();
        Length::lemma_width_props();
    }

    proof fn lemma_round_trip(self) {
        Offset::lemma_props();
        Length::lemma_props();
        self.offset.lemma_round_trip();
        self.len.lemma_round_trip();
        let b = self.as_bytes();
        assert(b.subrange(0, Offset::fixed_size()) =~= self.offset.as_bytes());
        assert(b.subrange(Offset::fixed_size(), Offset::fixed_size() + Length::fixed_size())
            =~= self.len.as_bytes());
    }

    fn size() -> (r: usize) {
        proof {
            Offset::lemma_props();
            Length::lemma_props();
            Offset::lemma_width_props();
            Length::lemma_width_props();
        }
        Offset::size() + Length::size()
    }

    fn write_to(&self, out: &mut Vec<u8>) {
        self.offset.write_to(out);
        self.len.write_to(out);
        proof {
            assert(final(out)@ =~= old(out)@ + self.as_bytes());
        }
    }

    fn read_from(bytes: &[u8], start: usize) -> (r: Self) {
        proof {
            Offset::lemma_props();
            Length::lemma_props();
        }
        let n = bytes.len();
        let off = Offset::read_from(bytes, start);
        let osz = Offset::size();
        let count = Length::read_from(bytes, start + osz);
        let r = Seg { offset: off, len: count, _ty: PhantomData };
        proof {
            let os = Offset::fixed_size();
            let ls = Length::fixed_size();
            let b = bytes@.subrange(start as int, start as int + os + ls);
            assert(b.subrange(0, os) =~= bytes@.subrange(start as int, start as int + os));
            assert(b.subrange(os, os + ls) =~= bytes@.subrange(
                start as int + os,
                start as int + os + ls,
            ));
        }
        r
    }
}

impl<Length: SegWidth, Offset: SegWidth> Seg<u8, Length, Offset> {
    /// Given payload bytes returns the segment as str.
    ///
    /// This is only available for segments over byte data.  Resolution works
    /// as in `to_slice`; the resolved bytes are then validated as UTF-8 and
    /// returned, without a copy, as a string slice viewing exactly those
    /// bytes.  Fails with `OutOfRange` when the range is absent or exceeds
    /// the payload, and with `EncodingError` when the bytes are not UTF-8.
    pub fn to_str<'a>(&self, data: &'a [u8]) -> (r: Result<&'a str, LayoutError>)
        ensures
            r is Ok <==> self.in_bounds(data@) && valid_utf8(self.resolved(data@)),
            r matches Ok(s) ==> s.spec_bytes() == self.resolved(data@) && s@ == decode_utf8(
                self.resolved(data@),
            ),
            r matches Err(e) ==> if self.in_bounds(data@) {
                e == LayoutError::EncodingError
            } else {
                e == LayoutError::OutOfRange
            },
    {
        proof {
            u8::lemma_props();
        }
        let count = self.len();
        let sub: &'a [u8];
        if count == 0 {
            sub = slice_subrange(data, 0, 0);
        } else {
            let range = match self.byte_range() {
                Some(rg) => rg,
                None => {
                    return Err(LayoutError::OutOfRange);
                },
            };
            if range.end > data.len() {
                return Err(LayoutError::OutOfRange);
            }
            sub = slice_subrange(data, range.start, range.end);
        }
        match str_from_utf8(sub) {
            Some(s) => {
                proof {
                    vstd::utf8::encode_utf8_decode_utf8(s@);
                }
                Ok(s)
            },
            None => Err(LayoutError::EncodingError),
        }
    }
}

/// Relies on `str::from_utf8`: it returns `Ok` exactly when the bytes are a
/// valid UTF-8 encoding, and the returned string slice then views those very
/// bytes.
#[verifier::external_body]
fn str_from_utf8<'a>(v: &'a [u8]) -> (r: Option<&'a str>)
    ensures
        r is Some <==> valid_utf8(v@),
        r matches Some(s) ==> s.spec_bytes() == v@,
{
    core::str::from_utf8(v).ok()
}

/// Law (overflow safety): a descriptor whose resolved offset is the largest
/// canonical index and whose length is positive overflows the byte-range
/// computation, so `byte_range` yields `None` rather than wrapping.
pub proof fn lemma_range_overflow<T: Fixed, Length: SegWidth, Offset: SegWidth>(
    d: Seg<T, Length, Offset>,
)
    requires
        d.spec_offset() == usize::MAX as int,
        d.spec_len() > 0,
    ensures
        d.spec_end() > usize::MAX as int,
{
    T::lemma_props();
    assert(d.spec_len() * T::fixed_size() >= 1) by (nonlinear_arith)
        requires
            d.spec_len() >= 1 && T::fixed_size() >= 1,
    ;
}

/// Law (zero-length segments): a descriptor with length 0 is in bounds for
/// every payload and resolves to the empty element sequence, whatever its
/// offset value.
pub proof fn lemma_zero_len_resolves<T: Fixed, Length: SegWidth, Offset: SegWidth>(
    d: Seg<T, Length, Offset>,
    payload: Seq<u8>,
)
    requires
        d.spec_len() == 0,
    ensures
        d.in_bounds(payload),
        decoded_seq::<T>(payload, d.spec_offset(), d.spec_len()) == Seq::<T>::empty(),
{
    d.lemma_stored_nonneg();
}

/// Law (encoding round trip): the UTF-8 encoding of any character sequence
/// is valid UTF-8 and decodes back to that very sequence, so a byte segment
/// resolving to the encoding of a string yields the same string through
/// `to_str`.
pub proof fn lemma_utf8_round_trip(chars: Seq<char>)
    ensures
        valid_utf8(encode_utf8(chars)),
        decode_utf8(encode_utf8(chars)) == chars,
{
    vstd::utf8::encode_utf8_valid_utf8(chars);
    vstd::utf8::encode_utf8_decode_utf8(chars);
}

/// Law (round trip through a descriptor): a descriptor addressing the packed
/// byte image of a sequence of values inside a payload is in bounds and
/// decodes to exactly those values.
pub proof fn lemma_seg_round_trip<T: Fixed, Length: SegWidth, Offset: SegWidth>(
    d: Seg<T, Length, Offset>,
    payload: Seq<u8>,
    items: Seq<T>,
)
    requires
        payload.len() <= usize::MAX as int,
        d.spec_len() == items.len(),
        d.spec_offset() + items.len() * T::fixed_size() <= payload.len(),
        payload.subrange(
            d.spec_offset(),
            d.spec_offset() + items.len() * T::fixed_size(),
        ) == crate::fixed::bytes_of_seq(items),
    ensures
        d.in_bounds(payload),
        decoded_seq::<T>(payload, d.spec_offset(), d.spec_len()) == items,
{
    T::lemma_props();
    d.lemma_stored_nonneg();
    crate::fixed::lemma_decoded_of_encoded::<T>(payload, d.spec_offset(), items);
}

} // verus!
