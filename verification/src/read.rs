//! The header reader: splits a buffer into a fixed-size typed header and the
//! payload region that the header's segments address.
use crate::LayoutError;
use crate::fixed::Fixed;
use crate::fixed::SegWidth;
use crate::fixed::decoded_seq;
use crate::fixed::lemma_bytes_at;
use crate::fixed::lemma_decoded_seq_u8;
use crate::types::Seg;
use vstd::prelude::*;
use vstd::slice::*;

verus! {

/// Splits a buffer into a header of type `T` and the remaining payload.
///
/// Fails with `TooSmall` exactly when the buffer is shorter than the fixed
/// size of `T`; otherwise decodes the first `T::fixed_size()` bytes as the
/// header value and returns the rest of the buffer as the payload that any
/// segments inside the header address into.  The header's field values are
/// not validated here: its segments are only checked lazily, when they are
/// resolved against the payload.
pub fn split_header<'a, T: Fixed>(data: &'a [u8]) -> (r: Result<(T, &'a [u8]), LayoutError>)
    ensures
        r is Ok <==> T::fixed_size() <= data@.len(),
        r matches Ok((h, payload)) ==> h == T::of_bytes(data@.subrange(0, T::fixed_size()))
            && payload@ == data@.skip(T::fixed_size()),
        r matches Err(e) ==> e == LayoutError::TooSmall,
{
    proof {
        T::lemma_props();
    }
    let size = T::size();
    if size > data.len() {
        return Err(LayoutError::TooSmall);
    }
    let h = T::read_from(data, 0);
    let payload = slice_subrange(data, size, data.len());
    proof {
        assert(data@.subrange(size as int, data@.len() as int) =~= data@.skip(T::fixed_size()));
    }
    Ok((h, payload))
}

/// Law (header round trip): a buffer formed of a header's byte image
/// followed by a payload is long enough to split, and splitting it recovers
/// exactly that header value and that payload.
pub proof fn lemma_split_round_trip<T: Fixed>(h: T, payload: Seq<u8>)
    ensures
        T::fixed_size() <= h.as_bytes().len() + payload.len(),
        T::of_bytes((h.as_bytes() + payload).subrange(0, T::fixed_size())) == h,
        (h.as_bytes() + payload).skip(T::fixed_size()) == payload,
{
    T::lemma_props();
    h.lemma_round_trip();
    let data = h.as_bytes() + payload;
    assert(data.subrange(0, T::fixed_size()) =~= h.as_bytes());
    assert(data.skip(T::fixed_size()) =~= payload);
}

/// Law (producer-consumer round trip): take a buffer formed of a header's
/// byte image followed by a payload, where the payload holds a run of bytes
/// between some prefix and suffix.  Splitting the buffer recovers the header
/// value and the payload, and a byte descriptor recording the run's position
/// and count is in bounds and resolves to exactly those bytes — whatever was
/// written around them.
pub proof fn lemma_buffer_round_trip<H: Fixed, Length: SegWidth, Offset: SegWidth>(
    h: H,
    prefix: Seq<u8>,
    bytes: Seq<u8>,
    suffix: Seq<u8>,
    d: Seg<u8, Length, Offset>,
)
    requires
        d.spec_offset() == prefix.len(),
        d.spec_len() == bytes.len(),
        prefix.len() + bytes.len() + suffix.len() <= usize::MAX as int,
    ensures
        ({
            let payload = prefix + bytes + suffix;
            let data = h.as_bytes() + payload;
            &&& H::fixed_size() <= data.len()
            &&& H::of_bytes(data.subrange(0, H::fixed_size())) == h
            &&& data.skip(H::fixed_size()) == payload
            &&& d.in_bounds(payload)
            &&& decoded_seq::<u8>(payload, d.spec_offset(), d.spec_len()) == bytes
        }),
{
    let payload = prefix + bytes + suffix;
    u8::lemma_props();
    d.lemma_stored_nonneg();
    lemma_split_round_trip(h, payload);
    lemma_bytes_at(prefix, bytes, suffix);
    lemma_decoded_seq_u8(payload, prefix.len() as int, bytes.len() as int);
    assert(payload.subrange(d.spec_offset(), d.spec_offset() + d.spec_len()) =~= payload.subrange(
        prefix.len() as int,
        prefix.len() + bytes.len() as int,
    ));
}

} // verus!
