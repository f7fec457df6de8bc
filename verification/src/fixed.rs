//! The plain-data capability that the layout machinery rests on.
//!
//! A value that is written into a buffer must be representable as a
//! fixed-size, self-contained run of bytes.  `Fixed` names that capability:
//! an explicit little-endian codec with a specification-level byte image
//! (`as_bytes`) and its inverse (`of_bytes`), proved to round-trip.
//! `SegWidth` additionally lets a type serve as the stored integer width of a
//! descriptor field, converting to and from the canonical `usize` domain.
use vstd::bytes::*;
use vstd::prelude::*;
use vstd::slice::*;

verus! {

/// A type whose values are exactly a fixed-size byte image.
///
/// Implementations provide the byte image (`as_bytes`), the
/// specification-level decoding (`of_bytes`), and the executable codec
/// (`write_to` / `read_from`), and prove that decoding an image yields the
/// encoded value back.
pub trait Fixed: Copy + Sized {
    /// Size in bytes of every value of this type.
    spec fn fixed_size() -> int;

    /// The byte image of this value.
    spec fn as_bytes(self) -> Seq<u8>;

    /// The value whose byte image `b` is; unconstrained when `b` has the
    /// wrong length.
    spec fn of_bytes(b: Seq<u8>) -> Self;

    /// The size is positive and small enough for range arithmetic.
    proof fn lemma_props()
        ensures
            1 <= Self::fixed_size() <= 0x10000,
    ;

    /// The byte image has the fixed size and decodes back to the value.
    proof fn lemma_round_trip(self)
        ensures
            self.as_bytes().len() == Self::fixed_size(),
            Self::of_bytes(self.as_bytes()) == self,
    ;

    /// The fixed size, as a runtime value.
    fn size() -> (r: usize)
        ensures
            r as int == Self::fixed_size(),
    ;

    /// Appends the byte image of `self` to `out`.
    fn write_to(&self, out: &mut Vec<u8>)
        ensures
            final(out)@ == old(out)@ + self.as_bytes(),
    ;

    /// Reads the value whose byte image sits at `start` in `bytes`.
    fn read_from(bytes: &[u8], start: usize) -> (r: Self)
        requires
            start as int + Self::fixed_size() <= bytes@.len(),
        ensures
            r == Self::of_bytes(
                bytes@.subrange(start as int, start as int + Self::fixed_size()),
            ),
    ;
}

/// The largest value of a width type that the canonical `usize` domain can
/// hold: the type's own maximum, capped at `usize::MAX`.
pub open spec fn width_max(type_max: int) -> int {
    if type_max <= usize::MAX as int {
        type_max
    } else {
        usize::MAX as int
    }
}

/// An unsigned integer type usable as the stored width of a descriptor's
/// offset or length field.
///
/// All range arithmetic happens in the canonical `usize` domain; `to_index`
/// widens a stored value into it (yielding 0 for a value the domain cannot
/// hold — the documented lossy fallback), and `from_index` narrows a
/// position into the stored width, failing when it does not fit.
pub trait SegWidth: Fixed {
    /// The numeric value stored in this width.
    spec fn as_int(self) -> int;

    /// The largest `usize` this width can store.
    spec fn max_val() -> int;

    /// The bound fits the canonical domain and the stored form is narrow.
    proof fn lemma_width_props()
        ensures
            0 <= Self::max_val() <= usize::MAX as int,
            Self::fixed_size() <= 16,
    ;

    /// Stored values are non-negative.
    proof fn lemma_as_int(self)
        ensures
            0 <= self.as_int(),
    ;

    /// Widens the stored value to `usize`, or 0 when it does not fit.
    fn to_index(self) -> (r: usize)
        ensures
            r as int == if self.as_int() <= usize::MAX as int {
                self.as_int()
            } else {
                0
            },
    ;

    /// Narrows a position to this width; `None` exactly when it is too large.
    fn from_index(v: usize) -> (r: Option<Self>)
        ensures
            match r {
                Some(w) => v as int <= Self::max_val() && w.as_int() == v as int,
                None => v as int > Self::max_val(),
            },
    ;
}

impl Fixed for u8 {
    open spec fn fixed_size() -> int {
        1
    }

    open spec fn as_bytes(self) -> Seq<u8> {
        seq![self]
    }

    open spec fn of_bytes(b: Seq<u8>) -> Self {
        b[0]
    }

    proof fn lemma_props() {
    }

    proof fn lemma_round_trip(self) {
    }

    fn size() -> (r: usize) {
        1
    }

    fn write_to(&self, out: &mut Vec<u8>) {
        out.push(*self);
        proof {
            assert(final(out)@ =~= old(out)@ + seq![*self]);
        }
    }

    fn read_from(bytes: &[u8], start: usize) -> (r: Self) {
        let b = *slice_index_get(bytes, start);
        proof {
            assert(bytes@.subrange(start as int, start as int + 1)[0] == bytes@[start as int]);
        }
        b
    }
}

impl Fixed for u16 {
    open spec fn fixed_size() -> int {
        2
    }

    open spec fn as_bytes(self) -> Seq<u8> {
        spec_u16_to_le_bytes(self)
    }

    open spec fn of_bytes(b: Seq<u8>) -> Self {
        spec_u16_from_le_bytes(b)
    }

    proof fn lemma_props() {
    }

    proof fn lemma_round_trip(self) {
        lemma_auto_spec_u16_to_from_le_bytes();
        assert(spec_u16_to_le_bytes(self).len() == 2);
    }

    fn size() -> (r: usize) {
        2
    }

    fn write_to(&self, out: &mut Vec<u8>) {
        let mut tmp = u16_to_le_bytes(*self);
        out.append(&mut tmp);
    }

    fn read_from(bytes: &[u8], start: usize) -> (r: Self) {
        let n = bytes.len();
        let sub = slice_subrange(bytes, start, start + 2);
        u16_from_le_bytes(sub)
    }
}

impl Fixed for u32 {
    open spec fn fixed_size() -> int {
        4
    }

    open spec fn as_bytes(self) -> Seq<u8> {
        spec_u32_to_le_bytes(self)
    }

    open spec fn of_bytes(b: Seq<u8>) -> Self {
        spec_u32_from_le_bytes(b)
    }

    proof fn lemma_props() {
    }

    proof fn lemma_round_trip(self) {
        lemma_auto_spec_u32_to_from_le_bytes();
        assert(spec_u32_to_le_bytes(self).len() == 4);
    }

    fn size() -> (r: usize) {
        4
    }

    fn write_to(&self, out: &mut Vec<u8>) {
        let mut tmp = u32_to_le_bytes(*self);
        out.append(&mut tmp);
    }

    fn read_from(bytes: &[u8], start: usize) -> (r: Self) {
        let n = bytes.len();
        let sub = slice_subrange(bytes, start, start + 4);
        u32_from_le_bytes(sub)
    }
}

impl Fixed for u64 {
    open spec fn fixed_size() -> int {
        8
    }

    open spec fn as_bytes(self) -> Seq<u8> {
        spec_u64_to_le_bytes(self)
    }

    open spec fn of_bytes(b: Seq<u8>) -> Self {
        spec_u64_from_le_bytes(b)
    }

    proof fn lemma_props() {
    }

    proof fn lemma_round_trip(self) {
        lemma_auto_spec_u64_to_from_le_bytes();
    }

    fn size() -> (r: usize) {
        8
    }

    fn write_to(&self, out: &mut Vec<u8>) {
        let mut tmp = u64_to_le_bytes(*self);
        out.append(&mut tmp);
    }

    fn read_from(bytes: &[u8], start: usize) -> (r: Self) {
        let n = bytes.len();
        let sub = slice_subrange(bytes, start, start + 8);
        u64_from_le_bytes(sub)
    }
}

impl Fixed for u128 {
    open spec fn fixed_size() -> int {
        16
    }

    open spec fn as_bytes(self) -> Seq<u8> {
        spec_u128_to_le_bytes(self)
    }

    open spec fn of_bytes(b: Seq<u8>) -> Self {
        spec_u128_from_le_bytes(b)
    }

    proof fn lemma_props() {
    }

    proof fn lemma_round_trip(self) {
        lemma_auto_spec_u128_to_from_le_bytes();
        assert(spec_u128_to_le_bytes(self).len() == 16);
    }

    fn size() -> (r: usize) {
        16
    }

    fn write_to(&self, out: &mut Vec<u8>) {
        let mut tmp = u128_to_le_bytes(*self);
        out.append(&mut tmp);
    }

    fn read_from(bytes: &[u8], start: usize) -> (r: Self) {
        let n = bytes.len();
        let sub = slice_subrange(bytes, start, start + 16);
        u128_from_le_bytes(sub)
    }
}

impl SegWidth for u8 {
    open spec fn as_int(self) -> int {
        self as int
    }

    open spec fn max_val() -> int {
        width_max(u8::MAX as int)
    }

    proof fn lemma_width_props() {
    }

    proof fn lemma_as_int(self) {
    }

    fn to_index(self) -> (r: usize) {
        self as usize
    }

    fn from_index(v: usize) -> (r: Option<Self>) {
        if v <= u8::MAX as usize {
            Some(v as u8)
        } else {
            None
        }
    }
}

impl SegWidth for u16 {
    open spec fn as_int(self) -> int {
        self as int
    }

    open spec fn max_val() -> int {
        width_max(u16::MAX as int)
    }

    proof fn lemma_width_props() {
    }

    proof fn lemma_as_int(self) {
    }

    fn to_index(self) -> (r: usize) {
        self as usize
    }

    fn from_index(v: usize) -> (r: Option<Self>) {
        if v <= u16::MAX as usize {
            Some(v as u16)
        } else {
            None
        }
    }
}

impl SegWidth for u32 {
    open spec fn as_int(self) -> int {
        self as int
    }

    open spec fn max_val() -> int {
        width_max(u32::MAX as int)
    }

    proof fn lemma_width_props() {
    }

    proof fn lemma_as_int(self) {
    }

    fn to_index(self) -> (r: usize) {
        self as usize
    }

    fn from_index(v: usize) -> (r: Option<Self>) {
        if v <= u32::MAX as usize {
            Some(v as u32)
        } else {
            None
        }
    }
}

impl SegWidth for u64 {
    open spec fn as_int(self) -> int {
        self as int
    }

    open spec fn max_val() -> int {
        width_max(u64::MAX as int)
    }

    proof fn lemma_width_props() {
    }

    proof fn lemma_as_int(self) {
    }

    fn to_index(self) -> (r: usize) {
        if self <= usize::MAX as u64 {
            self as usize
        } else {
            0
        }
    }

    fn from_index(v: usize) -> (r: Option<Self>) {
        Some(v as u64)
    }
}

impl SegWidth for u128 {
    open spec fn as_int(self) -> int {
        self as int
    }

    open spec fn max_val() -> int {
        width_max(u128::MAX as int)
    }

    proof fn lemma_width_props() {
    }

    proof fn lemma_as_int(self) {
    }

    fn to_index(self) -> (r: usize) {
        if self <= usize::MAX as u128 {
            self as usize
        } else {
            0
        }
    }

    fn from_index(v: usize) -> (r: Option<Self>) {
        Some(v as u128)
    }
}

/// The byte image of a sequence of fixed-size values laid out back to back,
/// in order, with no gaps: exactly what a writer appends for a slice.
pub open spec fn bytes_of_seq<T: Fixed>(items: Seq<T>) -> Seq<u8>
    decreases items.len(),
{
    if items.len() == 0 {
        Seq::empty()
    } else {
        bytes_of_seq(items.drop_last()) + items.last().as_bytes()
    }
}

/// The `n` fixed-size values decoded from `payload` starting at byte `off`,
/// read back to back with the type's fixed stride.
pub open spec fn decoded_seq<T: Fixed>(payload: Seq<u8>, off: int, n: int) -> Seq<T>
    decreases n,
{
    if n <= 0 {
        Seq::empty()
    } else {
        decoded_seq::<T>(payload, off, n - 1).push(
            T::of_bytes(
                payload.subrange(off + (n - 1) * T::fixed_size(), off + n * T::fixed_size()),
            ),
        )
    }
}

/// A packed sequence occupies exactly its element count times the element
/// size.
pub proof fn lemma_bytes_of_seq_len<T: Fixed>(items: Seq<T>)
    ensures
        bytes_of_seq(items).len() == items.len() * T::fixed_size(),
    decreases items.len(),
{
    if items.len() == 0 {
    } else {
        lemma_bytes_of_seq_len(items.drop_last());
        items.last().lemma_round_trip();
        assert((items.len() - 1) * T::fixed_size() + T::fixed_size() == items.len()
            * T::fixed_size()) by (nonlinear_arith);
    }
}

/// Decoding yields one value per stride.
pub proof fn lemma_decoded_seq_len<T: Fixed>(payload: Seq<u8>, off: int, n: int)
    requires
        0 <= n,
    ensures
        decoded_seq::<T>(payload, off, n).len() == n,
    decreases n,
{
    if n > 0 {
        lemma_decoded_seq_len::<T>(payload, off, n - 1);
    }
}

/// Law (round trip for element sequences): wherever the packed byte image of
/// a sequence of values sits inside a payload, decoding that many values at
/// that position yields the sequence itself.
pub proof fn lemma_decoded_of_encoded<T: Fixed>(payload: Seq<u8>, off: int, items: Seq<T>)
    requires
        0 <= off,
        off + items.len() * T::fixed_size() <= payload.len(),
        payload.subrange(off, off + items.len() * T::fixed_size()) == bytes_of_seq(items),
    ensures
        decoded_seq::<T>(payload, off, items.len() as int) == items,
    decreases items.len(),
{
    T::lemma_props();
    let n = items.len() as int;
    let s = T::fixed_size();
    if n == 0 {
        assert(decoded_seq::<T>(payload, off, 0) =~= items);
    } else {
        let prev = items.drop_last();
        let last = items.last();
        lemma_bytes_of_seq_len(prev);
        last.lemma_round_trip();
        assert((n - 1) * s + s == n * s) by (nonlinear_arith);
        assert((n - 1) * s >= 0) by (nonlinear_arith)
            requires
                n >= 1 && s >= 1,
        ;
        let whole = payload.subrange(off, off + n * s);
        assert(payload.subrange(off, off + (n - 1) * s) =~= bytes_of_seq(prev)) by {
            assert forall|i: int| 0 <= i < (n - 1) * s implies payload.subrange(
                off,
                off + (n - 1) * s,
            )[i] == bytes_of_seq(prev)[i] by {
                assert(whole[i] == payload[off + i]);
                assert(whole[i] == (bytes_of_seq(prev) + last.as_bytes())[i]);
            }
        }
        lemma_decoded_of_encoded(payload, off, prev);
        assert(payload.subrange(off + (n - 1) * s, off + n * s) =~= last.as_bytes()) by {
            assert forall|i: int| 0 <= i < s implies payload.subrange(
                off + (n - 1) * s,
                off + n * s,
            )[i] == last.as_bytes()[i] by {
                assert(whole[(n - 1) * s + i] == payload[off + (n - 1) * s + i]);
                assert(whole[(n - 1) * s + i] == (bytes_of_seq(prev) + last.as_bytes())[(n - 1) * s
                    + i]);
            }
        }
        assert(decoded_seq::<T>(payload, off, n) == decoded_seq::<T>(payload, off, n - 1).push(
            T::of_bytes(payload.subrange(off + (n - 1) * s, off + n * s)),
        ));
        assert(decoded_seq::<T>(payload, off, n) =~= items);
    }
}

/// Law (sequential placement): a run of bytes appended after a prefix sits
/// exactly at the prefix's length, whatever follows it — so a descriptor
/// recorded at the position before a write keeps resolving to the written
/// bytes as the payload grows.
pub proof fn lemma_bytes_at(prefix: Seq<u8>, bytes: Seq<u8>, suffix: Seq<u8>)
    ensures
        (prefix + bytes + suffix).subrange(
            prefix.len() as int,
            prefix.len() + bytes.len() as int,
        ) == bytes,
{
    assert((prefix + bytes + suffix).subrange(prefix.len() as int, prefix.len() + bytes.len() as int)
        =~= bytes);
}

/// Decoding bytes one at a time is just reading the bytes themselves.
pub proof fn lemma_decoded_seq_u8(payload: Seq<u8>, off: int, n: int)
    requires
        0 <= off,
        0 <= n,
        off + n <= payload.len(),
    ensures
        decoded_seq::<u8>(payload, off, n) == payload.subrange(off, off + n),
    decreases n,
{
    if n == 0 {
        assert(decoded_seq::<u8>(payload, off, 0) =~= payload.subrange(off, off));
    } else {
        lemma_decoded_seq_u8(payload, off, n - 1);
        assert(payload.subrange(off + (n - 1), off + n)[0] == payload[off + n - 1]);
        assert(decoded_seq::<u8>(payload, off, n) =~= payload.subrange(off, off + n));
    }
}

} // verus!
