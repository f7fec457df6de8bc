//! Binary layout primitives for record formats where a fixed-size header
//! addresses variably sized payload regions that follow it in one buffer.
//!
//! A producer serializes values and raw bytes into a contiguous buffer
//! through a position-tracking writer, recording compact (offset, length)
//! segment descriptors as a side effect of writing.  A consumer later splits
//! the header off the buffer and resolves each descriptor against the
//! remaining payload, with every byte range checked before it is touched.
use vstd::prelude::*;

mod fixed;
mod read;
mod types;
mod write;

pub use fixed::Fixed;
pub use fixed::SegWidth;
pub use fixed::bytes_of_seq;
pub use fixed::decoded_seq;
pub use fixed::lemma_bytes_at;
pub use fixed::lemma_bytes_of_seq_len;
pub use fixed::lemma_decoded_of_encoded;
pub use fixed::lemma_decoded_seq_len;
pub use fixed::lemma_decoded_seq_u8;
pub use fixed::width_max;
pub use read::lemma_buffer_round_trip;
pub use read::lemma_split_round_trip;
pub use read::split_header;
pub use types::Seg;
pub use types::lemma_range_overflow;
pub use types::lemma_seg_round_trip;
pub use types::lemma_utf8_round_trip;
pub use types::lemma_zero_len_resolves;
pub use write::ByteWriter;
pub use write::write_value;

verus! {

/// The ways a layout operation can fail.  Every failure is reported to the
/// immediate caller; no operation panics or retries.
#[derive(Clone, Copy, Debug, PartialEq, Eq, Structural)]
pub enum LayoutError {
    /// A buffer is shorter than a required fixed header size.
    TooSmall,
    /// A computed byte range overflows or exceeds the available payload.
    OutOfRange,
    /// The bytes of a byte segment are not valid UTF-8.
    EncodingError,
    /// An offset or length cannot be represented in the configured width.
    WidthOverflow,
}

} // verus!
