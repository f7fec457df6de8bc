use segbuf::ByteWriter;
use segbuf::LayoutError;
use segbuf::Seg;
use segbuf::split_header;

type ByteSeg = Seg<u8, u32, u32>;

#[test]
fn to_slice_succeeds_exactly_inside_the_payload() {
    let payload = [1u8, 2, 3, 4];
    let whole: ByteSeg = Seg::new(0, 4);
    assert_eq!(whole.to_slice(&payload).unwrap(), vec![1, 2, 3, 4]);
    let inner: ByteSeg = Seg::new(1, 3);
    assert_eq!(inner.to_slice(&payload).unwrap(), vec![2, 3, 4]);
    let past: ByteSeg = Seg::new(2, 3);
    assert_eq!(past.to_slice(&payload).unwrap_err(), LayoutError::OutOfRange);
    let far: ByteSeg = Seg::new(100, 1);
    assert_eq!(far.to_slice(&payload).unwrap_err(), LayoutError::OutOfRange);
}

#[test]
fn byte_range_accounts_for_item_size() {
    let seg: Seg<u32, u32, u32> = Seg::new(4, 2);
    assert_eq!(seg.item_size(), 4);
    let range = seg.byte_range().unwrap();
    assert_eq!(range.start, 4);
    assert_eq!(range.end, 12);
}

#[test]
fn byte_range_overflow_fails_instead_of_wrapping() {
    let top: Seg<u8, u32, u64> = Seg::new(u64::MAX, 1);
    assert_eq!(top.offset(), usize::MAX);
    assert!(top.byte_range().is_none());
    assert_eq!(top.to_slice(&[0u8; 8]).unwrap_err(), LayoutError::OutOfRange);

    let wide: Seg<u64, u32, u64> = Seg::new(u64::MAX - 7, 1);
    assert!(wide.byte_range().is_none());
}

#[test]
fn zero_length_segment_resolves_empty_at_any_offset() {
    let payload = [1u8, 2, 3];
    let zero: ByteSeg = Seg::new(9999, 0);
    assert_eq!(zero.to_slice(&payload).unwrap(), Vec::<u8>::new());
    assert_eq!(zero.to_str(&payload).unwrap(), "");
    let range = zero.byte_range().unwrap();
    assert_eq!(range.start, 9999);
    assert_eq!(range.end, 9999);
}

#[test]
fn stored_value_beyond_the_index_domain_reads_as_zero() {
    let seg: Seg<u8, u32, u128> = Seg::new(u128::MAX, 3);
    assert_eq!(seg.offset(), 0);
    assert_eq!(seg.len(), 3);
    let seg2: Seg<u8, u128, u32> = Seg::new(7, u128::MAX);
    assert_eq!(seg2.offset(), 7);
    assert_eq!(seg2.len(), 0);
}

#[test]
fn to_str_checks_utf8() {
    let payload = b"ok\xFF\xFEbad".to_vec();
    let good: ByteSeg = Seg::new(0, 2);
    assert_eq!(good.to_str(&payload).unwrap(), "ok");
    let bad: ByteSeg = Seg::new(2, 2);
    assert_eq!(bad.to_str(&payload).unwrap_err(), LayoutError::EncodingError);
    let out: ByteSeg = Seg::new(5, 9);
    assert_eq!(out.to_str(&payload).unwrap_err(), LayoutError::OutOfRange);
}

#[test]
fn to_str_keeps_multibyte_text() {
    let text = "héllo wörld ✓";
    let mut w = ByteWriter::new(Vec::new());
    let seg: ByteSeg = w.write_bytes(text.as_bytes()).unwrap();
    let payload = w.into_inner();
    assert_eq!(seg.to_str(&payload).unwrap(), text);
}

#[test]
fn split_header_requires_enough_bytes() {
    let short = [0u8; 7];
    assert_eq!(
        split_header::<u64>(&short).unwrap_err(),
        LayoutError::TooSmall
    );
    let exact = [5u8, 0, 0, 0, 0, 0, 0, 0];
    let (value, payload) = split_header::<u64>(&exact).unwrap();
    assert_eq!(value, 5);
    assert!(payload.is_empty());
}

#[test]
fn write_bytes_rejects_length_beyond_the_width() {
    let mut w = ByteWriter::new(Vec::new());
    let res: Result<Seg<u8, u8, u8>, LayoutError> = w.write_bytes(&[0u8; 300]);
    assert_eq!(res.unwrap_err(), LayoutError::WidthOverflow);
    assert_eq!(w.pos(), 0);
    assert!(w.into_inner().is_empty());
}

#[test]
fn write_bytes_rejects_offset_beyond_the_width() {
    let mut w = ByteWriter::new(Vec::new());
    w.write_bytes::<u32, u32>(&[0u8; 300]).unwrap();
    let res: Result<Seg<u8, u8, u8>, LayoutError> = w.write_bytes(b"x");
    assert_eq!(res.unwrap_err(), LayoutError::WidthOverflow);
    assert_eq!(w.pos(), 300);
}

#[test]
fn write_seg_rejects_offset_beyond_the_width() {
    let mut w = ByteWriter::new(Vec::new());
    let seg: Seg<u8, u32, u32> = Seg::new(1, 2);
    let res: Result<Seg<ByteSeg, u8, u8>, LayoutError> = w.write_seg(&[seg; 40]);
    // Forty 8-byte descriptors overflow a u8 offset width partway through,
    // so nothing may be written at all.
    assert_eq!(res.unwrap_err(), LayoutError::WidthOverflow);
    assert_eq!(w.pos(), 0);
    assert!(w.into_inner().is_empty());
}

#[test]
fn write_seg_rejects_count_beyond_the_length_width() {
    let mut w = ByteWriter::new(Vec::new());
    let res: Result<Seg<u8, u8, u32>, LayoutError> = w.write_seg(&[0u8; 300]);
    assert_eq!(res.unwrap_err(), LayoutError::WidthOverflow);
    assert_eq!(w.pos(), 0);
    assert!(w.into_inner().is_empty());
}
