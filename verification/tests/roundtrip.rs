use segbuf::ByteWriter;
use segbuf::Seg;
use segbuf::split_header;
use segbuf::write_value;

type ByteSeg = Seg<u8, u32, u32>;
type ListSeg = Seg<ByteSeg, u32, u32>;

#[test]
fn scenario_header_with_two_strings() {
    // Producer: reserve the header, append the payload, patch the header.
    let mut w = ByteWriter::new(Vec::new());
    let s1: ByteSeg = w.write_bytes(b"Hello").unwrap();
    let s2: ByteSeg = w.write_bytes(b"World").unwrap();
    let segs = [s1, s2];
    let list: ListSeg = w.write_seg(&segs).unwrap();
    let payload = w.into_inner();

    let mut buf: Vec<u8> = Vec::new();
    write_value(&mut buf, &0u32); // version, patched below
    write_value(&mut buf, &ListSeg::new(0, 0)); // list, patched below
    let header_size = buf.len();
    buf.extend_from_slice(&payload);

    let mut header: Vec<u8> = Vec::new();
    write_value(&mut header, &1u32);
    write_value(&mut header, &list);
    assert_eq!(header.len(), header_size);
    buf[..header_size].copy_from_slice(&header);

    // Consumer: split the header off, then resolve the segments.
    let (version, rest) = split_header::<u32>(&buf).unwrap();
    assert_eq!(version, 1);
    let (list_back, payload_back) = split_header::<ListSeg>(rest).unwrap();
    let segs_back = list_back.to_slice(payload_back).unwrap();
    assert_eq!(segs_back.len(), 2);
    assert_eq!(segs_back[0], s1);
    assert_eq!(segs_back[1], s2);
    assert_eq!(segs_back[0].to_str(payload_back).unwrap(), "Hello");
    assert_eq!(segs_back[1].to_str(payload_back).unwrap(), "World");
}

#[test]
fn write_bytes_records_position_and_length() {
    let mut w = ByteWriter::new(Vec::new());
    assert_eq!(w.pos(), 0);
    let a: ByteSeg = w.write_bytes(b"abc").unwrap();
    let b: ByteSeg = w.write_bytes(b"defgh").unwrap();
    assert_eq!(w.pos(), 8);
    assert_eq!(a.offset(), 0);
    assert_eq!(a.len(), 3);
    assert_eq!(b.offset(), 3);
    assert_eq!(b.len(), 5);
    assert_eq!(w.into_inner(), b"abcdefgh".to_vec());
}

#[test]
fn write_bytes_round_trips_through_to_slice() {
    let mut w = ByteWriter::new(Vec::new());
    let a: ByteSeg = w.write_bytes(&[10, 20, 30]).unwrap();
    let b: ByteSeg = w.write_bytes(&[40, 50]).unwrap();
    let payload = w.into_inner();
    assert_eq!(a.to_slice(&payload).unwrap(), vec![10, 20, 30]);
    assert_eq!(b.to_slice(&payload).unwrap(), vec![40, 50]);
}

#[test]
fn write_value_encodes_little_endian() {
    let mut buf: Vec<u8> = Vec::new();
    let n = write_value(&mut buf, &0xAABBCCDDu32);
    assert_eq!(n, 4);
    assert_eq!(buf, vec![0xDD, 0xCC, 0xBB, 0xAA]);
}

#[test]
fn write_value_method_spans_the_value() {
    let mut w = ByteWriter::new(Vec::new());
    let seg: ByteSeg = w.write_value(&0x0102030405060708u64).unwrap();
    assert_eq!(seg.offset(), 0);
    assert_eq!(seg.len(), 8);
    assert_eq!(w.pos(), 8);
    assert_eq!(
        w.into_inner(),
        vec![0x08, 0x07, 0x06, 0x05, 0x04, 0x03, 0x02, 0x01]
    );
}

#[test]
fn write_seg_packs_elements_back_to_back() {
    let mut w = ByteWriter::new(Vec::new());
    let seg: Seg<u32, u32, u32> = w.write_seg(&[0x11u32, 0x2222u32]).unwrap();
    assert_eq!(seg.offset(), 0);
    assert_eq!(seg.len(), 2);
    assert_eq!(seg.item_size(), 4);
    let payload = w.into_inner();
    assert_eq!(payload, vec![0x11, 0, 0, 0, 0x22, 0x22, 0, 0]);
    assert_eq!(seg.to_slice(&payload).unwrap(), vec![0x11u32, 0x2222u32]);
}

#[test]
fn write_seg_empty_slice_yields_zero_offset() {
    let mut w = ByteWriter::new(Vec::new());
    w.write_bytes::<u32, u32>(b"shift the position").unwrap();
    let empty: [u16; 0] = [];
    let seg: Seg<u16, u32, u32> = w.write_seg(&empty).unwrap();
    assert_eq!(seg.offset(), 0);
    assert_eq!(seg.len(), 0);
    assert_eq!(w.pos(), 18);
}

#[test]
fn writer_attached_to_nonempty_sink_counts_from_zero() {
    let mut prefix: Vec<u8> = vec![9, 9, 9];
    write_value(&mut prefix, &7u8);
    assert_eq!(prefix, vec![9, 9, 9, 7]);
    let mut w = ByteWriter::new(prefix);
    assert_eq!(w.pos(), 0);
    let seg: ByteSeg = w.write_bytes(b"xy").unwrap();
    assert_eq!(seg.offset(), 0);
    assert_eq!(w.into_inner(), vec![9, 9, 9, 7, b'x', b'y']);
}

#[test]
fn header_value_round_trips_for_each_width() {
    let mut buf: Vec<u8> = Vec::new();
    write_value(&mut buf, &0x7Fu8);
    write_value(&mut buf, &0xBEEFu16);
    write_value(&mut buf, &0xDEADBEEFu32);
    write_value(&mut buf, &0x0123456789ABCDEFu64);
    write_value(&mut buf, &0x0102030405060708090A0B0C0D0E0F10u128);
    let (a, rest) = split_header::<u8>(&buf).unwrap();
    let (b, rest) = split_header::<u16>(rest).unwrap();
    let (c, rest) = split_header::<u32>(rest).unwrap();
    let (d, rest) = split_header::<u64>(rest).unwrap();
    let (e, rest) = split_header::<u128>(rest).unwrap();
    assert_eq!(a, 0x7F);
    assert_eq!(b, 0xBEEF);
    assert_eq!(c, 0xDEADBEEF);
    assert_eq!(d, 0x0123456789ABCDEF);
    assert_eq!(e, 0x0102030405060708090A0B0C0D0E0F10);
    assert!(rest.is_empty());
}

#[test]
fn descriptor_round_trips_as_header_value() {
    let seg: Seg<u8, u16, u64> = Seg::new(0x1122334455667788, 0x99AA);
    let mut buf: Vec<u8> = Vec::new();
    write_value(&mut buf, &seg);
    assert_eq!(
        buf,
        vec![0x88, 0x77, 0x66, 0x55, 0x44, 0x33, 0x22, 0x11, 0xAA, 0x99]
    );
    let (back, rest) = split_header::<Seg<u8, u16, u64>>(&buf).unwrap();
    assert_eq!(back, seg);
    assert!(rest.is_empty());
}

#[test]
fn structural_comparisons_and_default() {
    let a: ByteSeg = Seg::new(1, 5);
    let b: ByteSeg = Seg::new(2, 0);
    let c: ByteSeg = Seg::new(1, 6);
    assert!(a < b);
    assert!(a < c);
    assert_eq!(a, a.clone());
    assert_ne!(a, b);
    let d: ByteSeg = Default::default();
    assert_eq!(d.offset(), 0);
    assert_eq!(d.len(), 0);
    // The width parameters default to 32 bits.
    let e: Seg<u8> = Seg::new(1, 5);
    assert_eq!(e, a);
}
