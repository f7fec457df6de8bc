//! The byte writer: an append-only, position-tracking sink that converts
//! writes into segment descriptors addressing exactly what was written.
use crate::LayoutError;
use crate::fixed::Fixed;
use crate::fixed::SegWidth;
use crate::fixed::bytes_of_seq;
use crate::types::Seg;
use vstd::prelude::*;
use vstd::slice::*;

verus! {

/// A helper for writing bytes into a buffer.
///
/// The writer owns a growing byte sink and counts the bytes written through
/// it.  It is the single source of truth for where content lands: each write
/// returns a segment descriptor whose offset is the position before the
/// write, counted from where this writer started — not necessarily from the
/// start of the sink, if the writer was attached to one already holding
/// bytes.
pub struct ByteWriter {
    pos: usize,
    sink: Vec<u8>,
}

impl ByteWriter {
    /// Everything in the sink, including bytes that were already there when
    /// this writer was attached.
    pub closed spec fn buffered(&self) -> Seq<u8> {
        self.sink@
    }

    /// The number of bytes written through this writer.
    pub closed spec fn spec_pos(&self) -> int {
        self.pos as int
    }

    /// The bytes written through this writer: the suffix of the sink that it
    /// appended.  Descriptor offsets returned by the write methods address
    /// into this sequence.
    pub open spec fn written(&self) -> Seq<u8> {
        self.buffered().skip(self.buffered().len() - self.spec_pos())
    }

    /// The position counts bytes actually present in the sink.
    pub closed spec fn wf(&self) -> bool {
        0 <= self.pos <= self.sink@.len()
    }

    /// Creates a new byte writer appending to `writer`.  The position starts
    /// at 0 whatever the sink already holds.
    pub fn new(writer: Vec<u8>) -> (r: ByteWriter)
        ensures
            r.wf(),
            r.spec_pos() == 0,
            r.buffered() == writer@,
            r.written() == Seq::<u8>::empty(),
    {
        let r = ByteWriter { pos: 0, sink: writer };
        proof {
            assert(r.written() =~= Seq::<u8>::empty());
        }
        r
    }

    /// Returns the current position.
    pub fn pos(&self) -> (r: usize)
        ensures
            r as int == self.spec_pos(),
    {
        self.pos
    }

    /// Consumes the writer and hands back the sink with everything written.
    pub fn into_inner(self) -> (r: Vec<u8>)
        ensures
            r@ == self.buffered(),
    {
        self.sink
    }

    /// Write bytes into the buffer and return a segment.
    ///
    /// Appends the raw bytes, advances the position by their count, and
    /// returns a byte segment whose offset is the position before the write
    /// and whose length is the byte count.  Fails with `WidthOverflow`,
    /// leaving the writer untouched, exactly when the position does not fit
    /// the offset width or the count does not fit the length width.
    pub fn write_bytes<Length: SegWidth, Offset: SegWidth>(&mut self, bytes: &[u8]) -> (r: Result<
        Seg<u8, Length, Offset>,
        LayoutError,
    >)
        requires
            old(self).wf(),
        ensures
            final(self).wf(),
            r is Ok <==> old(self).spec_pos() <= Offset::max_val() && bytes@.len()
                <= Length::max_val(),
            r matches Ok(seg) ==> ({
                &&& final(self).buffered() == old(self).buffered() + bytes@
                &&& final(self).spec_pos() == old(self).spec_pos() + bytes@.len()
                &&& final(self).written() == old(self).written() + bytes@
                &&& seg.offset_val() == old(self).spec_pos()
                &&& seg.len_val() == bytes@.len()
            }),
            r matches Err(e) ==> *final(self) == *old(self) && e == LayoutError::WidthOverflow,
    {
        let off_w = match Offset::from_index(self.pos) {
            Some(o) => o,
            None => {
                return Err(LayoutError::WidthOverflow);
            },
        };
        let len_w = match Length::from_index(bytes.len()) {
            Some(l) => l,
            None => {
                return Err(LayoutError::WidthOverflow);
            },
        };
        let mut tmp = slice_to_vec(bytes);
        self.sink.append(&mut tmp);
        let n = self.sink.len();
        self.pos = self.pos + bytes.len();
        proof {
            assert(final(self).written() =~= old(self).written() + bytes@);
        }
        Ok(Seg::new(off_w, len_w))
    }

    /// Writes a single value into the buffer.
    ///
    /// Appends the value's byte image and returns a byte segment spanning
    /// it.  Fails with `WidthOverflow`, leaving the writer untouched,
    /// exactly when the position does not fit the offset width or the
    /// value's fixed size does not fit the length width.
    pub fn write_value<T: Fixed, Length: SegWidth, Offset: SegWidth>(&mut self, x: &T) -> (r:
        Result<Seg<u8, Length, Offset>, LayoutError>)
        requires
            old(self).wf(),
        ensures
            final(self).wf(),
            r is Ok <==> old(self).spec_pos() <= Offset::max_val() && T::fixed_size()
                <= Length::max_val(),
            r matches Ok(seg) ==> ({
                &&& final(self).buffered() == old(self).buffered() + x.as_bytes()
                &&& final(self).spec_pos() == old(self).spec_pos() + T::fixed_size()
                &&& final(self).written() == old(self).written() + x.as_bytes()
                &&& seg.offset_val() == old(self).spec_pos()
                &&& seg.len_val() == T::fixed_size()
            }),
            r matches Err(e) ==> *final(self) == *old(self) && e == LayoutError::WidthOverflow,
    {
        proof {
            T::lemma_props();
            x.lemma_round_trip();
        }
        let sz = T::size();
        let off_w = match Offset::from_index(self.pos) {
            Some(o) => o,
            None => {
                return Err(LayoutError::WidthOverflow);
            },
        };
        let len_w = match Length::from_index(sz) {
            Some(l) => l,
            None => {
                return Err(LayoutError::WidthOverflow);
            },
        };
        x.write_to(&mut self.sink);
        let n = self.sink.len();
        self.pos = self.pos + sz;
        proof {
            assert(final(self).written() =~= old(self).written() + x.as_bytes());
        }
        Ok(Seg::new(off_w, len_w))
    }

    /// Writes a slice as a segment into the buffer.
    ///
    /// Appends each element in sequence, back to back with the type's fixed
    /// stride, and returns a segment of that element type whose offset is
    /// the first element's position and whose length is the element count.
    /// An empty slice yields a segment with offset 0 and length 0 (the
    /// offset of an empty segment is meaningless).  Fails with
    /// `WidthOverflow`, leaving the writer untouched, exactly when some
    /// element's position does not fit the offset width, or the element size
    /// or element count does not fit the length width.
    pub fn write_seg<T: Fixed, Length: SegWidth, Offset: SegWidth>(&mut self, x: &[T]) -> (r:
        Result<Seg<T, Length, Offset>, LayoutError>)
        requires
            old(self).wf(),
        ensures
            final(self).wf(),
            r is Ok <==> (x@.len() == 0 || (old(self).spec_pos() + (x@.len() - 1) * T::fixed_size()
                <= Offset::max_val() && T::fixed_size() <= Length::max_val() && x@.len()
                <= Length::max_val())),
            r matches Ok(seg) ==> ({
                &&& final(self).buffered() == old(self).buffered() + bytes_of_seq(x@)
                &&& final(self).spec_pos() == old(self).spec_pos() + x@.len() * T::fixed_size()
                &&& final(self).written() == old(self).written() + bytes_of_seq(x@)
                &&& seg.offset_val() == if x@.len() == 0 {
                    0
                } else {
                    old(self).spec_pos()
                }
                &&& seg.len_val() == x@.len()
            }),
            r matches Err(e) ==> *final(self) == *old(self) && e == LayoutError::WidthOverflow,
    {
        proof {
            T::lemma_props();
            Offset::lemma_width_props();
            Length::lemma_width_props();
        }
        let n = x.len();
        let sz = T::size();
        if n == 0 {
            let off0 = match Offset::from_index(0) {
                Some(o) => o,
                None => {
                    proof {
                        assert(false);
                    }
                    return Err(LayoutError::WidthOverflow);
                },
            };
            let len0 = match Length::from_index(0) {
                Some(l) => l,
                None => {
                    proof {
                        assert(false);
                    }
                    return Err(LayoutError::WidthOverflow);
                },
            };
            proof {
                assert(bytes_of_seq(x@) =~= Seq::<u8>::empty());
                assert(final(self).buffered() =~= old(self).buffered() + bytes_of_seq(x@));
                assert(final(self).written() =~= old(self).written() + bytes_of_seq(x@));
            }
            return Ok(Seg::new(off0, len0));
        }
        // Everything is checked before the first byte is appended, so a
        // width failure leaves the buffer untouched.
        if Length::from_index(sz).is_none() {
            return Err(LayoutError::WidthOverflow);
        }
        if Length::from_index(n).is_none() {
            return Err(LayoutError::WidthOverflow);
        }
        let stride = match (n - 1).checked_mul(sz) {
            Some(b) => b,
            None => {
                proof {
                    assert((n - 1) as int * sz as int > usize::MAX as int);
                }
                return Err(LayoutError::WidthOverflow);
            },
        };
        let last_off = match self.pos.checked_add(stride) {
            Some(p) => p,
            None => {
                return Err(LayoutError::WidthOverflow);
            },
        };
        if Offset::from_index(last_off).is_none() {
            return Err(LayoutError::WidthOverflow);
        }
        let start = self.pos;
        let ghost base_buf = self.buffered();
        let ghost base_written = self.written();
        let mut i: usize = 0;
        while i < n
            invariant
                0 <= i <= n,
                self.wf(),
                n == x@.len(),
                sz as int == T::fixed_size(),
                1 <= sz,
                start as int + (n - 1) as int * sz as int <= Offset::max_val(),
                sz as int <= Length::max_val(),
                self.spec_pos() == start as int + i as int * sz as int,
                self.buffered() == base_buf + bytes_of_seq(x@.take(i as int)),
                self.written() == base_written + bytes_of_seq(x@.take(i as int)),
            decreases n - i,
        {
            proof {
                assert(i as int * sz as int <= (n - 1) as int * sz as int) by (nonlinear_arith)
                    requires
                        i as int <= n as int - 1 && sz as int >= 0,
                ;
                assert(i as int * sz as int >= 0) by (nonlinear_arith)
                    requires
                        i as int >= 0 && sz as int >= 0,
                ;
            }
            let item = slice_index_get(x, i);
            let ghost pre = *self;
            match self.write_value::<T, Length, Offset>(item) {
                Ok(_) => {},
                Err(_) => {
                    proof {
                        assert(false);
                    }
                    return Err(LayoutError::WidthOverflow);
                },
            }
            proof {
                assert(x@.take(i as int + 1).drop_last() =~= x@.take(i as int));
                assert(x@.take(i as int + 1).last() == x@[i as int]);
                assert(bytes_of_seq(x@.take(i as int + 1)) == bytes_of_seq(x@.take(i as int))
                    + x@[i as int].as_bytes());
                assert(self.buffered() =~= base_buf + bytes_of_seq(x@.take(i as int + 1)));
                assert(self.written() =~= base_written + bytes_of_seq(x@.take(i as int + 1)));
                assert(start as int + i as int * sz as int + sz as int == start as int + (i as int
                    + 1) * sz as int) by (nonlinear_arith);
            }
            i = i + 1;
        }
        proof {
            assert(x@.take(n as int) =~= x@);
        }
        let seg_off = match Offset::from_index(start) {
            Some(o) => o,
            None => {
                proof {
                    assert((n - 1) as int * sz as int >= 0) by (nonlinear_arith)
                        requires
                            n as int >= 1 && sz as int >= 0,
                    ;
                    assert(false);
                }
                return Err(LayoutError::WidthOverflow);
            },
        };
        let seg_len = match Length::from_index(n) {
            Some(l) => l,
            None => {
                proof {
                    assert(false);
                }
                return Err(LayoutError::WidthOverflow);
            },
        };
        Ok(Seg::new(seg_off, seg_len))
    }
}

/// Writes a value into a buffer.
///
/// Appends the value's byte image to the sink and returns the number of
/// bytes written — useful for writing a header that is later overwritten in
/// place once its internal segments are known.
pub fn write_value<T: Fixed>(writer: &mut Vec<u8>, value: &T) -> (r: usize)
    ensures
        final(writer)@ == old(writer)@ + value.as_bytes(),
        r as int == T::fixed_size(),
{
    proof {
        T::lemma_props();
    }
    value.write_to(writer);
    T::size()
}

} // verus!
