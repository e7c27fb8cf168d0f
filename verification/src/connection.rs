use vstd::prelude::*;

use crate::buffer::{buf_advance, buf_bytes, buf_extend, buf_len, buf_new, bytes_view};
use crate::codec::{check, decode_spec, encode, encoding, lemma_decode_complete_len, parse, Check,
    SpecDecode};
use crate::frame::{Frame, FrameError, FrameV};

verus! {

/// The bulk-payload ceiling a connection is given when none is chosen:
/// 512 MiB, enough for any cooperative peer while bounding what a hostile
/// one can make the buffer hold.
pub const DEFAULT_MAX_BULK: u64 = 536870912;

/// One end of a frame stream: the bytes received from the transport but not
/// yet consumed by a decoded frame, and the bulk-payload ceiling in force.
///
/// A connection owns its buffer exclusively; bytes leave it only at the
/// front, and only when a strictly successful decode consumes them.
pub struct Connection {
    buffer: bytes::BytesMut,
    max_bulk: u64,
}

impl Connection {
    /// The bytes currently buffered, front to back.
    pub closed spec fn buf(self) -> Seq<u8> {
        bytes_view(self.buffer)
    }

    /// The declared-bulk-length ceiling this connection decodes under.
    pub closed spec fn limit(self) -> u64 {
        self.max_bulk
    }

    /// A connection with an empty buffer and the default bulk ceiling.
    pub fn new() -> (c: Connection)
        ensures
            c.buf() == Seq::<u8>::empty(),
            c.limit() == DEFAULT_MAX_BULK,
    {
        Connection { buffer: buf_new(), max_bulk: DEFAULT_MAX_BULK }
    }

    /// A connection with an empty buffer and the given bulk ceiling.
    pub fn with_limit(max_bulk: u64) -> (c: Connection)
        ensures
            c.buf() == Seq::<u8>::empty(),
            c.limit() == max_bulk,
    {
        Connection { buffer: buf_new(), max_bulk }
    }

    /// Appends one transport chunk at the back of the buffer, overwriting
    /// nothing.
    pub fn feed(&mut self, chunk: &[u8])
        ensures
            final(self).buf() == old(self).buf() + chunk@,
            final(self).limit() == old(self).limit(),
    {
        buf_extend(&mut self.buffer, chunk);
    }

    /// The number of bytes currently buffered.
    pub fn buffered_len(&self) -> (r: usize)
        ensures
            r == self.buf().len(),
    {
        buf_len(&self.buffer)
    }

    /// A copy of the bytes currently buffered, front to back.
    pub fn buffered(&self) -> (r: Vec<u8>)
        ensures
            r@ == self.buf(),
    {
        vstd::slice::slice_to_vec(buf_bytes(&self.buffer))
    }

    /// One decode attempt on the buffered bytes.
    ///
    /// On a complete frame, consumes exactly its bytes from the front and
    /// returns it.  On too few bytes, returns `Ok(None)` and leaves the
    /// buffer untouched, so no decode attempt ever eats into a frame it did
    /// not return.  On malformed or array-tagged bytes, fails with the
    /// matching error, again leaving the buffer untouched.
    pub fn parse_frame(&mut self) -> (r: Result<Option<Frame>, FrameError>)
        ensures
            final(self).limit() == old(self).limit(),
            ({
                let d = decode_spec(old(self).buf(), old(self).limit());
                &&& (d matches SpecDecode::Complete { frame, len } ==> (r matches Ok(Some(f))
                    && f@ == frame && f@.wf() && final(self).buf() == old(self).buf().skip(len)))
                &&& (d is Incomplete ==> r == Ok::<Option<Frame>, FrameError>(None) && final(self).buf() == old(self).buf())
                &&& (d is Malformed ==> r == Err::<Option<Frame>, FrameError>(
                    FrameError::Malformed,
                ) && final(self).buf() == old(self).buf())
                &&& (d is Unsupported ==> r == Err::<Option<Frame>, FrameError>(
                    FrameError::Unsupported,
                ) && final(self).buf() == old(self).buf())
            }),
    {
        let max = self.max_bulk;
        let s = buf_bytes(&self.buffer);
        match check(s, max) {
            Check::Complete(len) => {
                let (frame, _consumed) = parse(s, max);
                proof {
                    lemma_decode_complete_len(old(self).buf(), max);
                }
                buf_advance(&mut self.buffer, len);
                Ok(Some(frame))
            },
            Check::Incomplete => Ok(None),
            Check::Malformed => Err(FrameError::Malformed),
            Check::Unsupported => Err(FrameError::Unsupported),
        }
    }

    /// The terminal judgment once the transport has closed: a clean end of
    /// stream when nothing is buffered, and a connection reset when a frame
    /// was started but its remaining bytes can never arrive.
    pub fn end_of_stream(&self) -> (r: Result<Option<Frame>, FrameError>)
        ensures
            self.buf().len() == 0 ==> r == Ok::<Option<Frame>, FrameError>(None),
            self.buf().len() > 0 ==> r == Err::<Option<Frame>, FrameError>(
                FrameError::ConnectionReset,
            ),
    {
        if buf_len(&self.buffer) == 0 {
            Ok(None)
        } else {
            Err(FrameError::ConnectionReset)
        }
    }

    /// Produces the exact bytes that one buffered write followed by one
    /// flush must deliver to the peer for this frame.  An array frame fails
    /// loudly with [`FrameError::Unsupported`]; performing the write and the
    /// flush belongs to the transport driver, not to this layer.
    pub fn write_frame(&self, frame: &Frame) -> (r: Result<Vec<u8>, FrameError>)
        requires
            frame@.wf(),
        ensures
            frame@ is Array <==> r == Err::<Vec<u8>, FrameError>(FrameError::Unsupported),
            !(frame@ is Array) ==> (r matches Ok(out) && out@ == encoding(frame@)),
    {
        encode(frame)
    }
}

/// The byte sequences of a list of transport chunks, in arrival order.
pub open spec fn views_of(cs: Seq<Vec<u8>>) -> Seq<Seq<u8>> {
    Seq::new(cs.len(), |i: int| cs[i]@)
}

/// The terminal outcome of reading one frame from a stream that starts with
/// `buf` already accumulated and then delivers the given chunks.
pub ghost enum ReadEnd {
    /// A frame was decoded; `rest` is what stays buffered behind it.
    Frame { frame: FrameV, rest: Seq<u8> },
    /// The stream closed with nothing buffered: a clean end of stream.
    Clean,
    /// The stream closed mid-frame: a truncated message.
    Reset,
    /// The buffered bytes can never form a valid frame.
    Malformed,
    /// The buffered bytes begin an array frame.
    Unsupported,
}

/// The read loop as a function: alternate one decode attempt with accepting
/// one more chunk, until a frame is produced, the bytes are condemned, or the
/// chunks run out with the stream's close.
pub open spec fn read_spec(buf: Seq<u8>, chunks: Seq<Seq<u8>>, max_bulk: u64) -> ReadEnd
    decreases chunks.len(),
{
    match decode_spec(buf, max_bulk) {
        SpecDecode::Complete { frame, len } => ReadEnd::Frame { frame, rest: buf.skip(len) },
        SpecDecode::Incomplete => if chunks.len() == 0 {
            if buf.len() == 0 {
                ReadEnd::Clean
            } else {
                ReadEnd::Reset
            }
        } else {
            read_spec(buf + chunks[0], chunks.skip(1), max_bulk)
        },
        SpecDecode::Malformed => ReadEnd::Malformed,
        SpecDecode::Unsupported => ReadEnd::Unsupported,
    }
}

/// All the bytes a list of chunks delivers, in order.
pub open spec fn concat_of(cs: Seq<Seq<u8>>) -> Seq<u8>
    decreases cs.len(),
{
    if cs.len() == 0 {
        Seq::empty()
    } else {
        cs[0] + concat_of(cs.skip(1))
    }
}

/// Law: incremental delivery.  However a well-formed non-array frame's
/// encoding is split into chunks — one byte at a time included — the read
/// loop judges every proper prefix incomplete, keeps reading, and ends with
/// exactly that frame, consuming precisely its bytes: the buffer comes out
/// empty.
pub proof fn lemma_incremental_delivery(
    f: FrameV,
    buf: Seq<u8>,
    chunks: Seq<Seq<u8>>,
    max_bulk: u64,
)
    requires
        f.wf(),
        !(f is Array),
        f matches FrameV::Bulk(p) ==> p.len() <= max_bulk,
        buf + concat_of(chunks) == crate::codec::encoding(f),
    ensures
        read_spec(buf, chunks, max_bulk) == (ReadEnd::Frame {
            frame: f,
            rest: Seq::<u8>::empty(),
        }),
    decreases chunks.len(),
{
    let e = crate::codec::encoding(f);
    assert(buf.len() <= e.len());
    if buf.len() == e.len() {
        assert(buf =~= e);
        crate::codec::lemma_round_trip(f, max_bulk);
        assert(buf.skip(e.len() as int) =~= Seq::<u8>::empty());
    } else {
        assert(buf =~= e.take(buf.len() as int));
        crate::codec::lemma_prefix_incomplete(f, buf.len() as int, max_bulk);
        assert(chunks.len() > 0) by {
            if chunks.len() == 0 {
                assert(buf + concat_of(chunks) =~= buf);
            }
        }
        assert((buf + chunks[0]) + concat_of(chunks.skip(1)) =~= buf + concat_of(chunks));
        lemma_incremental_delivery(f, buf + chunks[0], chunks.skip(1), max_bulk);
    }
}

impl Connection {
    /// Reads exactly one frame from a stream whose remaining chunks are
    /// given in arrival order, an empty list standing for a stream that now
    /// closes.  Frames come out in wire order: each call consumes only the
    /// one frame it returns, and a later call picks up exactly where it
    /// stopped.  A truncated frame at close is a [`FrameError::ConnectionReset`],
    /// never a clean end of stream.
    pub fn read_frame(&mut self, chunks: &Vec<Vec<u8>>) -> (r: Result<Option<Frame>, FrameError>)
        ensures
            final(self).limit() == old(self).limit(),
            ({
                let end = read_spec(old(self).buf(), views_of(chunks@), old(self).limit());
                &&& (end matches ReadEnd::Frame { frame, rest } ==> (r matches Ok(Some(f)) && f@
                    == frame && f@.wf() && final(self).buf() == rest))
                &&& (end is Clean ==> r == Ok::<Option<Frame>, FrameError>(None) && final(self).buf().len() == 0)
                &&& (end is Reset ==> r == Err::<Option<Frame>, FrameError>(
                    FrameError::ConnectionReset,
                ))
                &&& (end is Malformed ==> r == Err::<Option<Frame>, FrameError>(
                    FrameError::Malformed,
                ))
                &&& (end is Unsupported ==> r == Err::<Option<Frame>, FrameError>(
                    FrameError::Unsupported,
                ))
            }),
    {
        proof {
            assert(views_of(chunks@).skip(0) =~= views_of(chunks@));
        }
        let mut i: usize = 0;
        loop
            invariant
                i <= chunks@.len(),
                self.limit() == old(self).limit(),
                read_spec(self.buf(), views_of(chunks@).skip(i as int), self.limit())
                    == read_spec(old(self).buf(), views_of(chunks@), old(self).limit()),
            decreases chunks@.len() - i,
        {
            let ghost cs = views_of(chunks@).skip(i as int);
            match self.parse_frame() {
                Ok(Some(frame)) => {
                    return Ok(Some(frame));
                },
                Ok(None) => {},
                Err(e) => {
                    return Err(e);
                },
            }
            if i == chunks.len() {
                proof {
                    assert(cs =~= Seq::<Seq<u8>>::empty());
                }
                return self.end_of_stream();
            }
            let chunk = &chunks[i];
            proof {
                assert(cs[0] == chunks@[i as int]@);
                assert(cs.skip(1) =~= views_of(chunks@).skip(i as int + 1));
            }
            self.feed(chunk.as_slice());
            i = i + 1;
        }
    }
}

} // verus!
