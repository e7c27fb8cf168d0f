use vstd::prelude::*;

verus! {

broadcast use vstd::std_specs::vec::group_vec_axioms;

/// One complete protocol message.
///
/// `Simple` and `Error` carry one line of text as raw bytes; such a value is
/// well-formed only when the text holds no carriage return and no line feed,
/// since either would collide with the CRLF line terminator on the wire.
/// `Integer` carries a 64-bit value whose wire form is an unsigned decimal,
/// so only non-negative integers are representable.  `Bulk` carries an
/// arbitrary, length-prefixed byte payload.  `Array` is part of the value
/// model so that a later codec can support it without a type redesign, but
/// encoding or decoding an array fails loudly with [`FrameError::Unsupported`].
#[derive(Debug, PartialEq, Eq)]
pub enum Frame {
    Simple(Vec<u8>),
    Error(Vec<u8>),
    Integer(u64),
    Null,
    Bulk(Vec<u8>),
    Array(Vec<Frame>),
}

/// The mathematical value of a [`Frame`]: each payload as a byte sequence.
pub ghost enum FrameV {
    Simple(Seq<u8>),
    Error(Seq<u8>),
    Integer(u64),
    Null,
    Bulk(Seq<u8>),
    Array(Seq<FrameV>),
}

/// How a decode attempt or an encode request can fail.
///
/// `Incomplete` is deliberately absent: running out of buffered bytes is
/// recovered from by reading more, and is never surfaced as an error.
#[derive(Debug, Clone, Copy, PartialEq, Eq, Structural)]
pub enum FrameError {
    /// The buffered bytes can never form a valid frame.
    Malformed,
    /// The frame is array-tagged; the array codec is deliberately absent.
    Unsupported,
    /// The transport closed while a partially received frame was buffered.
    ConnectionReset,
}

/// Holds when a byte sequence contains neither a carriage return nor a line
/// feed, so it can stand as the body of one CRLF-terminated line.
pub open spec fn no_line_break(s: Seq<u8>) -> bool {
    forall|i: int| 0 <= i < s.len() ==> #[trigger] s[i] != 13u8 && s[i] != 10u8
}

impl View for Frame {
    type V = FrameV;

    open spec fn view(&self) -> FrameV
        decreases self,
    {
        match self {
            Frame::Simple(s) => FrameV::Simple(s@),
            Frame::Error(s) => FrameV::Error(s@),
            Frame::Integer(v) => FrameV::Integer(*v),
            Frame::Null => FrameV::Null,
            Frame::Bulk(s) => FrameV::Bulk(s@),
            Frame::Array(items) => FrameV::Array(
                Seq::new(
                    items.len() as nat,
                    |i: int| if 0 <= i < items.len() {
                        items[i]@
                    } else {
                        FrameV::Null
                    },
                ),
            ),
        }
    }
}

impl FrameV {
    /// The value-model invariant: line-oriented payloads hold no line break.
    ///
    /// An array is constrained only through its elements' own use; since its
    /// codec is unsupported, nothing is demanded of it here.
    pub open spec fn wf(self) -> bool {
        match self {
            FrameV::Simple(s) => no_line_break(s),
            FrameV::Error(s) => no_line_break(s),
            FrameV::Integer(_) => true,
            FrameV::Null => true,
            FrameV::Bulk(_) => true,
            FrameV::Array(_) => true,
        }
    }
}

/// Reports whether a byte slice is free of carriage returns and line feeds.
pub fn line_break_free(s: &[u8]) -> (r: bool)
    ensures
        r == no_line_break(s@),
{
    let mut i: usize = 0;
    loop
        invariant
            0 <= i <= s@.len(),
            forall|j: int| 0 <= j < i ==> #[trigger] s@[j] != 13u8 && s@[j] != 10u8,
        decreases s@.len() - i,
    {
        if i >= s.len() {
            return true;
        }
        let c = *vstd::slice::slice_index_get(s, i);
        if c == 13 || c == 10 {
            return false;
        }
        i = i + 1;
    }
}

impl Frame {
    /// Reports whether this frame satisfies the value-model invariant.
    ///
    /// Callers outside verified code test this before handing a frame to the
    /// encoder, whose contract admits only well-formed frames.
    pub fn is_wf(&self) -> (r: bool)
        ensures
            r == self@.wf(),
    {
        match self {
            Frame::Simple(s) => line_break_free(s.as_slice()),
            Frame::Error(s) => line_break_free(s.as_slice()),
            Frame::Integer(_) => true,
            Frame::Null => true,
            Frame::Bulk(_) => true,
            Frame::Array(_) => true,
        }
    }
}

} // verus!
