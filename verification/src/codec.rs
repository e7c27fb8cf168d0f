use vstd::prelude::*;

use crate::frame::{no_line_break, Frame, FrameError, FrameV};

verus! {

/// Carriage return, the first byte of the CRLF line terminator.
pub const CR: u8 = 13;

/// Line feed, the second byte of the CRLF line terminator.
pub const LF: u8 = 10;

/// Tag byte of a simple (one-line text) frame: `+`.
pub const TAG_SIMPLE: u8 = 43;

/// Tag byte of an error frame: `-`.
pub const TAG_ERROR: u8 = 45;

/// Tag byte of an integer frame: `:`.
pub const TAG_INTEGER: u8 = 58;

/// Tag byte of a bulk or null frame: `$`.
pub const TAG_BULK: u8 = 36;

/// Tag byte of an array frame, whose codec is deliberately absent: `*`.
pub const TAG_ARRAY: u8 = 42;

/// ASCII digit one, the second byte of the null frame's `-1` length line.
pub const DIGIT_ONE: u8 = 49;

/// Outcome of scanning for the CRLF terminator of one line.
pub ghost enum LineScan {
    /// A terminator was found: the line body ends at `end` (exclusive), and
    /// the CRLF occupies positions `end` and `end + 1`.
    Found { end: int },
    /// The buffer ran out before a terminator could be judged.
    NeedMore,
    /// A byte that may only terminate a line stood where it cannot: a line
    /// feed with no carriage return before it, or a carriage return followed
    /// by anything but a line feed.
    Bad,
}

/// Scans `b` from position `i` for the CRLF that terminates one line.
pub open spec fn scan_line(b: Seq<u8>, i: int) -> LineScan
    recommends
        0 <= i <= b.len(),
    decreases b.len() - i,
{
    if i < 0 || i >= b.len() {
        LineScan::NeedMore
    } else if b[i] == LF {
        LineScan::Bad
    } else if b[i] == CR {
        if i + 1 >= b.len() {
            LineScan::NeedMore
        } else if b[i + 1] == LF {
            LineScan::Found { end: i }
        } else {
            LineScan::Bad
        }
    } else {
        scan_line(b, i + 1)
    }
}

/// Holds when `c` is an ASCII decimal digit.
pub open spec fn is_digit(c: u8) -> bool {
    48 <= c && c <= 57
}

/// Holds when every byte of `s` is an ASCII decimal digit.
pub open spec fn all_digits(s: Seq<u8>) -> bool {
    forall|i: int| 0 <= i < s.len() ==> is_digit(#[trigger] s[i])
}

/// The value of `s` read as a decimal numeral, most significant digit first.
pub open spec fn digits_val(s: Seq<u8>) -> int
    decreases s.len(),
{
    if s.len() == 0 {
        0
    } else {
        digits_val(s.drop_last()) * 10 + (s.last() - 48)
    }
}

/// The value of a decimal length or integer line: defined exactly when the
/// line is a non-empty run of digits whose value fits in 64 bits.
pub open spec fn parse_u64(s: Seq<u8>) -> Option<u64> {
    if s.len() > 0 && all_digits(s) && digits_val(s) <= u64::MAX {
        Some(digits_val(s) as u64)
    } else {
        None
    }
}

/// The decimal numeral of `v`, without sign or leading zeroes.
pub open spec fn dec_u64(v: nat) -> Seq<u8>
    decreases v,
{
    if v < 10 {
        seq![(48 + v) as u8]
    } else {
        dec_u64(v / 10).push((48 + v % 10) as u8)
    }
}

/// The wire bytes of a frame: its tag byte, its payload, and the CRLF
/// terminators the grammar places around the payload.
///
/// An array has no wire form in this layer; that arm is never relied upon,
/// since every contract that speaks of `encoding` excludes array frames.
pub open spec fn encoding(f: FrameV) -> Seq<u8> {
    match f {
        FrameV::Simple(s) => seq![TAG_SIMPLE] + s + seq![CR, LF],
        FrameV::Error(s) => seq![TAG_ERROR] + s + seq![CR, LF],
        FrameV::Integer(v) => seq![TAG_INTEGER] + dec_u64(v as nat) + seq![CR, LF],
        FrameV::Null => seq![TAG_BULK, TAG_ERROR, DIGIT_ONE, CR, LF],
        FrameV::Bulk(p) => seq![TAG_BULK] + dec_u64(p.len()) + seq![CR, LF] + p + seq![CR, LF],
        FrameV::Array(_) => Seq::empty(),
    }
}

/// What one decode attempt on buffered bytes must conclude.
pub ghost enum SpecDecode {
    /// Exactly one well-formed frame is present: its value, and how many
    /// bytes it occupies from the front of the buffer.
    Complete { frame: FrameV, len: int },
    /// More bytes are needed before a judgment can be made.
    Incomplete,
    /// The bytes can never form a valid frame.
    Malformed,
    /// The bytes begin an array frame, whose codec is deliberately absent.
    Unsupported,
}

/// The decoding grammar: what judging the front of buffer `b` must yield,
/// with declared bulk payloads longer than `max_bulk` rejected as malformed.
pub open spec fn decode_spec(b: Seq<u8>, max_bulk: u64) -> SpecDecode {
    if b.len() == 0 {
        SpecDecode::Incomplete
    } else if b[0] == TAG_SIMPLE {
        match scan_line(b, 1) {
            LineScan::Found { end } => SpecDecode::Complete {
                frame: FrameV::Simple(b.subrange(1, end)),
                len: end + 2,
            },
            LineScan::NeedMore => SpecDecode::Incomplete,
            LineScan::Bad => SpecDecode::Malformed,
        }
    } else if b[0] == TAG_ERROR {
        match scan_line(b, 1) {
            LineScan::Found { end } => SpecDecode::Complete {
                frame: FrameV::Error(b.subrange(1, end)),
                len: end + 2,
            },
            LineScan::NeedMore => SpecDecode::Incomplete,
            LineScan::Bad => SpecDecode::Malformed,
        }
    } else if b[0] == TAG_INTEGER {
        match scan_line(b, 1) {
            LineScan::Found { end } => match parse_u64(b.subrange(1, end)) {
                Some(v) => SpecDecode::Complete { frame: FrameV::Integer(v), len: end + 2 },
                None => SpecDecode::Malformed,
            },
            LineScan::NeedMore => SpecDecode::Incomplete,
            LineScan::Bad => SpecDecode::Malformed,
        }
    } else if b[0] == TAG_BULK {
        match scan_line(b, 1) {
            LineScan::Found { end } => {
                let line = b.subrange(1, end);
                if line == seq![TAG_ERROR, DIGIT_ONE] {
                    SpecDecode::Complete { frame: FrameV::Null, len: end + 2 }
                } else {
                    match parse_u64(line) {
                        Some(n) => if n > max_bulk {
                            SpecDecode::Malformed
                        } else {
                            let start = end + 2;
                            if b.len() < start + n + 2 {
                                SpecDecode::Incomplete
                            } else if b[start + n] == CR && b[start + n + 1] == LF {
                                SpecDecode::Complete {
                                    frame: FrameV::Bulk(b.subrange(start, start + n)),
                                    len: start + n + 2,
                                }
                            } else {
                                SpecDecode::Malformed
                            }
                        },
                        None => SpecDecode::Malformed,
                    }
                }
            },
            LineScan::NeedMore => SpecDecode::Incomplete,
            LineScan::Bad => SpecDecode::Malformed,
        }
    } else if b[0] == TAG_ARRAY {
        SpecDecode::Unsupported
    } else {
        SpecDecode::Malformed
    }
}

/// Every position scanned over before a terminator is judged holds an
/// ordinary byte, and a found terminator is a genuine CRLF.
pub proof fn lemma_scan_line_found(b: Seq<u8>, i: int, end: int)
    requires
        0 <= i,
        scan_line(b, i) == (LineScan::Found { end }),
    ensures
        i <= end,
        end + 2 <= b.len(),
        b[end] == CR,
        b[end + 1] == LF,
        no_line_break(b.subrange(i, end)),
    decreases b.len() - i,
{
    if i < b.len() && b[i] != LF && b[i] != CR {
        lemma_scan_line_found(b, i + 1, end);
        assert forall|j: int| 0 <= j < end - i implies
            #[trigger] b.subrange(i, end)[j] != 13u8 && b.subrange(i, end)[j] != 10u8 by {
            if j > 0 {
                assert(b.subrange(i + 1, end)[j - 1] == b.subrange(i, end)[j]);
            }
        }
    }
}

/// Scanning bytes that hold no line break, up to at most a trailing carriage
/// return at the very end, cannot be judged yet.
pub proof fn lemma_scan_line_needmore(b: Seq<u8>, i: int)
    requires
        0 <= i <= b.len(),
        forall|j: int| i <= j < b.len() ==> #[trigger] b[j] != LF,
        forall|j: int| i <= j < b.len() && #[trigger] b[j] == CR ==> j == b.len() - 1,
    ensures
        scan_line(b, i) == LineScan::NeedMore,
    decreases b.len() - i,
{
    if i < b.len() && b[i] != LF && b[i] != CR {
        lemma_scan_line_needmore(b, i + 1);
    }
}

/// Scanning from `i` stops at the first CRLF: bytes before it are ordinary,
/// it is present in full, so the scan finds exactly it.
pub proof fn lemma_scan_line_hits(b: Seq<u8>, i: int, end: int)
    requires
        0 <= i <= end,
        end + 2 <= b.len(),
        forall|j: int| i <= j < end ==> #[trigger] b[j] != CR && b[j] != LF,
        b[end] == CR,
        b[end + 1] == LF,
    ensures
        scan_line(b, i) == (LineScan::Found { end }),
    decreases end - i,
{
    if i < end {
        lemma_scan_line_hits(b, i + 1, end);
    }
}

/// A decimal numeral's value never shrinks as digits are appended.
pub proof fn lemma_digits_val_take(s: Seq<u8>, k: int)
    requires
        all_digits(s),
        0 <= k <= s.len(),
    ensures
        0 <= digits_val(s.take(k)) <= digits_val(s),
    decreases s.len() - k,
{
    if k == s.len() {
        assert(s.take(k) =~= s);
        lemma_digits_val_nonneg(s);
    } else {
        lemma_digits_val_take(s, k + 1);
        let t = s.take(k + 1);
        assert(t.drop_last() =~= s.take(k));
        assert(is_digit(t.last()));
        lemma_digits_val_nonneg(s.take(k));
    }
}

/// A run of digits reads as a non-negative value.
pub proof fn lemma_digits_val_nonneg(s: Seq<u8>)
    requires
        all_digits(s),
    ensures
        digits_val(s) >= 0,
    decreases s.len(),
{
    if s.len() > 0 {
        assert(all_digits(s.drop_last())) by {
            assert forall|i: int| 0 <= i < s.len() - 1 implies is_digit(#[trigger] s.drop_last()[i]) by {
                assert(s.drop_last()[i] == s[i]);
            }
        }
        lemma_digits_val_nonneg(s.drop_last());
    }
}

/// The outcome of scanning one line's terminator, with executable offsets.
#[derive(Debug, PartialEq, Eq, Structural)]
pub enum FoundLine {
    /// The line body ends here (exclusive); CRLF follows it.
    Found(usize),
    /// The buffer ran out before the terminator.
    NeedMore,
    /// A stray line feed, or a carriage return not followed by a line feed.
    Bad,
}

/// Finds the CRLF that terminates the line starting at `start`.
pub fn find_line(b: &[u8], start: usize) -> (r: FoundLine)
    requires
        start <= b@.len(),
    ensures
        (r matches FoundLine::Found(e) ==> scan_line(b@, start as int) == (LineScan::Found {
            end: e as int,
        })),
        (r is NeedMore ==> scan_line(b@, start as int) is NeedMore),
        (r is Bad ==> scan_line(b@, start as int) is Bad),
{
    let mut i: usize = start;
    loop
        invariant
            start <= i <= b@.len(),
            scan_line(b@, start as int) == scan_line(b@, i as int),
        decreases b@.len() - i,
    {
        if i >= b.len() {
            return FoundLine::NeedMore;
        }
        let c = *vstd::slice::slice_index_get(b, i);
        if c == LF {
            return FoundLine::Bad;
        }
        if c == CR {
            if i + 1 >= b.len() {
                return FoundLine::NeedMore;
            }
            if *vstd::slice::slice_index_get(b, i + 1) == LF {
                return FoundLine::Found(i);
            }
            return FoundLine::Bad;
        }
        i = i + 1;
    }
}

/// Reads `b[start..end]` as an unsigned decimal: `None` on an empty line, a
/// non-digit byte, or a value that does not fit in 64 bits.
pub fn parse_decimal(b: &[u8], start: usize, end: usize) -> (r: Option<u64>)
    requires
        start <= end <= b@.len(),
    ensures
        r == parse_u64(b@.subrange(start as int, end as int)),
{
    let ghost s = b@.subrange(start as int, end as int);
    if start == end {
        return None;
    }
    let mut acc: u64 = 0;
    let mut i: usize = start;
    loop
        invariant
            start <= i <= end <= b@.len(),
            s == b@.subrange(start as int, end as int),
            s.len() == end - start,
            all_digits(s.take(i - start)),
            acc == digits_val(s.take(i - start)),
            end > start,
        decreases end - i,
    {
        if i == end {
            assert(s.take(i - start) =~= s);
            return Some(acc);
        }
        let c = *vstd::slice::slice_index_get(b, i);
        assert(s[i - start] == c);
        if c < 48 || c > 57 {
            assert(!all_digits(s));
            return None;
        }
        let d: u64 = (c - 48) as u64;
        let ghost t = s.take(i - start + 1);
        assert(t.drop_last() =~= s.take(i - start));
        assert(t.last() == c);
        if acc > (u64::MAX - d) / 10 {
            // The numeral has already outgrown 64 bits; appending digits
            // can only make it larger.
            proof {
                assert(digits_val(t) == acc * 10 + d);
                assert(acc * 10 + d > u64::MAX) by (nonlinear_arith)
                    requires acc > (u64::MAX - d) / 10 && 0 <= d <= 9 && acc <= u64::MAX;
                if all_digits(s) {
                    lemma_digits_val_take(s, i - start + 1);
                }
            }
            return None;
        }
        acc = acc * 10 + d;
        i = i + 1;
    }
}

/// A complete frame occupies at least one byte and at most the whole buffer.
pub proof fn lemma_decode_complete_len(b: Seq<u8>, max_bulk: u64)
    requires
        decode_spec(b, max_bulk) is Complete,
    ensures
        decode_spec(b, max_bulk) matches SpecDecode::Complete { len, .. } ==> 0 < len <= b.len(),
{
    let d = decode_spec(b, max_bulk);
    if let SpecDecode::Complete { len, .. } = d {
        if b[0] == TAG_SIMPLE || b[0] == TAG_ERROR || b[0] == TAG_INTEGER {
            if let LineScan::Found { end } = scan_line(b, 1) {
                lemma_scan_line_found(b, 1, end);
            }
        } else if b[0] == TAG_BULK {
            if let LineScan::Found { end } = scan_line(b, 1) {
                lemma_scan_line_found(b, 1, end);
            }
        }
    }
}

/// What a dry-run decode attempt concluded, with executable offsets.
#[derive(Debug, PartialEq, Eq, Structural)]
pub enum Check {
    /// One complete frame occupies exactly this many bytes at the front.
    Complete(usize),
    /// More bytes are needed before a judgment can be made.
    Incomplete,
    /// The bytes can never form a valid frame.
    Malformed,
    /// The bytes begin an array frame, whose codec is deliberately absent.
    Unsupported,
}

/// Judges whether one complete, well-formed frame sits at the front of `b`,
/// without building its value, rejecting declared bulk payloads longer than
/// `max_bulk`.
pub fn check(b: &[u8], max_bulk: u64) -> (r: Check)
    ensures
        (decode_spec(b@, max_bulk) matches SpecDecode::Complete { len, .. } ==> (r
            matches Check::Complete(n) && n as int == len)),
        (decode_spec(b@, max_bulk) is Incomplete ==> r == Check::Incomplete),
        (decode_spec(b@, max_bulk) is Malformed ==> r == Check::Malformed),
        (decode_spec(b@, max_bulk) is Unsupported ==> r == Check::Unsupported),
{
    if b.len() == 0 {
        return Check::Incomplete;
    }
    let tag = *vstd::slice::slice_index_get(b, 0);
    if tag == TAG_SIMPLE || tag == TAG_ERROR || tag == TAG_INTEGER {
        match find_line(b, 1) {
            FoundLine::Found(end) => {
                proof {
                    lemma_scan_line_found(b@, 1, end as int);
                }
                if tag == TAG_INTEGER {
                    if parse_decimal(b, 1, end).is_none() {
                        return Check::Malformed;
                    }
                }
                Check::Complete(end + 2)
            },
            FoundLine::NeedMore => Check::Incomplete,
            FoundLine::Bad => Check::Malformed,
        }
    } else if tag == TAG_BULK {
        match find_line(b, 1) {
            FoundLine::Found(end) => {
                proof {
                    lemma_scan_line_found(b@, 1, end as int);
                }
                let ghost line = b@.subrange(1, end as int);
                if end == 3 && *vstd::slice::slice_index_get(b, 1) == TAG_ERROR
                    && *vstd::slice::slice_index_get(b, 2) == DIGIT_ONE {
                    proof {
                        assert(line =~= seq![TAG_ERROR, DIGIT_ONE]);
                    }
                    return Check::Complete(5);
                }
                proof {
                    assert(line != seq![TAG_ERROR, DIGIT_ONE]) by {
                        if line == seq![TAG_ERROR, DIGIT_ONE] {
                            assert(line.len() == 2);
                            assert(line[0] == TAG_ERROR);
                            assert(line[1] == DIGIT_ONE);
                        }
                    }
                }
                match parse_decimal(b, 1, end) {
                    None => Check::Malformed,
                    Some(n) => {
                        if n > max_bulk {
                            return Check::Malformed;
                        }
                        let start = end + 2;
                        let remaining = b.len() - start;
                        if remaining < 2 || ((remaining - 2) as u64) < n {
                            return Check::Incomplete;
                        }
                        let nn = n as usize;
                        if *vstd::slice::slice_index_get(b, start + nn) == CR
                            && *vstd::slice::slice_index_get(b, start + nn + 1) == LF {
                            Check::Complete(start + nn + 2)
                        } else {
                            Check::Malformed
                        }
                    },
                }
            },
            FoundLine::NeedMore => Check::Incomplete,
            FoundLine::Bad => Check::Malformed,
        }
    } else if tag == TAG_ARRAY {
        Check::Unsupported
    } else {
        Check::Malformed
    }
}

/// Builds the one complete frame that [`check`] has already judged to sit at
/// the front of `b`, returning it with the exact number of bytes it occupies
/// — the same count `check` reported, so the caller can advance its buffer
/// by either.
pub fn parse(b: &[u8], max_bulk: u64) -> (r: (Frame, usize))
    requires
        decode_spec(b@, max_bulk) is Complete,
    ensures
        decode_spec(b@, max_bulk) matches SpecDecode::Complete { frame, len } ==> ({
            &&& r.0@ == frame
            &&& r.1 as int == len
            &&& r.0@.wf()
        }),
{
    proof {
        lemma_decode_complete_len(b@, max_bulk);
    }
    let blen = b.len();
    let tag = *vstd::slice::slice_index_get(b, 0);
    if tag == TAG_SIMPLE || tag == TAG_ERROR {
        match find_line(b, 1) {
            FoundLine::Found(end) => {
                proof {
                    lemma_scan_line_found(b@, 1, end as int);
                }
                let payload = vstd::slice::slice_to_vec(vstd::slice::slice_subrange(b, 1, end));
                if tag == TAG_SIMPLE {
                    (Frame::Simple(payload), end + 2)
                } else {
                    (Frame::Error(payload), end + 2)
                }
            },
            _ => vstd::pervasive::unreached(),
        }
    } else if tag == TAG_INTEGER {
        match find_line(b, 1) {
            FoundLine::Found(end) => {
                proof {
                    lemma_scan_line_found(b@, 1, end as int);
                }
                match parse_decimal(b, 1, end) {
                    Some(v) => (Frame::Integer(v), end + 2),
                    None => vstd::pervasive::unreached(),
                }
            },
            _ => vstd::pervasive::unreached(),
        }
    } else if tag == TAG_BULK {
        match find_line(b, 1) {
            FoundLine::Found(end) => {
                proof {
                    lemma_scan_line_found(b@, 1, end as int);
                }
                let ghost line = b@.subrange(1, end as int);
                if end == 3 && *vstd::slice::slice_index_get(b, 1) == TAG_ERROR
                    && *vstd::slice::slice_index_get(b, 2) == DIGIT_ONE {
                    proof {
                        assert(line =~= seq![TAG_ERROR, DIGIT_ONE]);
                    }
                    return (Frame::Null, 5);
                }
                proof {
                    assert(line != seq![TAG_ERROR, DIGIT_ONE]) by {
                        if line == seq![TAG_ERROR, DIGIT_ONE] {
                            assert(line.len() == 2);
                            assert(line[0] == TAG_ERROR);
                            assert(line[1] == DIGIT_ONE);
                        }
                    }
                }
                match parse_decimal(b, 1, end) {
                    Some(n) => {
                        if n > max_bulk {
                            return vstd::pervasive::unreached();
                        }
                        let start = end + 2;
                        let remaining = blen - start;
                        if remaining < 2 || ((remaining - 2) as u64) < n {
                            return vstd::pervasive::unreached();
                        }
                        let nn = n as usize;
                        let payload = vstd::slice::slice_to_vec(
                            vstd::slice::slice_subrange(b, start, start + nn),
                        );
                        (Frame::Bulk(payload), start + nn + 2)
                    },
                    None => vstd::pervasive::unreached(),
                }
            },
            _ => vstd::pervasive::unreached(),
        }
    } else {
        vstd::pervasive::unreached()
    }
}

/// A decimal numeral is a non-empty run of digits that reads back as the
/// value it was written from.
pub proof fn lemma_dec_u64(v: nat)
    ensures
        dec_u64(v).len() >= 1,
        all_digits(dec_u64(v)),
        digits_val(dec_u64(v)) == v,
    decreases v,
{
    let s = dec_u64(v);
    if v < 10 {
        assert(s.drop_last() =~= Seq::<u8>::empty());
        assert(digits_val(Seq::<u8>::empty()) == 0);
        assert(s.last() == (48 + v) as u8);
        assert(digits_val(s) == v);
    } else {
        lemma_dec_u64(v / 10);
        let p = dec_u64(v / 10);
        assert(s.drop_last() =~= p);
        assert(s.last() == (48 + v % 10) as u8);
        assert(v % 10 < 10);
        assert(digits_val(s) == digits_val(p) * 10 + (v % 10));
        assert(v / 10 * 10 + v % 10 == v) by {
            vstd::arithmetic::div_mod::lemma_fundamental_div_mod(v as int, 10);
        }
        assert(all_digits(s)) by {
            assert forall|i: int| 0 <= i < s.len() implies is_digit(#[trigger] s[i]) by {
                if i < p.len() {
                    assert(s[i] == p[i]);
                }
            }
        }
    }
}

/// Appends a copy of `s` at the back of `out`.
fn push_slice(out: &mut Vec<u8>, s: &[u8])
    ensures
        final(out)@ == old(out)@ + s@,
{
    let mut i: usize = 0;
    loop
        invariant
            0 <= i <= s@.len(),
            out@ == old(out)@ + s@.take(i as int),
        decreases s@.len() - i,
    {
        if i >= s.len() {
            proof {
                assert(s@.take(i as int) =~= s@);
            }
            return ;
        }
        out.push(*vstd::slice::slice_index_get(s, i));
        proof {
            assert(old(out)@ + s@.take(i + 1) =~= (old(out)@ + s@.take(i as int)).push(s@[i as int]));
        }
        i = i + 1;
    }
}

/// Appends the decimal numeral of `v` at the back of `out`.
fn push_dec_u64(v: u64, out: &mut Vec<u8>)
    ensures
        final(out)@ == old(out)@ + dec_u64(v as nat),
    decreases v,
{
    if v < 10 {
        out.push((48 + v) as u8);
        proof {
            assert(old(out)@ + dec_u64(v as nat) =~= old(out)@.push((48 + v) as u8));
        }
    } else {
        push_dec_u64(v / 10, out);
        out.push((48 + v % 10) as u8);
        proof {
            assert(old(out)@ + dec_u64(v as nat) =~= (old(out)@ + dec_u64((v / 10) as nat)).push(
                (48 + v % 10) as u8,
            ));
        }
    }
}

/// Serializes one well-formed frame to its exact wire bytes: the inverse of
/// [`parse`].  An array frame fails loudly with [`FrameError::Unsupported`],
/// since the array codec is deliberately absent.
pub fn encode(f: &Frame) -> (r: Result<Vec<u8>, FrameError>)
    requires
        f@.wf(),
    ensures
        f@ is Array <==> r == Err::<Vec<u8>, FrameError>(FrameError::Unsupported),
        !(f@ is Array) ==> (r matches Ok(out) && out@ == encoding(f@)),
{
    match f {
        Frame::Simple(s) => {
            let mut out: Vec<u8> = Vec::new();
            out.push(TAG_SIMPLE);
            push_slice(&mut out, s.as_slice());
            out.push(CR);
            out.push(LF);
            proof {
                assert(out@ =~= encoding(f@));
            }
            Ok(out)
        },
        Frame::Error(s) => {
            let mut out: Vec<u8> = Vec::new();
            out.push(TAG_ERROR);
            push_slice(&mut out, s.as_slice());
            out.push(CR);
            out.push(LF);
            proof {
                assert(out@ =~= encoding(f@));
            }
            Ok(out)
        },
        Frame::Integer(v) => {
            let mut out: Vec<u8> = Vec::new();
            out.push(TAG_INTEGER);
            push_dec_u64(*v, &mut out);
            out.push(CR);
            out.push(LF);
            proof {
                assert(out@ =~= encoding(f@));
            }
            Ok(out)
        },
        Frame::Null => {
            let mut out: Vec<u8> = Vec::new();
            out.push(TAG_BULK);
            out.push(TAG_ERROR);
            out.push(DIGIT_ONE);
            out.push(CR);
            out.push(LF);
            proof {
                assert(out@ =~= encoding(f@));
            }
            Ok(out)
        },
        Frame::Bulk(p) => {
            let mut out: Vec<u8> = Vec::new();
            out.push(TAG_BULK);
            push_dec_u64(p.len() as u64, &mut out);
            out.push(CR);
            out.push(LF);
            push_slice(&mut out, p.as_slice());
            out.push(CR);
            out.push(LF);
            proof {
                assert(out@ =~= encoding(f@));
            }
            Ok(out)
        },
        Frame::Array(_) => Err(FrameError::Unsupported),
    }
}

/// Law: the decoder inverts the encoder wherever the frame's bytes sit at
/// the front of a buffer.  Decoding the encoding of a well-formed non-array
/// frame — whatever bytes follow it — succeeds, yields that same frame, and
/// consumes exactly the encoding's bytes, never more.
pub proof fn lemma_encode_then_decode(f: FrameV, tail: Seq<u8>, max_bulk: u64)
    requires
        f.wf(),
        !(f is Array),
        f matches FrameV::Bulk(p) ==> p.len() <= max_bulk,
    ensures
        decode_spec(encoding(f) + tail, max_bulk) == (SpecDecode::Complete {
            frame: f,
            len: encoding(f).len() as int,
        }),
{
    let e = encoding(f);
    let b = e + tail;
    match f {
        FrameV::Simple(s) => {
            let end = 1 + s.len() as int;
            assert forall|j: int| 1 <= j < end implies #[trigger] b[j] != CR && b[j] != LF by {
                assert(b[j] == s[j - 1]);
            }
            assert(b[end] == CR && b[end + 1] == LF);
            lemma_scan_line_hits(b, 1, end);
            assert(b.subrange(1, end) =~= s);
        },
        FrameV::Error(s) => {
            let end = 1 + s.len() as int;
            assert forall|j: int| 1 <= j < end implies #[trigger] b[j] != CR && b[j] != LF by {
                assert(b[j] == s[j - 1]);
            }
            assert(b[end] == CR && b[end + 1] == LF);
            lemma_scan_line_hits(b, 1, end);
            assert(b.subrange(1, end) =~= s);
        },
        FrameV::Integer(v) => {
            lemma_dec_u64(v as nat);
            let line = dec_u64(v as nat);
            let end = 1 + line.len() as int;
            assert forall|j: int| 1 <= j < end implies #[trigger] b[j] != CR && b[j] != LF by {
                assert(b[j] == line[j - 1]);
                assert(is_digit(line[j - 1]));
            }
            assert(b[end] == CR && b[end + 1] == LF);
            lemma_scan_line_hits(b, 1, end);
            assert(b.subrange(1, end) =~= line);
            assert(parse_u64(line) == Some(v));
        },
        FrameV::Null => {
            assert(b[1] == TAG_ERROR && b[2] == DIGIT_ONE && b[3] == CR && b[4] == LF);
            lemma_scan_line_hits(b, 1, 3);
            assert(b.subrange(1, 3) =~= seq![TAG_ERROR, DIGIT_ONE]);
        },
        FrameV::Bulk(p) => {
            lemma_dec_u64(p.len());
            let line = dec_u64(p.len());
            let end = 1 + line.len() as int;
            let start = end + 2;
            assert forall|j: int| 1 <= j < end implies #[trigger] b[j] != CR && b[j] != LF by {
                assert(b[j] == line[j - 1]);
                assert(is_digit(line[j - 1]));
            }
            assert(b[end] == CR && b[end + 1] == LF);
            lemma_scan_line_hits(b, 1, end);
            assert(b.subrange(1, end) =~= line);
            assert(b.subrange(1, end) != seq![TAG_ERROR, DIGIT_ONE]) by {
                assert(is_digit(line[0]));
            }
            let n = p.len() as u64;
            assert(parse_u64(line) == Some(n));
            assert(b.len() >= start + n + 2);
            assert(b[start + n] == CR && b[start + n + 1] == LF);
            assert(b.subrange(start, start + n) =~= p);
            assert(e.len() == start + n + 2);
        },
        FrameV::Array(_) => {},
    }
}

/// Law: one complete frame decodes from its own bytes alone.  Every strict
/// prefix of a well-formed non-array frame's encoding — the frame's bytes
/// split at any boundary — is judged incomplete, never malformed and never a
/// frame.
pub proof fn lemma_prefix_incomplete(f: FrameV, n: int, max_bulk: u64)
    requires
        f.wf(),
        !(f is Array),
        f matches FrameV::Bulk(p) ==> p.len() <= max_bulk,
        0 <= n < encoding(f).len(),
    ensures
        decode_spec(encoding(f).take(n), max_bulk) == SpecDecode::Incomplete,
{
    let e = encoding(f);
    let b = e.take(n);
    if n == 0 {
        return ;
    }
    assert(b[0] == e[0]);
    match f {
        FrameV::Simple(s) => {
            assert forall|j: int| 1 <= j < n implies #[trigger] b[j] != LF && (b[j] == CR ==> j
                == n - 1) by {
                assert(b[j] == e[j]);
                if j < 1 + s.len() {
                    assert(e[j] == s[j - 1]);
                }
            }
            lemma_scan_line_needmore(b, 1);
        },
        FrameV::Error(s) => {
            assert forall|j: int| 1 <= j < n implies #[trigger] b[j] != LF && (b[j] == CR ==> j
                == n - 1) by {
                assert(b[j] == e[j]);
                if j < 1 + s.len() {
                    assert(e[j] == s[j - 1]);
                }
            }
            lemma_scan_line_needmore(b, 1);
        },
        FrameV::Integer(v) => {
            lemma_dec_u64(v as nat);
            let line = dec_u64(v as nat);
            assert forall|j: int| 1 <= j < n implies #[trigger] b[j] != LF && (b[j] == CR ==> j
                == n - 1) by {
                assert(b[j] == e[j]);
                if j < 1 + line.len() {
                    assert(e[j] == line[j - 1]);
                    assert(is_digit(line[j - 1]));
                }
            }
            lemma_scan_line_needmore(b, 1);
        },
        FrameV::Null => {
            assert forall|j: int| 1 <= j < n implies #[trigger] b[j] != LF && (b[j] == CR ==> j
                == n - 1) by {
                assert(b[j] == e[j]);
            }
            lemma_scan_line_needmore(b, 1);
        },
        FrameV::Bulk(p) => {
            lemma_dec_u64(p.len());
            let line = dec_u64(p.len());
            let end = 1 + line.len() as int;
            let start = end + 2;
            if n < start {
                assert forall|j: int| 1 <= j < n implies #[trigger] b[j] != LF && (b[j] == CR
                    ==> j == n - 1) by {
                    assert(b[j] == e[j]);
                    if j < end {
                        assert(e[j] == line[j - 1]);
                        assert(is_digit(line[j - 1]));
                    }
                }
                lemma_scan_line_needmore(b, 1);
            } else {
                assert forall|j: int| 1 <= j < end implies #[trigger] b[j] != CR && b[j] != LF by {
                    assert(b[j] == e[j]);
                    assert(e[j] == line[j - 1]);
                    assert(is_digit(line[j - 1]));
                }
                assert(b[end] == e[end] && b[end + 1] == e[end + 1]);
                assert(b[end] == CR && b[end + 1] == LF);
                lemma_scan_line_hits(b, 1, end);
                assert(b.subrange(1, end) =~= line);
                assert(b.subrange(1, end) != seq![TAG_ERROR, DIGIT_ONE]) by {
                    assert(is_digit(line[0]));
                }
                let nv = p.len() as u64;
                assert(parse_u64(line) == Some(nv));
                assert(e.len() == start + nv + 2);
                assert(b.len() < start + nv + 2);
            }
        },
        FrameV::Array(_) => {},
    }
}

/// Law: a buffer that starts with an unrecognized tag byte is malformed at
/// once — never incomplete, no matter how many bytes follow the tag.
pub proof fn lemma_unknown_tag_malformed(b: Seq<u8>, max_bulk: u64)
    requires
        b.len() > 0,
        b[0] != TAG_SIMPLE,
        b[0] != TAG_ERROR,
        b[0] != TAG_INTEGER,
        b[0] != TAG_BULK,
        b[0] != TAG_ARRAY,
    ensures
        decode_spec(b, max_bulk) == SpecDecode::Malformed,
{
}

/// Law: decoding never consumes past the frame it returns.  When frame `a`'s
/// bytes are immediately followed by frame `b`'s, the decode of the front
/// yields `a`, and the bytes left after consuming it are exactly `b`'s,
/// unmodified.
pub proof fn lemma_no_over_consumption(a: FrameV, b: FrameV, max_bulk: u64)
    requires
        a.wf(),
        b.wf(),
        !(a is Array),
        !(b is Array),
        a matches FrameV::Bulk(p) ==> p.len() <= max_bulk,
        b matches FrameV::Bulk(p) ==> p.len() <= max_bulk,
    ensures
        decode_spec(encoding(a) + encoding(b), max_bulk) == (SpecDecode::Complete {
            frame: a,
            len: encoding(a).len() as int,
        }),
        (encoding(a) + encoding(b)).skip(encoding(a).len() as int) == encoding(b),
{
    lemma_encode_then_decode(a, encoding(b), max_bulk);
    assert((encoding(a) + encoding(b)).skip(encoding(a).len() as int) =~= encoding(b));
}

/// Law: the codec round-trips.  Encoding any well-formed non-array frame and
/// decoding the result yields the same frame back, consuming exactly the
/// bytes that were written.
pub proof fn lemma_round_trip(f: FrameV, max_bulk: u64)
    requires
        f.wf(),
        !(f is Array),
        f matches FrameV::Bulk(p) ==> p.len() <= max_bulk,
    ensures
        decode_spec(encoding(f), max_bulk) == (SpecDecode::Complete {
            frame: f,
            len: encoding(f).len() as int,
        }),
{
    lemma_encode_then_decode(f, Seq::empty(), max_bulk);
    assert(encoding(f) + Seq::<u8>::empty() =~= encoding(f));
}

} // verus!
