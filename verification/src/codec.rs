//! The frame codec: stateless translation between a raw byte buffer and
//! newline-delimited UTF-8 text frames.
//!
//! A frame's payload is the run of bytes before the first delimiter; the
//! delimiter itself belongs to no payload. A buffer without a delimiter holds
//! no complete frame, however long it is. A payload that is not valid UTF-8 is
//! a fatal decode error for its connection.

use vstd::prelude::*;
use vstd::utf8::{valid_utf8, decode_utf8, encode_utf8};
use vstd::utf8::{encode_utf8_decode_utf8, encode_utf8_valid_utf8};

verus! {

/// The byte that ends a frame on the wire: a newline.
pub const DELIMITER: u8 = 10;

/// Index of the first delimiter in `b`, or `b.len()` when none occurs.
pub open spec fn frame_end(b: Seq<u8>) -> int
    decreases b.len(),
{
    if b.len() == 0 {
        0
    } else if b[0] == DELIMITER {
        0
    } else {
        1 + frame_end(b.drop_first())
    }
}

/// True when `b` holds at least one complete frame.
pub open spec fn has_frame(b: Seq<u8>) -> bool {
    frame_end(b) < b.len()
}

/// The first frame's payload: the bytes strictly before the first delimiter.
pub open spec fn payload_of(b: Seq<u8>) -> Seq<u8> {
    b.subrange(0, frame_end(b))
}

/// What remains once the first frame's payload and its delimiter are consumed.
pub open spec fn rest_of(b: Seq<u8>) -> Seq<u8> {
    b.subrange(frame_end(b) + 1, b.len() as int)
}

/// `frame_end` points at the first delimiter: nothing before it is a
/// delimiter, and when one occurs at all it stands exactly there.
pub proof fn lemma_frame_end(b: Seq<u8>)
    ensures
        0 <= frame_end(b) <= b.len(),
        forall|j: int| 0 <= j < frame_end(b) ==> b[j] != DELIMITER,
        frame_end(b) < b.len() ==> b[frame_end(b)] == DELIMITER,
    decreases b.len(),
{
    if b.len() == 0 {
    } else if b[0] == DELIMITER {
    } else {
        lemma_frame_end(b.drop_first());
        assert forall|j: int| 0 <= j < frame_end(b) implies b[j] != DELIMITER by {
            if j > 0 {
                assert(b.drop_first()[j - 1] != DELIMITER);
            }
        }
    }
}

/// A delimiter occurs in `b` exactly when `b` holds a complete frame.
pub proof fn lemma_has_frame_contains(b: Seq<u8>)
    ensures
        has_frame(b) <==> b.contains(DELIMITER),
{
    lemma_frame_end(b);
    if b.contains(DELIMITER) {
        let w = choose|i: int| 0 <= i < b.len() && b[i] == DELIMITER;
        assert(frame_end(b) <= w);
    }
}

/// How the first delimiter moves under concatenation: a complete frame in the
/// prefix keeps its boundary; otherwise the scan continues into the suffix.
pub proof fn lemma_frame_end_append(b: Seq<u8>, c: Seq<u8>)
    ensures
        has_frame(b) ==> frame_end(b + c) == frame_end(b),
        !has_frame(b) ==> frame_end(b + c) == b.len() + frame_end(c),
    decreases b.len(),
{
    if b.len() == 0 {
        assert(b + c =~= c);
    } else if b[0] == DELIMITER {
        assert((b + c)[0] == DELIMITER);
    } else {
        lemma_frame_end_append(b.drop_first(), c);
        assert((b + c).drop_first() =~= b.drop_first() + c);
        assert((b + c)[0] != DELIMITER);
    }
}

/// The sequence of frame payloads extractable from `b`, in order: the decoder
/// drains one complete frame after another until no delimiter is left.
pub open spec fn frames_of(b: Seq<u8>) -> Seq<Seq<u8>>
    decreases b.len(),
    via frames_of_decreases
{
    if has_frame(b) {
        seq![payload_of(b)] + frames_of(rest_of(b))
    } else {
        seq![]
    }
}

#[via_fn]
proof fn frames_of_decreases(b: Seq<u8>) {
    lemma_frame_end(b);
}

/// The undelimited leftover once every complete frame in `b` is drained.
pub open spec fn tail_of(b: Seq<u8>) -> Seq<u8>
    decreases b.len(),
    via tail_of_decreases
{
    if has_frame(b) {
        tail_of(rest_of(b))
    } else {
        b
    }
}

#[via_fn]
proof fn tail_of_decreases(b: Seq<u8>) {
    lemma_frame_end(b);
}

/// The leftover holds no complete frame: draining stops only when no
/// delimiter is left.
pub proof fn lemma_tail_no_frame(b: Seq<u8>)
    ensures
        !has_frame(tail_of(b)),
    decreases b.len(),
{
    lemma_frame_end(b);
    if has_frame(b) {
        lemma_tail_no_frame(rest_of(b));
    }
}

/// Draining a buffer before or after more bytes arrive makes no difference:
/// the frames of a concatenation are the frames of the prefix followed by the
/// frames of its leftover joined with the suffix.
pub proof fn lemma_frames_append(b: Seq<u8>, c: Seq<u8>)
    ensures
        frames_of(b + c) == frames_of(b) + frames_of(tail_of(b) + c),
        tail_of(b + c) == tail_of(tail_of(b) + c),
    decreases b.len(),
{
    lemma_frame_end(b);
    lemma_frame_end_append(b, c);
    if has_frame(b) {
        assert(payload_of(b + c) =~= payload_of(b));
        assert(rest_of(b + c) =~= rest_of(b) + c);
        lemma_frames_append(rest_of(b), c);
        assert(frames_of(b + c) =~= frames_of(b) + frames_of(tail_of(b) + c));
    } else {
        assert(tail_of(b) == b);
        assert(frames_of(b + c) =~= frames_of(b) + frames_of(tail_of(b) + c));
    }
}

/// One feeding schedule of a connection's inbound bytes: starting from the
/// drained leftover `l`, each chunk arrives and every complete frame is
/// drained before the next chunk.
pub open spec fn frames_from(l: Seq<u8>, chunks: Seq<Seq<u8>>) -> Seq<Seq<u8>>
    decreases chunks.len(),
{
    if chunks.len() == 0 {
        seq![]
    } else {
        frames_of(l + chunks[0]) + frames_from(tail_of(l + chunks[0]), chunks.drop_first())
    }
}

/// The leftover after such a feeding schedule.
pub open spec fn tail_from(l: Seq<u8>, chunks: Seq<Seq<u8>>) -> Seq<u8>
    decreases chunks.len(),
{
    if chunks.len() == 0 {
        l
    } else {
        tail_from(tail_of(l + chunks[0]), chunks.drop_first())
    }
}

/// Chunk-size independence: feeding a byte stream in any chunking yields
/// exactly the frames of the whole stream, in the same order, with the same
/// leftover.
pub proof fn lemma_chunking_independent(l: Seq<u8>, chunks: Seq<Seq<u8>>)
    requires
        !has_frame(l),
    ensures
        frames_of(l) + frames_from(l, chunks) == frames_of(l + chunks.flatten()),
        tail_from(l, chunks) == tail_of(l + chunks.flatten()),
    decreases chunks.len(),
{
    if chunks.len() == 0 {
        assert(l + chunks.flatten() =~= l);
    } else {
        let l2 = l + chunks[0];
        lemma_frames_append(l2, chunks.drop_first().flatten());
        lemma_tail_no_frame(l2);
        lemma_chunking_independent(tail_of(l2), chunks.drop_first());
        assert(chunks.flatten() == chunks[0] + chunks.drop_first().flatten()) by {
            assert(chunks.first() == chunks[0]);
        }
        assert(l2 + chunks.drop_first().flatten() =~= l + chunks.flatten());
        assert(frames_of(l) + frames_from(l, chunks) =~= frames_of(l + chunks.flatten()));
    }
}

/// Any chunking of a single delimiter-terminated line decodes to exactly that
/// one frame, with nothing left over.
pub proof fn lemma_single_line(payload: Seq<u8>, chunks: Seq<Seq<u8>>)
    requires
        !payload.contains(DELIMITER),
        chunks.flatten() == payload + seq![DELIMITER],
    ensures
        frames_from(Seq::empty(), chunks) == seq![payload],
        tail_from(Seq::empty(), chunks) == Seq::<u8>::empty(),
{
    let b = payload + seq![DELIMITER];
    lemma_has_frame_contains(payload);
    lemma_frame_end_append(payload, seq![DELIMITER]);
    assert(frame_end(b) == payload.len());
    assert(payload_of(b) =~= payload);
    assert(rest_of(b) =~= Seq::<u8>::empty());
    lemma_frame_end(Seq::<u8>::empty());
    assert(frames_of(Seq::<u8>::empty()) =~= Seq::<Seq<u8>>::empty());
    assert(frames_of(b) =~= seq![payload]);
    assert(tail_of(Seq::<u8>::empty()) == Seq::<u8>::empty());
    assert(tail_of(b) == Seq::<u8>::empty());
    lemma_chunking_independent(Seq::empty(), chunks);
    assert(Seq::empty() + chunks.flatten() =~= b);
    assert(frames_from(Seq::empty(), chunks) =~= seq![payload]);
}

/// The bytes that encoding a frame appends to the output buffer: the UTF-8
/// encoding of its text followed by one delimiter.
pub open spec fn encoded_frame(frame: Seq<char>) -> Seq<u8> {
    encode_utf8(frame) + seq![DELIMITER]
}

proof fn lemma_encode_scalar_no_delim(s: u32)
    requires
        vstd::utf8::is_scalar(s),
        s != DELIMITER as u32,
    ensures
        !vstd::utf8::encode_scalar(s).contains(DELIMITER),
{
    if vstd::utf8::has_width_1_encoding(s) {
        assert((s & 0x7F) as u8 != 10u8) by (bit_vector)
            requires
                s <= 0x7F && s != 10,
        ;
    } else {
        assert(0xC0 | ((s >> 6) & 0x1F) as u8 != 10u8) by (bit_vector);
        assert(0xE0 | ((s >> 12) & 0x0F) as u8 != 10u8) by (bit_vector);
        assert(0xF0 | ((s >> 18) & 0x7) as u8 != 10u8) by (bit_vector);
        assert(0x80 | (s & 0x3F) as u8 != 10u8) by (bit_vector);
        assert(0x80 | ((s >> 6) & 0x3F) as u8 != 10u8) by (bit_vector);
        assert(0x80 | ((s >> 12) & 0x3F) as u8 != 10u8) by (bit_vector);
    }
}

/// The UTF-8 encoding of a text without newlines contains no delimiter byte.
pub proof fn lemma_encode_no_delim(frame: Seq<char>)
    requires
        !frame.contains('\n'),
    ensures
        !encode_utf8(frame).contains(DELIMITER),
    decreases frame.len(),
{
    if frame.len() == 0 {
    } else {
        let c = frame[0];
        vstd::utf8::char_is_scalar(c);
        assert(c as u32 != 10) by {
            if c as u32 == 10 {
                vstd::utf8::char_u32_cast(c, 10);
                assert(frame.contains('\n'));
            }
        }
        lemma_encode_scalar_no_delim(c as u32);
        assert(!frame.drop_first().contains('\n')) by {
            if frame.drop_first().contains('\n') {
                let i = choose|i: int|
                    0 <= i < frame.drop_first().len() && frame.drop_first()[i] == '\n';
                assert(frame[i + 1] == '\n');
            }
        }
        lemma_encode_no_delim(frame.drop_first());
        let e = encode_utf8(frame);
        let e0 = vstd::utf8::encode_scalar(c as u32);
        let e1 = encode_utf8(frame.drop_first());
        assert(e == e0 + e1);
        if e.contains(DELIMITER) {
            let i = choose|i: int| 0 <= i < e.len() && e[i] == DELIMITER;
            if i < e0.len() {
                assert(e0.contains(DELIMITER));
            } else {
                assert(e1[i - e0.len()] == DELIMITER);
                assert(e1.contains(DELIMITER));
            }
        }
    }
}

/// Round trip: whatever follows it in the buffer, an encoded newline-free
/// frame decodes back to itself, consuming exactly its own encoded bytes.
/// A frame whose text itself holds a newline splits on the wire and does not
/// survive the trip, so such frames are excluded here.
pub proof fn lemma_round_trip(frame: Seq<char>, rest: Seq<u8>)
    requires
        !frame.contains('\n'),
    ensures
        has_frame(encoded_frame(frame) + rest),
        frame_end(encoded_frame(frame) + rest) + 1 == encoded_frame(frame).len(),
        valid_utf8(payload_of(encoded_frame(frame) + rest)),
        decode_utf8(payload_of(encoded_frame(frame) + rest)) == frame,
        rest_of(encoded_frame(frame) + rest) == rest,
{
    let e = encode_utf8(frame);
    let b = encoded_frame(frame) + rest;
    lemma_encode_no_delim(frame);
    lemma_has_frame_contains(e);
    lemma_frame_end_append(e, seq![DELIMITER] + rest);
    assert(b =~= e + (seq![DELIMITER] + rest));
    assert(frame_end(seq![DELIMITER] + rest) == 0);
    assert(frame_end(b) == e.len());
    assert(payload_of(b) =~= e);
    assert(rest_of(b) =~= rest);
    encode_utf8_valid_utf8(frame);
    encode_utf8_decode_utf8(frame);
}

/// Decoding failures. A malformed payload is fatal for its connection: the
/// codec defines no resynchronization.
#[derive(Debug, PartialEq, Eq)]
pub enum DecodeError {
    /// The bytes before a delimiter are not valid UTF-8 text.
    InvalidEncoding,
}

/// One connection's unprocessed inbound bytes: bytes are appended at the back
/// as they arrive and consumed from the front, each byte exactly once.
pub struct ByteBuffer {
    data: Vec<u8>,
}

impl View for ByteBuffer {
    type V = Seq<u8>;

    closed spec fn view(&self) -> Seq<u8> {
        self.data@
    }
}

impl ByteBuffer {
    /// An empty buffer for a fresh connection.
    pub fn new() -> (r: ByteBuffer)
        ensures
            r@ == Seq::<u8>::empty(),
    {
        ByteBuffer { data: Vec::new() }
    }

    /// Newly arrived bytes join the back of the buffer.
    pub fn feed(&mut self, bytes: &[u8])
        ensures
            final(self)@ == old(self)@ + bytes@,
    {
        self.data.extend_from_slice(bytes);
    }

    /// How many unprocessed bytes the buffer holds.
    pub fn len(&self) -> (n: usize)
        ensures
            n == self@.len(),
    {
        self.data.len()
    }

    /// The index of the first delimiter, if one occurs.
    fn find_delimiter(&self) -> (r: Option<usize>)
        ensures
            match r {
                Some(i) => i == frame_end(self@) && i < self@.len(),
                None => frame_end(self@) == self@.len(),
            },
    {
        proof {
            lemma_frame_end(self@);
        }
        let n = self.data.len();
        let mut i: usize = 0;
        while i < n
            invariant
                i <= n,
                n == self@.len(),
                forall|j: int| 0 <= j < i ==> self@[j] != DELIMITER,
            decreases n - i,
        {
            if self.data[i] == DELIMITER {
                proof {
                    lemma_frame_end(self@);
                    assert(frame_end(self@) <= i);
                    assert(frame_end(self@) >= i);
                }
                return Some(i);
            }
            i += 1;
        }
        proof {
            lemma_frame_end(self@);
            if frame_end(self@) < self@.len() {
                assert(self@[frame_end(self@)] != DELIMITER);
            }
        }
        None
    }

    /// Removes and returns the first complete frame's payload, together with
    /// its delimiter; leaves the buffer untouched when no frame is complete.
    pub fn take_frame(&mut self) -> (r: Option<Vec<u8>>)
        ensures
            match r {
                Some(p) => has_frame(old(self)@) && p@ == payload_of(old(self)@) && final(self)@
                    == rest_of(old(self)@),
                None => !has_frame(old(self)@) && final(self)@ == old(self)@,
            },
    {
        match self.find_delimiter() {
            None => None,
            Some(i) => {
                let mut payload: Vec<u8> = Vec::new();
                let mut j: usize = 0;
                while j < i
                    invariant
                        j <= i,
                        i < self@.len(),
                        payload@ == self@.subrange(0, j as int),
                    decreases i - j,
                {
                    payload.push(self.data[j]);
                    assert(payload@ =~= self@.subrange(0, j + 1));
                    j += 1;
                }
                let n = self.data.len();
                let mut restv: Vec<u8> = Vec::new();
                let mut k: usize = i + 1;
                while k < n
                    invariant
                        i + 1 <= k <= n,
                        n == self@.len(),
                        restv@ == self@.subrange(i + 1, k as int),
                    decreases n - k,
                {
                    restv.push(self.data[k]);
                    assert(restv@ =~= self@.subrange(i + 1, k + 1));
                    k += 1;
                }
                proof {
                    assert(payload@ =~= payload_of(self@));
                    assert(restv@ =~= rest_of(self@));
                }
                self.data = restv;
                Some(payload)
            },
        }
    }
}

/// Relies on std::str::from_utf8: it succeeds exactly on valid UTF-8, and the
/// returned text re-encodes to the very bytes given.
#[verifier::external_body]
fn bytes_as_str<'a>(bytes: &'a [u8]) -> (r: Option<&'a str>)
    ensures
        r is Some <==> valid_utf8(bytes@),
        r matches Some(s) ==> encode_utf8(s@) == bytes@,
{
    match std::str::from_utf8(bytes) {
        Ok(s) => Some(s),
        Err(_) => None,
    }
}

/// The line codec itself. It keeps no state: everything it needs lives in the
/// buffers it is handed.
pub struct LineCodec;

impl LineCodec {
    /// Extracts the first complete frame from `buf`, if one is present.
    ///
    /// Without a delimiter the buffer is left whole and no frame is produced,
    /// however many bytes wait. With one, the payload and its delimiter are
    /// consumed; valid UTF-8 decodes to exactly the payload's text, and
    /// anything else is a fatal `InvalidEncoding`. Another complete frame
    /// already in the buffer is extractable by calling again, with no new
    /// input.
    pub fn decode(&self, buf: &mut ByteBuffer) -> (r: Result<Option<String>, DecodeError>)
        ensures
            !has_frame(old(buf)@) ==> final(buf)@ == old(buf)@ && (r matches Ok(f) && f is None),
            has_frame(old(buf)@) ==> final(buf)@ == rest_of(old(buf)@),
            has_frame(old(buf)@) && valid_utf8(payload_of(old(buf)@)) ==> (r matches Ok(f)
                && f matches Some(s) && s@ == decode_utf8(payload_of(old(buf)@))),
            has_frame(old(buf)@) && !valid_utf8(payload_of(old(buf)@)) ==> (r matches Err(e)
                && e == DecodeError::InvalidEncoding),
    {
        match buf.take_frame() {
            None => Ok(None),
            Some(payload) => match bytes_as_str(payload.as_slice()) {
                Some(s) => {
                    proof {
                        encode_utf8_decode_utf8(s@);
                    }
                    Ok(Some(String::from_str(s)))
                },
                None => Err(DecodeError::InvalidEncoding),
            },
        }
    }

    /// Appends the frame's text and one delimiter to the output buffer. The
    /// payload is taken as already valid, and under this encoding the
    /// operation cannot fail.
    pub fn encode(&self, msg: String, buf: &mut Vec<u8>)
        ensures
            final(buf)@ == old(buf)@ + encoded_frame(msg@),
    {
        buf.extend_from_slice(msg.as_str().as_bytes());
        buf.push(DELIMITER);
        proof {
            assert(final(buf)@ =~= old(buf)@ + encoded_frame(msg@));
        }
    }
}

} // verus!
