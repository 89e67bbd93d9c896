//! The transport binding: a codec paired with one connection's two buffers.
//! It exposes decoded inbound frames on one side and accepts outbound frames
//! for encoding on the other, and the two sides never block each other.

use vstd::prelude::*;
use vstd::utf8::{valid_utf8, decode_utf8};
use crate::codec::{ByteBuffer, DecodeError, LineCodec, encoded_frame, has_frame, payload_of,
    rest_of};

verus! {

/// One connection's framed view of its byte stream: inbound bytes waiting to
/// be decoded, and encoded outbound bytes waiting to be written.
pub struct FramedTransport {
    codec: LineCodec,
    inbuf: ByteBuffer,
    outbuf: Vec<u8>,
}

impl FramedTransport {
    /// The unprocessed inbound bytes.
    pub closed spec fn inbound(&self) -> Seq<u8> {
        self.inbuf@
    }

    /// The encoded bytes not yet handed to the stream.
    pub closed spec fn outbound(&self) -> Seq<u8> {
        self.outbuf@
    }

    /// Bytes read from the stream join the inbound buffer.
    pub fn feed(&mut self, bytes: &[u8])
        ensures
            final(self).inbound() == old(self).inbound() + bytes@,
            final(self).outbound() == old(self).outbound(),
    {
        self.inbuf.feed(bytes);
    }

    /// Decodes the next inbound frame, if a complete one waits. Repeated
    /// calls drain every complete frame without any new input.
    pub fn poll_frame(&mut self) -> (r: Result<Option<String>, DecodeError>)
        ensures
            final(self).outbound() == old(self).outbound(),
            !has_frame(old(self).inbound()) ==> final(self).inbound() == old(self).inbound() && (
            r matches Ok(f) && f is None),
            has_frame(old(self).inbound()) ==> final(self).inbound() == rest_of(
                old(self).inbound(),
            ),
            has_frame(old(self).inbound()) && valid_utf8(payload_of(old(self).inbound())) ==> (
            r matches Ok(f) && f matches Some(s) && s@ == decode_utf8(
                payload_of(old(self).inbound()),
            )),
            has_frame(old(self).inbound()) && !valid_utf8(payload_of(old(self).inbound())) ==> (
            r matches Err(e) && e == DecodeError::InvalidEncoding),
    {
        self.codec.decode(&mut self.inbuf)
    }

    /// How many inbound bytes wait undecoded.
    pub fn inbound_len(&self) -> (n: usize)
        ensures
            n == self.inbound().len(),
    {
        self.inbuf.len()
    }

    /// How many encoded bytes wait for transmission.
    pub fn outbound_len(&self) -> (n: usize)
        ensures
            n == self.outbound().len(),
    {
        self.outbuf.len()
    }

    /// Accepts one outbound frame: encodes it behind everything already
    /// queued, so frames reach the wire in submission order.
    pub fn send(&mut self, msg: String)
        ensures
            final(self).outbound() == old(self).outbound() + encoded_frame(msg@),
            final(self).inbound() == old(self).inbound(),
    {
        self.codec.encode(msg, &mut self.outbuf);
    }

    /// Hands over every queued outbound byte for transmission, in order.
    pub fn take_outbound(&mut self) -> (v: Vec<u8>)
        ensures
            v@ == old(self).outbound(),
            final(self).outbound() == Seq::<u8>::empty(),
            final(self).inbound() == old(self).inbound(),
    {
        let mut out: Vec<u8> = Vec::new();
        core::mem::swap(&mut out, &mut self.outbuf);
        out
    }
}

/// The line protocol: it ties the line codec to a connection's byte stream.
pub struct LineProto;

impl LineProto {
    /// Frames a fresh connection's stream: both sides start empty.
    pub fn bind_transport(&self) -> (t: FramedTransport)
        ensures
            t.inbound() == Seq::<u8>::empty(),
            t.outbound() == Seq::<u8>::empty(),
    {
        FramedTransport { codec: LineCodec, inbuf: ByteBuffer::new(), outbuf: Vec::new() }
    }
}

} // verus!
