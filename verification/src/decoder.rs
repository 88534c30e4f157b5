use vstd::prelude::*;

use crate::frame::{Frame, ParseError, ProtocolError, Scan, spec_parse, MAX_DEPTH};

verus! {

/// Incremental frame decoder.
///
/// It owns the growable buffer that a byte stream fills in chunks of
/// arbitrary size, and hands out one complete frame at a time. Bytes
/// of a parsed frame are discarded as soon as the frame is returned,
/// so the buffer only ever holds a partial frame's worth of input,
/// and nothing is ever re-parsed from discarded bytes.
pub struct Decoder {
    buf: Vec<u8>,
}

impl View for Decoder {
    type V = Seq<u8>;

    /// The bytes received but not yet consumed by a returned frame.
    closed spec fn view(&self) -> Seq<u8> {
        self.buf@
    }
}

impl Decoder {
    /// A decoder with an empty buffer.
    pub fn new() -> (d: Decoder)
        ensures
            d@ == Seq::<u8>::empty(),
    {
        Decoder { buf: Vec::new() }
    }

    /// Appends freshly read bytes to the buffer.
    pub fn feed(&mut self, chunk: &[u8])
        ensures
            final(self)@ == old(self)@ + chunk@,
    {
        crate::frame::push_all(&mut self.buf, chunk);
    }

    /// True when no unconsumed bytes remain; at end of stream this
    /// distinguishes a clean close from a peer that quit mid-frame.
    pub fn is_empty(&self) -> (r: bool)
        ensures
            r == (self@.len() == 0),
    {
        self.buf.len() == 0
    }

    /// Attempts to parse one frame from the front of the buffer.
    ///
    /// On success exactly the frame's bytes are discarded; when the
    /// buffer holds only a frame prefix, nothing changes and the
    /// caller should feed more bytes; a malformed buffer is fatal and
    /// is left as it stands.
    pub fn try_next(&mut self) -> (r: Result<Option<Frame>, ProtocolError>)
        ensures
            match spec_parse(old(self)@, 0, MAX_DEPTH as nat) {
                Scan::Done(m, p) => r matches Ok(Some(f)) && f.deep() == m && final(self)@
                    == old(self)@.subrange(p, old(self)@.len() as int),
                Scan::More => r matches Ok(None) && final(self)@ == old(self)@,
                Scan::Bad => r is Err && final(self)@ == old(self)@,
            },
    {
        match Frame::parse(self.buf.as_slice(), 0) {
            Result::Ok((f, p)) => {
                let rest = vstd::slice::slice_to_vec(
                    vstd::slice::slice_subrange(self.buf.as_slice(), p, self.buf.len()),
                );
                self.buf = rest;
                Ok(Some(f))
            },
            Result::Err(ParseError::Incomplete) => Ok(None),
            Result::Err(ParseError::Other(e)) => Err(e),
        }
    }
}

} // verus!
