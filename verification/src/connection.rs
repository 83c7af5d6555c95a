//! Per-connection buffering: bytes arrive in arbitrary pieces, frames leave
//! one at a time.
//!
//! The transport itself stays outside. Its owner feeds raw bytes in with
//! [`Connection::feed`], asks for one frame at a time with
//! [`Connection::try_parse_frame`], and reports the stream's end with
//! [`Connection::end_of_input`].

use crate::bytebuf::{buf_advance, buf_bytes, buf_extend, buf_len, buf_new, buf_slice};
use crate::frame::{check, parse, parse_frame, Frame, FrameError, Parsed};
use vstd::prelude::*;

verus! {

/// Why a connection can no longer yield frames.
#[derive(Debug, Clone, Copy, PartialEq, Eq, Structural)]
pub enum ConnError {
    /// The buffered bytes cannot begin a valid frame.
    Format,
    /// The peer closed the stream with an unfinished frame still buffered.
    Reset,
}

/// One peer's accumulation buffer: bytes received but not yet parsed.
pub struct Connection {
    buffer: bytes::BytesMut,
}

impl View for Connection {
    type V = Seq<u8>;

    closed spec fn view(&self) -> Seq<u8> {
        buf_bytes(self.buffer)
    }
}

impl Connection {
    /// A connection with nothing buffered.
    pub fn new() -> (c: Connection)
        ensures
            c@ == Seq::<u8>::empty(),
    {
        Connection { buffer: buf_new() }
    }

    /// Append bytes read from the transport.
    pub fn feed(&mut self, data: &[u8])
        ensures
            final(self)@ == old(self)@ + data@,
    {
        buf_extend(&mut self.buffer, data);
    }

    /// How many bytes are buffered and not yet consumed.
    pub fn buffered(&self) -> (n: usize)
        ensures
            n == self@.len(),
    {
        buf_len(&self.buffer)
    }

    /// Extract one complete frame from the front of the buffer, if one
    /// stands there. `Ok(Some(f))` consumes exactly that frame's bytes and
    /// no others, however many frames are buffered; `Ok(None)` asks for more
    /// input and consumes nothing; `Err` reports bytes that cannot begin a
    /// valid frame.
    pub fn try_parse_frame(&mut self) -> (r: Result<Option<Frame>, ConnError>)
        ensures
            match r {
                Ok(Some(f)) => parse_frame(old(self)@) matches Parsed::Done(fm, len)
                    && crate::frame::frame_model(f) == fm
                    && final(self)@ == old(self)@.skip(len),
                Ok(None) => parse_frame(old(self)@) is Incomplete && final(self)@ == old(self)@,
                Err(ConnError::Format) => parse_frame(old(self)@) is Malformed
                    && final(self)@ == old(self)@,
                Err(ConnError::Reset) => false,
            },
    {
        let checked = check(buf_slice(&self.buffer));
        match checked {
            Ok(len) => {
                let f = parse(buf_slice(&self.buffer));
                buf_advance(&mut self.buffer, len);
                Ok(Some(f))
            },
            Err(FrameError::Incomplete) => Ok(None),
            Err(FrameError::Format) => Err(ConnError::Format),
        }
    }

    /// What the end of input means. With an empty buffer the peer closed
    /// cleanly: no more frames, not an error. With bytes still buffered the
    /// peer closed mid-frame: the connection was reset.
    pub fn end_of_input(&self) -> (r: Result<Option<Frame>, ConnError>)
        ensures
            self@.len() == 0 ==> r == Result::<Option<Frame>, ConnError>::Ok(None),
            self@.len() != 0 ==> r == Result::<Option<Frame>, ConnError>::Err(ConnError::Reset),
    {
        if self.buffered() == 0 {
            Ok(None)
        } else {
            Err(ConnError::Reset)
        }
    }
}

} // verus!
