//! Message-boundary framing over a byte stream.
//!
//! A `Connection` accumulates transport bytes in a growable buffer and cuts
//! whole frames out of it, hiding how the transport chunked them.  The I/O
//! itself lives outside the library: the owner feeds raw bytes in with
//! [`Connection::feed`], asks for whole frames with
//! [`Connection::parse_frame`], and interprets a zero-length read with
//! [`Connection::end_of_stream`].
use crate::frame::{spec_check, spec_parse, CheckResult, Error, Frame, ParseResult};
use vstd::prelude::*;

verus! {

/// The buffered prefix of one peer's byte stream.
pub struct Connection {
    buffer: Vec<u8>,
}

impl View for Connection {
    type V = Seq<u8>;

    closed spec fn view(&self) -> Seq<u8> {
        self.buffer@
    }
}

impl Connection {
    /// A connection with nothing buffered yet.
    pub fn new() -> (c: Connection)
        ensures
            c@ == Seq::<u8>::empty(),
    {
        Connection { buffer: Vec::with_capacity(4096) }
    }

    /// Appends bytes received from the transport.
    pub fn feed(&mut self, data: &[u8])
        ensures
            final(self)@ == old(self)@ + data@,
    {
        self.buffer.extend_from_slice(data);
    }

    /// How many bytes are buffered and not yet consumed as frames.
    pub fn buffered(&self) -> (n: usize)
        ensures
            n == self@.len(),
    {
        self.buffer.len()
    }

    /// Cuts one whole frame off the front of the buffer.  `Ok(None)` means
    /// more bytes are needed; an error means the peer sent malformed bytes,
    /// and the buffer is left untouched.
    pub fn parse_frame(&mut self) -> (r: Result<Option<Frame>, Error>)
        ensures
            match r {
                Ok(Some(f)) => {
                    &&& spec_check(old(self)@, 0) matches CheckResult::Complete(end)
                        && final(self)@ == old(self)@.subrange(end, old(self)@.len() as int)
                    &&& spec_parse(old(self)@, 0) matches ParseResult::Parsed(v, _) && v == f@
                },
                Ok(None) => spec_check(old(self)@, 0) is Incomplete && final(self)@ == old(
                    self,
                )@,
                Err(e) => final(self)@ == old(self)@ && (spec_check(old(self)@, 0)
                    is ProtocolError || (spec_check(old(self)@, 0) is Complete && !(spec_parse(
                    old(self)@,
                    0,
                ) is Parsed))),
            },
    {
        match Frame::check(&self.buffer, 0) {
            Ok(end) => match Frame::parse(&self.buffer, 0) {
                Ok((frame, _)) => {
                    let tail = self.buffer.split_off(end);
                    self.buffer = tail;
                    Ok(Some(frame))
                },
                Err(e) => Err(e),
            },
            Err(Error::Incomplete) => Ok(None),
            Err(e) => Err(e),
        }
    }

    /// What a read of zero bytes means: a clean end of stream when nothing
    /// is buffered, a connection reset by the peer when a partial frame
    /// remains.
    pub fn end_of_stream(&self) -> (r: Result<Option<Frame>, Error>)
        ensures
            match r {
                Ok(f) => f is None && self@.len() == 0,
                Err(e) => self@.len() > 0 && e is Other,
            },
    {
        if self.buffer.len() == 0 {
            Ok(None)
        } else {
            Err(Error::Other("connection reset by peer".to_owned()))
        }
    }
}

} // verus!
