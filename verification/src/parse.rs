//! Cursor-style extraction of command arguments from a decoded array frame.
use crate::frame::{
    bytes_to_string, parse_u64, seq_frame_views, spec_dec, Frame, FrameV,
};
use vstd::prelude::*;
use vstd::string::StrSliceExecFns;
use vstd::utf8::{decode_utf8, encode_utf8, valid_utf8};

verus! {

/// The text a frame carries when read as a string argument: simple text
/// directly, bulk payloads after UTF-8 validation, nothing otherwise.
pub open spec fn str_of(v: FrameV) -> Option<Seq<char>> {
    match v {
        FrameV::Simple(t) => Some(t),
        FrameV::Bulk(b) => if valid_utf8(b) {
            Some(decode_utf8(b))
        } else {
            None
        },
        _ => None,
    }
}

/// The raw bytes a frame carries when read as a bytes argument.
pub open spec fn bytes_of(v: FrameV) -> Option<Seq<u8>> {
    match v {
        FrameV::Simple(t) => Some(encode_utf8(t)),
        FrameV::Bulk(b) => Some(b),
        _ => None,
    }
}

/// The number a frame carries when read as an integer argument: an integer
/// frame directly, or decimal text from a simple or bulk frame.
pub open spec fn int_of(v: FrameV) -> Option<u64> {
    match v {
        FrameV::Integer(u) => Some(u),
        FrameV::Simple(t) => spec_dec(encode_utf8(t)),
        FrameV::Bulk(b) => spec_dec(b),
        _ => None,
    }
}

/// Why extracting an argument failed: the array ran out, or an element had
/// the wrong shape.
#[derive(Debug)]
pub enum ParseError {
    EndOfStream,
    Other(String),
}

fn argument_error_msg() -> (r: String) {
    "protocol error; unexpected argument shape".to_owned()
}

/// A cursor over the elements of one array frame.
pub struct Parse {
    parts: Vec<Frame>,
}

impl View for Parse {
    type V = Seq<FrameV>;

    closed spec fn view(&self) -> Seq<FrameV> {
        seq_frame_views(self.parts@)
    }
}

impl Parse {
    /// Starts a cursor over an array frame; any other frame shape is a
    /// protocol error.
    pub fn new(frame: Frame) -> (r: Result<Parse, ParseError>)
        ensures
            match r {
                Ok(p) => frame@ matches FrameV::Array(items) && p@ == items,
                Err(e) => !(frame@ is Array) && e is Other,
            },
    {
        match frame {
            Frame::Array(v) => {
                let p = Parse { parts: v };
                proof {
                    assert(p@ =~= frame@->Array_0);
                }
                Ok(p)
            },
            _ => Err(ParseError::Other("protocol error; expected array frame".to_owned())),
        }
    }

    /// The number of elements not yet consumed.
    pub fn remaining(&self) -> (n: usize)
        ensures
            n == self@.len(),
    {
        self.parts.len()
    }

    /// Takes the next element.
    fn next(&mut self) -> (r: Result<Frame, ParseError>)
        ensures
            match r {
                Ok(f) => old(self)@.len() > 0 && f@ == old(self)@[0] && final(self)@ == old(self)@.drop_first(),
                Err(e) => old(self)@.len() == 0 && e is EndOfStream && final(self)@ == old(self)@,
            },
    {
        if self.parts.len() > 0 {
            let f = self.parts.remove(0);
            proof {
                lemma_views_drop_first(old(self).parts@, self.parts@);
            }
            Ok(f)
        } else {
            Err(ParseError::EndOfStream)
        }
    }

    /// The next element as validated text.
    pub fn next_string(&mut self) -> (r: Result<String, ParseError>)
        ensures
            match r {
                Ok(s) => old(self)@.len() > 0 && str_of(old(self)@[0]) == Some(s@) && final(self)@ == old(self)@.drop_first(),
                Err(e) => if e is EndOfStream {
                    old(self)@.len() == 0 && final(self)@ == old(self)@
                } else {
                    old(self)@.len() > 0 && str_of(old(self)@[0]) is None && final(self)@
                        == old(self)@.drop_first()
                },
            },
    {
        match self.next() {
            Ok(Frame::Simple(s)) => Ok(s),
            Ok(Frame::Bulk(b)) => match bytes_to_string(b) {
                Some(s) => Ok(s),
                None => Err(ParseError::Other(argument_error_msg())),
            },
            Ok(_) => Err(ParseError::Other(argument_error_msg())),
            Err(e) => Err(e),
        }
    }

    /// The next element as raw bytes.
    pub fn next_bytes(&mut self) -> (r: Result<Vec<u8>, ParseError>)
        ensures
            match r {
                Ok(v) => old(self)@.len() > 0 && bytes_of(old(self)@[0]) == Some(v@) && final(self)@ == old(self)@.drop_first(),
                Err(e) => if e is EndOfStream {
                    old(self)@.len() == 0 && final(self)@ == old(self)@
                } else {
                    old(self)@.len() > 0 && bytes_of(old(self)@[0]) is None && final(self)@
                        == old(self)@.drop_first()
                },
            },
    {
        match self.next() {
            Ok(Frame::Simple(s)) => Ok(s.as_str().as_bytes_vec()),
            Ok(Frame::Bulk(b)) => Ok(b),
            Ok(_) => Err(ParseError::Other(argument_error_msg())),
            Err(e) => Err(e),
        }
    }

    /// The next element as a 64-bit integer.
    pub fn next_int(&mut self) -> (r: Result<u64, ParseError>)
        ensures
            match r {
                Ok(v) => old(self)@.len() > 0 && int_of(old(self)@[0]) == Some(v) && final(self)@ == old(self)@.drop_first(),
                Err(e) => if e is EndOfStream {
                    old(self)@.len() == 0 && final(self)@ == old(self)@
                } else {
                    old(self)@.len() > 0 && int_of(old(self)@[0]) is None && final(self)@
                        == old(self)@.drop_first()
                },
            },
    {
        match self.next() {
            Ok(Frame::Integer(v)) => Ok(v),
            Ok(Frame::Simple(s)) => match parse_u64(&s.as_str().as_bytes_vec()) {
                Some(v) => Ok(v),
                None => Err(ParseError::Other(argument_error_msg())),
            },
            Ok(Frame::Bulk(b)) => match parse_u64(&b) {
                Some(v) => Ok(v),
                None => Err(ParseError::Other(argument_error_msg())),
            },
            Ok(_) => Err(ParseError::Other(argument_error_msg())),
            Err(e) => Err(e),
        }
    }

    /// Succeeds only when every element has been consumed: trailing
    /// arguments are a protocol error.
    pub fn finish(&mut self) -> (r: Result<(), ParseError>)
        ensures
            match r {
                Ok(()) => old(self)@.len() == 0 && final(self)@ == old(self)@,
                Err(e) => old(self)@.len() > 0 && e is Other && final(self)@ == old(self)@.drop_first(),
            },
    {
        match self.next() {
            Ok(_) => Err(
                ParseError::Other("protocol error; expected end of frame".to_owned()),
            ),
            Err(_) => Ok(()),
        }
    }
}

proof fn lemma_views_drop_first(before: Seq<Frame>, after: Seq<Frame>)
    requires
        before.len() > 0,
        after == before.subrange(1, before.len() as int),
    ensures
        seq_frame_views(after) == seq_frame_views(before).drop_first(),
{
    assert(seq_frame_views(after) =~= seq_frame_views(before).drop_first());
}

} // verus!
