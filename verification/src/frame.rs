//! Wire-protocol frames: a self-describing, length-prefixed binary format.
//!
//! A frame is checked (`Frame::check`) and then materialized (`Frame::parse`)
//! from a byte buffer; `Frame::encode` produces the wire bytes.  The ghost
//! functions `spec_check`, `spec_parse` and `wire` give the exact meaning of
//! those three operations, and the lemmas at the end of the module prove the
//! codec laws: encode/parse round-trips, and strict prefixes of an encoding
//! are always reported as incomplete rather than as errors or false successes.
use vstd::prelude::*;
use vstd::utf8::{decode_utf8, encode_utf8, valid_utf8};

verus! {

broadcast use vstd::seq::axiom_seq_index_decreases;

/// One wire-protocol value.
#[derive(Debug, PartialEq, Eq)]
pub enum Frame {
    Simple(String),
    Error(String),
    Integer(u64),
    Bulk(Vec<u8>),
    Null,
    Array(Vec<Frame>),
}

/// Outcome of reading a frame from a buffer: either more bytes are needed
/// (retryable) or the bytes already received are malformed (fatal to the
/// connection).
#[derive(Debug)]
pub enum Error {
    Incomplete,
    Other(String),
}

/// The mathematical shape of a frame: strings as character sequences, bulk
/// payloads as byte sequences, arrays as sequences of nested shapes.
pub enum FrameV {
    Simple(Seq<char>),
    Error(Seq<char>),
    Integer(u64),
    Bulk(Seq<u8>),
    Null,
    Array(Seq<FrameV>),
}

pub open spec fn frame_view(f: Frame) -> FrameV
    decreases f,
{
    match f {
        Frame::Simple(s) => FrameV::Simple(s@),
        Frame::Error(s) => FrameV::Error(s@),
        Frame::Integer(v) => FrameV::Integer(v),
        Frame::Bulk(b) => FrameV::Bulk(b@),
        Frame::Null => FrameV::Null,
        Frame::Array(v) => FrameV::Array(
            Seq::new(v@.len(), |i: int| if 0 <= i < v@.len() {
                frame_view(v@[i])
            } else {
                FrameV::Null
            }),
        ),
    }
}

impl View for Frame {
    type V = FrameV;

    open spec fn view(&self) -> FrameV {
        frame_view(*self)
    }
}

pub open spec fn crlf() -> Seq<u8> {
    seq![13u8, 10u8]
}

/// ASCII decimal digits of `v`, most significant first, no sign, no leading
/// zeros (except for `v == 0` itself).
pub open spec fn dec_rep(v: nat) -> Seq<u8>
    decreases v,
{
    if v < 10 {
        seq![(48 + v) as u8]
    } else {
        dec_rep(v / 10) + seq![(48 + v % 10) as u8]
    }
}

/// The canonical encoding of a frame shape on the wire.
pub open spec fn wire(f: FrameV) -> Seq<u8>
    decreases f,
{
    match f {
        FrameV::Simple(s) => seq![43u8] + encode_utf8(s) + crlf(),
        FrameV::Error(s) => seq![45u8] + encode_utf8(s) + crlf(),
        FrameV::Integer(v) => seq![58u8] + dec_rep(v as nat) + crlf(),
        FrameV::Bulk(b) => seq![36u8] + dec_rep(b.len()) + crlf() + b + crlf(),
        FrameV::Null => seq![36u8, 45u8, 49u8] + crlf(),
        FrameV::Array(items) => seq![42u8] + dec_rep(items.len()) + crlf() + wire_elems(items),
    }
}

pub open spec fn wire_elems(items: Seq<FrameV>) -> Seq<u8>
    decreases items,
{
    if items.len() == 0 {
        Seq::empty()
    } else {
        wire(items[0]) + wire_elems(items.subrange(1, items.len() as int))
    }
}

/// Digit test for one ASCII byte.
pub open spec fn is_digit(b: u8) -> bool {
    48 <= b <= 57
}

pub open spec fn all_digits(s: Seq<u8>) -> bool {
    forall|i: int| 0 <= i < s.len() ==> is_digit(#[trigger] s[i])
}

/// Value of an all-digit line, most significant digit first.
pub open spec fn digits_val(s: Seq<u8>) -> nat
    decreases s.len(),
{
    if s.len() == 0 {
        0
    } else {
        (digits_val(s.drop_last()) * 10 + (s.last() - 48)) as nat
    }
}

/// What a decimal header line means: a value only when the line is non-empty,
/// all digits, and the value fits in 64 bits; anything else is malformed.
pub open spec fn spec_dec(s: Seq<u8>) -> Option<u64> {
    if s.len() > 0 && all_digits(s) && digits_val(s) <= u64::MAX {
        Some(digits_val(s) as u64)
    } else {
        None
    }
}

/// Index of the first CR LF pair at or after `pos`, if any.
pub open spec fn spec_find_crlf(s: Seq<u8>, pos: int) -> Option<int>
    decreases s.len() - pos,
{
    if pos < 0 || pos + 2 > s.len() {
        None
    } else if s[pos] == 13 && s[pos + 1] == 10 {
        Some(pos)
    } else {
        spec_find_crlf(s, pos + 1)
    }
}

/// Result of scanning for one whole frame.
pub enum CheckResult {
    /// A complete frame occupies the window; the value is the position just
    /// past its last byte.
    Complete(int),
    Incomplete,
    ProtocolError,
}

/// Result of materializing one frame.
pub enum ParseResult {
    /// The parsed shape, and the position just past its last byte.
    Parsed(FrameV, int),
    Incomplete,
    ProtocolError,
}

/// Result of materializing a run of consecutive frames.
pub enum ElemsResult {
    Parsed(Seq<FrameV>, int),
    Incomplete,
    ProtocolError,
}

/// Whether a complete frame starts at `pos`, without building it.
pub open spec fn spec_check(s: Seq<u8>, pos: int) -> CheckResult
    decreases s.len() - pos, 0int,
{
    if pos < 0 || pos >= s.len() {
        CheckResult::Incomplete
    } else {
        let p = pos + 1;
        let tag = s[pos];
        if tag == 43 || tag == 45 {
            match spec_find_crlf(s, p) {
                Option::None => CheckResult::Incomplete,
                Option::Some(i) => CheckResult::Complete(i + 2),
            }
        } else if tag == 58 {
            match spec_find_crlf(s, p) {
                Option::None => CheckResult::Incomplete,
                Option::Some(i) => if spec_dec(s.subrange(p, i)) is Some {
                    CheckResult::Complete(i + 2)
                } else {
                    CheckResult::ProtocolError
                },
            }
        } else if tag == 36 {
            if p >= s.len() {
                CheckResult::Incomplete
            } else if s[p] == 45 {
                // a null marker: four bytes are skipped unexamined
                if s.len() - p < 4 {
                    CheckResult::Incomplete
                } else {
                    CheckResult::Complete(p + 4)
                }
            } else {
                match spec_find_crlf(s, p) {
                    Option::None => CheckResult::Incomplete,
                    Option::Some(i) => match spec_dec(s.subrange(p, i)) {
                        Option::None => CheckResult::ProtocolError,
                        Option::Some(len) => if i + 2 + len + 2 <= s.len() {
                            CheckResult::Complete(i + 2 + len + 2)
                        } else {
                            CheckResult::Incomplete
                        },
                    },
                }
            }
        } else if tag == 42 {
            match spec_find_crlf(s, p) {
                Option::None => CheckResult::Incomplete,
                Option::Some(i) => match spec_dec(s.subrange(p, i)) {
                    Option::None => CheckResult::ProtocolError,
                    Option::Some(n) => if i + 2 > pos && i + 2 <= s.len() {
                        spec_check_elems(s, i + 2, n as nat)
                    } else {
                        CheckResult::ProtocolError
                    },
                },
            }
        } else {
            CheckResult::ProtocolError
        }
    }
}

/// Whether `n` consecutive complete frames start at `pos`.
pub open spec fn spec_check_elems(s: Seq<u8>, pos: int, n: nat) -> CheckResult
    decreases s.len() - pos, n + 1,
{
    if n == 0 {
        CheckResult::Complete(pos)
    } else {
        match spec_check(s, pos) {
            CheckResult::Complete(p2) => if p2 > pos && p2 <= s.len() {
                spec_check_elems(s, p2, (n - 1) as nat)
            } else {
                CheckResult::ProtocolError
            },
            CheckResult::Incomplete => CheckResult::Incomplete,
            CheckResult::ProtocolError => CheckResult::ProtocolError,
        }
    }
}

/// The frame starting at `pos`, materialized.
pub open spec fn spec_parse(s: Seq<u8>, pos: int) -> ParseResult
    decreases s.len() - pos, 0int,
{
    if pos < 0 || pos >= s.len() {
        ParseResult::Incomplete
    } else {
        let p = pos + 1;
        let tag = s[pos];
        if tag == 43 || tag == 45 {
            match spec_find_crlf(s, p) {
                Option::None => ParseResult::Incomplete,
                Option::Some(i) => {
                    let line = s.subrange(p, i);
                    if valid_utf8(line) {
                        if tag == 43 {
                            ParseResult::Parsed(FrameV::Simple(decode_utf8(line)), i + 2)
                        } else {
                            ParseResult::Parsed(FrameV::Error(decode_utf8(line)), i + 2)
                        }
                    } else {
                        ParseResult::ProtocolError
                    }
                },
            }
        } else if tag == 58 {
            match spec_find_crlf(s, p) {
                Option::None => ParseResult::Incomplete,
                Option::Some(i) => match spec_dec(s.subrange(p, i)) {
                    Option::None => ParseResult::ProtocolError,
                    Option::Some(v) => ParseResult::Parsed(FrameV::Integer(v), i + 2),
                },
            }
        } else if tag == 36 {
            if p >= s.len() {
                ParseResult::Incomplete
            } else if s[p] == 45 {
                match spec_find_crlf(s, p) {
                    Option::None => ParseResult::Incomplete,
                    Option::Some(i) => if s.subrange(p, i) =~= seq![45u8, 49u8] {
                        ParseResult::Parsed(FrameV::Null, i + 2)
                    } else {
                        ParseResult::ProtocolError
                    },
                }
            } else {
                match spec_find_crlf(s, p) {
                    Option::None => ParseResult::Incomplete,
                    Option::Some(i) => match spec_dec(s.subrange(p, i)) {
                        Option::None => ParseResult::ProtocolError,
                        Option::Some(len) => if i + 2 + len + 2 <= s.len() {
                            ParseResult::Parsed(
                                FrameV::Bulk(s.subrange(i + 2, i + 2 + len)),
                                i + 2 + len + 2,
                            )
                        } else {
                            ParseResult::Incomplete
                        },
                    },
                }
            }
        } else if tag == 42 {
            match spec_find_crlf(s, p) {
                Option::None => ParseResult::Incomplete,
                Option::Some(i) => match spec_dec(s.subrange(p, i)) {
                    Option::None => ParseResult::ProtocolError,
                    Option::Some(n) => if i + 2 > pos && i + 2 <= s.len() {
                        match spec_parse_elems(s, i + 2, n as nat) {
                            ElemsResult::Parsed(items, e) => ParseResult::Parsed(
                                FrameV::Array(items),
                                e,
                            ),
                            ElemsResult::Incomplete => ParseResult::Incomplete,
                            ElemsResult::ProtocolError => ParseResult::ProtocolError,
                        }
                    } else {
                        ParseResult::ProtocolError
                    },
                },
            }
        } else {
            ParseResult::ProtocolError
        }
    }
}

/// `n` consecutive frames starting at `pos`, materialized.
pub open spec fn spec_parse_elems(s: Seq<u8>, pos: int, n: nat) -> ElemsResult
    decreases s.len() - pos, n + 1,
{
    if n == 0 {
        ElemsResult::Parsed(Seq::empty(), pos)
    } else {
        match spec_parse(s, pos) {
            ParseResult::Parsed(v, p2) => if p2 > pos && p2 <= s.len() {
                match spec_parse_elems(s, p2, (n - 1) as nat) {
                    ElemsResult::Parsed(items, e) => ElemsResult::Parsed(
                        seq![v] + items,
                        e,
                    ),
                    ElemsResult::Incomplete => ElemsResult::Incomplete,
                    ElemsResult::ProtocolError => ElemsResult::ProtocolError,
                }
            } else {
                ElemsResult::ProtocolError
            },
            ParseResult::Incomplete => ElemsResult::Incomplete,
            ParseResult::ProtocolError => ElemsResult::ProtocolError,
        }
    }
}

/// A short description of a malformed frame, for `Error::Other`.
fn protocol_error_msg() -> (r: String) {
    "protocol error; invalid frame format".to_owned()
}

/// The byte at `pos`, without consuming it.
pub fn peek_u8(buf: &Vec<u8>, pos: usize) -> (r: Result<u8, Error>)
    ensures
        match r {
            Ok(b) => pos < buf.len() && b == buf@[pos as int],
            Err(e) => pos >= buf.len() && e is Incomplete,
        },
{
    if pos < buf.len() {
        Ok(buf[pos])
    } else {
        Err(Error::Incomplete)
    }
}

/// The byte at `pos`, and the position just past it.
pub fn get_u8(buf: &Vec<u8>, pos: usize) -> (r: Result<(u8, usize), Error>)
    ensures
        match r {
            Ok((b, next)) => pos < buf.len() && b == buf@[pos as int] && next == pos + 1,
            Err(e) => pos >= buf.len() && e is Incomplete,
        },
{
    if pos < buf.len() {
        Ok((buf[pos], pos + 1))
    } else {
        Err(Error::Incomplete)
    }
}

/// Advances `pos` by `n` bytes, requiring them to be present.
pub fn skip(buf: &Vec<u8>, pos: usize, n: usize) -> (r: Result<usize, Error>)
    ensures
        match r {
            Ok(next) => pos <= buf.len() && buf.len() - pos >= n && next == pos + n,
            Err(e) => (pos > buf.len() || buf.len() - pos < n) && e is Incomplete,
        },
{
    if pos <= buf.len() && buf.len() - pos >= n {
        Ok(pos + n)
    } else {
        Err(Error::Incomplete)
    }
}

/// The bytes from `pos` up to the first CR LF pair, and the position just
/// past that pair.
pub fn get_line(buf: &Vec<u8>, pos: usize) -> (r: Result<(Vec<u8>, usize), Error>)
    ensures
        match r {
            Ok((line, next)) => {
                &&& spec_find_crlf(buf@, pos as int) == Some(next - 2)
                &&& line@ == buf@.subrange(pos as int, next - 2)
                &&& pos + 2 <= next <= buf.len()
            },
            Err(e) => e is Incomplete && spec_find_crlf(buf@, pos as int) is None,
        },
{
    let n = buf.len();
    let mut i = pos;
    while i < n && i + 1 < n && !(buf[i] == 13 && buf[i + 1] == 10)
        invariant
            pos <= i,
            n == buf.len(),
            i <= n || i == pos,
            spec_find_crlf(buf@, pos as int) == spec_find_crlf(buf@, i as int),
        decreases n - i,
    {
        i = i + 1;
    }
    if i < n && i + 1 < n {
        let mut line: Vec<u8> = Vec::new();
        let mut j = pos;
        while j < i
            invariant
                pos <= j <= i < buf.len(),
                line@ == buf@.subrange(pos as int, j as int),
            decreases i - j,
        {
            line.push(buf[j]);
            j = j + 1;
            proof {
                assert(line@ =~= buf@.subrange(pos as int, j as int));
            }
        }
        Ok((line, i + 2))
    } else {
        Err(Error::Incomplete)
    }
}

/// The 64-bit value of an all-digit line; anything else (empty, a non-digit,
/// overflow) is rejected.
pub fn parse_u64(line: &Vec<u8>) -> (r: Option<u64>)
    ensures
        r == spec_dec(line@),
{
    if line.len() == 0 {
        return None;
    }
    let mut val: u64 = 0;
    let mut i: usize = 0;
    while i < line.len()
        invariant
            0 <= i <= line.len(),
            all_digits(line@.take(i as int)),
            val == digits_val(line@.take(i as int)),
        decreases line.len() - i,
    {
        let b = line[i];
        if b < 48 || b > 57 {
            proof {
                assert(!is_digit(line@[i as int]));
            }
            return None;
        }
        let d = (b - 48) as u64;
        proof {
            assert(line@.take(i + 1).drop_last() =~= line@.take(i as int));
            assert(line@.take(i + 1).last() == line@[i as int]);
        }
        if val > (u64::MAX - d) / 10 {
            proof {
                assert(digits_val(line@.take(i + 1)) > u64::MAX) by (nonlinear_arith)
                    requires
                        digits_val(line@.take(i + 1)) == digits_val(line@.take(i as int)) * 10
                            + d,
                        digits_val(line@.take(i as int)) == val,
                        val > (u64::MAX - d) / 10,
                        d <= 9,
                ;
                if all_digits(line@) {
                    lemma_digits_val_prefix_le(line@, i + 1);
                }
            }
            return None;
        }
        val = val * 10 + d;
        i = i + 1;
    }
    proof {
        assert(line@.take(line@.len() as int) =~= line@);
    }
    Some(val)
}

/// The value of a longer digit string is at least the value of any prefix.
proof fn lemma_digits_val_prefix_le(s: Seq<u8>, i: int)
    requires
        0 <= i <= s.len(),
        all_digits(s),
    ensures
        digits_val(s.take(i)) <= digits_val(s),
    decreases s.len() - i,
{
    if i < s.len() {
        assert(s.drop_last().take(i) =~= s.take(i));
        assert(all_digits(s.drop_last())) by {
            assert(forall|j: int| 0 <= j < s.len() - 1 ==> #[trigger] s.drop_last()[j] == s[j]);
        }
        lemma_digits_val_prefix_le(s.drop_last(), i);
        assert(is_digit(s.last()));
        assert(digits_val(s) == digits_val(s.drop_last()) * 10 + (s.last() - 48));
    } else {
        assert(s.take(i) =~= s);
    }
}

/// A decimal header line: the digits up to CR LF, read as a 64-bit value,
/// and the position just past the line.
pub fn get_decimal(buf: &Vec<u8>, pos: usize) -> (r: Result<(u64, usize), Error>)
    ensures
        match r {
            Ok((v, next)) => {
                &&& spec_find_crlf(buf@, pos as int) == Some(next - 2)
                &&& spec_dec(buf@.subrange(pos as int, next - 2)) == Some(v)
                &&& pos + 2 <= next <= buf.len()
            },
            Err(e) => if e is Incomplete {
                spec_find_crlf(buf@, pos as int) is None
            } else {
                match spec_find_crlf(buf@, pos as int) {
                    Some(i) => spec_dec(buf@.subrange(pos as int, i)) is None,
                    None => false,
                }
            },
        },
{
    match get_line(buf, pos) {
        Ok((line, next)) => match parse_u64(&line) {
            Some(v) => Ok((v, next)),
            None => Err(Error::Other(protocol_error_msg())),
        },
        Err(e) => Err(e),
    }
}

impl Frame {
    /// Determines, without building anything, whether a complete frame
    /// occupies the buffer starting at `pos`.
    pub fn check(buf: &Vec<u8>, pos: usize) -> (r: Result<usize, Error>)
        ensures
            match r {
                Ok(end) => spec_check(buf@, pos as int) == CheckResult::Complete(end as int)
                    && pos < end <= buf.len(),
                Err(e) => if e is Incomplete {
                    spec_check(buf@, pos as int) is Incomplete
                } else {
                    spec_check(buf@, pos as int) is ProtocolError
                },
            },
        decreases buf.len() - pos,
    {
        let (tag, p) = match get_u8(buf, pos) {
            Ok(t) => t,
            Err(e) => {
                return Err(e);
            },
        };
        if tag == 43 || tag == 45 {
            // simple string or error: one line
            match get_line(buf, p) {
                Ok((_, next)) => Ok(next),
                Err(e) => Err(e),
            }
        } else if tag == 58 {
            // integer: one decimal line
            match get_decimal(buf, p) {
                Ok((_, next)) => Ok(next),
                Err(e) => Err(e),
            }
        } else if tag == 36 {
            let pk = match peek_u8(buf, p) {
                Ok(b) => b,
                Err(e) => {
                    return Err(e);
                },
            };
            if pk == 45 {
                // a null marker: skip the four bytes of `-1` CR LF
                match skip(buf, p, 4) {
                    Ok(next) => Ok(next),
                    Err(e) => Err(e),
                }
            } else {
                let (len, next) = match get_decimal(buf, p) {
                    Ok(t) => t,
                    Err(e) => {
                        return Err(e);
                    },
                };
                let rem = (buf.len() - next) as u64;
                if rem >= 2 && len <= rem - 2 {
                    proof {
                        assert(len as usize as int == len as int);
                    }
                    Ok(next + (len as usize) + 2)
                } else {
                    Err(Error::Incomplete)
                }
            }
        } else if tag == 42 {
            let (n, start) = match get_decimal(buf, p) {
                Ok(t) => t,
                Err(e) => {
                    return Err(e);
                },
            };
            let mut cur = start;
            let mut k: u64 = 0;
            while k < n
                invariant
                    k <= n,
                    pos < cur <= buf.len(),
                    spec_check(buf@, pos as int) == spec_check_elems(
                        buf@,
                        cur as int,
                        (n - k) as nat,
                    ),
                decreases n - k,
            {
                match Frame::check(buf, cur) {
                    Ok(end) => {
                        cur = end;
                        k = k + 1;
                    },
                    Err(e) => {
                        return Err(e);
                    },
                }
            }
            Ok(cur)
        } else {
            Err(Error::Other(protocol_error_msg()))
        }
    }
}

/// Relies on String::from_utf8: it succeeds exactly on valid UTF-8 input,
/// in which case the string's characters are the decoding of the bytes.
#[verifier::external_body]
pub(crate) fn bytes_to_string(b: Vec<u8>) -> (r: Option<String>)
    ensures
        match r {
            Some(s) => valid_utf8(b@) && s@ == decode_utf8(b@),
            None => !valid_utf8(b@),
        },
{
    String::from_utf8(b).ok()
}

/// The shapes of a sequence of frames.
pub open spec fn seq_frame_views(fs: Seq<Frame>) -> Seq<FrameV> {
    Seq::new(fs.len(), |i: int| if 0 <= i < fs.len() {
        frame_view(fs[i])
    } else {
        FrameV::Null
    })
}

/// Prepends already-parsed element shapes to the outcome of parsing the
/// remaining elements of an array.
pub open spec fn glue_array(vs: Seq<FrameV>, er: ElemsResult) -> ParseResult {
    match er {
        ElemsResult::Parsed(items, e) => ParseResult::Parsed(FrameV::Array(vs + items), e),
        ElemsResult::Incomplete => ParseResult::Incomplete,
        ElemsResult::ProtocolError => ParseResult::ProtocolError,
    }
}

impl Frame {
    /// Materializes the frame starting at `pos`, returning it with the
    /// position just past its last byte.
    pub fn parse(buf: &Vec<u8>, pos: usize) -> (r: Result<(Frame, usize), Error>)
        ensures
            match r {
                Ok((f, end)) => spec_parse(buf@, pos as int) == ParseResult::Parsed(
                    f@,
                    end as int,
                ) && pos < end <= buf.len(),
                Err(e) => if e is Incomplete {
                    spec_parse(buf@, pos as int) is Incomplete
                } else {
                    spec_parse(buf@, pos as int) is ProtocolError
                },
            },
        decreases buf.len() - pos,
    {
        let (tag, p) = match get_u8(buf, pos) {
            Ok(t) => t,
            Err(e) => {
                return Err(e);
            },
        };
        if tag == 43 || tag == 45 {
            let (line, next) = match get_line(buf, p) {
                Ok(t) => t,
                Err(e) => {
                    return Err(e);
                },
            };
            match bytes_to_string(line) {
                Some(s) => if tag == 43 {
                    Ok((Frame::Simple(s), next))
                } else {
                    Ok((Frame::Error(s), next))
                },
                None => Err(Error::Other(protocol_error_msg())),
            }
        } else if tag == 58 {
            match get_decimal(buf, p) {
                Ok((v, next)) => Ok((Frame::Integer(v), next)),
                Err(e) => Err(e),
            }
        } else if tag == 36 {
            let pk = match peek_u8(buf, p) {
                Ok(b) => b,
                Err(e) => {
                    return Err(e);
                },
            };
            if pk == 45 {
                let (line, next) = match get_line(buf, p) {
                    Ok(t) => t,
                    Err(e) => {
                        return Err(e);
                    },
                };
                if line.len() == 2 && line[0] == 45 && line[1] == 49 {
                    proof {
                        assert(line@ =~= seq![45u8, 49u8]);
                    }
                    Ok((Frame::Null, next))
                } else {
                    proof {
                        assert(!(line@ =~= seq![45u8, 49u8]));
                    }
                    Err(Error::Other(protocol_error_msg()))
                }
            } else {
                let (len, next) = match get_decimal(buf, p) {
                    Ok(t) => t,
                    Err(e) => {
                        return Err(e);
                    },
                };
                let rem = (buf.len() - next) as u64;
                if rem >= 2 && len <= rem - 2 {
                    let len_us = len as usize;
                    let mut data: Vec<u8> = Vec::new();
                    let mut j = next;
                    while j < next + len_us
                        invariant
                            next <= j <= next + len_us <= buf.len(),
                            data@ == buf@.subrange(next as int, j as int),
                        decreases next + len_us - j,
                    {
                        data.push(buf[j]);
                        j = j + 1;
                        proof {
                            assert(data@ =~= buf@.subrange(next as int, j as int));
                        }
                    }
                    Ok((Frame::Bulk(data), next + len_us + 2))
                } else {
                    Err(Error::Incomplete)
                }
            }
        } else if tag == 42 {
            let (n, start) = match get_decimal(buf, p) {
                Ok(t) => t,
                Err(e) => {
                    return Err(e);
                },
            };
            let mut acc: Vec<Frame> = Vec::new();
            let mut cur = start;
            let mut k: u64 = 0;
            proof {
                assert(seq_frame_views(acc@) + Seq::<FrameV>::empty() =~= seq_frame_views(
                    acc@,
                ));
            }
            while k < n
                invariant
                    k <= n,
                    pos < cur <= buf.len(),
                    spec_parse(buf@, pos as int) == glue_array(
                        seq_frame_views(acc@),
                        spec_parse_elems(buf@, cur as int, (n - k) as nat),
                    ),
                decreases n - k,
            {
                let ghost old_views = seq_frame_views(acc@);
                let ghost m = (n - k) as nat;
                match Frame::parse(buf, cur) {
                    Ok((f, end)) => {
                        proof {
                            let er = spec_parse_elems(buf@, end as int, (m - 1) as nat);
                            assert(seq_frame_views(acc@.push(f)) =~= old_views + seq![f@]);
                            match er {
                                ElemsResult::Parsed(items, e) => {
                                    assert(old_views + (seq![f@] + items) =~= (old_views
                                        + seq![f@]) + items);
                                },
                                _ => {},
                            }
                        }
                        acc.push(f);
                        cur = end;
                        k = k + 1;
                    },
                    Err(e) => {
                        return Err(e);
                    },
                }
            }
            proof {
                assert(seq_frame_views(acc@) + Seq::<FrameV>::empty() =~= seq_frame_views(
                    acc@,
                ));
                assert(frame_view(Frame::Array(acc)) is Array);
                assert(frame_view(Frame::Array(acc))->Array_0 =~= seq_frame_views(acc@));
            }
            Ok((Frame::Array(acc), cur))
        } else {
            Err(Error::Other(protocol_error_msg()))
        }
    }
}

/// Appends the ASCII decimal digits of `v` to `out`.
pub fn write_decimal(out: &mut Vec<u8>, v: u64)
    ensures
        final(out)@ == old(out)@ + dec_rep(v as nat),
    decreases v,
{
    if v < 10 {
        out.push(48 + v as u8);
        proof {
            assert(out@ =~= old(out)@ + dec_rep(v as nat));
        }
    } else {
        write_decimal(out, v / 10);
        out.push(48 + (v % 10) as u8);
        proof {
            assert(out@ =~= old(out)@ + dec_rep(v as nat));
        }
    }
}

impl Frame {
    /// Appends the wire encoding of this frame to `out`.
    #[verifier::loop_isolation(false)]
    pub fn encode_into(&self, out: &mut Vec<u8>)
        ensures
            final(out)@ == old(out)@ + wire(self@),
        decreases *self,
    {
        match self {
            Frame::Simple(s) => {
                out.push(43);
                out.extend_from_slice(s.as_str().as_bytes());
                out.push(13);
                out.push(10);
                proof {
                    assert(out@ =~= old(out)@ + wire(self@));
                }
            },
            Frame::Error(s) => {
                out.push(45);
                out.extend_from_slice(s.as_str().as_bytes());
                out.push(13);
                out.push(10);
                proof {
                    assert(out@ =~= old(out)@ + wire(self@));
                }
            },
            Frame::Integer(v) => {
                out.push(58);
                write_decimal(out, *v);
                out.push(13);
                out.push(10);
                proof {
                    assert(out@ =~= old(out)@ + wire(self@));
                }
            },
            Frame::Bulk(b) => {
                out.push(36);
                write_decimal(out, b.len() as u64);
                out.push(13);
                out.push(10);
                out.extend_from_slice(b.as_slice());
                out.push(13);
                out.push(10);
                proof {
                    assert(b@.len() as u64 as nat == b@.len());
                    assert(out@ =~= old(out)@ + wire(self@));
                }
            },
            Frame::Null => {
                out.push(36);
                out.push(45);
                out.push(49);
                out.push(13);
                out.push(10);
                proof {
                    assert(out@ =~= old(out)@ + wire(self@));
                }
            },
            Frame::Array(v) => {
                let ghost vs = seq_frame_views(v@);
                out.push(42);
                write_decimal(out, v.len() as u64);
                out.push(13);
                out.push(10);
                let ghost head = out@;
                let mut i: usize = 0;
                proof {
                    assert(wire_elems(vs.take(0)) =~= Seq::<u8>::empty());
                    assert(head + Seq::<u8>::empty() =~= head);
                }
                while i < v.len()
                    invariant
                        i <= v.len(),
                        vs == seq_frame_views(v@),
                        out@ == head + wire_elems(vs.take(i as int)),
                    decreases v.len() - i,
                {
                    let ghost pre = out@;
                    proof {
                        assert((*self) is Array);
                        assert((*self)->Array_0 == *v);
                        assert(decreases_to!(*self => (*self)->Array_0));
                        assert(decreases_to!(*v => v@));
                        assert(decreases_to!(v@ => v@[i as int]));
                    }
                    v[i].encode_into(out);
                    i = i + 1;
                    proof {
                        assert(vs.take(i as int) =~= vs.take(i - 1).push(vs[i - 1]));
                        lemma_wire_elems_push(vs.take(i - 1), vs[i - 1]);
                        assert(out@ =~= head + wire_elems(vs.take(i as int)));
                    }
                }
                proof {
                    assert(vs.take(v@.len() as int) =~= vs);
                    assert(v@.len() as u64 as nat == vs.len());
                    assert(self@ is Array && self@->Array_0 =~= vs);
                    assert(out@ =~= old(out)@ + wire(self@));
                }
            },
        }
    }

    /// The wire encoding of this frame as a fresh byte vector.
    pub fn encode(&self) -> (r: Vec<u8>)
        ensures
            r@ == wire(self@),
    {
        let mut out: Vec<u8> = Vec::new();
        self.encode_into(&mut out);
        proof {
            assert(Seq::<u8>::empty() + wire(self@) =~= wire(self@));
        }
        out
    }
}

/// Appending one more element extends the encoding of a run of elements.
pub proof fn lemma_wire_elems_push(items: Seq<FrameV>, x: FrameV)
    ensures
        wire_elems(items.push(x)) == wire_elems(items) + wire(x),
    decreases items.len(),
{
    let ip = items.push(x);
    if items.len() == 0 {
        assert(ip[0] == x);
        assert(ip.subrange(1, ip.len() as int) =~= Seq::<FrameV>::empty());
        assert(wire_elems(ip) == wire(x) + wire_elems(Seq::<FrameV>::empty()));
        assert(wire(x) + Seq::<u8>::empty() =~= Seq::<u8>::empty() + wire(x));
    } else {
        let t = items.subrange(1, items.len() as int);
        assert(ip.subrange(1, ip.len() as int) =~= t.push(x));
        assert(ip[0] == items[0]);
        lemma_wire_elems_push(t, x);
        assert(wire_elems(ip) == wire(items[0]) + wire_elems(t.push(x)));
        assert(wire_elems(items) == wire(items[0]) + wire_elems(t));
        assert(wire(items[0]) + (wire_elems(t) + wire(x)) =~= (wire(items[0]) + wire_elems(t))
            + wire(x));
    }
}

/// Text that may stand on a single protocol line: free of CR and LF, so the
/// line's terminator is the first CR LF pair on the wire.
pub open spec fn line_ok(s: Seq<char>) -> bool {
    forall|i: int| 0 <= i < s.len() ==> #[trigger] s[i] != '\r' && s[i] != '\n'
}

/// Bytes free of CR and LF.
pub open spec fn bytes_line_ok(b: Seq<u8>) -> bool {
    forall|i: int| 0 <= i < b.len() ==> #[trigger] b[i] != 13 && b[i] != 10
}

/// A frame shape that the codec can reproduce exactly: line text carries no
/// line terminators, and lengths fit the 64-bit headers.
pub open spec fn wf(f: FrameV) -> bool
    decreases f,
{
    match f {
        FrameV::Simple(s) => line_ok(s),
        FrameV::Error(s) => line_ok(s),
        FrameV::Integer(_) => true,
        FrameV::Bulk(b) => b.len() <= u64::MAX,
        FrameV::Null => true,
        FrameV::Array(items) => items.len() <= u64::MAX && forall|i: int|
            0 <= i < items.len() ==> wf(#[trigger] items[i]),
    }
}

proof fn lemma_encode_scalar_line_ok(c: char)
    requires
        c != '\r',
        c != '\n',
    ensures
        bytes_line_ok(vstd::utf8::encode_scalar(c as u32)),
{
    vstd::utf8::char_is_scalar(c);
    vstd::utf8::char_u32_cast(c, c as u32);
    let u = c as u32;
    assert(('\r' as u32) == 13);
    assert(('\n' as u32) == 10);
    vstd::utf8::char_u32_cast('\r', 13);
    vstd::utf8::char_u32_cast('\n', 10);
    assert(u != 13 && u != 10);
    if vstd::utf8::has_width_1_encoding(u) {
        assert(vstd::utf8::leading_byte_width_1(u) == (u & 0x7F) as u8);
        assert(u <= 0x7F && u != 13 && u != 10 ==> (u & 0x7F) as u8 != 13 && (u & 0x7F) as u8
            != 10) by (bit_vector);
    } else {
        assert(forall|x: u8|
            (0xC0u8 | x) >= 0x80 && (0xE0u8 | x) >= 0x80 && (0xF0u8 | x) >= 0x80 && (0x80u8
                | x) >= 0x80) by (bit_vector);
    }
}

proof fn lemma_encode_utf8_line_ok(s: Seq<char>)
    requires
        line_ok(s),
    ensures
        bytes_line_ok(encode_utf8(s)),
    decreases s.len(),
{
    if s.len() > 0 {
        lemma_encode_scalar_line_ok(s[0]);
        assert(line_ok(s.drop_first())) by {
            assert(forall|i: int|
                0 <= i < s.len() - 1 ==> #[trigger] s.drop_first()[i] == s[i + 1]);
        }
        lemma_encode_utf8_line_ok(s.drop_first());
        let a = vstd::utf8::encode_scalar(s[0] as u32);
        let b = encode_utf8(s.drop_first());
        assert forall|i: int| 0 <= i < (a + b).len() implies #[trigger] (a + b)[i] != 13 && (a
            + b)[i] != 10 by {
            if i < a.len() {
                assert((a + b)[i] == a[i]);
            } else {
                assert((a + b)[i] == b[i - a.len()]);
            }
        }
    }
}

/// The decimal digits of `v` denote `v`, and are digits.
proof fn lemma_dec_rep(v: nat)
    ensures
        dec_rep(v).len() >= 1,
        all_digits(dec_rep(v)),
        digits_val(dec_rep(v)) == v,
        bytes_line_ok(dec_rep(v)),
    decreases v,
{
    if v < 10 {
        let d = dec_rep(v);
        assert(d.len() == 1);
        assert(d.drop_last() =~= Seq::<u8>::empty());
        assert(digits_val(d.drop_last()) == 0);
        assert(d.last() == (48 + v) as u8);
        assert((48 + v) as u8 == 48 + v);
        assert(digits_val(d) == (digits_val(d.drop_last()) * 10 + (d.last() - 48)) as nat);
        assert(digits_val(d) == v);
    } else {
        lemma_dec_rep(v / 10);
        let h = dec_rep(v / 10);
        let d = dec_rep(v);
        assert(d == h + seq![(48 + v % 10) as u8]);
        assert(d.drop_last() =~= h);
        assert(d.last() == 48 + v % 10);
        assert(digits_val(d) == digits_val(h) * 10 + (v % 10));
        assert((v / 10) * 10 + v % 10 == v);
        assert forall|i: int| 0 <= i < d.len() implies is_digit(#[trigger] d[i]) by {
            if i < h.len() {
                assert(d[i] == h[i]);
            } else {
                assert(d[i] == 48 + v % 10);
            }
        }
    }
    assert forall|i: int| 0 <= i < dec_rep(v).len() implies #[trigger] dec_rep(v)[i] != 13
        && dec_rep(v)[i] != 10 by {
        assert(is_digit(dec_rep(v)[i]));
    }
}

/// The first CR LF pair after a CR-free stretch is found exactly at its end.
proof fn lemma_find_crlf_at(s: Seq<u8>, pos: int, k: int)
    requires
        0 <= pos <= k,
        k + 2 <= s.len(),
        s[k] == 13,
        s[k + 1] == 10,
        forall|j: int| pos <= j < k ==> s[j] != 13,
    ensures
        spec_find_crlf(s, pos) == Some(k),
    decreases k - pos,
{
    if pos < k {
        lemma_find_crlf_at(s, pos + 1, k);
    }
}

/// A window without any CR LF pair has no line in it.
proof fn lemma_find_crlf_none(s: Seq<u8>, pos: int)
    requires
        forall|j: int| pos <= j && j + 2 <= s.len() ==> !(s[j] == 13 && #[trigger] s[j + 1]
            == 10),
    ensures
        spec_find_crlf(s, pos) is None,
    decreases s.len() - pos,
{
    if pos >= 0 && pos + 2 <= s.len() {
        assert(!(s[pos] == 13 && s[pos + 1] == 10));
        lemma_find_crlf_none(s, pos + 1);
    }
}

/// Every frame occupies at least three bytes on the wire.
proof fn lemma_wire_len(f: FrameV)
    ensures
        wire(f).len() >= 3,
{
    match f {
        FrameV::Integer(v) => {
            lemma_dec_rep(v as nat);
        },
        FrameV::Bulk(b) => {
            lemma_dec_rep(b.len());
        },
        FrameV::Array(items) => {
            lemma_dec_rep(items.len());
        },
        _ => {},
    }
}

/// Parsing an encoded frame embedded in a larger buffer yields exactly that
/// frame, consuming exactly its encoding.
pub proof fn lemma_parse_wire(s: Seq<u8>, pos: int, f: FrameV)
    requires
        wf(f),
        0 <= pos,
        pos + wire(f).len() <= s.len(),
        s.subrange(pos, pos + wire(f).len() as int) == wire(f),
    ensures
        spec_parse(s, pos) == ParseResult::Parsed(f, pos + wire(f).len()),
    decreases f,
{
    let w = wire(f);
    assert forall|j: int| 0 <= j < w.len() implies s[pos + j] == w[j] by {
        assert(s.subrange(pos, pos + w.len() as int)[j] == s[pos + j]);
    }
    match f {
        FrameV::Simple(text) => {
            let e = encode_utf8(text);
            lemma_encode_utf8_line_ok(text);
            vstd::utf8::encode_utf8_valid_utf8(text);
            vstd::utf8::encode_utf8_decode_utf8(text);
            assert(w.len() == e.len() + 3);
            assert(w[0] == 43);
            let k = pos + 1 + e.len();
            assert forall|j: int| pos + 1 <= j < k implies s[j] != 13 by {
                assert(w[j - pos] == e[j - pos - 1]);
            }
            assert(w[1 + e.len() as int] == 13);
            assert(w[2 + e.len() as int] == 10);
            lemma_find_crlf_at(s, pos + 1, k);
            let line = s.subrange(pos + 1, k);
            assert forall|t: int| 0 <= t < e.len() implies line[t] == e[t] by {
                assert(line[t] == s[pos + 1 + t]);
                assert(s[pos + (1 + t)] == w[1 + t]);
                assert(w[1 + t] == e[t]);
            }
            assert(line =~= e);
            assert(valid_utf8(line));
            assert(decode_utf8(line) == text);
        },
        FrameV::Error(text) => {
            let e = encode_utf8(text);
            lemma_encode_utf8_line_ok(text);
            vstd::utf8::encode_utf8_valid_utf8(text);
            vstd::utf8::encode_utf8_decode_utf8(text);
            assert(w.len() == e.len() + 3);
            assert(w[0] == 45);
            let k = pos + 1 + e.len();
            assert forall|j: int| pos + 1 <= j < k implies s[j] != 13 by {
                assert(w[j - pos] == e[j - pos - 1]);
            }
            assert(w[1 + e.len() as int] == 13);
            assert(w[2 + e.len() as int] == 10);
            lemma_find_crlf_at(s, pos + 1, k);
            let line = s.subrange(pos + 1, k);
            assert forall|t: int| 0 <= t < e.len() implies line[t] == e[t] by {
                assert(line[t] == s[pos + 1 + t]);
                assert(s[pos + (1 + t)] == w[1 + t]);
                assert(w[1 + t] == e[t]);
            }
            assert(line =~= e);
            assert(valid_utf8(line));
            assert(decode_utf8(line) == text);
        },
        FrameV::Integer(v) => {
            let d = dec_rep(v as nat);
            lemma_dec_rep(v as nat);
            assert(w.len() == d.len() + 3);
            assert(w[0] == 58);
            let k = pos + 1 + d.len();
            assert forall|j: int| pos + 1 <= j < k implies s[j] != 13 by {
                assert(w[j - pos] == d[j - pos - 1]);
            }
            assert(w[1 + d.len() as int] == 13);
            assert(w[2 + d.len() as int] == 10);
            lemma_find_crlf_at(s, pos + 1, k);
            let line = s.subrange(pos + 1, k);
            assert forall|t: int| 0 <= t < d.len() implies line[t] == d[t] by {
                assert(line[t] == s[pos + 1 + t]);
                assert(s[pos + (1 + t)] == w[1 + t]);
                assert(w[1 + t] == d[t]);
            }
            assert(line =~= d);
            assert(spec_dec(line) == Some(v));
        },
        FrameV::Null => {
            assert(w.len() == 5);
            assert(w[0] == 36);
            assert(w[1] == 45);
            assert(w[2] == 49);
            assert(w[3] == 13);
            assert(w[4] == 10);
            lemma_find_crlf_at(s, pos + 1, pos + 3);
            let line = s.subrange(pos + 1, pos + 3);
            assert(line[0] == s[pos + 1] && line[1] == s[pos + 2]);
            assert(line =~= seq![45u8, 49u8]);
        },
        FrameV::Bulk(b) => {
            let d = dec_rep(b.len());
            lemma_dec_rep(b.len());
            assert(w.len() == 1 + d.len() + 2 + b.len() + 2);
            assert(w[0] == 36);
            assert forall|t: int| 0 <= t < d.len() implies w[1 + t] == d[t] by {}
            assert(is_digit(d[0]));
            assert(s[pos + 1] != 45);
            let k = pos + 1 + d.len();
            assert forall|j: int| pos + 1 <= j < k implies s[j] != 13 by {
                assert(w[j - pos] == d[j - pos - 1]);
            }
            assert(w[1 + d.len() as int] == 13);
            assert(w[2 + d.len() as int] == 10);
            lemma_find_crlf_at(s, pos + 1, k);
            let line = s.subrange(pos + 1, k);
            assert forall|t: int| 0 <= t < d.len() implies line[t] == d[t] by {
                assert(line[t] == s[pos + 1 + t]);
                assert(s[pos + (1 + t)] == w[1 + t]);
                assert(w[1 + t] == d[t]);
            }
            assert(line =~= d);
            let n = b.len() as u64;
            assert(spec_dec(line) == Some(n));
            assert(k + 2 + n + 2 == pos + w.len());
            assert forall|t: int| 0 <= t < b.len() implies s[k + 2 + t] == b[t] by {
                assert(w[1 + d.len() as int + 2 + t] == b[t]);
            }
            assert forall|t: int| 0 <= t < b.len() implies s.subrange(k + 2, k + 2 + n as int)[t]
                == b[t] by {
                assert(s.subrange(k + 2, k + 2 + n as int)[t] == s[k + 2 + t]);
                assert(s[pos + (1 + d.len() as int + 2 + t)] == w[1 + d.len() as int + 2 + t]);
            }
            assert(s.subrange(k + 2, k + 2 + n as int) =~= b);
        },
        FrameV::Array(items) => {
            let d = dec_rep(items.len());
            lemma_dec_rep(items.len());
            let wel = wire_elems(items);
            assert(w.len() == 1 + d.len() + 2 + wel.len());
            assert(w[0] == 42);
            let k = pos + 1 + d.len();
            assert forall|j: int| pos + 1 <= j < k implies s[j] != 13 by {
                assert(w[j - pos] == d[j - pos - 1]);
            }
            assert(w[1 + d.len() as int] == 13);
            assert(w[2 + d.len() as int] == 10);
            lemma_find_crlf_at(s, pos + 1, k);
            let line = s.subrange(pos + 1, k);
            assert forall|t: int| 0 <= t < d.len() implies line[t] == d[t] by {
                assert(line[t] == s[pos + 1 + t]);
                assert(s[pos + (1 + t)] == w[1 + t]);
                assert(w[1 + t] == d[t]);
            }
            assert(line =~= d);
            let n = items.len() as u64;
            assert(spec_dec(line) == Some(n));
            assert forall|t: int| 0 <= t < wel.len() implies s[k + 2 + t] == wel[t] by {
                assert(w[1 + d.len() as int + 2 + t] == wel[t]);
            }
            assert(s.subrange(k + 2, k + 2 + wel.len() as int) =~= wel);
            lemma_parse_wire_elems(s, k + 2, items);
            assert(n as nat == items.len());
        },
    }
}

/// Parsing the encodings of a run of frames laid end to end yields exactly
/// those frames.
pub proof fn lemma_parse_wire_elems(s: Seq<u8>, pos: int, items: Seq<FrameV>)
    requires
        forall|i: int| 0 <= i < items.len() ==> wf(#[trigger] items[i]),
        0 <= pos,
        pos + wire_elems(items).len() <= s.len(),
        s.subrange(pos, pos + wire_elems(items).len() as int) == wire_elems(items),
    ensures
        spec_parse_elems(s, pos, items.len()) == ElemsResult::Parsed(
            items,
            pos + wire_elems(items).len(),
        ),
    decreases items,
{
    let wel = wire_elems(items);
    assert forall|j: int| 0 <= j < wel.len() implies s[pos + j] == wel[j] by {
        assert(s.subrange(pos, pos + wel.len() as int)[j] == s[pos + j]);
    }
    if items.len() == 0 {
        assert(spec_parse_elems(s, pos, 0) == ElemsResult::Parsed(Seq::<FrameV>::empty(), pos));
        assert(Seq::<FrameV>::empty() =~= items);
    } else {
        let w0 = wire(items[0]);
        let rest = items.subrange(1, items.len() as int);
        let wr = wire_elems(rest);
        assert(wel == w0 + wr);
        lemma_wire_len(items[0]);
        assert(s.subrange(pos, pos + w0.len() as int) =~= w0) by {
            assert forall|t: int| 0 <= t < w0.len() implies s[pos + t] == w0[t] by {
                assert(wel[t] == w0[t]);
            }
        }
        lemma_parse_wire(s, pos, items[0]);
        let p2 = pos + w0.len();
        assert(s.subrange(p2, p2 + wr.len() as int) =~= wr) by {
            assert forall|t: int| 0 <= t < wr.len() implies s[p2 + t] == wr[t] by {
                assert(wel[w0.len() as int + t] == wr[t]);
            }
        }
        assert(forall|i: int| 0 <= i < rest.len() ==> wf(#[trigger] rest[i]));
        lemma_parse_wire_elems(s, p2, rest);
        assert(seq![items[0]] + rest =~= items);
        assert((items.len() - 1) as nat == rest.len());
    }
}

/// Encode/parse round-trip: the wire encoding of any well-formed frame
/// parses back to exactly that frame, consuming the whole encoding.
pub proof fn lemma_round_trip(f: FrameV)
    requires
        wf(f),
    ensures
        spec_parse(wire(f), 0) == ParseResult::Parsed(f, wire(f).len() as int),
    decreases f,
{
    let w = wire(f);
    assert(w.subrange(0, w.len() as int) =~= w);
    lemma_parse_wire(w, 0, f);
}

/// Scanning an encoded frame embedded in a larger buffer reports completion
/// exactly at the end of the encoding.
pub proof fn lemma_check_wire(s: Seq<u8>, pos: int, f: FrameV)
    requires
        wf(f),
        0 <= pos,
        pos + wire(f).len() <= s.len(),
        s.subrange(pos, pos + wire(f).len() as int) == wire(f),
    ensures
        spec_check(s, pos) == CheckResult::Complete(pos + wire(f).len()),
    decreases f,
{
    let w = wire(f);
    assert forall|j: int| 0 <= j < w.len() implies s[pos + j] == w[j] by {
        assert(s.subrange(pos, pos + w.len() as int)[j] == s[pos + j]);
    }
    match f {
        FrameV::Simple(text) => {
            let e = encode_utf8(text);
            lemma_encode_utf8_line_ok(text);
            assert(w[0] == 43);
            let k = pos + 1 + e.len();
            assert forall|j: int| pos + 1 <= j < k implies s[j] != 13 by {
                assert(w[j - pos] == e[j - pos - 1]);
            }
            assert(w[1 + e.len() as int] == 13);
            assert(w[2 + e.len() as int] == 10);
            lemma_find_crlf_at(s, pos + 1, k);
        },
        FrameV::Error(text) => {
            let e = encode_utf8(text);
            lemma_encode_utf8_line_ok(text);
            assert(w[0] == 45);
            let k = pos + 1 + e.len();
            assert forall|j: int| pos + 1 <= j < k implies s[j] != 13 by {
                assert(w[j - pos] == e[j - pos - 1]);
            }
            assert(w[1 + e.len() as int] == 13);
            assert(w[2 + e.len() as int] == 10);
            lemma_find_crlf_at(s, pos + 1, k);
        },
        FrameV::Integer(v) => {
            let d = dec_rep(v as nat);
            lemma_dec_rep(v as nat);
            assert(w[0] == 58);
            let k = pos + 1 + d.len();
            assert forall|j: int| pos + 1 <= j < k implies s[j] != 13 by {
                assert(w[j - pos] == d[j - pos - 1]);
            }
            assert(w[1 + d.len() as int] == 13);
            assert(w[2 + d.len() as int] == 10);
            lemma_find_crlf_at(s, pos + 1, k);
            let line = s.subrange(pos + 1, k);
            assert forall|t: int| 0 <= t < d.len() implies line[t] == d[t] by {
                assert(line[t] == s[pos + 1 + t]);
                assert(s[pos + (1 + t)] == w[1 + t]);
                assert(w[1 + t] == d[t]);
            }
            assert(line =~= d);
            assert(spec_dec(line) == Some(v));
        },
        FrameV::Null => {
            assert(w[0] == 36);
            assert(w[1] == 45);
            assert(s.len() - (pos + 1) >= 4);
        },
        FrameV::Bulk(b) => {
            let d = dec_rep(b.len());
            lemma_dec_rep(b.len());
            assert(w[0] == 36);
            assert(is_digit(d[0]));
            assert(w[1] == d[0]);
            assert(s[pos + 1] != 45);
            let k = pos + 1 + d.len();
            assert forall|j: int| pos + 1 <= j < k implies s[j] != 13 by {
                assert(w[j - pos] == d[j - pos - 1]);
            }
            assert(w[1 + d.len() as int] == 13);
            assert(w[2 + d.len() as int] == 10);
            lemma_find_crlf_at(s, pos + 1, k);
            let line = s.subrange(pos + 1, k);
            assert forall|t: int| 0 <= t < d.len() implies line[t] == d[t] by {
                assert(line[t] == s[pos + 1 + t]);
                assert(s[pos + (1 + t)] == w[1 + t]);
                assert(w[1 + t] == d[t]);
            }
            assert(line =~= d);
            let n = b.len() as u64;
            assert(spec_dec(line) == Some(n));
            assert(k + 2 + n + 2 == pos + w.len());
        },
        FrameV::Array(items) => {
            let d = dec_rep(items.len());
            lemma_dec_rep(items.len());
            let wel = wire_elems(items);
            assert(w[0] == 42);
            let k = pos + 1 + d.len();
            assert forall|j: int| pos + 1 <= j < k implies s[j] != 13 by {
                assert(w[j - pos] == d[j - pos - 1]);
            }
            assert(w[1 + d.len() as int] == 13);
            assert(w[2 + d.len() as int] == 10);
            lemma_find_crlf_at(s, pos + 1, k);
            let line = s.subrange(pos + 1, k);
            assert forall|t: int| 0 <= t < d.len() implies line[t] == d[t] by {
                assert(line[t] == s[pos + 1 + t]);
                assert(s[pos + (1 + t)] == w[1 + t]);
                assert(w[1 + t] == d[t]);
            }
            assert(line =~= d);
            let n = items.len() as u64;
            assert(spec_dec(line) == Some(n));
            assert forall|t: int| 0 <= t < wel.len() implies s[k + 2 + t] == wel[t] by {
                assert(s[pos + (1 + d.len() as int + 2 + t)] == w[1 + d.len() as int + 2 + t]);
                assert(w[1 + d.len() as int + 2 + t] == wel[t]);
            }
            assert(s.subrange(k + 2, k + 2 + wel.len() as int) =~= wel);
            lemma_check_wire_elems(s, k + 2, items);
            assert(n as nat == items.len());
        },
    }
}

/// Scanning the encodings of a run of frames laid end to end reports
/// completion exactly at their joint end.
pub proof fn lemma_check_wire_elems(s: Seq<u8>, pos: int, items: Seq<FrameV>)
    requires
        forall|i: int| 0 <= i < items.len() ==> wf(#[trigger] items[i]),
        0 <= pos,
        pos + wire_elems(items).len() <= s.len(),
        s.subrange(pos, pos + wire_elems(items).len() as int) == wire_elems(items),
    ensures
        spec_check_elems(s, pos, items.len()) == CheckResult::Complete(
            pos + wire_elems(items).len(),
        ),
    decreases items,
{
    let wel = wire_elems(items);
    assert forall|j: int| 0 <= j < wel.len() implies s[pos + j] == wel[j] by {
        assert(s.subrange(pos, pos + wel.len() as int)[j] == s[pos + j]);
    }
    if items.len() == 0 {
    } else {
        let w0 = wire(items[0]);
        let rest = items.subrange(1, items.len() as int);
        let wr = wire_elems(rest);
        assert(wel == w0 + wr);
        lemma_wire_len(items[0]);
        assert(s.subrange(pos, pos + w0.len() as int) =~= w0) by {
            assert forall|t: int| 0 <= t < w0.len() implies s.subrange(
                pos,
                pos + w0.len() as int,
            )[t] == w0[t] by {
                assert(s.subrange(pos, pos + w0.len() as int)[t] == s[pos + t]);
                assert(wel[t] == w0[t]);
            }
        }
        lemma_check_wire(s, pos, items[0]);
        let p2 = pos + w0.len();
        assert(s.subrange(p2, p2 + wr.len() as int) =~= wr) by {
            assert forall|t: int| 0 <= t < wr.len() implies s.subrange(
                p2,
                p2 + wr.len() as int,
            )[t] == wr[t] by {
                assert(s.subrange(p2, p2 + wr.len() as int)[t] == s[p2 + t]);
                assert(s[pos + (w0.len() as int + t)] == wel[w0.len() as int + t]);
                assert(wel[w0.len() as int + t] == wr[t]);
            }
        }
        assert(forall|i: int| 0 <= i < rest.len() ==> wf(#[trigger] rest[i]));
        lemma_check_wire_elems(s, p2, rest);
        assert((items.len() - 1) as nat == rest.len());
    }
}

/// A buffer that ends inside an encoded frame is reported incomplete: never
/// a false success, never a protocol error.
pub proof fn lemma_check_prefix(s: Seq<u8>, pos: int, f: FrameV)
    requires
        wf(f),
        0 <= pos <= s.len(),
        s.len() - pos < wire(f).len(),
        s.subrange(pos, s.len() as int) == wire(f).take(s.len() - pos),
    ensures
        spec_check(s, pos) is Incomplete,
    decreases f,
{
    let w = wire(f);
    let m = s.len() - pos;
    assert forall|j: int| 0 <= j < m implies s[pos + j] == w[j] by {
        assert(s.subrange(pos, s.len() as int)[j] == s[pos + j]);
        assert(w.take(m)[j] == w[j]);
    }
    if m == 0 {
    } else {
        match f {
            FrameV::Simple(text) => {
                let e = encode_utf8(text);
                lemma_encode_utf8_line_ok(text);
                assert(s[pos] == 43) by {
                    assert(w[0] == 43);
                }
                assert(m <= e.len() + 2);
                assert forall|j: int| pos + 1 <= j && j + 2 <= s.len() implies !(s[j] == 13
                    && #[trigger] s[j + 1] == 10) by {
                    assert(s[j] == w[j - pos]);
                    assert(w[j - pos] == e[j - pos - 1]);
                }
                lemma_find_crlf_none(s, pos + 1);
            },
            FrameV::Error(text) => {
                let e = encode_utf8(text);
                lemma_encode_utf8_line_ok(text);
                assert(s[pos] == 45) by {
                    assert(w[0] == 45);
                }
                assert(m <= e.len() + 2);
                assert forall|j: int| pos + 1 <= j && j + 2 <= s.len() implies !(s[j] == 13
                    && #[trigger] s[j + 1] == 10) by {
                    assert(s[j] == w[j - pos]);
                    assert(w[j - pos] == e[j - pos - 1]);
                }
                lemma_find_crlf_none(s, pos + 1);
            },
            FrameV::Integer(v) => {
                let d = dec_rep(v as nat);
                lemma_dec_rep(v as nat);
                assert(s[pos] == 58) by {
                    assert(w[0] == 58);
                }
                assert(m <= d.len() + 2);
                assert forall|j: int| pos + 1 <= j && j + 2 <= s.len() implies !(s[j] == 13
                    && #[trigger] s[j + 1] == 10) by {
                    assert(s[j] == w[j - pos]);
                    assert(w[j - pos] == d[j - pos - 1]);
                }
                lemma_find_crlf_none(s, pos + 1);
            },
            FrameV::Null => {
                assert(s[pos] == 36) by {
                    assert(w[0] == 36);
                }
                if m >= 2 {
                    assert(s[pos + 1] == 45) by {
                        assert(w[1] == 45);
                    }
                    assert(s.len() - (pos + 1) < 4);
                }
            },
            FrameV::Bulk(b) => {
                let d = dec_rep(b.len());
                lemma_dec_rep(b.len());
                assert(s[pos] == 36) by {
                    assert(w[0] == 36);
                }
                if m >= 2 {
                    assert(s[pos + 1] == d[0] && is_digit(d[0])) by {
                        assert(w[1] == d[0]);
                    }
                    if m <= d.len() + 2 {
                        assert forall|j: int| pos + 1 <= j && j + 2 <= s.len() implies !(s[j]
                            == 13 && #[trigger] s[j + 1] == 10) by {
                            assert(s[j] == w[j - pos]);
                            assert(w[j - pos] == d[j - pos - 1]);
                        }
                        lemma_find_crlf_none(s, pos + 1);
                    } else {
                        let k = pos + 1 + d.len();
                        assert forall|j: int| pos + 1 <= j < k implies s[j] != 13 by {
                            assert(s[j] == w[j - pos]);
                            assert(w[j - pos] == d[j - pos - 1]);
                        }
                        assert(s[k] == 13 && s[k + 1] == 10) by {
                            assert(w[1 + d.len() as int] == 13);
                            assert(w[2 + d.len() as int] == 10);
                        }
                        lemma_find_crlf_at(s, pos + 1, k);
                        let line = s.subrange(pos + 1, k);
                        assert forall|t: int| 0 <= t < d.len() implies line[t] == d[t] by {
                            assert(line[t] == s[pos + 1 + t]);
                            assert(s[pos + (1 + t)] == w[1 + t]);
                            assert(w[1 + t] == d[t]);
                        }
                        assert(line =~= d);
                        let n = b.len() as u64;
                        assert(spec_dec(line) == Some(n));
                        assert(k + 2 + n + 2 == pos + w.len());
                        assert(k + 2 + n + 2 > s.len());
                    }
                }
            },
            FrameV::Array(items) => {
                let d = dec_rep(items.len());
                lemma_dec_rep(items.len());
                let wel = wire_elems(items);
                assert(s[pos] == 42) by {
                    assert(w[0] == 42);
                }
                if m >= 2 {
                    if m <= d.len() + 2 {
                        assert forall|j: int| pos + 1 <= j && j + 2 <= s.len() implies !(s[j]
                            == 13 && #[trigger] s[j + 1] == 10) by {
                            assert(s[j] == w[j - pos]);
                            assert(w[j - pos] == d[j - pos - 1]);
                        }
                        lemma_find_crlf_none(s, pos + 1);
                    } else {
                        let k = pos + 1 + d.len();
                        assert forall|j: int| pos + 1 <= j < k implies s[j] != 13 by {
                            assert(s[j] == w[j - pos]);
                            assert(w[j - pos] == d[j - pos - 1]);
                        }
                        assert(s[k] == 13 && s[k + 1] == 10) by {
                            assert(w[1 + d.len() as int] == 13);
                            assert(w[2 + d.len() as int] == 10);
                        }
                        lemma_find_crlf_at(s, pos + 1, k);
                        let line = s.subrange(pos + 1, k);
                        assert forall|t: int| 0 <= t < d.len() implies line[t] == d[t] by {
                            assert(line[t] == s[pos + 1 + t]);
                            assert(s[pos + (1 + t)] == w[1 + t]);
                            assert(w[1 + t] == d[t]);
                        }
                        assert(line =~= d);
                        let n = items.len() as u64;
                        assert(spec_dec(line) == Some(n));
                        assert(s.len() - (k + 2) < wel.len());
                        assert forall|t: int| 0 <= t < s.len() - (k + 2) implies #[trigger] s.subrange(
                            k + 2,
                            s.len() as int,
                        )[t] == wel.take(s.len() - (k + 2))[t] by {
                            assert(s.subrange(k + 2, s.len() as int)[t] == s[k + 2 + t]);
                            assert(s[pos + (1 + d.len() as int + 2 + t)] == w[1
                                + d.len() as int + 2 + t]);
                            assert(w[1 + d.len() as int + 2 + t] == wel[t]);
                        }
                        assert(s.subrange(k + 2, s.len() as int) =~= wel.take(
                            s.len() - (k + 2),
                        ));
                        lemma_check_elems_prefix(s, k + 2, items);
                        assert(n as nat == items.len());
                    }
                }
            },
        }
    }
}

/// A buffer that ends inside a run of encoded frames is reported incomplete.
pub proof fn lemma_check_elems_prefix(s: Seq<u8>, pos: int, items: Seq<FrameV>)
    requires
        forall|i: int| 0 <= i < items.len() ==> wf(#[trigger] items[i]),
        0 <= pos <= s.len(),
        s.len() - pos < wire_elems(items).len(),
        s.subrange(pos, s.len() as int) == wire_elems(items).take(s.len() - pos),
    ensures
        spec_check_elems(s, pos, items.len()) is Incomplete,
    decreases items,
{
    let wel = wire_elems(items);
    let m = s.len() - pos;
    assert(items.len() > 0);
    assert forall|j: int| 0 <= j < m implies s[pos + j] == wel[j] by {
        assert(s.subrange(pos, s.len() as int)[j] == s[pos + j]);
        assert(wel.take(m)[j] == wel[j]);
    }
    let w0 = wire(items[0]);
    let rest = items.subrange(1, items.len() as int);
    let wr = wire_elems(rest);
    assert(wel == w0 + wr);
    lemma_wire_len(items[0]);
    if m < w0.len() {
        assert(s.subrange(pos, s.len() as int) =~= w0.take(m)) by {
            assert forall|t: int| 0 <= t < m implies s.subrange(pos, s.len() as int)[t]
                == w0.take(m)[t] by {
                assert(s.subrange(pos, s.len() as int)[t] == s[pos + t]);
                assert(wel[t] == w0[t]);
            }
        }
        lemma_check_prefix(s, pos, items[0]);
    } else {
        assert(s.subrange(pos, pos + w0.len() as int) =~= w0) by {
            assert forall|t: int| 0 <= t < w0.len() implies s.subrange(
                pos,
                pos + w0.len() as int,
            )[t] == w0[t] by {
                assert(s.subrange(pos, pos + w0.len() as int)[t] == s[pos + t]);
                assert(wel[t] == w0[t]);
            }
        }
        lemma_check_wire(s, pos, items[0]);
        let p2 = pos + w0.len();
        assert(s.len() - p2 < wr.len());
        assert(s.subrange(p2, s.len() as int) =~= wr.take(s.len() - p2)) by {
            assert forall|t: int| 0 <= t < s.len() - p2 implies s.subrange(
                p2,
                s.len() as int,
            )[t] == wr.take(s.len() - p2)[t] by {
                assert(s.subrange(p2, s.len() as int)[t] == s[p2 + t]);
                assert(s[pos + (w0.len() as int + t)] == wel[w0.len() as int + t]);
                assert(wel[w0.len() as int + t] == wr[t]);
            }
        }
        assert(forall|i: int| 0 <= i < rest.len() ==> wf(#[trigger] rest[i]));
        lemma_check_elems_prefix(s, p2, rest);
        assert((items.len() - 1) as nat == rest.len());
    }
}

/// The whole encoding of a well-formed frame scans as complete.
pub proof fn lemma_check_round_trip(f: FrameV)
    requires
        wf(f),
    ensures
        spec_check(wire(f), 0) == CheckResult::Complete(wire(f).len() as int),
{
    let w = wire(f);
    assert(w.subrange(0, w.len() as int) =~= w);
    lemma_check_wire(w, 0, f);
}

/// Incomplete detection: every strict prefix of the encoding of a
/// well-formed frame is reported incomplete, never as a success and never
/// as a protocol error, both when scanned and when parsed.
pub proof fn lemma_strict_prefix_incomplete(f: FrameV, k: int)
    requires
        wf(f),
        0 <= k < wire(f).len(),
    ensures
        spec_check(wire(f).take(k), 0) is Incomplete,
        spec_parse(wire(f).take(k), 0) is Incomplete,
{
    let s = wire(f).take(k);
    assert(s.subrange(0, s.len() as int) =~= wire(f).take(s.len() - 0));
    lemma_check_prefix(s, 0, f);
    lemma_parse_prefix(s, 0, f);
}

/// A buffer that ends inside an encoded frame is also reported incomplete
/// by the materializing parser.
pub proof fn lemma_parse_prefix(s: Seq<u8>, pos: int, f: FrameV)
    requires
        wf(f),
        0 <= pos <= s.len(),
        s.len() - pos < wire(f).len(),
        s.subrange(pos, s.len() as int) == wire(f).take(s.len() - pos),
    ensures
        spec_parse(s, pos) is Incomplete,
    decreases f,
{
    let w = wire(f);
    let m = s.len() - pos;
    assert forall|j: int| 0 <= j < m implies s[pos + j] == w[j] by {
        assert(s.subrange(pos, s.len() as int)[j] == s[pos + j]);
        assert(w.take(m)[j] == w[j]);
    }
    if m == 0 {
    } else {
        match f {
            FrameV::Simple(text) => {
                let e = encode_utf8(text);
                lemma_encode_utf8_line_ok(text);
                assert(s[pos] == 43) by {
                    assert(w[0] == 43);
                }
                assert(m <= e.len() + 2);
                assert forall|j: int| pos + 1 <= j && j + 2 <= s.len() implies !(s[j] == 13
                    && #[trigger] s[j + 1] == 10) by {
                    assert(s[j] == w[j - pos]);
                    assert(w[j - pos] == e[j - pos - 1]);
                }
                lemma_find_crlf_none(s, pos + 1);
            },
            FrameV::Error(text) => {
                let e = encode_utf8(text);
                lemma_encode_utf8_line_ok(text);
                assert(s[pos] == 45) by {
                    assert(w[0] == 45);
                }
                assert(m <= e.len() + 2);
                assert forall|j: int| pos + 1 <= j && j + 2 <= s.len() implies !(s[j] == 13
                    && #[trigger] s[j + 1] == 10) by {
                    assert(s[j] == w[j - pos]);
                    assert(w[j - pos] == e[j - pos - 1]);
                }
                lemma_find_crlf_none(s, pos + 1);
            },
            FrameV::Integer(v) => {
                let d = dec_rep(v as nat);
                lemma_dec_rep(v as nat);
                assert(s[pos] == 58) by {
                    assert(w[0] == 58);
                }
                assert(m <= d.len() + 2);
                assert forall|j: int| pos + 1 <= j && j + 2 <= s.len() implies !(s[j] == 13
                    && #[trigger] s[j + 1] == 10) by {
                    assert(s[j] == w[j - pos]);
                    assert(w[j - pos] == d[j - pos - 1]);
                }
                lemma_find_crlf_none(s, pos + 1);
            },
            FrameV::Null => {
                assert(s[pos] == 36) by {
                    assert(w[0] == 36);
                }
                if m >= 2 {
                    assert(s[pos + 1] == 45) by {
                        assert(w[1] == 45);
                    }
                    assert forall|j: int| pos + 1 <= j && j + 2 <= s.len() implies !(s[j]
                        == 13 && #[trigger] s[j + 1] == 10) by {
                        assert(s[j] == w[j - pos]);
                        assert(w[1] == 45 && w[2] == 49 && w[3] == 13);
                    }
                    lemma_find_crlf_none(s, pos + 1);
                }
            },
            FrameV::Bulk(b) => {
                let d = dec_rep(b.len());
                lemma_dec_rep(b.len());
                assert(s[pos] == 36) by {
                    assert(w[0] == 36);
                }
                if m >= 2 {
                    assert(s[pos + 1] == d[0] && is_digit(d[0])) by {
                        assert(w[1] == d[0]);
                    }
                    if m <= d.len() + 2 {
                        assert forall|j: int| pos + 1 <= j && j + 2 <= s.len() implies !(s[j]
                            == 13 && #[trigger] s[j + 1] == 10) by {
                            assert(s[j] == w[j - pos]);
                            assert(w[j - pos] == d[j - pos - 1]);
                        }
                        lemma_find_crlf_none(s, pos + 1);
                    } else {
                        let k = pos + 1 + d.len();
                        assert forall|j: int| pos + 1 <= j < k implies s[j] != 13 by {
                            assert(s[j] == w[j - pos]);
                            assert(w[j - pos] == d[j - pos - 1]);
                        }
                        assert(s[k] == 13 && s[k + 1] == 10) by {
                            assert(w[1 + d.len() as int] == 13);
                            assert(w[2 + d.len() as int] == 10);
                        }
                        lemma_find_crlf_at(s, pos + 1, k);
                        let line = s.subrange(pos + 1, k);
                        assert forall|t: int| 0 <= t < d.len() implies line[t] == d[t] by {
                            assert(line[t] == s[pos + 1 + t]);
                            assert(s[pos + (1 + t)] == w[1 + t]);
                            assert(w[1 + t] == d[t]);
                        }
                        assert(line =~= d);
                        let n = b.len() as u64;
                        assert(spec_dec(line) == Some(n));
                        assert(k + 2 + n + 2 == pos + w.len());
                        assert(k + 2 + n + 2 > s.len());
                    }
                }
            },
            FrameV::Array(items) => {
                let d = dec_rep(items.len());
                lemma_dec_rep(items.len());
                let wel = wire_elems(items);
                assert(s[pos] == 42) by {
                    assert(w[0] == 42);
                }
                if m >= 2 {
                    if m <= d.len() + 2 {
                        assert forall|j: int| pos + 1 <= j && j + 2 <= s.len() implies !(s[j]
                            == 13 && #[trigger] s[j + 1] == 10) by {
                            assert(s[j] == w[j - pos]);
                            assert(w[j - pos] == d[j - pos - 1]);
                        }
                        lemma_find_crlf_none(s, pos + 1);
                    } else {
                        let k = pos + 1 + d.len();
                        assert forall|j: int| pos + 1 <= j < k implies s[j] != 13 by {
                            assert(s[j] == w[j - pos]);
                            assert(w[j - pos] == d[j - pos - 1]);
                        }
                        assert(s[k] == 13 && s[k + 1] == 10) by {
                            assert(w[1 + d.len() as int] == 13);
                            assert(w[2 + d.len() as int] == 10);
                        }
                        lemma_find_crlf_at(s, pos + 1, k);
                        let line = s.subrange(pos + 1, k);
                        assert forall|t: int| 0 <= t < d.len() implies line[t] == d[t] by {
                            assert(line[t] == s[pos + 1 + t]);
                            assert(s[pos + (1 + t)] == w[1 + t]);
                            assert(w[1 + t] == d[t]);
                        }
                        assert(line =~= d);
                        let n = items.len() as u64;
                        assert(spec_dec(line) == Some(n));
                        assert(s.len() - (k + 2) < wel.len());
                        assert forall|t: int| 0 <= t < s.len() - (k + 2) implies #[trigger] s.subrange(
                            k + 2,
                            s.len() as int,
                        )[t] == wel.take(s.len() - (k + 2))[t] by {
                            assert(s.subrange(k + 2, s.len() as int)[t] == s[k + 2 + t]);
                            assert(s[pos + (1 + d.len() as int + 2 + t)] == w[1
                                + d.len() as int + 2 + t]);
                            assert(w[1 + d.len() as int + 2 + t] == wel[t]);
                        }
                        assert(s.subrange(k + 2, s.len() as int) =~= wel.take(
                            s.len() - (k + 2),
                        ));
                        lemma_parse_elems_prefix(s, k + 2, items);
                        assert(n as nat == items.len());
                    }
                }
            },
        }
    }
}

/// A buffer that ends inside a run of encoded frames is reported incomplete
/// by the materializing parser.
pub proof fn lemma_parse_elems_prefix(s: Seq<u8>, pos: int, items: Seq<FrameV>)
    requires
        forall|i: int| 0 <= i < items.len() ==> wf(#[trigger] items[i]),
        0 <= pos <= s.len(),
        s.len() - pos < wire_elems(items).len(),
        s.subrange(pos, s.len() as int) == wire_elems(items).take(s.len() - pos),
    ensures
        spec_parse_elems(s, pos, items.len()) is Incomplete,
    decreases items,
{
    let wel = wire_elems(items);
    let m = s.len() - pos;
    assert(items.len() > 0);
    assert forall|j: int| 0 <= j < m implies s[pos + j] == wel[j] by {
        assert(s.subrange(pos, s.len() as int)[j] == s[pos + j]);
        assert(wel.take(m)[j] == wel[j]);
    }
    let w0 = wire(items[0]);
    let rest = items.subrange(1, items.len() as int);
    let wr = wire_elems(rest);
    assert(wel == w0 + wr);
    lemma_wire_len(items[0]);
    if m < w0.len() {
        assert(s.subrange(pos, s.len() as int) =~= w0.take(m)) by {
            assert forall|t: int| 0 <= t < m implies s.subrange(pos, s.len() as int)[t]
                == w0.take(m)[t] by {
                assert(s.subrange(pos, s.len() as int)[t] == s[pos + t]);
                assert(wel[t] == w0[t]);
            }
        }
        lemma_parse_prefix(s, pos, items[0]);
    } else {
        assert(s.subrange(pos, pos + w0.len() as int) =~= w0) by {
            assert forall|t: int| 0 <= t < w0.len() implies s.subrange(
                pos,
                pos + w0.len() as int,
            )[t] == w0[t] by {
                assert(s.subrange(pos, pos + w0.len() as int)[t] == s[pos + t]);
                assert(wel[t] == w0[t]);
            }
        }
        lemma_parse_wire(s, pos, items[0]);
        let p2 = pos + w0.len();
        assert(s.len() - p2 < wr.len());
        assert(s.subrange(p2, s.len() as int) =~= wr.take(s.len() - p2)) by {
            assert forall|t: int| 0 <= t < s.len() - p2 implies #[trigger] s.subrange(
                p2,
                s.len() as int,
            )[t] == wr.take(s.len() - p2)[t] by {
                assert(s.subrange(p2, s.len() as int)[t] == s[p2 + t]);
                assert(s[pos + (w0.len() as int + t)] == wel[w0.len() as int + t]);
                assert(wel[w0.len() as int + t] == wr[t]);
            }
        }
        assert(forall|i: int| 0 <= i < rest.len() ==> wf(#[trigger] rest[i]));
        lemma_parse_elems_prefix(s, p2, rest);
        assert((items.len() - 1) as nat == rest.len());
    }
}

} // verus!
