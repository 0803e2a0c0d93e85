//! Typed commands, built by consuming a decoded array-of-frames.
//!
//! The first element of the array, case-folded, selects the command; the
//! remaining elements are its arguments.  An unrecognized verb is a
//! successful parse (`Command::Unknown`), not an error: rejecting it is the
//! application's business.
use crate::frame::{Frame, FrameV};
use crate::parse::{bytes_of, int_of, str_of, Parse, ParseError};
use vstd::prelude::*;
use vstd::string::{StrSliceExecFns, StringExecFns};

verus! {

/// ASCII case folding of one character; other characters are untouched.
pub open spec fn ascii_lower_char(c: char) -> char {
    if 'A' <= c && c <= 'Z' {
        (((c as u32) + 32) as u32) as char
    } else {
        c
    }
}

/// ASCII case folding of a verb or modifier.
pub open spec fn fold(s: Seq<char>) -> Seq<char> {
    s.map_values(|c: char| ascii_lower_char(c))
}

/// Relies on str::to_ascii_lowercase: each character is mapped to its ASCII
/// lowercase equivalent and all others are left unchanged.
#[verifier::external_body]
fn ascii_fold(s: &String) -> (r: String)
    ensures
        r@ == fold(s@),
{
    s.as_str().to_ascii_lowercase()
}

/// A seconds count as milliseconds, saturating at the largest expressible
/// instant.
pub open spec fn secs_to_ms(secs: u64) -> u64 {
    if secs > u64::MAX / 1000 {
        u64::MAX
    } else {
        (secs * 1000) as u64
    }
}

fn secs_to_millis(secs: u64) -> (r: u64)
    ensures
        r == secs_to_ms(secs),
{
    if secs > u64::MAX / 1000 {
        u64::MAX
    } else {
        secs * 1000
    }
}

/// Get the value of a key.
pub struct Get {
    pub key: String,
}

impl Get {
    pub fn new(key: String) -> (g: Get)
        ensures
            g.key@ == key@,
    {
        Get { key }
    }

    pub fn key(&self) -> (r: &str)
        ensures
            r@ == self.key@,
    {
        self.key.as_str()
    }

    /// Consumes `GET`'s single argument: the key.
    pub fn parse_frame(parse: &mut Parse) -> (r: Result<Get, ParseError>)
        ensures
            match r {
                Ok(g) => old(parse)@.len() > 0 && str_of(old(parse)@[0]) == Some(g.key@)
                    && final(parse)@ == old(parse)@.drop_first(),
                Err(e) => if e is EndOfStream {
                    old(parse)@.len() == 0 && final(parse)@ == old(parse)@
                } else {
                    old(parse)@.len() > 0 && str_of(old(parse)@[0]) is None && final(parse)@
                        == old(parse)@.drop_first()
                },
            },
    {
        match parse.next_string() {
            Ok(key) => Ok(Get { key }),
            Err(e) => Err(e),
        }
    }
}

/// Post a message to a channel.
pub struct Publish {
    pub channel: String,
    pub message: Vec<u8>,
}

impl Publish {
    pub fn new(channel: String, message: Vec<u8>) -> (p: Publish)
        ensures
            p.channel@ == channel@,
            p.message@ == message@,
    {
        Publish { channel, message }
    }

    /// Consumes `PUBLISH`'s arguments: the channel, then the message bytes.
    pub fn parse_frame(parse: &mut Parse) -> (r: Result<Publish, ParseError>)
        ensures
            match r {
                Ok(p) => {
                    &&& old(parse)@.len() >= 2
                    &&& str_of(old(parse)@[0]) == Some(p.channel@)
                    &&& bytes_of(old(parse)@[1]) == Some(p.message@)
                    &&& final(parse)@ == old(parse)@.skip(2)
                },
                Err(e) => {
                    ||| (old(parse)@.len() == 0 && e is EndOfStream)
                    ||| (old(parse)@.len() > 0 && str_of(old(parse)@[0]) is None && e
                        is Other)
                    ||| (old(parse)@.len() == 1 && str_of(old(parse)@[0]) is Some && e
                        is EndOfStream)
                    ||| (old(parse)@.len() >= 2 && str_of(old(parse)@[0]) is Some
                        && bytes_of(old(parse)@[1]) is None && e is Other)
                },
            },
    {
        let channel = match parse.next_string() {
            Ok(c) => c,
            Err(e) => {
                return Err(e);
            },
        };
        let message = match parse.next_bytes() {
            Ok(m) => m,
            Err(e) => {
                return Err(e);
            },
        };
        proof {
            assert(final(parse)@ =~= old(parse)@.skip(2));
        }
        Ok(Publish { channel, message })
    }
}

/// Store a value under a key, with an optional time to live.
pub struct SetCmd {
    pub key: String,
    pub value: Vec<u8>,
    /// Time to live in milliseconds, when given.
    pub expire: Option<u64>,
}

impl SetCmd {
    pub fn new(key: String, value: Vec<u8>, expire: Option<u64>) -> (s: SetCmd)
        ensures
            s.key@ == key@,
            s.value@ == value@,
            s.expire == expire,
    {
        SetCmd { key, value, expire }
    }

    pub fn key(&self) -> (r: &str)
        ensures
            r@ == self.key@,
    {
        self.key.as_str()
    }

    pub fn value(&self) -> (r: &Vec<u8>)
        ensures
            r@ == self.value@,
    {
        &self.value
    }

    pub fn expire(&self) -> (r: Option<u64>)
        ensures
            r == self.expire,
    {
        self.expire
    }

    /// Consumes `SET`'s arguments: key, value, and at most one trailing
    /// `EX <seconds>` or `PX <milliseconds>` modifier (case-insensitive);
    /// any other modifier is an error.  A seconds modifier saturates at the
    /// largest expressible millisecond count.
    pub fn parse_frame(parse: &mut Parse) -> (r: Result<SetCmd, ParseError>)
        ensures
            match r {
                Ok(st) => {
                    &&& old(parse)@.len() >= 2
                    &&& str_of(old(parse)@[0]) == Some(st.key@)
                    &&& bytes_of(old(parse)@[1]) == Some(st.value@)
                    &&& if old(parse)@.len() == 2 {
                        st.expire is None && final(parse)@.len() == 0
                    } else {
                        &&& old(parse)@.len() >= 4
                        &&& (str_of(old(parse)@[2]) matches Some(m) && (fold(m) == "ex"@
                            || fold(m) == "px"@) && (int_of(old(parse)@[3]) matches Some(n)
                            && st.expire == Some(
                            if fold(m) == "ex"@ {
                                secs_to_ms(n)
                            } else {
                                n
                            },
                        )))
                        &&& final(parse)@ == old(parse)@.skip(4)
                    }
                },
                Err(e) => {
                    ||| (old(parse)@.len() == 0 && e is EndOfStream)
                    ||| (old(parse)@.len() > 0 && str_of(old(parse)@[0]) is None)
                    ||| (old(parse)@.len() == 1 && str_of(old(parse)@[0]) is Some && e
                        is EndOfStream)
                    ||| (old(parse)@.len() >= 2 && str_of(old(parse)@[0]) is Some
                        && bytes_of(old(parse)@[1]) is None)
                    ||| (old(parse)@.len() >= 3 && str_of(old(parse)@[2]) is None)
                    ||| (old(parse)@.len() >= 3 && (str_of(old(parse)@[2]) matches Some(m)
                        && fold(m) != "ex"@ && fold(m) != "px"@))
                    ||| (old(parse)@.len() == 3 && (str_of(old(parse)@[2]) matches Some(m)
                        && (fold(m) == "ex"@ || fold(m) == "px"@) && e is EndOfStream))
                    ||| (old(parse)@.len() >= 4 && (str_of(old(parse)@[2]) matches Some(m)
                        && (fold(m) == "ex"@ || fold(m) == "px"@) && int_of(old(parse)@[3])
                        is None))
                },
            },
    {
        let key = match parse.next_string() {
            Ok(k) => k,
            Err(e) => {
                return Err(e);
            },
        };
        let value = match parse.next_bytes() {
            Ok(v) => v,
            Err(e) => {
                return Err(e);
            },
        };
        match parse.next_string() {
            Ok(s) => {
                let folded = ascii_fold(&s);
                if folded == String::from_str("ex") {
                    let secs = match parse.next_int() {
                        Ok(n) => n,
                        Err(e) => {
                            return Err(e);
                        },
                    };
                    proof {
                        assert(final(parse)@ =~= old(parse)@.skip(4));
                    }
                    Ok(SetCmd { key, value, expire: Some(secs_to_millis(secs)) })
                } else if folded == String::from_str("px") {
                    let ms = match parse.next_int() {
                        Ok(n) => n,
                        Err(e) => {
                            return Err(e);
                        },
                    };
                    proof {
                        assert(final(parse)@ =~= old(parse)@.skip(4));
                    }
                    Ok(SetCmd { key, value, expire: Some(ms) })
                } else {
                    Err(
                        ParseError::Other(
                            "currently an expiry is the only supported set option".to_owned(),
                        ),
                    )
                }
            },
            Err(ParseError::EndOfStream) => Ok(SetCmd { key, value, expire: None }),
            Err(e) => Err(e),
        }
    }
}

/// Probe liveness, optionally echoing a message.
pub struct Ping {
    pub msg: Option<Vec<u8>>,
}

impl Ping {
    pub fn new(msg: Option<Vec<u8>>) -> (p: Ping)
        ensures
            p.msg == msg,
    {
        Ping { msg }
    }

    /// Consumes `PING`'s optional message argument.
    pub fn parse_frame(parse: &mut Parse) -> (r: Result<Ping, ParseError>)
        ensures
            match r {
                Ok(p) => {
                    ||| (old(parse)@.len() == 0 && p.msg is None && final(parse)@ == old(
                        parse,
                    )@)
                    ||| (old(parse)@.len() > 0 && (p.msg matches Some(m) && bytes_of(
                        old(parse)@[0],
                    ) == Some(m@) && final(parse)@ == old(parse)@.drop_first()))
                },
                Err(e) => old(parse)@.len() > 0 && bytes_of(old(parse)@[0]) is None && e
                    is Other,
            },
    {
        match parse.next_bytes() {
            Ok(m) => Ok(Ping { msg: Some(m) }),
            Err(ParseError::EndOfStream) => Ok(Ping { msg: None }),
            Err(e) => Err(e),
        }
    }
}

/// A verb this server does not implement; carries the folded verb so the
/// application can report it.
pub struct Unknown {
    pub command_name: String,
}

impl Unknown {
    pub fn new(command_name: String) -> (u: Unknown)
        ensures
            u.command_name@ == command_name@,
    {
        Unknown { command_name }
    }

    pub fn get_name(&self) -> (r: &str)
        ensures
            r@ == self.command_name@,
    {
        self.command_name.as_str()
    }
}

/// Listen on one or more channels.
pub struct Subscribe {
    pub channels: Vec<String>,
}

/// Stop listening on one or more channels.
pub struct Unsubscribe {
    pub channels: Vec<String>,
}

impl Subscribe {
    pub fn new(channels: Vec<String>) -> (s: Subscribe)
        ensures
            s.channels@ == channels@,
    {
        Subscribe { channels }
    }

    /// Consumes `SUBSCRIBE`'s arguments: one channel, then any number more.
    pub fn parse_frame(parse: &mut Parse) -> (r: Result<Subscribe, ParseError>)
        ensures
            match r {
                Ok(s) => {
                    &&& old(parse)@.len() >= 1
                    &&& s.channels@.len() == old(parse)@.len()
                    &&& forall|i: int|
                        0 <= i < old(parse)@.len() ==> str_of(#[trigger] old(parse)@[i])
                            == Some(s.channels@[i]@)
                    &&& final(parse)@.len() == 0
                },
                Err(e) => if e is EndOfStream {
                    old(parse)@.len() == 0 && final(parse)@ == old(parse)@
                } else {
                    exists|i: int|
                        0 <= i < old(parse)@.len() && str_of(#[trigger] old(parse)@[i])
                            is None
                },
            },
    {
        let first = match parse.next_string() {
            Ok(c) => c,
            Err(e) => {
                proof {
                    if old(parse)@.len() > 0 {
                        assert(str_of(old(parse)@[0]) is None);
                    }
                }
                return Err(e);
            },
        };
        let mut channels: Vec<String> = Vec::new();
        channels.push(first);
        loop
            invariant
                1 <= channels@.len() <= old(parse)@.len(),
                parse@ == old(parse)@.skip(channels@.len() as int),
                forall|i: int|
                    0 <= i < channels@.len() ==> str_of(#[trigger] old(parse)@[i]) == Some(
                        channels@[i]@,
                    ),
            decreases parse@.len(),
        {
            let ghost k = channels@.len() as int;
            match parse.next_string() {
                Ok(c) => {
                    proof {
                        assert(old(parse)@.skip(k)[0] == old(parse)@[k]);
                        assert(old(parse)@.skip(k).drop_first() =~= old(parse)@.skip(k + 1));
                    }
                    channels.push(c);
                },
                Err(ParseError::EndOfStream) => {
                    proof {
                        assert(old(parse)@.skip(k).len() == 0);
                    }
                    return Ok(Subscribe { channels });
                },
                Err(e) => {
                    proof {
                        assert(old(parse)@.skip(k)[0] == old(parse)@[k]);
                        assert(str_of(old(parse)@[k]) is None);
                    }
                    return Err(e);
                },
            }
        }
    }
}

impl Unsubscribe {
    pub fn new(channels: Vec<String>) -> (s: Unsubscribe)
        ensures
            s.channels@ == channels@,
    {
        Unsubscribe { channels }
    }

    /// Consumes `UNSUBSCRIBE`'s arguments: one channel, then any number
    /// more.
    pub fn parse_frame(parse: &mut Parse) -> (r: Result<Unsubscribe, ParseError>)
        ensures
            match r {
                Ok(s) => {
                    &&& old(parse)@.len() >= 1
                    &&& s.channels@.len() == old(parse)@.len()
                    &&& forall|i: int|
                        0 <= i < old(parse)@.len() ==> str_of(#[trigger] old(parse)@[i])
                            == Some(s.channels@[i]@)
                    &&& final(parse)@.len() == 0
                },
                Err(e) => if e is EndOfStream {
                    old(parse)@.len() == 0 && final(parse)@ == old(parse)@
                } else {
                    exists|i: int|
                        0 <= i < old(parse)@.len() && str_of(#[trigger] old(parse)@[i])
                            is None
                },
            },
    {
        let first = match parse.next_string() {
            Ok(c) => c,
            Err(e) => {
                proof {
                    if old(parse)@.len() > 0 {
                        assert(str_of(old(parse)@[0]) is None);
                    }
                }
                return Err(e);
            },
        };
        let mut channels: Vec<String> = Vec::new();
        channels.push(first);
        loop
            invariant
                1 <= channels@.len() <= old(parse)@.len(),
                parse@ == old(parse)@.skip(channels@.len() as int),
                forall|i: int|
                    0 <= i < channels@.len() ==> str_of(#[trigger] old(parse)@[i]) == Some(
                        channels@[i]@,
                    ),
            decreases parse@.len(),
        {
            let ghost k = channels@.len() as int;
            match parse.next_string() {
                Ok(c) => {
                    proof {
                        assert(old(parse)@.skip(k)[0] == old(parse)@[k]);
                        assert(old(parse)@.skip(k).drop_first() =~= old(parse)@.skip(k + 1));
                    }
                    channels.push(c);
                },
                Err(ParseError::EndOfStream) => {
                    proof {
                        assert(old(parse)@.skip(k).len() == 0);
                    }
                    return Ok(Unsubscribe { channels });
                },
                Err(e) => {
                    proof {
                        assert(old(parse)@.skip(k)[0] == old(parse)@[k]);
                        assert(str_of(old(parse)@[k]) is None);
                    }
                    return Err(e);
                },
            }
        }
    }
}

/// One typed, validated store operation.
pub enum Command {
    Get(Get),
    Publish(Publish),
    SetCmd(SetCmd),
    Subscribe(Subscribe),
    Unsubscribe(Unsubscribe),
    Ping(Ping),
    Unknown(Unknown),
}

/// Whether the arguments after the verb have the shape the verb demands.
pub open spec fn verb_args_ok(verb: Seq<char>, items: Seq<FrameV>) -> bool {
    if verb == "get"@ {
        items.len() == 2 && str_of(items[1]) is Some
    } else if verb == "publish"@ {
        items.len() == 3 && str_of(items[1]) is Some && bytes_of(items[2]) is Some
    } else if verb == "set"@ {
        &&& items.len() >= 3
        &&& str_of(items[1]) is Some
        &&& bytes_of(items[2]) is Some
        &&& (items.len() == 3 || (items.len() == 5 && (str_of(items[3]) matches Some(m) && (
        fold(m) == "ex"@ || fold(m) == "px"@)) && int_of(items[4]) is Some))
    } else if verb == "subscribe"@ || verb == "unsubscribe"@ {
        items.len() >= 2 && forall|i: int| 1 <= i < items.len() ==> str_of(
            #[trigger] items[i],
        ) is Some
    } else if verb == "ping"@ {
        items.len() == 1 || (items.len() == 2 && bytes_of(items[1]) is Some)
    } else {
        true
    }
}

/// Whether a frame is a well-shaped command: an array whose first element
/// reads as text, with arguments matching its (case-folded) verb.  An
/// unrecognized verb is well-shaped whatever follows it.
pub open spec fn from_frame_ok(fv: FrameV) -> bool {
    &&& fv matches FrameV::Array(items)
    &&& items.len() >= 1
    &&& (str_of(items[0]) matches Some(nm) && verb_args_ok(fold(nm), items))
}

impl Command {
    /// Interprets an array frame as a command.  The verb is matched after
    /// ASCII case folding; an unknown verb parses successfully as
    /// `Command::Unknown` and skips argument validation.
    pub fn from_frame(frame: Frame) -> (r: Result<Command, ParseError>)
        ensures
            r is Ok <==> from_frame_ok(frame@),
            match r {
                Ok(cmd) => (frame@ matches FrameV::Array(items) && (str_of(items[0])
                    matches Some(nm) && match cmd {
                    Command::Get(g) => fold(nm) == "get"@ && items.len() == 2 && str_of(
                        items[1],
                    ) == Some(g.key@),
                    Command::Publish(p) => fold(nm) == "publish"@ && items.len() == 3
                        && str_of(items[1]) == Some(p.channel@) && bytes_of(items[2]) == Some(
                        p.message@,
                    ),
                    Command::SetCmd(st) => fold(nm) == "set"@ && items.len() >= 3 && str_of(
                        items[1],
                    ) == Some(st.key@) && bytes_of(items[2]) == Some(st.value@) && (
                    (items.len() == 3 && st.expire is None) || (items.len() == 5 && (str_of(
                        items[3],
                    ) matches Some(m) && (int_of(items[4]) matches Some(n) && ((fold(m)
                        == "ex"@ && st.expire == Some(secs_to_ms(n))) || (fold(m) == "px"@
                        && st.expire == Some(n))))))),
                    Command::Subscribe(s) => fold(nm) == "subscribe"@ && items.len() >= 2
                        && s.channels@.len() == items.len() - 1 && forall|i: int|
                        1 <= i < items.len() ==> str_of(#[trigger] items[i]) == Some(
                            s.channels@[i - 1]@,
                        ),
                    Command::Unsubscribe(s) => fold(nm) == "unsubscribe"@ && items.len() >= 2
                        && s.channels@.len() == items.len() - 1 && forall|i: int|
                        1 <= i < items.len() ==> str_of(#[trigger] items[i]) == Some(
                            s.channels@[i - 1]@,
                        ),
                    Command::Ping(p) => fold(nm) == "ping"@ && ((items.len() == 1 && p.msg
                        is None) || (items.len() == 2 && (p.msg matches Some(msg)
                        && bytes_of(items[1]) == Some(msg@)))),
                    Command::Unknown(u) => u.command_name@ == fold(nm) && fold(nm) != "get"@
                        && fold(nm) != "publish"@ && fold(nm) != "set"@ && fold(nm)
                        != "subscribe"@ && fold(nm) != "unsubscribe"@ && fold(nm) != "ping"@,
                })),
                Err(_) => true,
            },
    {
        let ghost fv = frame@;
        let mut parse = match Parse::new(frame) {
            Ok(p) => p,
            Err(e) => {
                return Err(e);
            },
        };
        let ghost items = parse@;
        let name = match parse.next_string() {
            Ok(n) => n,
            Err(e) => {
                return Err(e);
            },
        };
        let ghost rest = parse@;
        proof {
            assert(rest == items.drop_first());
        }
        let folded = ascii_fold(&name);
        if folded == String::from_str("get") {
            let g = match Get::parse_frame(&mut parse) {
                Ok(g) => g,
                Err(e) => {
                    return Err(e);
                },
            };
            proof {
                assert(rest[0] == items[1]);
                assert(parse@ =~= items.skip(2));
            }
            match parse.finish() {
                Ok(()) => Ok(Command::Get(g)),
                Err(e) => Err(e),
            }
        } else if folded == String::from_str("publish") {
            let p = match Publish::parse_frame(&mut parse) {
                Ok(p) => p,
                Err(e) => {
                    proof {
                        assert(rest.len() >= 1 ==> rest[0] == items[1]);
                        assert(rest.len() >= 2 ==> rest[1] == items[2]);
                    }
                    return Err(e);
                },
            };
            proof {
                assert(rest[0] == items[1]);
                assert(rest[1] == items[2]);
                assert(parse@ =~= items.skip(3));
            }
            match parse.finish() {
                Ok(()) => Ok(Command::Publish(p)),
                Err(e) => Err(e),
            }
        } else if folded == String::from_str("set") {
            let st = match SetCmd::parse_frame(&mut parse) {
                Ok(st) => st,
                Err(e) => {
                    proof {
                        assert(rest.len() >= 1 ==> rest[0] == items[1]);
                        assert(rest.len() >= 2 ==> rest[1] == items[2]);
                        assert(rest.len() >= 3 ==> rest[2] == items[3]);
                        assert(rest.len() >= 4 ==> rest[3] == items[4]);
                    }
                    return Err(e);
                },
            };
            proof {
                assert(rest[0] == items[1]);
                assert(rest[1] == items[2]);
                assert(rest.len() >= 3 ==> rest[2] == items[3]);
                assert(rest.len() >= 4 ==> rest[3] == items[4]);
                if rest.len() > 2 {
                    assert(parse@ =~= items.skip(5));
                } else {
                    assert(parse@.len() == 0);
                }
            }
            match parse.finish() {
                Ok(()) => Ok(Command::SetCmd(st)),
                Err(e) => Err(e),
            }
        } else if folded == String::from_str("subscribe") {
            let s = match Subscribe::parse_frame(&mut parse) {
                Ok(s) => s,
                Err(e) => {
                    proof {
                        if !(e is EndOfStream) {
                            lemma_exists_bad_shift(items, rest);
                        }
                    }
                    return Err(e);
                },
            };
            proof {
                assert(forall|i: int| 1 <= i < items.len() ==> #[trigger] items[i] == rest[
                    i - 1]);
            }
            match parse.finish() {
                Ok(()) => Ok(Command::Subscribe(s)),
                Err(e) => Err(e),
            }
        } else if folded == String::from_str("unsubscribe") {
            let s = match Unsubscribe::parse_frame(&mut parse) {
                Ok(s) => s,
                Err(e) => {
                    proof {
                        if !(e is EndOfStream) {
                            lemma_exists_bad_shift(items, rest);
                        }
                    }
                    return Err(e);
                },
            };
            proof {
                assert(forall|i: int| 1 <= i < items.len() ==> #[trigger] items[i] == rest[
                    i - 1]);
            }
            match parse.finish() {
                Ok(()) => Ok(Command::Unsubscribe(s)),
                Err(e) => Err(e),
            }
        } else if folded == String::from_str("ping") {
            let p = match Ping::parse_frame(&mut parse) {
                Ok(p) => p,
                Err(e) => {
                    proof {
                        assert(rest.len() >= 1 ==> rest[0] == items[1]);
                    }
                    return Err(e);
                },
            };
            proof {
                assert(rest.len() >= 1 ==> rest[0] == items[1]);
                if rest.len() >= 1 {
                    assert(parse@ =~= items.skip(2));
                }
            }
            match parse.finish() {
                Ok(()) => Ok(Command::Ping(p)),
                Err(e) => Err(e),
            }
        } else {
            Ok(Command::Unknown(Unknown::new(folded)))
        }
    }
}

/// If some element after the verb is not text, some array element is not
/// text where the verb demands it.
proof fn lemma_exists_bad_shift(items: Seq<FrameV>, rest: Seq<FrameV>)
    requires
        items.len() >= 1,
        rest == items.drop_first(),
        exists|i: int| 0 <= i < rest.len() && str_of(#[trigger] rest[i]) is None,
    ensures
        exists|i: int| 1 <= i < items.len() && str_of(#[trigger] items[i]) is None,
{
    let i = choose|i: int| 0 <= i < rest.len() && str_of(#[trigger] rest[i]) is None;
    assert(items[i + 1] == rest[i]);
}

} // verus!
