//! The rules of a small directory-listing service: how a request is read
//! off the bytes that came in, how far a transfer has come, and what is
//! sent back. Reading, writing and the look into the directory are left to
//! the caller.
use vstd::prelude::*;
use vstd::string::*;
use vstd::utf8::*;

verus! {

/// How many bytes of a request are read at most.
pub const LIMIT: usize = 100;

/// How far a transfer has come.
#[derive(Debug, PartialEq, Eq, Structural)]
pub enum Progress {
    /// The other side has closed the stream before the transfer was done.
    Closed,
    /// The transfer is done.
    Complete,
    /// More is to come.
    Wanting,
}

/// What the bytes of a request hold.
#[derive(Debug)]
pub enum Framed {
    /// Nothing came.
    Empty,
    /// No line break came within the limit.
    TooLong,
    /// The bytes before the first line break, or all of them if the stream
    /// ended without one.
    Line(Vec<u8>),
}

/// What a request asks for.
#[derive(Debug)]
pub enum Request {
    /// Nothing came: there is nothing to answer.
    Empty,
    /// The request names no path: it is too long or is not UTF-8.
    BadPath,
    /// The listing of the directory at this path.
    List(String),
}

/// The byte that ends a line.
pub open spec fn line_break() -> u8 {
    10
}

/// Whether `i` is the position of the first line break in `data`.
pub open spec fn first_break(data: Seq<u8>, i: int) -> bool {
    &&& 0 <= i < data.len()
    &&& data[i] == line_break()
    &&& forall|k: int| 0 <= k < i ==> data[k] != line_break()
}

/// Whether `data` holds a line break.
pub open spec fn has_break(data: Seq<u8>) -> bool {
    exists|i: int| 0 <= i < data.len() && data[i] == line_break()
}

/// The name for what `char::is_whitespace` of std gives: whether `c` is
/// white space.
pub uninterp spec fn white(c: char) -> bool;

/// Whether `c` is white space, by `char::is_whitespace` of std. The
/// contract only names the result.
#[verifier::external_body]
fn is_white(c: char) -> (answer: bool)
    ensures
        answer == white(c),
{
    c.is_whitespace()
}

/// `text` without the white space at its start.
pub open spec fn without_leading_white(text: Seq<char>) -> Seq<char>
    decreases text.len(),
{
    if text.len() > 0 && white(text.first()) {
        without_leading_white(text.drop_first())
    } else {
        text
    }
}

/// `text` without the white space at its end.
pub open spec fn without_trailing_white(text: Seq<char>) -> Seq<char>
    decreases text.len(),
{
    if text.len() > 0 && white(text.last()) {
        without_trailing_white(text.drop_last())
    } else {
        text
    }
}

/// `text` without the white space at its two ends.
pub open spec fn trimmed(text: Seq<char>) -> Seq<char> {
    without_trailing_white(without_leading_white(text))
}

/// Skipping white space at the start of `text` up to `start` leaves what
/// follows `start` to be stripped.
proof fn lemma_leading(text: Seq<char>, start: int)
    requires
        0 <= start <= text.len(),
        forall|k: int| 0 <= k < start ==> white(#[trigger] text[k]),
    ensures
        without_leading_white(text) == without_leading_white(text.subrange(start, text.len() as int)),
    decreases start,
{
    if start == 0 {
        assert(text.subrange(0, text.len() as int) =~= text);
    } else {
        assert(white(text[0]));
        let rest = text.drop_first();
        assert forall|k: int| 0 <= k < start - 1 implies white(#[trigger] rest[k]) by {
            assert(rest[k] == text[k + 1]);
        }
        lemma_leading(rest, start - 1);
        assert(rest.subrange(start - 1, rest.len() as int) =~= text.subrange(
            start,
            text.len() as int,
        ));
    }
}

/// Skipping white space at the end of `text` down to `end` leaves what
/// comes before `end` to be stripped.
proof fn lemma_trailing(text: Seq<char>, end: int)
    requires
        0 <= end <= text.len(),
        forall|k: int| end <= k < text.len() ==> white(#[trigger] text[k]),
    ensures
        without_trailing_white(text) == without_trailing_white(text.subrange(0, end)),
    decreases text.len() - end,
{
    if end == text.len() {
        assert(text.subrange(0, end) =~= text);
    } else {
        assert(white(text[text.len() - 1]));
        let rest = text.drop_last();
        assert forall|k: int| end <= k < rest.len() implies white(#[trigger] rest[k]) by {
            assert(rest[k] == text[k]);
        }
        lemma_trailing(rest, end);
        assert(rest.subrange(0, end) =~= text.subrange(0, end));
    }
}

/// `text` without the white space at its two ends.
pub fn trim(text: &str) -> (inner: String)
    ensures
        inner@ == trimmed(text@),
{
    let n = text.unicode_len();
    let mut start: usize = 0;
    while start < n && is_white(text.get_char(start))
        invariant
            n == text@.len(),
            start <= n,
            forall|k: int| 0 <= k < start ==> white(#[trigger] text@[k]),
        decreases n - start,
    {
        start = start + 1;
    }
    let mut end: usize = n;
    while end > start && is_white(text.get_char(end - 1))
        invariant
            n == text@.len(),
            start <= end <= n,
            forall|k: int| end <= k < n ==> white(#[trigger] text@[k]),
        decreases end,
    {
        end = end - 1;
    }
    proof {
        let tail = text@.subrange(start as int, n as int);
        let inner = text@.subrange(start as int, end as int);
        lemma_leading(text@, start as int);
        assert(without_leading_white(tail) == tail) by {
            if start < n {
                assert(tail.first() == text@[start as int]);
            }
        }
        assert forall|k: int| end - start <= k < tail.len() implies white(#[trigger] tail[k]) by {
            assert(tail[k] == text@[k + start]);
        }
        lemma_trailing(tail, end - start);
        assert(tail.subrange(0, end - start) =~= inner);
        assert(without_trailing_white(inner) == inner) by {
            if start < end {
                assert(inner.last() == text@[end - 1]);
            }
        }
    }
    String::from_str(text.substring_char(start, end))
}

/// The text that `bytes` encode, by `String::from_utf8` of std: there is one
/// if and only if the bytes are valid UTF-8, and it is what they decode to.
#[verifier::external_body]
fn utf8_text(bytes: Vec<u8>) -> (text: Option<String>)
    ensures
        match text {
            Some(t) => valid_utf8(bytes@) && t@ == decode_utf8(bytes@),
            None => !valid_utf8(bytes@),
        },
{
    String::from_utf8(bytes).ok()
}

/// The position of the first line break in `data`, if there is one.
fn find_break(data: &[u8]) -> (at: Option<usize>)
    ensures
        match at {
            Some(i) => first_break(data@, i as int),
            None => !has_break(data@),
        },
{
    let mut i: usize = 0;
    while i < data.len()
        invariant
            i <= data@.len(),
            forall|k: int| 0 <= k < i ==> data@[k] != line_break(),
        decreases data@.len() - i,
    {
        if data[i] == 10 {
            return Some(i);
        }
        i = i + 1;
    }
    None
}

/// How far the reading of a request has come, after a read that brought
/// `last` bytes and with `received` read so far, of at most `size`: a read
/// that brings nothing means the stream is closed; a line break or a full
/// buffer ends the reading.
pub fn read_progress(received: &[u8], last: usize, size: usize) -> (progress: Progress)
    ensures
        progress == if last == 0 {
            Progress::Closed
        } else if has_break(received@) || received@.len() >= size {
            Progress::Complete
        } else {
            Progress::Wanting
        },
{
    if last == 0 {
        Progress::Closed
    } else if find_break(received).is_some() || received.len() >= size {
        Progress::Complete
    } else {
        Progress::Wanting
    }
}

/// How far the writing of `total` bytes has come, after a write that took
/// `last` bytes and with `written` taken so far: a write that takes nothing
/// means the stream is closed.
pub fn write_progress(written: usize, last: usize, total: usize) -> (progress: Progress)
    ensures
        progress == if last == 0 {
            Progress::Closed
        } else if written >= total {
            Progress::Complete
        } else {
            Progress::Wanting
        },
{
    if last == 0 {
        Progress::Closed
    } else if written >= total {
        Progress::Complete
    } else {
        Progress::Wanting
    }
}

/// What the bytes of a request hold, as plain values.
pub enum Frame {
    Empty,
    TooLong,
    Line(Seq<u8>),
}

/// What a request asks for, as plain values.
pub enum Asked {
    Empty,
    BadPath,
    List(Seq<char>),
}

impl View for Framed {
    type V = Frame;

    open spec fn view(&self) -> Frame {
        match self {
            Framed::Empty => Frame::Empty,
            Framed::TooLong => Frame::TooLong,
            Framed::Line(bytes) => Frame::Line(bytes@),
        }
    }
}

impl View for Request {
    type V = Asked;

    open spec fn view(&self) -> Asked {
        match self {
            Request::Empty => Asked::Empty,
            Request::BadPath => Asked::BadPath,
            Request::List(path) => Asked::List(path@),
        }
    }
}

/// What the bytes of a request hold: nothing; the line before the first
/// line break; without a line break, too much if the limit is reached, and
/// otherwise all of them.
pub open spec fn framed(data: Seq<u8>) -> Frame {
    if data.len() == 0 {
        Frame::Empty
    } else if has_break(data) {
        Frame::Line(data.subrange(0, choose|i: int| first_break(data, i)))
    } else if data.len() >= LIMIT {
        Frame::TooLong
    } else {
        Frame::Line(data)
    }
}

/// What a frame asks for: a line that is valid UTF-8 asks for the listing
/// of the path that it decodes to, trimmed; any other line, and a frame
/// that is too long, names no path.
pub open spec fn asked(frame: Frame) -> Asked {
    match frame {
        Frame::Empty => Asked::Empty,
        Frame::TooLong => Asked::BadPath,
        Frame::Line(bytes) => if valid_utf8(bytes) {
            Asked::List(trimmed(decode_utf8(bytes)))
        } else {
            Asked::BadPath
        },
    }
}

/// Reads the frame off the bytes of a request.
pub fn frame(data: &[u8]) -> (frame: Framed)
    ensures
        frame@ == framed(data@),
{
    if data.len() == 0 {
        return Framed::Empty;
    }
    match find_break(data) {
        Some(end) => {
            proof {
                let chosen = choose|i: int| first_break(data@, i);
                assert(first_break(data@, end as int));
                assert(chosen == end) by {
                    if chosen < end {
                        assert(data@[chosen] != line_break());
                    } else if end < chosen {
                        assert(data@[end as int] != line_break());
                    }
                }
            }
            let mut line: Vec<u8> = Vec::new();
            let mut i: usize = 0;
            while i < end
                invariant
                    i <= end <= data@.len(),
                    line@ == data@.subrange(0, i as int),
                decreases end - i,
            {
                line.push(data[i]);
                i = i + 1;
                assert(line@ =~= data@.subrange(0, i as int));
            }
            Framed::Line(line)
        },
        None => {
            if data.len() >= LIMIT {
                Framed::TooLong
            } else {
                let mut line: Vec<u8> = Vec::new();
                let mut i: usize = 0;
                while i < data.len()
                    invariant
                        i <= data@.len(),
                        line@ == data@.subrange(0, i as int),
                    decreases data@.len() - i,
                {
                    line.push(data[i]);
                    i = i + 1;
                    assert(line@ =~= data@.subrange(0, i as int));
                }
                assert(data@.subrange(0, i as int) =~= data@);
                Framed::Line(line)
            }
        },
    }
}

/// What a frame asks for.
pub fn request_of(frame: Framed) -> (request: Request)
    ensures
        request@ == asked(frame@),
{
    match frame {
        Framed::Empty => Request::Empty,
        Framed::TooLong => Request::BadPath,
        Framed::Line(bytes) => match utf8_text(bytes) {
            Some(text) => Request::List(trim(text.as_str())),
            None => Request::BadPath,
        },
    }
}

/// What the bytes of a request ask for.
pub fn request(data: &[u8]) -> (request: Request)
    ensures
        request@ == asked(framed(data@)),
{
    request_of(frame(data))
}

/// The answer to a request that names no path.
pub fn bad_path() -> (reply: &'static str)
    ensures
        reply@ == "Bad path\n"@,
{
    "Bad path\n"
}

/// The answer to a request for a directory that cannot be read.
pub fn bad_dir() -> (reply: &'static str)
    ensures
        reply@ == "Bad dir\n"@,
{
    "Bad dir\n"
}

/// The names, each followed by a line break.
pub open spec fn lines(names: Seq<String>) -> Seq<char>
    decreases names.len(),
{
    if names.len() == 0 {
        Seq::empty()
    } else {
        lines(names.drop_last()) + names.last()@ + seq!['\n']
    }
}

/// The answer to a request for a directory with the given entries: their
/// names, each on a line of its own.
pub fn listing(names: &Vec<String>) -> (reply: String)
    ensures
        reply@ == lines(names@),
{
    proof {
        reveal_strlit("\n");
    }
    let mut reply = String::new();
    let mut i: usize = 0;
    assert(names@.take(0) =~= Seq::<String>::empty());
    while i < names.len()
        invariant
            i <= names@.len(),
            "\n"@ == seq!['\n'],
            reply@ == lines(names@.take(i as int)),
        decreases names@.len() - i,
    {
        proof {
            assert(names@.take(i + 1).drop_last() =~= names@.take(i as int));
        }
        reply.append(names[i].as_str());
        reply.append("\n");
        i = i + 1;
        assert(reply@ =~= lines(names@.take(i as int)));
    }
    assert(names@.take(i as int) =~= names@);
    reply
}

} // verus!
