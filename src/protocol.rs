//! The wire format: frames of simple strings, errors, integers, bulk strings,
//! arrays and null, each introduced by a tag byte and ended by CR LF.
use crate::buffer::{buffer_advance, buffer_bytes, buffer_slice};
use crate::decimal::{decimal_text, decimal_value, parse_decimal, push_decimal, push_digits};
use crate::text::utf8_to_string;
use bytes::BytesMut;
use vstd::prelude::*;
use vstd::slice::{slice_subrange, slice_to_vec};
use vstd::utf8::{decode_utf8, encode_utf8, valid_utf8};

verus! {

/// The tag byte `+` of a simple string.
pub const SIMPLE_TAG: u8 = 43;

/// The tag byte `-` of an error.
pub const ERROR_TAG: u8 = 45;

/// The tag byte `:` of an integer.
pub const INTEGER_TAG: u8 = 58;

/// The tag byte `$` of a bulk string.
pub const BULK_TAG: u8 = 36;

/// The tag byte `*` of an array.
pub const ARRAY_TAG: u8 = 42;

/// A protocol value as it travels over the wire.
#[derive(Debug)]
pub enum RespType {
    SimpleString(String),
    Error(String),
    Integer(i64),
    BulkString(Vec<u8>),
    Array(Vec<RespType>),
    Null,
}

/// Why a buffer cannot hold a frame, whatever bytes may follow.
#[derive(Debug, Clone, Copy, PartialEq, Eq, Structural)]
pub enum RespError {
    InvalidProtocol,
    Utf8Error,
    IntError,
}

/// The mathematical model of a protocol value.
pub enum Frame {
    Simple(Seq<char>),
    Error(Seq<char>),
    Integer(int),
    Bulk(Seq<u8>),
    Array(Seq<Frame>),
    Null,
}

impl RespType {
    /// The value with its texts, bytes and items as sequences.
    pub open spec fn view(&self) -> Frame
        decreases self,
    {
        match self {
            RespType::SimpleString(s) => Frame::Simple(s@),
            RespType::Error(s) => Frame::Error(s@),
            RespType::Integer(n) => Frame::Integer(*n as int),
            RespType::BulkString(b) => Frame::Bulk(b@),
            RespType::Array(items) => Frame::Array(
                Seq::new(
                    items.len() as nat,
                    |i: int|
                        if 0 <= i < items.len() {
                            items[i].view()
                        } else {
                            Frame::Null
                        },
                ),
            ),
            RespType::Null => Frame::Null,
        }
    }
}

/// What reading one frame at a position of a buffer comes to.
pub enum Parsed {
    /// A whole frame, and the position just past it.
    Ready(Frame, int),
    /// The bytes so far are the start of a frame, or nothing.
    Incomplete,
    /// The bytes can be the start of no frame.
    Failed(RespError),
}

/// The line terminator.
pub open spec fn crlf() -> Seq<u8> {
    seq![13u8, 10u8]
}

/// A CR LF pair starts at `i`.
pub open spec fn crlf_at(buf: Seq<u8>, i: int) -> bool {
    0 <= i && i + 1 < buf.len() && buf[i] == 13 && buf[i + 1] == 10
}

/// Where the first CR LF pair at or after `from` starts.
pub open spec fn find_crlf(buf: Seq<u8>, from: int) -> Option<int>
    decreases buf.len() - from,
{
    if from < 0 || from + 1 >= buf.len() {
        None
    } else if crlf_at(buf, from) {
        Some(from)
    } else {
        find_crlf(buf, from + 1)
    }
}

/// A header line read as an integer: it must be UTF-8, then signed decimal.
pub open spec fn line_integer(line: Seq<u8>) -> Result<int, RespError> {
    if !valid_utf8(line) {
        Err(RespError::Utf8Error)
    } else {
        match decimal_value(line) {
            Some(n) => Ok(n),
            None => Err(RespError::IntError),
        }
    }
}

/// A simple string whose text starts at `start`.
pub open spec fn parse_simple(buf: Seq<u8>, start: int) -> Parsed {
    match find_crlf(buf, start) {
        None => Parsed::Incomplete,
        Some(e) => {
            let line = buf.subrange(start, e);
            if valid_utf8(line) {
                Parsed::Ready(Frame::Simple(decode_utf8(line)), e + 2)
            } else {
                Parsed::Failed(RespError::Utf8Error)
            }
        },
    }
}

/// An integer whose digits start at `start`.
pub open spec fn parse_integer(buf: Seq<u8>, start: int) -> Parsed {
    match find_crlf(buf, start) {
        None => Parsed::Incomplete,
        Some(e) => match line_integer(buf.subrange(start, e)) {
            Ok(n) => Parsed::Ready(Frame::Integer(n), e + 2),
            Err(err) => Parsed::Failed(err),
        },
    }
}

/// A bulk string whose length header starts at `start`.
pub open spec fn parse_bulk(buf: Seq<u8>, start: int) -> Parsed {
    match find_crlf(buf, start) {
        None => Parsed::Incomplete,
        Some(e) => match line_integer(buf.subrange(start, e)) {
            Err(err) => Parsed::Failed(err),
            Ok(len) => if len == -1 {
                Parsed::Ready(Frame::Null, e + 2)
            } else if len < 0 {
                Parsed::Failed(RespError::InvalidProtocol)
            } else if buf.len() < e + 2 + len + 2 {
                Parsed::Incomplete
            } else if !crlf_at(buf, e + 2 + len) {
                Parsed::Failed(RespError::InvalidProtocol)
            } else {
                Parsed::Ready(Frame::Bulk(buf.subrange(e + 2, e + 2 + len)), e + 2 + len + 2)
            },
        },
    }
}

/// Puts `first` in front of the items of a ready array; any other outcome is kept.
pub open spec fn prepend_items(first: Seq<Frame>, rest: Parsed) -> Parsed {
    match rest {
        Parsed::Ready(Frame::Array(items), end) => Parsed::Ready(Frame::Array(first + items), end),
        _ => rest,
    }
}

/// A frame that starts at `pos`.
pub open spec fn parse_frame(buf: Seq<u8>, pos: int) -> Parsed
    decreases buf.len() - pos, 0int,
{
    if pos < 0 || pos >= buf.len() {
        Parsed::Incomplete
    } else if buf[pos] == 43 {
        parse_simple(buf, pos + 1)
    } else if buf[pos] == 58 {
        parse_integer(buf, pos + 1)
    } else if buf[pos] == 36 {
        parse_bulk(buf, pos + 1)
    } else if buf[pos] == 42 {
        parse_array(buf, pos + 1)
    } else {
        Parsed::Failed(RespError::InvalidProtocol)
    }
}

/// An array whose count header starts at `start`.
pub open spec fn parse_array(buf: Seq<u8>, start: int) -> Parsed
    decreases buf.len() - start, 0int,
{
    match find_crlf(buf, start) {
        None => Parsed::Incomplete,
        Some(e) => match line_integer(buf.subrange(start, e)) {
            Err(err) => Parsed::Failed(err),
            Ok(count) => if count == -1 {
                Parsed::Ready(Frame::Null, e + 2)
            } else if count < 0 {
                Parsed::Failed(RespError::InvalidProtocol)
            } else {
                proof {
                    lemma_find_crlf(buf, start);
                }
                parse_items(buf, e + 2, count as nat)
            },
        },
    }
}

/// `count` frames in a row from `pos`, as the items of an array.
pub open spec fn parse_items(buf: Seq<u8>, pos: int, count: nat) -> Parsed
    decreases buf.len() - pos, 1int,
{
    if count == 0 {
        Parsed::Ready(Frame::Array(seq![]), pos)
    } else if pos < 0 || pos > buf.len() {
        Parsed::Incomplete
    } else {
        match parse_frame(buf, pos) {
            Parsed::Ready(first, next) => if pos < next <= buf.len() {
                prepend_items(seq![first], parse_items(buf, next, (count - 1) as nat))
            } else {
                Parsed::Incomplete
            },
            other => other,
        }
    }
}

/// The CR LF that `find_crlf` gives is one, and none comes before it.
pub proof fn lemma_find_crlf(buf: Seq<u8>, from: int)
    ensures
        match find_crlf(buf, from) {
            Some(e) => from <= e && crlf_at(buf, e) && forall|j: int|
                from <= j < e ==> !#[trigger] crlf_at(buf, j),
            None => 0 <= from ==> forall|j: int| from <= j ==> !#[trigger] crlf_at(buf, j),
        },
    decreases buf.len() - from,
{
    if from < 0 || from + 1 >= buf.len() {
    } else if !crlf_at(buf, from) {
        lemma_find_crlf(buf, from + 1);
    }
}

/// `prepend_items` twice is once with both fronts.
proof fn lemma_prepend_twice(a: Seq<Frame>, b: Seq<Frame>, rest: Parsed)
    ensures
        prepend_items(a, prepend_items(b, rest)) == prepend_items(a + b, rest),
{
    if let Parsed::Ready(Frame::Array(items), end) = rest {
        assert(a + (b + items) =~= (a + b) + items);
    }
}

/// The text of the error frame that stands in for an array on the way out.
pub open spec fn array_refusal() -> Seq<char> {
    "ERR array serialization not supported"@
}

/// The bytes that stand for a value on the wire.
pub open spec fn encoding(f: Frame) -> Seq<u8> {
    match f {
        Frame::Simple(s) => seq![43u8] + encode_utf8(s) + crlf(),
        Frame::Error(s) => seq![45u8] + encode_utf8(s) + crlf(),
        Frame::Integer(n) => seq![58u8] + decimal_text(n) + crlf(),
        Frame::Bulk(b) => seq![36u8] + decimal_text(b.len() as int) + crlf() + b + crlf(),
        Frame::Array(_) => seq![45u8] + encode_utf8(array_refusal()) + crlf(),
        Frame::Null => seq![36u8, 45u8, 49u8, 13u8, 10u8],
    }
}

/// The outcome of reading one frame: the value and the position just past it,
/// nothing yet, or a failure.
pub type ReadOutcome = Result<Option<(RespType, usize)>, RespError>;

/// An outcome of the reader agrees with the model's.
pub open spec fn outcome_is(r: ReadOutcome, p: Parsed) -> bool {
    match p {
        Parsed::Ready(f, end) => r matches Ok(Some((v, e))) && v@ == f && e == end,
        Parsed::Incomplete => r matches Ok(None),
        Parsed::Failed(err) => r matches Err(e) && e == err,
    }
}

/// Reads one frame from the front of the buffer. Only a whole frame is taken
/// off the buffer; when the bytes so far are not a whole frame, or cannot start
/// one, the buffer is left as it was.
pub fn decode(buff: &mut BytesMut) -> (r: Result<Option<RespType>, RespError>)
    ensures
        match parse_frame(buffer_bytes(*old(buff)), 0) {
            Parsed::Ready(f, n) => r matches Ok(Some(v)) && v@ == f && buffer_bytes(*final(buff))
                == buffer_bytes(*old(buff)).skip(n),
            Parsed::Incomplete => r matches Ok(None) && *final(buff) == *old(buff),
            Parsed::Failed(err) => r matches Err(e) && e == err && *final(buff) == *old(buff),
        },
{
    let outcome = parse_next(buffer_slice(buff), 0);
    match outcome {
        Ok(Some((value, consumed))) => {
            buffer_advance(buff, consumed);
            Ok(Some(value))
        },
        Ok(None) => Ok(None),
        Err(e) => Err(e),
    }
}

/// Reads the frame that starts at `pos`.
fn parse_next(buf: &[u8], pos: usize) -> (r: ReadOutcome)
    requires
        pos <= buf@.len(),
    ensures
        outcome_is(r, parse_frame(buf@, pos as int)),
        r matches Ok(Some((_, e))) ==> pos < e <= buf@.len(),
    decreases buf@.len() - pos,
{
    if pos >= buf.len() {
        return Ok(None);
    }
    match buf[pos] {
        SIMPLE_TAG => get_simple_string(buf, pos + 1),
        INTEGER_TAG => get_decimal(buf, pos + 1),
        BULK_TAG => get_bulk_string(buf, pos + 1),
        ARRAY_TAG => get_array(buf, pos + 1),
        _ => Err(RespError::InvalidProtocol),
    }
}

/// Where the first CR LF at or after `from` starts.
fn find_line_end(buf: &[u8], from: usize) -> (r: Option<usize>)
    requires
        from <= buf@.len(),
    ensures
        match r {
            Some(e) => find_crlf(buf@, from as int) == Some(e as int),
            None => find_crlf(buf@, from as int) is None,
        },
{
    let mut i = from;
    while buf.len() - i > 1
        invariant
            from <= i <= buf@.len(),
            find_crlf(buf@, from as int) == find_crlf(buf@, i as int),
        decreases buf.len() - i,
    {
        if buf[i] == 13 && buf[i + 1] == 10 {
            return Some(i);
        }
        i = i + 1;
    }
    None
}

/// Reads the header line `buf[start..end]` as an integer.
fn read_line_integer(buf: &[u8], start: usize, end: usize) -> (r: Result<i64, RespError>)
    requires
        start <= end <= buf@.len(),
    ensures
        match r {
            Ok(n) => line_integer(buf@.subrange(start as int, end as int)) == Ok::<int, RespError>(
                n as int,
            ),
            Err(e) => line_integer(buf@.subrange(start as int, end as int)) == Err::<int, RespError>(e),
        },
{
    let line = slice_subrange(buf, start, end);
    match utf8_to_string(slice_to_vec(line)) {
        None => Err(RespError::Utf8Error),
        Some(_) => match parse_decimal(line) {
            Some(n) => Ok(n),
            None => Err(RespError::IntError),
        },
    }
}

/// Reads a simple string whose text starts at `start`.
fn get_simple_string(buf: &[u8], start: usize) -> (r: ReadOutcome)
    requires
        start <= buf@.len(),
    ensures
        outcome_is(r, parse_simple(buf@, start as int)),
        r matches Ok(Some((_, e))) ==> start < e <= buf@.len(),
{
    let e = match find_line_end(buf, start) {
        Some(e) => e,
        None => return Ok(None),
    };
    proof {
        lemma_find_crlf(buf@, start as int);
    }
    assert(e + 2 <= buf.len());
    match utf8_to_string(slice_to_vec(slice_subrange(buf, start, e))) {
        Some(s) => Ok(Some((RespType::SimpleString(s), e + 2))),
        None => Err(RespError::Utf8Error),
    }
}

/// Reads an integer whose digits start at `start`.
fn get_decimal(buf: &[u8], start: usize) -> (r: ReadOutcome)
    requires
        start <= buf@.len(),
    ensures
        outcome_is(r, parse_integer(buf@, start as int)),
        r matches Ok(Some((_, e))) ==> start < e <= buf@.len(),
{
    let e = match find_line_end(buf, start) {
        Some(e) => e,
        None => return Ok(None),
    };
    proof {
        lemma_find_crlf(buf@, start as int);
    }
    assert(e + 2 <= buf.len());
    match read_line_integer(buf, start, e) {
        Ok(n) => Ok(Some((RespType::Integer(n), e + 2))),
        Err(err) => Err(err),
    }
}

/// Reads a bulk string whose length header starts at `start`.
fn get_bulk_string(buf: &[u8], start: usize) -> (r: ReadOutcome)
    requires
        start <= buf@.len(),
    ensures
        outcome_is(r, parse_bulk(buf@, start as int)),
        r matches Ok(Some((_, e))) ==> start < e <= buf@.len(),
{
    let e = match find_line_end(buf, start) {
        Some(e) => e,
        None => return Ok(None),
    };
    proof {
        lemma_find_crlf(buf@, start as int);
    }
    assert(e + 2 <= buf.len());
    let len = match read_line_integer(buf, start, e) {
        Ok(n) => n,
        Err(err) => return Err(err),
    };
    if len == -1 {
        return Ok(Some((RespType::Null, e + 2)));
    }
    if len < 0 {
        return Err(RespError::InvalidProtocol);
    }
    let data_start = e + 2;
    let avail = (buf.len() - data_start) as u64;
    if avail < 2 || len as u64 > avail - 2 {
        return Ok(None);
    }
    let data_end = data_start + len as usize;
    if buf[data_end] != 13 || buf[data_end + 1] != 10 {
        return Err(RespError::InvalidProtocol);
    }
    let data = slice_to_vec(slice_subrange(buf, data_start, data_end));
    Ok(Some((RespType::BulkString(data), data_end + 2)))
}

/// Reads an array whose count header starts at `start`. No items are handed
/// out unless all of them are there.
fn get_array(buf: &[u8], start: usize) -> (r: ReadOutcome)
    requires
        start <= buf@.len(),
    ensures
        outcome_is(r, parse_array(buf@, start as int)),
        r matches Ok(Some((_, e))) ==> start < e <= buf@.len(),
    decreases buf@.len() - start,
{
    let e = match find_line_end(buf, start) {
        Some(e) => e,
        None => return Ok(None),
    };
    proof {
        lemma_find_crlf(buf@, start as int);
    }
    assert(e + 2 <= buf.len());
    let count = match read_line_integer(buf, start, e) {
        Ok(n) => n,
        Err(err) => return Err(err),
    };
    if count == -1 {
        return Ok(Some((RespType::Null, e + 2)));
    }
    if count < 0 {
        return Err(RespError::InvalidProtocol);
    }
    assert(parse_array(buf@, start as int) == parse_items(buf@, e + 2, count as nat));
    let mut items: Vec<RespType> = Vec::new();
    let mut pos: usize = e + 2;
    let mut k: i64 = 0;
    let ghost views: Seq<Frame> = seq![];
    while k < count
        invariant
            0 <= k <= count,
            start < e + 2 <= pos <= buf@.len(),
            items@.len() == k,
            views.len() == k,
            forall|i: int| 0 <= i < k ==> #[trigger] items@[i]@ == views[i],
            parse_array(buf@, start as int) == parse_items(buf@, e + 2, count as nat),
            parse_items(buf@, e + 2, count as nat) == prepend_items(
                views,
                parse_items(buf@, pos as int, (count - k) as nat),
            ),
        decreases count - k,
    {
        let ghost before = pos as int;
        let ghost left = (count - k) as nat;
        let step = parse_next(buf, pos);
        assert(parse_items(buf@, before, left) == match parse_frame(buf@, before) {
            Parsed::Ready(first, next) => if before < next <= buf@.len() {
                prepend_items(seq![first], parse_items(buf@, next, (left - 1) as nat))
            } else {
                Parsed::Incomplete
            },
            other => other,
        });
        match step {
            Ok(Some((value, next))) => {
                assert(parse_frame(buf@, before) == Parsed::Ready(value@, next as int));
                assert(parse_items(buf@, before, left) == prepend_items(
                    seq![value@],
                    parse_items(buf@, next as int, (left - 1) as nat),
                ));
                proof {
                    lemma_prepend_twice(
                        views,
                        seq![value@],
                        parse_items(buf@, next as int, (count - k - 1) as nat),
                    );
                    views = views + seq![value@];
                }
                items.push(value);
                pos = next;
                k = k + 1;
            },
            Ok(None) => return Ok(None),
            Err(err) => return Err(err),
        }
    }
    proof {
        assert(views + seq![] =~= views);
    }
    let ghost whole = RespType::Array(items);
    assert(whole@ == Frame::Array(views)) by {
        assert forall|i: int| 0 <= i < views.len() implies #[trigger] whole@->Array_0[i]
            == views[i] by {
            assert(items@[i]@ == views[i]);
        }
        assert(whole@->Array_0 =~= views);
    }
    Ok(Some((RespType::Array(items), pos)))
}

/// Appends the UTF-8 bytes of `s`.
fn push_text(out: &mut Vec<u8>, s: &str)
    ensures
        final(out)@ == old(out)@ + encode_utf8(s@),
{
    let mut bytes = slice_to_vec(s.as_bytes());
    out.append(&mut bytes);
}

/// Appends CR LF.
fn push_crlf(out: &mut Vec<u8>)
    ensures
        final(out)@ == old(out)@ + crlf(),
{
    out.push(13);
    out.push(10);
    assert(out@ =~= old(out)@ + crlf());
}

impl RespType {
    /// The bytes that stand for this value on the wire. An array has no
    /// encoding here: it comes out as a fixed error frame.
    pub fn serialize(&self) -> (r: Vec<u8>)
        ensures
            r@ == encoding(self@),
    {
        let mut out: Vec<u8> = Vec::new();
        match self {
            RespType::SimpleString(s) => {
                out.push(SIMPLE_TAG);
                push_text(&mut out, s.as_str());
                push_crlf(&mut out);
            },
            RespType::Error(msg) => {
                out.push(ERROR_TAG);
                push_text(&mut out, msg.as_str());
                push_crlf(&mut out);
            },
            RespType::Integer(n) => {
                out.push(INTEGER_TAG);
                push_decimal(&mut out, *n);
                push_crlf(&mut out);
            },
            RespType::BulkString(data) => {
                out.push(BULK_TAG);
                push_digits(&mut out, data.len() as u64);
                push_crlf(&mut out);
                let mut body = slice_to_vec(data.as_slice());
                out.append(&mut body);
                push_crlf(&mut out);
            },
            RespType::Null => {
                out.push(BULK_TAG);
                out.push(ERROR_TAG);
                out.push(49);
                push_crlf(&mut out);
            },
            RespType::Array(_) => {
                out.push(ERROR_TAG);
                push_text(&mut out, "ERR array serialization not supported");
                push_crlf(&mut out);
            },
        }
        assert(out@ =~= encoding(self@));
        out
    }
}

} // verus!
