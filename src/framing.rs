//! Laws of the wire format: what the encoder writes reads back as the same
//! value, and a frame that has not fully arrived is never taken.
use crate::decimal::{
    decimal_text,
    decimal_value,
    digits_value,
    lemma_decimal_round_trip,
    lemma_decimal_text_bytes,
};
use crate::protocol::{
    crlf,
    crlf_at,
    encoding,
    find_crlf,
    line_integer,
    parse_frame,
    parse_items,
    prepend_items,
    Frame,
    Parsed,
};
use crate::text::{lemma_ascii_valid_utf8, lemma_encode_no_crlf, no_crlf_chars};
use vstd::prelude::*;
use vstd::utf8::{encode_utf8, encode_utf8_decode_utf8, encode_utf8_valid_utf8};

verus! {

/// The values whose encoding reads back as themselves. Error frames are written
/// but never read (a `-` tag starts no frame on input), an array is written as
/// an error frame, and simple text must not hold a CR LF pair, which would end
/// the frame early.
pub open spec fn round_trips(f: Frame) -> bool {
    match f {
        Frame::Simple(s) => no_crlf_chars(s),
        Frame::Integer(n) => i64::MIN <= n <= i64::MAX,
        Frame::Bulk(b) => b.len() <= i64::MAX,
        Frame::Null => true,
        Frame::Error(_) => false,
        Frame::Array(_) => false,
    }
}

/// The two buffers hold the same first `m` bytes.
pub open spec fn agree(a: Seq<u8>, b: Seq<u8>, m: int) -> bool {
    &&& 0 <= m <= a.len()
    &&& m <= b.len()
    &&& forall|i: int| 0 <= i < m ==> a[i] == b[i]
}

/// The first CR LF from `from` is at `e` when none starts before it.
proof fn lemma_crlf_first(buf: Seq<u8>, from: int, e: int)
    requires
        0 <= from <= e,
        crlf_at(buf, e),
        forall|j: int| from <= j < e ==> !#[trigger] crlf_at(buf, j),
    ensures
        find_crlf(buf, from) == Some(e),
    decreases e - from,
{
    if from < e {
        lemma_crlf_first(buf, from + 1, e);
    }
}

/// A buffer that agrees up to past the first CR LF finds it at the same place.
proof fn lemma_crlf_extend(a: Seq<u8>, b: Seq<u8>, from: int)
    requires
        0 <= from,
        find_crlf(a, from) matches Some(e) && agree(a, b, e + 2),
    ensures
        find_crlf(b, from) == find_crlf(a, from),
    decreases a.len() - from,
{
    crate::protocol::lemma_find_crlf(a, from);
    let e = find_crlf(a, from)->Some_0;
    if from < e {
        assert(!crlf_at(a, from));
        lemma_crlf_extend(a, b, from + 1);
    }
}

/// A buffer cut before the end of the first CR LF has none from `from`.
proof fn lemma_crlf_cut(a: Seq<u8>, from: int, k: int)
    requires
        0 <= from,
        0 <= k <= a.len(),
        find_crlf(a, from) matches Some(e) && k <= e + 1,
    ensures
        find_crlf(a.take(k), from) is None,
    decreases a.len() - from,
{
    crate::protocol::lemma_find_crlf(a, from);
    let e = find_crlf(a, from)->Some_0;
    let b = a.take(k);
    if from + 1 < k {
        assert(!crlf_at(a, from));
        assert(!crlf_at(b, from));
        lemma_crlf_cut(a, from + 1, k);
    }
}

proof fn lemma_frame_bounds(a: Seq<u8>, pos: int)
    ensures
        parse_frame(a, pos) matches Parsed::Ready(_, n) ==> pos < n <= a.len(),
    decreases a.len() - pos, 0int,
{
    if 0 <= pos < a.len() {
        crate::protocol::lemma_find_crlf(a, pos + 1);
        if a[pos] == 42 {
            if let Some(e) = find_crlf(a, pos + 1) {
                if let Ok(count) = line_integer(a.subrange(pos + 1, e)) {
                    if count >= 0 {
                        lemma_items_bounds(a, e + 2, count as nat);
                    }
                }
            }
        }
    }
}

proof fn lemma_items_bounds(a: Seq<u8>, pos: int, count: nat)
    requires
        0 <= pos <= a.len(),
    ensures
        parse_items(a, pos, count) matches Parsed::Ready(_, n) ==> pos <= n <= a.len(),
    decreases a.len() - pos, 1int,
{
    if count > 0 {
        lemma_frame_bounds(a, pos);
        if let Parsed::Ready(first, next) = parse_frame(a, pos) {
            lemma_items_bounds(a, next, (count - 1) as nat);
        }
    }
}

/// A whole frame reads the same from any buffer that holds the same bytes up to its end.
proof fn lemma_frame_extend(a: Seq<u8>, b: Seq<u8>, pos: int)
    requires
        parse_frame(a, pos) matches Parsed::Ready(_, n) && agree(a, b, n),
    ensures
        parse_frame(b, pos) == parse_frame(a, pos),
    decreases a.len() - pos, 0int,
{
    lemma_frame_bounds(a, pos);
    let n = parse_frame(a, pos)->Ready_1;
    let start = pos + 1;
    assert(a[pos] == b[pos]);
    crate::protocol::lemma_find_crlf(a, start);
    if let Some(e) = find_crlf(a, start) {
        if a[pos] == 42 {
            if let Ok(count) = line_integer(a.subrange(start, e)) {
                if count >= 0 {
                    lemma_items_bounds(a, e + 2, count as nat);
                }
            }
        }
        assert(e + 2 <= n);
        lemma_crlf_extend(a, b, start);
        assert(a.subrange(start, e) =~= b.subrange(start, e));
        if let Ok(len) = line_integer(a.subrange(start, e)) {
            if len >= 0 {
                if a[pos] == 36 {
                    assert(a.subrange(e + 2, e + 2 + len) =~= b.subrange(e + 2, e + 2 + len));
                } else if a[pos] == 42 {
                    lemma_items_extend(a, b, e + 2, len as nat);
                }
            }
        }
    }
}

proof fn lemma_items_extend(a: Seq<u8>, b: Seq<u8>, pos: int, count: nat)
    requires
        0 <= pos,
        parse_items(a, pos, count) matches Parsed::Ready(_, n) && agree(a, b, n),
    ensures
        parse_items(b, pos, count) == parse_items(a, pos, count),
    decreases a.len() - pos, 1int,
{
    if count > 0 {
        let next = parse_frame(a, pos)->Ready_1;
        let n = parse_items(a, pos, count)->Ready_1;
        lemma_items_bounds(a, next, (count - 1) as nat);
        lemma_frame_extend(a, b, pos);
        lemma_items_extend(a, b, next, (count - 1) as nat);
    }
}

/// A whole frame cut short reads as incomplete.
proof fn lemma_frame_cut(a: Seq<u8>, pos: int, k: int)
    requires
        parse_frame(a, pos) matches Parsed::Ready(_, n) && pos <= k < n,
    ensures
        parse_frame(a.take(k), pos) == Parsed::Incomplete,
    decreases a.len() - pos, 0int,
{
    lemma_frame_bounds(a, pos);
    let b = a.take(k);
    if k > pos {
        let start = pos + 1;
        crate::protocol::lemma_find_crlf(a, start);
        let e = find_crlf(a, start)->Some_0;
        if k <= e + 1 {
            lemma_crlf_cut(a, start, k);
        } else {
            lemma_crlf_extend(a, b, start);
            assert(a.subrange(start, e) =~= b.subrange(start, e));
            if a[pos] == 42 {
                let count = line_integer(a.subrange(start, e))->Ok_0;
                if count >= 0 {
                    lemma_items_cut(a, e + 2, count as nat, k);
                }
            }
        }
    }
}

proof fn lemma_items_cut(a: Seq<u8>, pos: int, count: nat, k: int)
    requires
        0 <= pos,
        parse_items(a, pos, count) matches Parsed::Ready(_, n) && pos <= k < n,
    ensures
        parse_items(a.take(k), pos, count) == Parsed::Incomplete,
    decreases a.len() - pos, 1int,
{
    let b = a.take(k);
    if count > 0 {
        lemma_frame_bounds(a, pos);
        lemma_items_bounds(a, pos, count);
        assert(b.len() == k);
        let first = parse_frame(a, pos)->Ready_0;
        let next = parse_frame(a, pos)->Ready_1;
        if k < next {
            lemma_frame_cut(a, pos, k);
        } else {
            lemma_frame_extend(a, b, pos);
            lemma_items_cut(a, next, (count - 1) as nat, k);
        }
    }
}

/// Prefix safety: every strict prefix of a whole frame reads as incomplete, so
/// `decode` returns nothing for it and leaves the buffer as it was.
pub proof fn lemma_prefix_incomplete(buf: Seq<u8>, k: int)
    requires
        parse_frame(buf, 0) matches Parsed::Ready(_, n) && 0 <= k < n,
    ensures
        parse_frame(buf.take(k), 0) == Parsed::Incomplete,
{
    lemma_frame_cut(buf, 0, k);
}

/// Round trip: the encoding of a value, with any bytes after it, reads back as
/// that value and takes exactly the encoding off the front.
pub proof fn lemma_round_trip(f: Frame, rest: Seq<u8>)
    requires
        round_trips(f),
    ensures
        parse_frame(encoding(f) + rest, 0) == Parsed::Ready(f, encoding(f).len() as int),
{
    let enc = encoding(f);
    let buf = enc + rest;
    assert(forall|i: int| 0 <= i < enc.len() ==> buf[i] == enc[i]);
    match f {
        Frame::Simple(s) => {
            let body = encode_utf8(s);
            lemma_encode_no_crlf(s);
            let e = 1 + body.len() as int;
            assert(enc == seq![43u8] + body + crlf());
            assert(forall|j: int| 1 <= j < e ==> buf[j] == body[j - 1]);
            assert forall|j: int| 1 <= j < e implies !#[trigger] crlf_at(buf, j) by {
                if j + 1 < e {
                    assert(buf[j + 1] == body[j]);
                } else {
                    assert(buf[j + 1] == 13);
                }
            }
            lemma_crlf_first(buf, 1, e);
            assert(buf.subrange(1, e) =~= body);
            encode_utf8_valid_utf8(s);
            encode_utf8_decode_utf8(s);
        },
        Frame::Integer(n) => {
            let digits = decimal_text(n);
            lemma_decimal_text_bytes(n);
            lemma_decimal_round_trip(n);
            let e = 1 + digits.len() as int;
            assert(forall|j: int| 1 <= j < e ==> buf[j] == digits[j - 1]);
            assert forall|j: int| 1 <= j < e implies !#[trigger] crlf_at(buf, j) by {
                assert(buf[j] == digits[j - 1]);
            }
            lemma_crlf_first(buf, 1, e);
            assert(buf.subrange(1, e) =~= digits);
            lemma_ascii_valid_utf8(digits);
        },
        Frame::Bulk(data) => {
            let digits = decimal_text(data.len() as int);
            lemma_decimal_text_bytes(data.len() as int);
            lemma_decimal_round_trip(data.len() as int);
            let e = 1 + digits.len() as int;
            assert(forall|j: int| 1 <= j < e ==> buf[j] == digits[j - 1]);
            assert forall|j: int| 1 <= j < e implies !#[trigger] crlf_at(buf, j) by {
                assert(buf[j] == digits[j - 1]);
            }
            lemma_crlf_first(buf, 1, e);
            assert(buf.subrange(1, e) =~= digits);
            lemma_ascii_valid_utf8(digits);
            assert(buf.subrange(e + 2, e + 2 + data.len() as int) =~= data);
        },
        Frame::Null => {
            let digits = seq![45u8, 49u8];
            assert(!crlf_at(buf, 1) && !crlf_at(buf, 2));
            lemma_crlf_first(buf, 1, 3);
            assert(buf.subrange(1, 3) =~= digits);
            lemma_ascii_valid_utf8(digits);
            assert(digits.drop_first() =~= seq![49u8]);
            assert(seq![49u8].drop_last() =~= Seq::<u8>::empty());
            assert(digits_value(Seq::<u8>::empty()) == 0);
            assert(digits_value(seq![49u8]) == 1);
            assert(decimal_value(digits) == Some(-1int));
        },
        _ => {},
    }
}

} // verus!
