//! UTF-8 text and ASCII letter case.
use vstd::prelude::*;
use vstd::utf8::{decode_utf8, encode_scalar, encode_utf8, valid_utf8};

verus! {

/// Relies on `String::from_utf8`: it succeeds exactly on valid UTF-8, and the
/// string then holds the characters that the bytes encode.
#[verifier::external_body]
pub(crate) fn utf8_to_string(bytes: Vec<u8>) -> (r: Option<String>)
    ensures
        r is Some <==> valid_utf8(bytes@),
        r matches Some(s) ==> s@ == decode_utf8(bytes@),
{
    String::from_utf8(bytes).ok()
}

/// A byte with the ASCII lower-case letters turned to upper case.
pub open spec fn upper_byte(b: u8) -> u8 {
    if 97 <= b <= 122 {
        (b - 32) as u8
    } else {
        b
    }
}

/// Bytes with the ASCII lower-case letters turned to upper case, the rest kept.
pub open spec fn ascii_upper(s: Seq<u8>) -> Seq<u8> {
    Seq::new(s.len(), |i: int| upper_byte(s[i]))
}

/// Two byte strings that differ at most in the case of ASCII letters.
pub open spec fn same_ignoring_case(a: Seq<u8>, b: Seq<u8>) -> bool {
    a.len() == b.len() && forall|i: int| 0 <= i < a.len() ==> upper_byte(#[trigger] a[i]) == upper_byte(b[i])
}

/// Text in which no carriage return is followed by a line feed.
pub open spec fn no_crlf_chars(s: Seq<char>) -> bool {
    forall|i: int| 0 <= i < s.len() - 1 ==> !(#[trigger] s[i] == '\r' && s[i + 1] == '\n')
}

/// Bytes in which no byte 13 is followed by a byte 10.
pub open spec fn no_crlf_bytes(b: Seq<u8>) -> bool {
    forall|i: int| 0 <= i < b.len() - 1 ==> !(#[trigger] b[i] == 13 && b[i + 1] == 10)
}

/// Bytes that are all ASCII.
pub open spec fn is_ascii_bytes(b: Seq<u8>) -> bool {
    forall|i: int| 0 <= i < b.len() ==> #[trigger] b[i] < 128
}

/// Copies the bytes with ASCII lower-case letters turned to upper case. Only
/// ASCII letters change: other letters keep their case (`straße` gives
/// `STRAßE`, where full Unicode upper-casing would give `STRASSE`). The four
/// command names are ASCII, so they are recognised in any letter case; an
/// unknown name is reported with only its ASCII letters upper-cased.
pub fn upper_case(s: &[u8]) -> (r: Vec<u8>)
    ensures
        r@ == ascii_upper(s@),
{
    let mut out: Vec<u8> = Vec::new();
    let mut i: usize = 0;
    while i < s.len()
        invariant
            i <= s@.len(),
            out@ =~= ascii_upper(s@.subrange(0, i as int)),
        decreases s.len() - i,
    {
        let b = s[i];
        let u = if 97 <= b && b <= 122 {
            b - 32
        } else {
            b
        };
        out.push(u);
        i = i + 1;
    }
    assert(s@.subrange(0, s@.len() as int) =~= s@);
    out
}

/// A character is encoded either as the one byte of its own value, or as
/// bytes that all have the high bit set.
proof fn lemma_scalar_shape(c: char)
    ensures
        encode_scalar(c as u32).len() >= 1,
        encode_scalar(c as u32).len() == 1 ==> encode_scalar(c as u32)[0] as u32 == c as u32,
        encode_scalar(c as u32).len() > 1 ==> forall|k: int|
            0 <= k < encode_scalar(c as u32).len() ==> #[trigger] encode_scalar(c as u32)[k]
                >= 0x80,
{
    let v = c as u32;
    assert(forall|x: u8| #![auto] (0x80u8 | x) >= 0x80u8) by (bit_vector);
    assert(forall|x: u8| #![auto] (0xC0u8 | x) >= 0x80u8) by (bit_vector);
    assert(forall|x: u8| #![auto] (0xE0u8 | x) >= 0x80u8) by (bit_vector);
    assert(forall|x: u8| #![auto] (0xF0u8 | x) >= 0x80u8) by (bit_vector);
    assert(v <= 0x7f ==> ((v & 0x7f) as u8) as u32 == v) by (bit_vector);
}

/// A character whose value is that of `'\r'` (or `'\n'`) is that character.
proof fn lemma_char_value(c: char, d: char)
    requires
        c as u32 == d as u32,
    ensures
        c == d,
{
    vstd::utf8::char_u32_cast(c, c as u32);
    vstd::utf8::char_u32_cast(d, d as u32);
}

/// The UTF-8 encoding of text with no CR LF pair holds no such pair of bytes.
pub proof fn lemma_encode_no_crlf(s: Seq<char>)
    requires
        no_crlf_chars(s),
    ensures
        no_crlf_bytes(encode_utf8(s)),
    decreases s.len(),
{
    if s.len() > 0 {
        let rest = s.drop_first();
        assert(no_crlf_chars(rest)) by {
            assert forall|i: int| 0 <= i < rest.len() - 1 implies !(#[trigger] rest[i] == '\r'
                && rest[i + 1] == '\n') by {
                assert(rest[i] == s[i + 1] && rest[i + 1] == s[i + 2]);
            }
        }
        lemma_encode_no_crlf(rest);
        lemma_scalar_shape(s[0]);
        let head = encode_scalar(s[0] as u32);
        let tail = encode_utf8(rest);
        let all = head + tail;
        assert(encode_utf8(s) == all);
        assert forall|j: int| 0 <= j < all.len() - 1 implies !(#[trigger] all[j] == 13 && all[j
            + 1] == 10) by {
            if j + 1 < head.len() {
                assert(all[j] == head[j]);
            } else if j >= head.len() {
                assert(all[j] == tail[j - head.len()]);
                assert(all[j + 1] == tail[j + 1 - head.len()]);
            } else if all[j] == 13 && all[j + 1] == 10 {
                assert(all[j] == head[j]);
                assert(head.len() == 1);
                lemma_char_value(s[0], '\r');
                assert(rest.len() > 0);
                lemma_scalar_shape(rest[0]);
                let next = encode_scalar(rest[0] as u32);
                assert(tail == next + encode_utf8(rest.drop_first()));
                assert(all[j + 1] == next[0]);
                assert(next.len() == 1);
                lemma_char_value(rest[0], '\n');
                assert(s[1] == rest[0]);
            }
        }
    }
}

/// ASCII bytes are valid UTF-8.
pub proof fn lemma_ascii_valid_utf8(b: Seq<u8>)
    requires
        is_ascii_bytes(b),
    ensures
        valid_utf8(b),
    decreases b.len(),
{
    if b.len() > 0 {
        let x = b[0];
        assert(x < 128);
        assert(x <= 0x7f ==> (x & 0x7f) as u32 <= 0x7f) by (bit_vector);
        assert(vstd::utf8::valid_first_scalar(b));
        let rest = vstd::utf8::pop_first_scalar(b);
        assert(rest =~= b.drop_first());
        lemma_ascii_valid_utf8(rest);
    }
}

} // verus!
