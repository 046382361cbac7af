//! Signed decimal text, as the wire format writes integers and lengths.
use vstd::prelude::*;

verus! {

/// An ASCII digit `0`..`9`.
pub open spec fn is_digit(b: u8) -> bool {
    48 <= b <= 57
}

pub open spec fn all_digits(ds: Seq<u8>) -> bool {
    forall|i: int| 0 <= i < ds.len() ==> is_digit(#[trigger] ds[i])
}

/// The number that a run of ASCII digits denotes, most significant first.
pub open spec fn digits_value(ds: Seq<u8>) -> int
    decreases ds.len(),
{
    if ds.len() == 0 {
        0
    } else {
        digits_value(ds.drop_last()) * 10 + (ds.last() - 48)
    }
}

/// The value of signed decimal text: an optional `+` or `-`, then one digit or
/// more. `None` where the text has another shape or the value is outside `i64`.
pub open spec fn decimal_value(s: Seq<u8>) -> Option<int> {
    let signed = s.len() > 0 && (s[0] == 45 || s[0] == 43);
    let ds = if signed {
        s.drop_first()
    } else {
        s
    };
    let magnitude = digits_value(ds);
    let v = if s.len() > 0 && s[0] == 45 {
        -magnitude
    } else {
        magnitude
    };
    if ds.len() == 0 || !all_digits(ds) || v < i64::MIN || v > i64::MAX {
        None
    } else {
        Some(v)
    }
}

/// The shortest decimal digits of a natural number.
pub open spec fn digits_of(n: nat) -> Seq<u8>
    decreases n,
{
    if n < 10 {
        seq![(48 + n) as u8]
    } else {
        digits_of(n / 10).push((48 + n % 10) as u8)
    }
}

/// The canonical decimal text of an integer: a `-` for negatives, then its digits.
pub open spec fn decimal_text(n: int) -> Seq<u8> {
    if n < 0 {
        seq![45u8] + digits_of((-n) as nat)
    } else {
        digits_of(n as nat)
    }
}

proof fn lemma_digits_of(n: nat)
    ensures
        digits_of(n).len() > 0,
        all_digits(digits_of(n)),
        digits_value(digits_of(n)) == n,
    decreases n,
{
    if n < 10 {
        assert(digits_of(n).drop_last() =~= Seq::<u8>::empty());
        assert(digits_value(digits_of(n).drop_last()) == 0);
        assert(digits_of(n).last() == (48 + n) as u8);
    } else {
        lemma_digits_of(n / 10);
        let ds = digits_of(n);
        assert(ds.drop_last() =~= digits_of(n / 10));
        assert(ds.last() == (48 + n % 10) as u8);
        assert(n == (n / 10) * 10 + n % 10);
        assert(digits_value(ds.drop_last()) == n / 10);
        assert(digits_value(ds) == digits_value(ds.drop_last()) * 10 + (ds.last() - 48));
        assert(ds.last() - 48 == n % 10);
        assert forall|i: int| 0 <= i < ds.len() implies is_digit(#[trigger] ds[i]) by {
            if i < ds.len() - 1 {
                assert(ds[i] == digits_of(n / 10)[i]);
            }
        }
    }
}

/// Every byte of the canonical text is a digit or a `-`: none is a control byte.
pub proof fn lemma_decimal_text_bytes(n: int)
    ensures
        decimal_text(n).len() > 0,
        forall|i: int|
            0 <= i < decimal_text(n).len() ==> is_digit(#[trigger] decimal_text(n)[i])
                || decimal_text(n)[i] == 45,
{
    if n < 0 {
        lemma_digits_of((-n) as nat);
        let ds = digits_of((-n) as nat);
        assert forall|i: int| 0 <= i < decimal_text(n).len() implies is_digit(
            #[trigger] decimal_text(n)[i],
        ) || decimal_text(n)[i] == 45 by {
            if i > 0 {
                assert(decimal_text(n)[i] == ds[i - 1]);
            }
        }
    } else {
        lemma_digits_of(n as nat);
    }
}

/// Reading back the canonical text of an `i64` gives the same number.
pub proof fn lemma_decimal_round_trip(n: int)
    requires
        i64::MIN <= n <= i64::MAX,
    ensures
        decimal_value(decimal_text(n)) == Some(n),
{
    if n < 0 {
        lemma_digits_of((-n) as nat);
        assert(decimal_text(n).drop_first() =~= digits_of((-n) as nat));
    } else {
        lemma_digits_of(n as nat);
    }
}

/// Past this bound the running value of a digit run is only kept as "too large".
const SATURATED: u128 = 0x1_0000_0000_0000_0000;

proof fn lemma_digits_value_nonneg(ds: Seq<u8>)
    requires
        all_digits(ds),
    ensures
        digits_value(ds) >= 0,
    decreases ds.len(),
{
    if ds.len() > 0 {
        lemma_digits_value_nonneg(ds.drop_last());
    }
}

proof fn lemma_digit_step(before: Seq<u8>, after: Seq<u8>, b: u8)
    requires
        all_digits(before),
        is_digit(b),
        after == before.push(b),
    ensures
        all_digits(after),
        digits_value(after) == digits_value(before) * 10 + (b - 48),
        digits_value(before) >= 0,
{
    lemma_digits_value_nonneg(before);
    assert(after.drop_last() =~= before);
    assert forall|j: int| 0 <= j < after.len() implies is_digit(#[trigger] after[j]) by {
        if j < before.len() {
            assert(after[j] == before[j]);
        }
    }
}

/// Reads signed decimal text as an `i64`.
#[verifier::rlimit(40)]
pub fn parse_decimal(s: &[u8]) -> (r: Option<i64>)
    ensures
        match r {
            Some(n) => decimal_value(s@) == Some(n as int),
            None => decimal_value(s@) is None,
        },
{
    let len = s.len();
    if len == 0 {
        return None;
    }
    let negative = s[0] == 45;
    let start: usize = if s[0] == 45 || s[0] == 43 {
        1
    } else {
        0
    };
    let ghost ds = if start == 1 {
        s@.drop_first()
    } else {
        s@
    };
    assert(ds =~= s@.subrange(start as int, len as int));
    if start == len {
        return None;
    }
    let mut acc: u128 = 0;
    let mut i: usize = start;
    while i < len
        invariant
            start <= i <= len,
            len == s@.len(),
            ds == s@.subrange(start as int, len as int),
            ds == (if s@[0] == 45 || s@[0] == 43 {
                s@.drop_first()
            } else {
                s@
            }),
            negative == (s@[0] == 45),
            all_digits(s@.subrange(start as int, i as int)),
            digits_value(s@.subrange(start as int, i as int)) >= SATURATED ==> acc == SATURATED,
            digits_value(s@.subrange(start as int, i as int)) < SATURATED ==> acc == digits_value(
                s@.subrange(start as int, i as int),
            ),
        decreases len - i,
    {
        let b = s[i];
        let ghost before = s@.subrange(start as int, i as int);
        let ghost after = s@.subrange(start as int, i as int + 1);
        assert(after =~= before.push(b));
        if b < 48 || b > 57 {
            assert(after[i - start] == b);
            assert(!all_digits(s@.subrange(start as int, len as int))) by {
                assert(s@.subrange(start as int, len as int)[i - start] == b);
            }
            return None;
        }
        proof {
            lemma_digit_step(before, after, b);
        }
        let next: u128 = acc * 10 + (b - 48) as u128;
        acc = if next > SATURATED {
            SATURATED
        } else {
            next
        };
        i = i + 1;
    }
    let ghost v = digits_value(ds);
    if negative {
        if acc <= 0x8000_0000_0000_0000 {
            let n = (0i128 - acc as i128) as i64;
            Some(n)
        } else {
            None
        }
    } else {
        if acc <= 0x7fff_ffff_ffff_ffff {
            Some(acc as i64)
        } else {
            None
        }
    }
}

/// Appends the digits of `m`.
pub(crate) fn push_digits(out: &mut Vec<u8>, m: u64)
    ensures
        final(out)@ == old(out)@ + digits_of(m as nat),
    decreases m,
{
    if m >= 10 {
        push_digits(out, m / 10);
    }
    out.push(48 + (m % 10) as u8);
    assert(out@ =~= old(out)@ + digits_of(m as nat));
}

/// Appends the canonical decimal text of `n`.
pub fn push_decimal(out: &mut Vec<u8>, n: i64)
    ensures
        final(out)@ == old(out)@ + decimal_text(n as int),
{
    if n < 0 {
        out.push(45);
        let magnitude = (0i128 - n as i128) as u64;
        push_digits(out, magnitude);
        assert(out@ =~= old(out)@ + decimal_text(n as int));
    } else {
        push_digits(out, n as u64);
    }
}

} // verus!
