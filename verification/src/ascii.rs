//! Small unsigned numbers as ASCII decimal text, as the acknowledgement
//! carries them.

use vstd::prelude::*;

verus! {

/// The separator between the fields of a textual message.
pub const BAR: u8 = 0x7C;

/// The sign that may stand in front of a number.
pub const PLUS: u8 = 0x2B;

/// The digit `0`.
pub const ZERO: u8 = 0x30;

/// Whether `b` is one of `0` to `9`.
pub open spec fn is_digit(b: u8) -> bool {
    ZERO <= b <= ZERO + 9
}

/// Whether `s` consists of digits only.
pub open spec fn all_digits(s: Seq<u8>) -> bool {
    forall|i: int| 0 <= i < s.len() ==> is_digit(#[trigger] s[i])
}

/// The number that a run of digits writes, leading zeros allowed.
pub open spec fn digits_value(s: Seq<u8>) -> nat
    decreases s.len(),
{
    if s.len() == 0 {
        0
    } else {
        (digits_value(s.drop_last()) * 10 + (s.last() - ZERO)) as nat
    }
}

/// The shortest run of digits that writes `v`.
pub open spec fn decimal(v: nat) -> Seq<u8>
    decreases v,
{
    if v < 10 {
        seq![(ZERO + v) as u8]
    } else {
        decimal(v / 10).push((ZERO + v % 10) as u8)
    }
}

/// The digits of a number's text: the text itself, without the one `+` that
/// may lead it.
pub open spec fn unsigned_digits(s: Seq<u8>) -> Seq<u8> {
    if s.len() > 0 && s[0] == PLUS {
        s.skip(1)
    } else {
        s
    }
}

/// The value of a number's text: an optional `+`, then at least one digit,
/// writing a number of at most 255. Any other text has no value.
pub open spec fn parse_u8_text(s: Seq<u8>) -> Option<u8> {
    let d = unsigned_digits(s);
    if d.len() > 0 && all_digits(d) && digits_value(d) <= 255 {
        Some(digits_value(d) as u8)
    } else {
        None
    }
}

/// The position of the first `b` in `s`, or the length of `s` if there is
/// none.
pub open spec fn first_index_of(s: Seq<u8>, b: u8) -> int
    decreases s.len(),
{
    if s.len() == 0 {
        0
    } else if s[0] == b {
        0
    } else {
        1 + first_index_of(s.drop_first(), b)
    }
}

/// `first_index_of` finds the first occurrence and nothing before it.
pub proof fn lemma_first_index_of(s: Seq<u8>, b: u8)
    ensures
        0 <= first_index_of(s, b) <= s.len(),
        first_index_of(s, b) < s.len() ==> s[first_index_of(s, b)] == b,
        forall|i: int| 0 <= i < first_index_of(s, b) ==> s[i] != b,
    decreases s.len(),
{
    if s.len() > 0 && s[0] != b {
        let rest = s.drop_first();
        lemma_first_index_of(rest, b);
        assert forall|i: int| 0 <= i < first_index_of(s, b) implies s[i] != b by {
            if i > 0 {
                assert(s[i] == rest[i - 1]);
            }
        }
    }
}

/// A position that holds `b` with no `b` before it is the first occurrence.
pub proof fn lemma_first_index_is(s: Seq<u8>, b: u8, at: int)
    requires
        0 <= at <= s.len(),
        at < s.len() ==> s[at] == b,
        forall|i: int| 0 <= i < at ==> s[i] != b,
    ensures
        first_index_of(s, b) == at,
{
    lemma_first_index_of(s, b);
    let f = first_index_of(s, b);
    if f < at {
        assert(s[f] == b);
    }
}

/// A longer run of digits writes at least as much as any prefix of it.
pub proof fn lemma_digits_value_prefix(s: Seq<u8>, n: int)
    requires
        0 <= n <= s.len(),
        all_digits(s),
    ensures
        digits_value(s.take(n)) <= digits_value(s),
    decreases s.len() - n,
{
    if n < s.len() {
        lemma_digits_value_prefix(s, n + 1);
        let longer = s.take(n + 1);
        assert(longer.drop_last() =~= s.take(n));
        assert(is_digit(longer.last()));
    } else {
        assert(s.take(n) =~= s);
    }
}

/// The shortest text of a number is made of digits, has one to three of
/// them for a byte, and writes that number.
pub proof fn lemma_decimal(v: nat)
    ensures
        decimal(v).len() > 0,
        all_digits(decimal(v)),
        digits_value(decimal(v)) == v,
        v <= 255 ==> decimal(v).len() <= 3,
    decreases v,
{
    if v < 10 {
        let d = decimal(v);
        assert(d.drop_last() =~= Seq::<u8>::empty());
        assert(digits_value(d.drop_last()) == 0);
    } else {
        lemma_decimal(v / 10);
        let d = decimal(v);
        assert(d.drop_last() =~= decimal(v / 10));
        if v <= 255 {
            lemma_decimal(v / 100);
            assert(decimal(v / 10).len() <= 2) by {
                if v / 10 >= 10 {
                    assert(decimal(v / 10).drop_last() =~= decimal(v / 100));
                    assert(v / 100 < 10);
                }
            }
        }
    }
}

/// The text of a byte reads back as that byte.
pub proof fn lemma_parse_decimal(v: u8)
    ensures
        parse_u8_text(decimal(v as nat)) == Some(v),
{
    lemma_decimal(v as nat);
    let d = decimal(v as nat);
    assert(is_digit(d[0]));
    assert(unsigned_digits(d) == d);
}

/// Appends the shortest decimal text of `v` to `buf`.
pub fn put_decimal(buf: &mut Vec<u8>, v: u8)
    ensures
        final(buf)@ == old(buf)@ + decimal(v as nat),
{
    proof {
        reveal_with_fuel(decimal, 3);
    }
    if v >= 100 {
        buf.push(ZERO + v / 100);
    }
    if v >= 10 {
        buf.push(ZERO + (v / 10) % 10);
    }
    buf.push(ZERO + v % 10);
    assert(buf@ =~= old(buf)@ + decimal(v as nat));
}

/// Reads a number's text: an optional `+`, then digits that write at most
/// 255. Gives `None` for any other text.
pub fn parse_u8(text: &[u8]) -> (r: Option<u8>)
    ensures
        r == parse_u8_text(text@),
{
    let start: usize = if text.len() > 0 && text[0] == PLUS {
        1
    } else {
        0
    };
    if start >= text.len() {
        return None;
    }
    let ghost digits = unsigned_digits(text@);
    assert(digits =~= text@.subrange(start as int, text@.len() as int));
    let mut value: u16 = 0;
    let mut i: usize = start;
    while i < text.len()
        invariant
            start <= i <= text@.len(),
            digits == unsigned_digits(text@),
            digits == text@.subrange(start as int, text@.len() as int),
            all_digits(digits.take(i - start)),
            value == digits_value(digits.take(i - start)),
            value <= 255,
        decreases text@.len() - i,
    {
        let b = text[i];
        assert(digits[i - start] == b);
        if b < ZERO || b > ZERO + 9 {
            assert(!is_digit(digits[i - start]));
            return None;
        }
        let ghost longer = digits.take(i - start + 1);
        assert(longer.drop_last() =~= digits.take(i - start));
        assert(longer.last() == b);
        assert(all_digits(longer)) by {
            assert forall|k: int| 0 <= k < longer.len() implies is_digit(#[trigger] longer[k]) by {
                if k < i - start {
                    assert(longer[k] == digits.take(i - start)[k]);
                }
            }
        }
        value = value * 10 + (b - ZERO) as u16;
        if value > 255 {
            proof {
                if all_digits(digits) {
                    lemma_digits_value_prefix(digits, i - start + 1);
                }
            }
            return None;
        }
        i += 1;
    }
    assert(digits.take(i - start) =~= digits);
    Some(value as u8)
}

} // verus!
