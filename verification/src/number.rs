use vstd::prelude::*;
use crate::text::{chars_of, push_char};

verus! {

/// The decimal digit character for `d < 10`.
pub open spec fn digit_char(d: nat) -> char {
    seq!['0', '1', '2', '3', '4', '5', '6', '7', '8', '9'][d as int]
}

/// The value of a decimal digit character.
pub open spec fn digit_value(c: char) -> nat {
    ((c as u32) - ('0' as u32)) as nat
}

/// Whether `c` is one of '0'..='9'.
pub open spec fn is_digit(c: char) -> bool {
    '0' <= c && c <= '9'
}

/// The decimal representation of `n`, without leading zeros.
pub open spec fn decimal(n: nat) -> Seq<char>
    decreases n,
{
    if n < 10 {
        seq![digit_char(n)]
    } else {
        decimal(n / 10).push(digit_char(n % 10))
    }
}

/// The value of a sequence of decimal digits.
pub open spec fn digits_value(s: Seq<char>) -> nat
    decreases s.len(),
{
    if s.len() == 0 {
        0
    } else {
        digits_value(s.drop_last()) * 10 + digit_value(s.last())
    }
}

/// `s` without one leading '+'.
pub open spec fn unsigned_digits(s: Seq<char>) -> Seq<char> {
    if s.len() > 0 && s[0] == '+' {
        s.drop_first()
    } else {
        s
    }
}

/// Whether every character of `t` is a decimal digit.
pub open spec fn all_digits(t: Seq<char>) -> bool {
    forall|i: int| 0 <= i < t.len() ==> is_digit(#[trigger] t[i])
}

/// `usize`'s `FromStr`: an optional '+' followed by one or more decimal digits, whose value
/// fits in a `usize`.
pub open spec fn parse_usize_spec(s: Seq<char>) -> Option<nat> {
    let t = unsigned_digits(s);
    if t.len() > 0 && all_digits(t) && digits_value(t) <= usize::MAX {
        Some(digits_value(t))
    } else {
        None
    }
}

/// The character for the digit `d`.
fn digit(d: usize) -> (c: char)
    requires
        d < 10,
    ensures
        c == digit_char(d as nat),
{
    match d {
        0 => '0',
        1 => '1',
        2 => '2',
        3 => '3',
        4 => '4',
        5 => '5',
        6 => '6',
        7 => '7',
        8 => '8',
        _ => '9',
    }
}

/// Appends the decimal representation of `n` to `s` (`usize`'s `Display`).
pub fn push_decimal(s: &mut String, n: usize)
    ensures
        final(s)@ == old(s)@ + decimal(n as nat),
    decreases n,
{
    if n < 10 {
        push_char(s, digit(n));
        assert(old(s)@.push(digit_char(n as nat)) =~= old(s)@ + seq![digit_char(n as nat)]);
    } else {
        push_decimal(s, n / 10);
        push_char(s, digit(n % 10));
        assert(old(s)@ + decimal(n as nat / 10) + seq![digit_char(n as nat % 10)] =~= old(s)@ + decimal(n as nat));
    }
}

/// Parses a `usize` written in decimal, as `str::parse::<usize>` does.
pub fn parse_usize(s: &str) -> (r: Option<usize>)
    ensures
        match r {
            Some(v) => parse_usize_spec(s@) == Some(v as nat),
            None => parse_usize_spec(s@) is None,
        },
{
    let c = chars_of(s);
    let start: usize = if c.len() > 0 && c[0] == '+' { 1 } else { 0 };
    let ghost t = unsigned_digits(c@);
    assert(t =~= c@.skip(start as int));
    if start == c.len() {
        return None;
    }
    let mut value: usize = 0;
    let mut i: usize = start;
    assert(c@.subrange(start as int, start as int) =~= Seq::<char>::empty());
    while i < c.len()
        invariant
            start <= i <= c@.len(),
            c@ == s@,
            t == unsigned_digits(c@),
            t == c@.skip(start as int),
            value as nat == digits_value(c@.subrange(start as int, i as int)),
            forall|k: int| start <= k < i ==> is_digit(#[trigger] c@[k]),
        decreases c@.len() - i,
    {
        let ch = c[i];
        if !('0' <= ch && ch <= '9') {
            assert(t[i - start] == ch);
            assert(!is_digit(t[(i - start) as int]));
            return None;
        }
        let d = ((ch as u32) - ('0' as u32)) as usize;
        assert(c@.subrange(start as int, i + 1).drop_last() =~= c@.subrange(start as int, i as int));
        assert(digits_value(c@.subrange(start as int, i + 1)) == value * 10 + d);
        match value.checked_mul(10) {
            None => {
                proof { lemma_digits_grow(t, (i - start) as int + 1); }
                assert(t.take((i - start) as int + 1) =~= c@.subrange(start as int, i + 1));
                return None;
            }
            Some(v10) => match v10.checked_add(d) {
                None => {
                    proof { lemma_digits_grow(t, (i - start) as int + 1); }
                    assert(t.take((i - start) as int + 1) =~= c@.subrange(start as int, i + 1));
                    return None;
                }
                Some(v) => {
                    value = v;
                }
            },
        }
        i += 1;
    }
    assert(c@.subrange(start as int, c@.len() as int) =~= t);
    assert forall|k: int| 0 <= k < t.len() implies is_digit(#[trigger] t[k]) by {
        assert(t[k] == c@[k + start]);
    }
    Some(value)
}

/// A decimal digit string is worth at least as much as any of its prefixes.
proof fn lemma_digits_grow(t: Seq<char>, k: int)
    requires
        0 <= k <= t.len(),
    ensures
        digits_value(t.take(k)) <= digits_value(t),
    decreases t.len() - k,
{
    if k < t.len() {
        lemma_digits_grow(t, k + 1);
        assert(t.take(k + 1).drop_last() =~= t.take(k));
    } else {
        assert(t.take(k) =~= t);
    }
}

} // verus!

verus! {

proof fn lemma_decimal_digits(n: nat)
    ensures
        all_digits(decimal(n)),
        decimal(n).len() > 0,
        digits_value(decimal(n)) == n,
    decreases n,
{
    let ds = seq!['0', '1', '2', '3', '4', '5', '6', '7', '8', '9'];
    assert(forall|d: int| 0 <= d < 10 ==> is_digit(#[trigger] ds[d]) && digit_value(ds[d]) == d);
    if n < 10 {
        assert(decimal(n).drop_last() =~= Seq::<char>::empty());
        assert(digits_value(Seq::<char>::empty()) == 0);
        assert(digit_value(decimal(n).last()) == n);
    } else {
        assert((n / 10) * 10 + n % 10 == n) by (nonlinear_arith);
        assert(digit_value(digit_char(n % 10)) == n % 10);
        lemma_decimal_digits(n / 10);
        let s = decimal(n);
        assert(s.drop_last() == decimal(n / 10));
        assert forall|i: int| 0 <= i < s.len() implies is_digit(#[trigger] s[i]) by {
            if i < s.len() - 1 {
                assert(s[i] == decimal(n / 10)[i]);
            }
        }
    }
}

/// Writing a number in decimal and parsing it back gives the number.
pub proof fn law_decimal_roundtrip(n: usize)
    ensures
        parse_usize_spec(decimal(n as nat)) == Some(n as nat),
{
    lemma_decimal_digits(n as nat);
    let s = decimal(n as nat);
    assert(is_digit(s[0]));
    assert(unsigned_digits(s) == s);
}

} // verus!
