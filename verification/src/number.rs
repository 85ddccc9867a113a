//! Numbers as text.

use vstd::prelude::*;

use crate::text::chars_of;

verus! {

// ---- writing ----

/// The decimal digit for `d`.
pub open spec fn digit(d: int) -> char {
    (d + 48) as char
}

/// The decimal digits of `n`, without leading zeros.
pub open spec fn decimal(n: nat) -> Seq<char>
    decreases n,
{
    if n < 10 {
        seq![digit(n as int)]
    } else {
        decimal(n / 10).push(digit((n % 10) as int))
    }
}

/// Appends `n` in decimal.
pub fn push_number(out: &mut String, n: u128)
    ensures
        final(out)@ == old(out)@ + decimal(n as nat),
    decreases n,
{
    if n >= 10 {
        push_number(out, n / 10);
    }
    let d = (n % 10) as u8;
    out.push((d + 48) as char);
    assert(out@ =~= old(out)@ + decimal(n as nat));
}

pub open spec fn zeros(n: nat) -> Seq<char> {
    Seq::new(n, |i: int| '0')
}

/// `n` in decimal with leading zeros up to `width` characters.
pub open spec fn padded(n: nat, width: nat) -> Seq<char> {
    let digits = decimal(n);
    if digits.len() < width {
        zeros((width - digits.len()) as nat) + digits
    } else {
        digits
    }
}

/// Appends `n` in decimal, with leading zeros up to `width` characters.
pub fn push_padded(out: &mut String, n: u64, width: usize)
    ensures
        final(out)@ == old(out)@ + padded(n as nat, width as nat),
{
    let mut digits = String::new();
    push_number(&mut digits, n as u128);
    assert(digits@ =~= decimal(n as nat));
    let count = digits.as_str().unicode_len();
    let mut i = count;
    while i < width
        invariant
            count == digits@.len(),
            count <= i,
            count < width ==> i <= width,
            count >= width ==> i == count,
            out@ == old(out)@ + zeros((i - count) as nat),
        decreases width - i,
    {
        out.push('0');
        i = i + 1;
        assert(out@ =~= old(out)@ + zeros((i - count) as nat));
    }
    out.append(digits.as_str());
    assert(out@ =~= old(out)@ + padded(n as nat, width as nat));
}

// ---- reading ----

pub open spec fn is_digit(c: char) -> bool {
    '0' <= c <= '9'
}

pub open spec fn all_digits(s: Seq<char>) -> bool {
    forall|i: int| 0 <= i < s.len() ==> is_digit(#[trigger] s[i])
}

/// The number that a sequence of decimal digits stands for.
pub open spec fn digits_value(s: Seq<char>) -> nat
    decreases s.len(),
{
    if s.len() == 0 {
        0
    } else {
        digits_value(s.drop_last()) * 10 + (s.last() as nat - 48) as nat
    }
}

/// The integer that `s` stands for: an optional sign and then one digit or more.
pub open spec fn integer_of(s: Seq<char>) -> Option<int> {
    let signed = s.len() > 0 && (s[0] == '+' || s[0] == '-');
    let digits = if signed { s.drop_first() } else { s };
    if digits.len() == 0 || !all_digits(digits) {
        None
    } else if signed && s[0] == '-' {
        Some(-(digits_value(digits) as int))
    } else {
        Some(digits_value(digits) as int)
    }
}

/// The integer that `s` stands for, if there is one and 64 bits hold it.
pub open spec fn parsed_i64(s: Seq<char>) -> Option<int> {
    match integer_of(s) {
        Some(n) => if i64::MIN <= n <= i64::MAX {
            Some(n)
        } else {
            None
        },
        None => None,
    }
}

/// Reads a decimal integer.
pub fn parse_integer(s: &str) -> (n: Option<i64>)
    ensures
        match n {
            Some(k) => parsed_i64(s@) == Some(k as int),
            None => parsed_i64(s@) is None,
        },
{
    let chars = chars_of(s);
    let signed = chars.len() > 0 && (chars[0] == '+' || chars[0] == '-');
    let negative = signed && chars[0] == '-';
    let start: usize = if signed { 1 } else { 0 };
    let ghost digits = if signed { s@.drop_first() } else { s@ };
    assert(digits =~= chars@.skip(start as int));
    if start == chars.len() {
        return None;
    }
    let mut value: u64 = 0;
    let mut over = false;
    let limit: u64 = 9_223_372_036_854_775_808;
    for i in start..chars.len()
        invariant
            chars@ == s@,
            start <= 1,
            start < chars@.len(),
            digits == chars@.skip(start as int),
            limit == 9_223_372_036_854_775_808,
            forall|j: int| 0 <= j < i - start ==> is_digit(#[trigger] digits[j]),
            signed == (s@.len() > 0 && (s@[0] == '+' || s@[0] == '-')),
            digits == if signed { s@.drop_first() } else { s@ },
            !over ==> value == digits_value(digits.take(i - start)) && value <= limit,
            over ==> digits_value(digits.take(i - start)) > limit,
    {
        let c = chars[i];
        assert(digits[i - start] == c);
        if c < '0' || c > '9' {
            assert(!all_digits(digits));
            return None;
        }
        assert(digits.take(i + 1 - start).drop_last() =~= digits.take(i - start));
        if !over {
            let d = c as u64 - 48;
            if value > 922_337_203_685_477_580 || value * 10 + d > limit {
                over = true;
            } else {
                value = value * 10 + d;
            }
        }
    }
    assert(digits.take(digits.len() as int) =~= digits);
    assert(all_digits(digits));
    if over {
        return None;
    }
    if negative {
        if value == limit {
            return Some(i64::MIN);
        }
        Some(-(value as i64))
    } else {
        if value == limit {
            return None;
        }
        Some(value as i64)
    }
}

// ---- reading what was written ----

proof fn lemma_decimal_read(n: nat)
    ensures
        all_digits(decimal(n)),
        decimal(n).len() > 0,
        digits_value(decimal(n)) == n,
    decreases n,
{
    let s = decimal(n);
    if n < 10 {
        assert(s.drop_last() =~= Seq::<char>::empty());
        assert(digits_value(s.drop_last()) == 0);
    } else {
        lemma_decimal_read(n / 10);
        assert(s.drop_last() =~= decimal(n / 10));
    }
}

proof fn lemma_leading_zeros(k: nat, s: Seq<char>)
    requires
        all_digits(s),
    ensures
        all_digits(zeros(k) + s),
        digits_value(zeros(k) + s) == digits_value(s),
    decreases s.len(), k,
{
    let t = zeros(k) + s;
    if s.len() > 0 {
        assert forall|i: int| 0 <= i < s.drop_last().len() implies is_digit(
            #[trigger] s.drop_last()[i],
        ) by {
            assert(s.drop_last()[i] == s[i]);
        }
        lemma_leading_zeros(k, s.drop_last());
        assert(t.drop_last() =~= zeros(k) + s.drop_last());
        assert(is_digit(s[s.len() - 1]));
        assert(t.last() == s.last());
    } else if k > 0 {
        lemma_leading_zeros((k - 1) as nat, s);
        assert(t.drop_last() =~= zeros((k - 1) as nat) + s);
        assert(t.last() == '0');
    } else {
        assert(t =~= s);
    }
}

/// A number that was written, with leading zeros or without, is read back.
pub proof fn law_number_reads_back(n: nat, width: nat)
    requires
        n <= i64::MAX,
    ensures
        parsed_i64(padded(n, width)) == Some(n as int),
        all_digits(padded(n, width)),
{
    lemma_decimal_read(n);
    let s = padded(n, width);
    if decimal(n).len() < width {
        lemma_leading_zeros((width - decimal(n).len()) as nat, decimal(n));
    }
    assert(is_digit(s[0]));
}

/// A number is read with a sign before it or without, and a minus sign makes it negative. A number
/// that 64 bits do not hold is not read.
pub proof fn law_sign_read(n: nat, width: nat)
    ensures
        ({
            let s = padded(n, width);
            &&& parsed_i64(s) == if n <= i64::MAX {
                Some(n as int)
            } else {
                None
            }
            &&& parsed_i64(seq!['+'] + s) == parsed_i64(s)
            &&& parsed_i64(seq!['-'] + s) == if n <= 0x8000_0000_0000_0000 {
                Some(-(n as int))
            } else {
                None
            }
        }),
{
    lemma_decimal_read(n);
    let s = padded(n, width);
    if decimal(n).len() < width {
        lemma_leading_zeros((width - decimal(n).len()) as nat, decimal(n));
    }
    assert(is_digit(s[0]));
    assert((seq!['+'] + s).drop_first() =~= s);
    assert((seq!['-'] + s).drop_first() =~= s);
}

/// What is read as a number is an optional sign and one digit or more.
pub proof fn law_number_form(s: Seq<char>)
    requires
        parsed_i64(s) is Some,
    ensures
        s.len() > 0,
        s[0] == '+' || s[0] == '-' || '0' <= s[0] <= '9',
        s[0] == '+' || s[0] == '-' ==> s.len() > 1,
        forall|i: int| 0 < i < s.len() ==> '0' <= #[trigger] s[i] <= '9',
{
    let signed = s[0] == '+' || s[0] == '-';
    let digits = if signed { s.drop_first() } else { s };
    assert(all_digits(digits));
    assert forall|i: int| 0 < i < s.len() implies '0' <= #[trigger] s[i] <= '9' by {
        if signed {
            assert(is_digit(digits[i - 1]));
        } else {
            assert(is_digit(digits[i]));
        }
    }
    if !signed {
        assert(is_digit(digits[0]));
    }
}

} // verus!
