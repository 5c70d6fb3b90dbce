//! Decimal integers: parsing as `u64::from_str` does, and formatting.

use vstd::prelude::*;
use crate::text::chars_of;

verus! {

/// Why a decimal integer could not be parsed.
#[derive(Debug, Clone, Copy, PartialEq, Eq, Structural)]
pub enum IntErrorKind {
    /// The text is empty.
    Empty,
    /// The text holds a character that is not a digit where one is needed.
    InvalidDigit,
    /// The value does not fit in a `u64`.
    PosOverflow,
}

/// The text that `ParseIntError` displays for an error of kind `k`.
pub open spec fn int_error_text(k: IntErrorKind) -> Seq<char> {
    match k {
        IntErrorKind::Empty => "cannot parse integer from empty string"@,
        IntErrorKind::InvalidDigit => "invalid digit found in string"@,
        IntErrorKind::PosOverflow => "number too large to fit in target type"@,
    }
}

impl IntErrorKind {
    /// The text that `ParseIntError` displays for this kind.
    pub fn description(&self) -> (r: &'static str)
        ensures
            r@ == int_error_text(*self),
    {
        match self {
            IntErrorKind::Empty => "cannot parse integer from empty string",
            IntErrorKind::InvalidDigit => "invalid digit found in string",
            IntErrorKind::PosOverflow => "number too large to fit in target type",
        }
    }
}

pub open spec fn is_digit(c: char) -> bool {
    '0' <= c <= '9'
}

pub open spec fn digit_value(c: char) -> nat {
    (c as u32 - '0' as u32) as nat
}

/// Scans `d` left to right from the accumulated value `acc`: the first
/// non-digit gives `InvalidDigit`, the first prefix whose value exceeds
/// `u64::MAX` gives `PosOverflow`, whichever comes first.
pub open spec fn parse_digits(d: Seq<char>, acc: nat) -> Result<u64, IntErrorKind>
    decreases d.len(),
{
    if d.len() == 0 {
        Ok(acc as u64)
    } else if !is_digit(d[0]) {
        Err(IntErrorKind::InvalidDigit)
    } else {
        let v = acc * 10 + digit_value(d[0]);
        if v > u64::MAX {
            Err(IntErrorKind::PosOverflow)
        } else {
            parse_digits(d.drop_first(), v)
        }
    }
}

/// What `s.parse::<u64>()` gives: an optional `+` sign, then at least one
/// decimal digit and nothing else.
pub open spec fn parse_u64_spec(s: Seq<char>) -> Result<u64, IntErrorKind> {
    if s.len() == 0 {
        Err(IntErrorKind::Empty)
    } else if (s[0] == '+' || s[0] == '-') && s.len() == 1 {
        Err(IntErrorKind::InvalidDigit)
    } else if s[0] == '+' {
        parse_digits(s.drop_first(), 0)
    } else {
        parse_digits(s, 0)
    }
}

/// The value of a run of decimal digits, most significant first.
pub open spec fn digits_value(d: Seq<char>) -> nat
    decreases d.len(),
{
    if d.len() == 0 {
        0
    } else {
        digits_value(d.drop_last()) * 10 + digit_value(d.last())
    }
}

pub open spec fn digit_char(n: nat) -> char
    recommends
        n < 10,
{
    ((n + '0' as nat) as u32) as char
}

/// The shortest decimal rendering of `n`.
pub open spec fn decimal(n: nat) -> Seq<char>
    decreases n,
{
    if n < 10 {
        seq![digit_char(n)]
    } else {
        decimal(n / 10).push(digit_char(n % 10))
    }
}

/// Parses `chars[from..to]` as `parse_u64_spec`.
pub fn parse_u64_chars(chars: &Vec<char>, from: usize, to: usize) -> (r: Result<u64, IntErrorKind>)
    requires
        from <= to <= chars.len(),
    ensures
        r == parse_u64_spec(chars@.subrange(from as int, to as int)),
{
    let ghost s = chars@.subrange(from as int, to as int);
    if from == to {
        return Err(IntErrorKind::Empty);
    }
    let c0 = chars[from];
    if (c0 == '+' || c0 == '-') && to - from == 1 {
        return Err(IntErrorKind::InvalidDigit);
    }
    let mut i = if c0 == '+' { from + 1 } else { from };
    assert(chars@.subrange(i as int, to as int) == (if c0 == '+' { s.drop_first() } else { s }));
    let ghost target = parse_digits(chars@.subrange(i as int, to as int), 0);
    assert(target == parse_u64_spec(s));
    let mut acc: u64 = 0;
    while i < to
        invariant
            from <= i <= to <= chars.len(),
            target == parse_digits(chars@.subrange(i as int, to as int), acc as nat),
            target == parse_u64_spec(s),
            s == chars@.subrange(from as int, to as int),
        decreases to - i,
    {
        let c = chars[i];
        let ghost rest = chars@.subrange(i as int, to as int);
        assert(rest[0] == c);
        assert(rest.drop_first() =~= chars@.subrange(i + 1, to as int));
        if !('0' <= c && c <= '9') {
            assert(!is_digit(rest[0]));
            assert(target == parse_digits(rest, acc as nat));
            return Err(IntErrorKind::InvalidDigit);
        }
        let d = (c as u32 - '0' as u32) as u64;
        assert(d == digit_value(rest[0]));
        if acc > 1844674407370955161u64 || (acc == 1844674407370955161u64 && d > 5) {
            assert(acc * 10 + d > u64::MAX);
            return Err(IntErrorKind::PosOverflow);
        }
        acc = acc * 10 + d;
        i = i + 1;
    }
    assert(chars@.subrange(i as int, to as int).len() == 0);
    Ok(acc)
}

/// `s.parse::<u64>()`, with the error reduced to its kind.
pub fn parse_u64(s: &str) -> (r: Result<u64, IntErrorKind>)
    ensures
        r == parse_u64_spec(s@),
{
    let chars = chars_of(s);
    assert(chars@.subrange(0, chars@.len() as int) =~= chars@);
    parse_u64_chars(&chars, 0, chars.len())
}


fn digit_to_char(d: u64) -> (c: char)
    requires
        d < 10,
    ensures
        c == digit_char(d as nat),
{
    let b: u8 = d as u8 + 48u8;
    b as char
}

/// Appends the decimal rendering of `n` to `s`.
pub fn push_decimal(s: &mut String, n: u64)
    ensures
        final(s)@ == old(s)@ + decimal(n as nat),
    decreases n,
{
    if n >= 10 {
        push_decimal(s, n / 10);
    }
    let c = digit_to_char(n % 10);
    let ghost before = s@;
    s.push(c);
    proof {
        if n >= 10 {
            assert(decimal(n as nat) == decimal((n / 10) as nat).push(digit_char((n % 10) as nat)));
        } else {
            assert(decimal(n as nat) =~= seq![digit_char(n as nat)]);
        }
        assert(s@ =~= old(s)@ + decimal(n as nat));
    }
}

/// The decimal rendering of `n`, as `n.to_string()` gives it.
pub fn decimal_string(n: u64) -> (r: String)
    ensures
        r@ == decimal(n as nat),
{
    let mut s = String::new();
    push_decimal(&mut s, n);
    assert(s@ =~= decimal(n as nat));
    s
}

proof fn lemma_digit_char(n: nat)
    requires
        n < 10,
    ensures
        is_digit(digit_char(n)),
        digit_value(digit_char(n)) == n,
{
    assert(((n + '0' as nat) as u32) as char as u32 == (n + 48) as u32);
}

/// The decimal rendering of a number is a non-empty run of digits.
pub proof fn lemma_decimal_digits(n: nat)
    ensures
        decimal(n).len() > 0,
        forall|i: int| 0 <= i < decimal(n).len() ==> is_digit(#[trigger] decimal(n)[i]),
    decreases n,
{
    if n < 10 {
        lemma_digit_char(n);
    } else {
        lemma_decimal_digits(n / 10);
        lemma_digit_char(n % 10);
    }
}

/// Appending one character to a run that parsed to `v` continues the scan
/// from `v`.
proof fn lemma_parse_digits_push(d: Seq<char>, c: char, acc: nat, v: u64)
    requires
        parse_digits(d, acc) == Ok::<u64, IntErrorKind>(v),
        acc <= u64::MAX,
    ensures
        parse_digits(d.push(c), acc) == parse_digits(seq![c], v as nat),
    decreases d.len(),
{
    if d.len() == 0 {
        assert(d.push(c) =~= seq![c]);
    } else {
        let w = acc * 10 + digit_value(d[0]);
        assert(d.push(c).drop_first() =~= d.drop_first().push(c));
        lemma_parse_digits_push(d.drop_first(), c, w, v);
    }
}

proof fn lemma_parse_decimal(n: nat)
    requires
        n <= u64::MAX,
    ensures
        parse_digits(decimal(n), 0) == Ok::<u64, IntErrorKind>(n as u64),
    decreases n,
{
    lemma_digit_char(n % 10);
    assert((n / 10) * 10 + n % 10 == n) by (nonlinear_arith);
    let last = seq![digit_char(n % 10)];
    assert(last.drop_first() =~= Seq::<char>::empty());
    if n < 10 {
        assert(decimal(n) == last);
        assert(parse_digits(last.drop_first(), n) == Ok::<u64, IntErrorKind>(n as u64));
    } else {
        lemma_parse_decimal(n / 10);
        lemma_parse_digits_push(decimal(n / 10), digit_char(n % 10), 0, (n / 10) as u64);
        assert(parse_digits(last.drop_first(), n) == Ok::<u64, IntErrorKind>(n as u64));
        assert(parse_digits(last, (n / 10) as nat) == Ok::<u64, IntErrorKind>(n as u64));
    }
}

/// Parsing the decimal rendering of any `u64` gives the value back.
pub proof fn law_parse_decimal_roundtrip(n: u64)
    ensures
        parse_u64_spec(decimal(n as nat)) == Ok::<u64, IntErrorKind>(n),
{
    lemma_decimal_digits(n as nat);
    lemma_parse_decimal(n as nat);
    let d = decimal(n as nat);
    assert(is_digit(d[0]));
}

} // verus!
