//! Decimal text for `u64`: rendering, and parsing with the rules of `u64::from_str`.

use vstd::prelude::*;

verus! {

/// Why a text is not a `u64` (the kinds `u64::from_str` reports).
#[derive(Debug, Clone, Copy, PartialEq, Eq, Structural)]
pub enum ParseU64Error {
    /// The text is empty.
    Empty,
    /// A character is not an ASCII digit (or a sign stands alone).
    InvalidDigit,
    /// The value does not fit in a `u64`.
    PosOverflow,
}

impl ParseU64Error {
    /// The message that std's `ParseIntError` displays for this kind.
    pub fn message(&self) -> (m: &'static str)
        ensures
            *self == ParseU64Error::Empty ==> m@ == "cannot parse integer from empty string"@,
            *self == ParseU64Error::InvalidDigit ==> m@ == "invalid digit found in string"@,
            *self == ParseU64Error::PosOverflow ==> m@ == "number too large to fit in target type"@,
    {
        match self {
            ParseU64Error::Empty => "cannot parse integer from empty string",
            ParseU64Error::InvalidDigit => "invalid digit found in string",
            ParseU64Error::PosOverflow => "number too large to fit in target type",
        }
    }
}

/// Whether `c` is an ASCII decimal digit.
pub open spec fn is_digit(c: char) -> bool {
    48 <= (c as u32) <= 57
}

/// The value of the ASCII digit `c`.
pub open spec fn digit_value(c: char) -> nat {
    ((c as u32) - 48) as nat
}

/// The ASCII digit for `d < 10`.
pub open spec fn digit_char(d: nat) -> char {
    ((d + 48) as u32) as char
}

/// The decimal representation of `n`, without sign or leading zeros.
pub open spec fn decimal(n: nat) -> Seq<char>
    decreases n,
{
    if n < 10 {
        seq![digit_char(n)]
    } else {
        decimal(n / 10).push(digit_char(n % 10))
    }
}

/// Reading the digits `s` left to right onto `acc`, as `u64::from_str` does:
/// the first non-digit, or the first step past `u64::MAX`, decides the error.
pub open spec fn read_digits(s: Seq<char>, acc: nat) -> Result<u64, ParseU64Error>
    decreases s.len(),
{
    if s.len() == 0 {
        Ok(acc as u64)
    } else if !is_digit(s[0]) {
        Err(ParseU64Error::InvalidDigit)
    } else if acc * 10 + digit_value(s[0]) > u64::MAX {
        Err(ParseU64Error::PosOverflow)
    } else {
        read_digits(s.drop_first(), acc * 10 + digit_value(s[0]))
    }
}

/// What `s.parse::<u64>()` gives: an optional `+`, then decimal digits.
pub open spec fn parse_u64_spec(s: Seq<char>) -> Result<u64, ParseU64Error> {
    if s.len() == 0 {
        Err(ParseU64Error::Empty)
    } else if (s[0] == '+' || s[0] == '-') && s.len() == 1 {
        Err(ParseU64Error::InvalidDigit)
    } else if s[0] == '+' {
        read_digits(s.drop_first(), 0)
    } else {
        read_digits(s, 0)
    }
}

fn digit_to_char(d: u64) -> (c: char)
    requires
        d < 10,
    ensures
        c == digit_char(d as nat),
        is_digit(c),
        digit_value(c) == d,
{
    let c = ((d as u8) + 48u8) as char;
    c
}

/// The decimal representation of `n`.
pub fn render_u64(n: u64) -> (out: Vec<char>)
    ensures
        out@ == decimal(n as nat),
{
    let mut out: Vec<char> = Vec::new();
    let mut q: u64 = n;
    out.insert(0, digit_to_char(q % 10));
    proof {
        assert(decimal((q % 10) as nat) == seq![digit_char((q % 10) as nat)]);
    }
    q = q / 10;
    while q > 0
        invariant
            q == 0 ==> out@ == decimal(n as nat),
            q > 0 ==> decimal(n as nat) =~= decimal(q as nat) + out@,
            out@.len() >= 1,
        decreases q,
    {
        let d = q % 10;
        let c = digit_to_char(d);
        let ghost old_out = out@;
        out.insert(0, c);
        assert(out@ =~= seq![c] + old_out);
        let next = q / 10;
        proof {
            if q >= 10 {
                assert(decimal(q as nat) == decimal((q / 10) as nat).push(digit_char((q % 10) as nat)));
                assert(decimal(q as nat) + old_out =~= decimal(next as nat) + out@);
            } else {
                assert(decimal(q as nat) == seq![digit_char(q as nat)]);
                assert(q % 10 == q);
            }
        }
        q = next;
    }
    out
}

proof fn lemma_read_digits_push(s: Seq<char>, acc: nat, v: u64, c: char)
    requires
        read_digits(s, acc) == Ok::<u64, ParseU64Error>(v),
        acc <= u64::MAX,
        is_digit(c),
        v * 10 + digit_value(c) <= u64::MAX,
    ensures
        read_digits(s.push(c), acc) == Ok::<u64, ParseU64Error>((v * 10 + digit_value(c)) as u64),
    decreases s.len(),
{
    if s.len() == 0 {
        assert(acc == v);
        assert(s.push(c).drop_first() =~= Seq::<char>::empty());
        assert(s.push(c)[0] == c);
        assert(read_digits(s.push(c).drop_first(), (v * 10 + digit_value(c)) as nat)
            == Ok::<u64, ParseU64Error>((v * 10 + digit_value(c)) as u64));
    } else {
        let next = acc * 10 + digit_value(s[0]);
        assert(s.push(c)[0] == s[0]);
        assert(s.push(c).drop_first() =~= s.drop_first().push(c));
        lemma_read_digits_push(s.drop_first(), next, v, c);
    }
}

/// The rendering of `n` is a nonempty run of digits that reads back as `n`.
pub proof fn lemma_decimal_shape(n: nat)
    ensures
        decimal(n).len() >= 1,
        forall|i: int| 0 <= i < decimal(n).len() ==> is_digit(#[trigger] decimal(n)[i]),
        read_digits(decimal(n), 0) == Ok::<u64, ParseU64Error>(n as u64) || n > u64::MAX,
    decreases n,
{
    if n < 10 {
        let s = seq![digit_char(n)];
        assert(s.drop_first() =~= Seq::<char>::empty());
        assert(digit_value(digit_char(n)) == n);
        assert(is_digit(s[0]));
        assert(read_digits(s.drop_first(), n) == Ok::<u64, ParseU64Error>(n as u64));
        assert(read_digits(s, 0) == read_digits(s.drop_first(), 0 * 10 + digit_value(s[0])));
    } else {
        lemma_decimal_shape(n / 10);
        let c = digit_char(n % 10);
        assert(digit_value(c) == n % 10);
        if n <= u64::MAX {
            assert((n / 10) * 10 + n % 10 == n) by (nonlinear_arith);
            lemma_read_digits_push(decimal(n / 10), 0, (n / 10) as u64, c);
        }
    }
}

/// Parsing the decimal rendering of a number gives the number back.
pub proof fn lemma_parse_decimal(n: u64)
    ensures
        parse_u64_spec(decimal(n as nat)) == Ok::<u64, ParseU64Error>(n),
{
    lemma_decimal_shape(n as nat);
    let s = decimal(n as nat);
    assert(is_digit(s[0]));
}

/// Parses `s` as `s.parse::<u64>()` does.
pub fn parse_u64(s: &[char]) -> (r: Result<u64, ParseU64Error>)
    ensures
        r == parse_u64_spec(s@),
{
    let n = s.len();
    if n == 0 {
        return Err(ParseU64Error::Empty);
    }
    if (s[0] == '+' || s[0] == '-') && n == 1 {
        return Err(ParseU64Error::InvalidDigit);
    }
    let start: usize = if s[0] == '+' { 1 } else { 0 };
    let ghost digits = s@.subrange(start as int, n as int);
    assert(start == 1 ==> digits =~= s@.drop_first());
    assert(start == 0 ==> digits =~= s@);
    let mut acc: u64 = 0;
    let mut i: usize = start;
    while i < n
        invariant
            start <= i <= n,
            n == s@.len(),
            digits == s@.subrange(start as int, n as int),
            parse_u64_spec(s@) == read_digits(digits, 0),
            read_digits(digits, 0) == read_digits(s@.subrange(i as int, n as int), acc as nat),
        decreases n - i,
    {
        let ghost rest = s@.subrange(i as int, n as int);
        assert(rest.drop_first() =~= s@.subrange(i + 1, n as int));
        let c = s[i];
        assert(rest[0] == c);
        let u = c as u32;
        if !(48 <= u && u <= 57) {
            assert(!is_digit(rest[0]));
            return Err(ParseU64Error::InvalidDigit);
        }
        let d = (u - 48) as u64;
        assert(is_digit(rest[0]) && digit_value(rest[0]) == d);
        if acc > (u64::MAX - d) / 10 {
            assert(acc * 10 + d > u64::MAX) by (nonlinear_arith)
                requires acc > (u64::MAX - d) / 10, d <= 9;
            return Err(ParseU64Error::PosOverflow);
        }
        assert(acc * 10 + d <= u64::MAX) by (nonlinear_arith)
            requires acc <= (u64::MAX - d) / 10, d <= 9;
        acc = acc * 10 + d;
        i += 1;
    }
    assert(s@.subrange(n as int, n as int) =~= Seq::<char>::empty());
    Ok(acc)
}

} // verus!
