//! Numbers and lists written out as text.

use vstd::prelude::*;
use vstd::string::*;

verus! {

/// A decimal digit.
pub open spec fn digit(d: nat) -> Seq<char> {
    if d == 0 {
        "0"@
    } else if d == 1 {
        "1"@
    } else if d == 2 {
        "2"@
    } else if d == 3 {
        "3"@
    } else if d == 4 {
        "4"@
    } else if d == 5 {
        "5"@
    } else if d == 6 {
        "6"@
    } else if d == 7 {
        "7"@
    } else if d == 8 {
        "8"@
    } else {
        "9"@
    }
}

/// A number in decimal digits, without leading zeros.
pub open spec fn decimal(n: nat) -> Seq<char>
    decreases n,
{
    if n < 10 {
        digit(n)
    } else {
        decimal(n / 10) + digit(n % 10)
    }
}

/// Three numbers as `(a, b, c)`.
pub open spec fn triple(t: (usize, usize, usize)) -> Seq<char> {
    "("@ + decimal(t.0 as nat) + ", "@ + decimal(t.1 as nat) + ", "@ + decimal(t.2 as nat) + ")"@
}

/// Two numbers as `(a,b)`.
pub open spec fn tight_pair(t: (usize, usize)) -> Seq<char> {
    "("@ + decimal(t.0 as nat) + ","@ + decimal(t.1 as nat) + ")"@
}

/// Three numbers as `(a,b,c)`.
pub open spec fn tight_triple(t: (usize, usize, usize)) -> Seq<char> {
    "("@ + decimal(t.0 as nat) + ","@ + decimal(t.1 as nat) + ","@ + decimal(t.2 as nat) + ")"@
}

/// Three numbers as `[a, b, c]`.
pub open spec fn list(t: (usize, usize, usize)) -> Seq<char> {
    "["@ + decimal(t.0 as nat) + ", "@ + decimal(t.1 as nat) + ", "@ + decimal(t.2 as nat) + "]"@
}

/// A number in decimal digits, after a minus sign where it is negative.
pub open spec fn signed(n: int) -> Seq<char> {
    if n < 0 {
        "-"@ + decimal((-n) as nat)
    } else {
        decimal(n as nat)
    }
}

fn digit_text(d: u64) -> (r: &'static str)
    requires
        d < 10,
    ensures
        r@ == digit(d as nat),
{
    match d {
        0 => "0",
        1 => "1",
        2 => "2",
        3 => "3",
        4 => "4",
        5 => "5",
        6 => "6",
        7 => "7",
        8 => "8",
        _ => "9",
    }
}

fn push_digits(out: &mut String, n: u64)
    ensures
        final(out)@ == old(out)@ + decimal(n as nat),
    decreases n,
{
    if n < 10 {
        out.append(digit_text(n));
    } else {
        let ghost before = out@;
        push_digits(out, n / 10);
        out.append(digit_text(n % 10));
        assert(out@ =~= before + decimal(n as nat));
    }
}

/// Appends a number in decimal.
pub fn push_decimal(out: &mut String, n: usize)
    ensures
        final(out)@ == old(out)@ + decimal(n as nat),
{
    push_digits(out, n as u64);
}

/// Appends a number in decimal, after a minus sign where it is negative.
pub fn push_signed(out: &mut String, n: i64)
    ensures
        final(out)@ == old(out)@ + signed(n as int),
{
    let ghost before = out@;
    if n < 0 {
        out.append("-");
        push_digits(out, (-(n as i128)) as u64);
    } else {
        push_digits(out, n as u64);
    }
    assert(out@ =~= before + signed(n as int));
}

/// Appends two numbers as `(a,b)`.
pub fn push_tight_pair(out: &mut String, t: (usize, usize))
    ensures
        final(out)@ == old(out)@ + tight_pair(t),
{
    let ghost before = out@;
    out.append("(");
    push_decimal(out, t.0);
    out.append(",");
    push_decimal(out, t.1);
    out.append(")");
    assert(out@ =~= before + tight_pair(t));
}

/// Appends three numbers as `(a,b,c)`.
pub fn push_tight_triple(out: &mut String, t: (usize, usize, usize))
    ensures
        final(out)@ == old(out)@ + tight_triple(t),
{
    let ghost before = out@;
    out.append("(");
    push_decimal(out, t.0);
    out.append(",");
    push_decimal(out, t.1);
    out.append(",");
    push_decimal(out, t.2);
    out.append(")");
    assert(out@ =~= before + tight_triple(t));
}

/// Appends three numbers as `[a, b, c]`.
pub fn push_list(out: &mut String, t: (usize, usize, usize))
    ensures
        final(out)@ == old(out)@ + list(t),
{
    let ghost before = out@;
    out.append("[");
    push_decimal(out, t.0);
    out.append(", ");
    push_decimal(out, t.1);
    out.append(", ");
    push_decimal(out, t.2);
    out.append("]");
    assert(out@ =~= before + list(t));
}

/// Appends three numbers as `(a, b, c)`.
pub fn push_triple(out: &mut String, t: (usize, usize, usize))
    ensures
        final(out)@ == old(out)@ + triple(t),
{
    let ghost before = out@;
    out.append("(");
    push_decimal(out, t.0);
    out.append(", ");
    push_decimal(out, t.1);
    out.append(", ");
    push_decimal(out, t.2);
    out.append(")");
    assert(out@ =~= before + triple(t));
}

/// The value of a decimal digit.
pub open spec fn digit_value(c: char) -> Option<nat> {
    if '0' <= c && c <= '9' {
        Some((c as u32 - '0' as u32) as nat)
    } else {
        None
    }
}

/// The number that a run of decimal digits denotes, zero for the empty run; none where there
/// is another character.
pub open spec fn digits_value(s: Seq<char>) -> Option<nat>
    decreases s.len(),
{
    if s.len() == 0 {
        Some(0)
    } else {
        match (digits_value(s.drop_last()), digit_value(s.last())) {
            (Some(high), Some(low)) => Some(10 * high + low),
            _ => None,
        }
    }
}

/// The digits of a number: what follows a leading plus sign.
pub open spec fn unsigned_part(s: Seq<char>) -> Seq<char> {
    if s.len() > 0 && s[0] == '+' {
        s.drop_first()
    } else {
        s
    }
}

/// The positive 64-bit number that a text denotes, if it denotes one.
pub open spec fn positive_number(s: Seq<char>) -> Option<i64> {
    match digits_value(unsigned_part(s)) {
        Some(v) => if 1 <= v <= i64::MAX {
            Some(v as i64)
        } else {
            None
        },
        None => None,
    }
}

/// Once a run of digits is too large or holds another character, it stays so.
proof fn lemma_digits_grow(s: Seq<char>, i: int)
    requires
        0 <= i <= s.len(),
    ensures
        digits_value(s.take(i)) is None ==> digits_value(s) is None,
        digits_value(s.take(i)) matches Some(v) ==> (digits_value(s) matches Some(w) ==> v <= w),
    decreases s.len() - i,
{
    if i == s.len() {
        assert(s.take(i) =~= s);
    } else {
        assert(s.take(i + 1).drop_last() =~= s.take(i));
        lemma_digits_grow(s, i + 1);
    }
}

fn digit_of(c: char) -> (r: Option<i64>)
    ensures
        match digit_value(c) {
            Some(d) => r == Some(d as i64) && d < 10,
            None => r is None,
        },
{
    if '0' <= c && c <= '9' {
        Some((c as u32 - '0' as u32) as i64)
    } else {
        None
    }
}

/// Reads a positive 64-bit number, with or without a plus sign.
pub fn parse_positive(s: &str) -> (r: Option<i64>)
    ensures
        r == positive_number(s@),
{
    let n: usize = s.unicode_len();
    let start: usize = if n > 0 && s.get_char(0) == '+' {
        1
    } else {
        0
    };
    let ghost digits = unsigned_part(s@);
    let mut i: usize = start;
    let mut value: i64 = 0;
    assert(digits.take(0) =~= Seq::<char>::empty());
    while i < n
        invariant
            n == s@.len(),
            start <= i <= n,
            digits == unsigned_part(s@),
            start == s@.len() - digits.len(),
            start == 1 ==> s@[0] == '+',
            0 <= value,
            digits_value(digits.take(i - start)) == Some(value as nat),
        decreases n - i,
    {
        let ghost at = i - start;
        let c: char = s.get_char(i);
        proof {
            assert(digits[at] == c);
            assert(digits.take(at + 1).drop_last() =~= digits.take(at));
            lemma_digits_grow(digits, at + 1);
        }
        let d: i64 = match digit_of(c) {
            Some(d) => d,
            None => {
                return None;
            },
        };
        if value > (i64::MAX - d) / 10 {
            return None;
        }
        value = 10 * value + d;
        i = i + 1;
    }
    assert(digits.take(n - start) =~= digits);
    if value >= 1 {
        Some(value)
    } else {
        None
    }
}

proof fn lemma_digit_reads_back(d: nat)
    requires
        d < 10,
    ensures
        digit(d).len() == 1,
        digit_value(digit(d)[0]) == Some(d),
{
    reveal_strlit("0");
    reveal_strlit("1");
    reveal_strlit("2");
    reveal_strlit("3");
    reveal_strlit("4");
    reveal_strlit("5");
    reveal_strlit("6");
    reveal_strlit("7");
    reveal_strlit("8");
    reveal_strlit("9");
}

proof fn lemma_decimal_reads_back(n: nat)
    ensures
        decimal(n).len() > 0,
        digits_value(decimal(n)) == Some(n),
        forall|i: int| 0 <= i < decimal(n).len() ==> digit_value(#[trigger] decimal(n)[i]) is Some,
    decreases n,
{
    let s = decimal(n);
    lemma_digit_reads_back(n % 10);
    if n < 10 {
        assert(s.drop_last() =~= Seq::<char>::empty());
        assert(digits_value(s.drop_last()) == Some(0nat));
    } else {
        lemma_decimal_reads_back(n / 10);
        assert(s.drop_last() =~= decimal(n / 10));
        assert forall|i: int| 0 <= i < s.len() implies digit_value(#[trigger] s[i]) is Some by {
            if i < decimal(n / 10).len() {
                assert(s[i] == decimal(n / 10)[i]);
            }
        }
    }
}

/// A positive number reads back as it was written.
pub proof fn law_written_number_reads_back(n: nat)
    requires
        1 <= n <= i64::MAX,
    ensures
        positive_number(decimal(n)) == Some(n as i64),
{
    lemma_decimal_reads_back(n);
    assert(digit_value(decimal(n)[0]) is Some);
}

/// Zero is no positive number.
pub proof fn law_zero_is_not_positive()
    ensures
        positive_number(decimal(0)) is None,
{
    lemma_decimal_reads_back(0);
    assert(digit_value(decimal(0)[0]) is Some);
}

} // verus!
