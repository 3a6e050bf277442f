//! Decimal text of integers, and the appending of single characters out
//! of which the texts of this crate are put together.

use vstd::prelude::*;
use vstd::string::StringExecFns;

verus! {

/// The character of one decimal digit.
pub open spec fn digit_char(d: nat) -> char {
    if d == 0 {
        '0'
    } else if d == 1 {
        '1'
    } else if d == 2 {
        '2'
    } else if d == 3 {
        '3'
    } else if d == 4 {
        '4'
    } else if d == 5 {
        '5'
    } else if d == 6 {
        '6'
    } else if d == 7 {
        '7'
    } else if d == 8 {
        '8'
    } else {
        '9'
    }
}

/// The decimal digits of a natural number, most significant first.
pub open spec fn digits(n: nat) -> Seq<char>
    decreases n,
{
    if n < 10 {
        seq![digit_char(n)]
    } else {
        digits(n / 10).push(digit_char(n % 10))
    }
}

/// The decimal text of an integer: a minus sign for a negative one, then the
/// digits of its magnitude.
pub open spec fn decimal(n: int) -> Seq<char> {
    if n < 0 {
        seq!['-'] + digits((-n) as nat)
    } else {
        digits(n as nat)
    }
}

/// Whether `c` is one of the characters that the texts of this crate are
/// made of, beside the names that they quote: the digits, the minus sign,
/// the letters of `inf`, the brackets, the comma, the space and the `U`
/// between ranges.
pub open spec fn is_text_char(c: char) -> bool {
    c == '0'
        || c == '1'
        || c == '2'
        || c == '3'
        || c == '4'
        || c == '5'
        || c == '6'
        || c == '7'
        || c == '8'
        || c == '9'
        || c == '-'
        || c == 'i'
        || c == 'n'
        || c == 'f'
        || c == '['
        || c == '('
        || c == ']'
        || c == ')'
        || c == ','
        || c == ' '
        || c == 'U'
}

/// Appends one character to `s`.
pub fn push_char(s: &mut String, c: char)
    requires
        is_text_char(c),
    ensures
        final(s)@ == old(s)@.push(c),
{
    if c == '0' {
        proof {
            reveal_strlit("0");
        }
        s.append("0");
    } else if c == '1' {
        proof {
            reveal_strlit("1");
        }
        s.append("1");
    } else if c == '2' {
        proof {
            reveal_strlit("2");
        }
        s.append("2");
    } else if c == '3' {
        proof {
            reveal_strlit("3");
        }
        s.append("3");
    } else if c == '4' {
        proof {
            reveal_strlit("4");
        }
        s.append("4");
    } else if c == '5' {
        proof {
            reveal_strlit("5");
        }
        s.append("5");
    } else if c == '6' {
        proof {
            reveal_strlit("6");
        }
        s.append("6");
    } else if c == '7' {
        proof {
            reveal_strlit("7");
        }
        s.append("7");
    } else if c == '8' {
        proof {
            reveal_strlit("8");
        }
        s.append("8");
    } else if c == '9' {
        proof {
            reveal_strlit("9");
        }
        s.append("9");
    } else if c == '-' {
        proof {
            reveal_strlit("-");
        }
        s.append("-");
    } else if c == 'i' {
        proof {
            reveal_strlit("i");
        }
        s.append("i");
    } else if c == 'n' {
        proof {
            reveal_strlit("n");
        }
        s.append("n");
    } else if c == 'f' {
        proof {
            reveal_strlit("f");
        }
        s.append("f");
    } else if c == '[' {
        proof {
            reveal_strlit("[");
        }
        s.append("[");
    } else if c == '(' {
        proof {
            reveal_strlit("(");
        }
        s.append("(");
    } else if c == ']' {
        proof {
            reveal_strlit("]");
        }
        s.append("]");
    } else if c == ')' {
        proof {
            reveal_strlit(")");
        }
        s.append(")");
    } else if c == ',' {
        proof {
            reveal_strlit(",");
        }
        s.append(",");
    } else if c == ' ' {
        proof {
            reveal_strlit(" ");
        }
        s.append(" ");
    } else {
        proof {
            reveal_strlit("U");
        }
        s.append("U");
    }
    assert(s@ =~= old(s)@.push(c));
}

fn digit_of(d: u64) -> (c: char)
    requires
        d < 10,
    ensures
        c == digit_char(d as nat),
{
    if d == 0 {
        '0'
    } else if d == 1 {
        '1'
    } else if d == 2 {
        '2'
    } else if d == 3 {
        '3'
    } else if d == 4 {
        '4'
    } else if d == 5 {
        '5'
    } else if d == 6 {
        '6'
    } else if d == 7 {
        '7'
    } else if d == 8 {
        '8'
    } else {
        '9'
    }
}

fn push_digits(s: &mut String, n: u64)
    ensures
        final(s)@ == old(s)@ + digits(n as nat),
    decreases n,
{
    if n < 10 {
        push_char(s, digit_of(n));
        assert(old(s)@.push(digit_char(n as nat)) =~= old(s)@ + digits(n as nat));
    } else {
        push_digits(s, n / 10);
        push_char(s, digit_of(n % 10));
        assert((old(s)@ + digits((n / 10) as nat)).push(digit_char((n % 10) as nat)) =~= old(s)@
            + digits(n as nat));
    }
}

/// Appends the decimal text of `n` to `s`.
pub fn push_decimal(s: &mut String, n: i64)
    ensures
        final(s)@ == old(s)@ + decimal(n as int),
{
    if n < 0 {
        let magnitude: u64 = ((-(n + 1)) as u64) + 1;
        push_char(s, '-');
        push_digits(s, magnitude);
        assert(old(s)@.push('-') + digits(magnitude as nat) =~= old(s)@ + decimal(n as int));
    } else {
        push_digits(s, n as u64);
    }
}

/// The decimal text of `n`.
pub fn decimal_text(n: i64) -> (r: String)
    ensures
        r@ == decimal(n as int),
{
    let mut s = String::new();
    push_decimal(&mut s, n);
    assert(Seq::<char>::empty() + decimal(n as int) =~= decimal(n as int));
    s
}

} // verus!
