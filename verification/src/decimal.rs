//! Decimal notation of integers.

use vstd::prelude::*;
use vstd::string::StringExecFns;

verus! {

/// The character that stands for the digit `d`.
pub open spec fn digit_char(d: nat) -> char
    recommends
        d < 10,
{
    seq!['0', '1', '2', '3', '4', '5', '6', '7', '8', '9'][d as int]
}

/// The decimal digits of `n`, most significant first, without leading zeros.
pub open spec fn digits(n: nat) -> Seq<char>
    decreases n,
{
    if n < 10 {
        seq![digit_char(n)]
    } else {
        digits(n / 10) + seq![digit_char(n % 10)]
    }
}

/// The decimal notation of `x`: a minus sign for a negative number, then the
/// digits of its magnitude.
pub open spec fn decimal(x: int) -> Seq<char> {
    if x < 0 {
        seq!['-'] + digits((-x) as nat)
    } else {
        digits(x as nat)
    }
}

/// `c` is one of the ten digits.
pub open spec fn is_digit(c: char) -> bool {
    c == '0' || c == '1' || c == '2' || c == '3' || c == '4' || c == '5' || c == '6' || c == '7'
        || c == '8' || c == '9'
}

/// The digits of a number are digits, at least one of them.
pub proof fn lemma_digits_shape(n: nat)
    ensures
        digits(n).len() > 0,
        forall|i: int| 0 <= i < digits(n).len() ==> is_digit(#[trigger] digits(n)[i]),
    decreases n,
{
    if n < 10 {
        assert(is_digit(digit_char(n)));
    } else {
        lemma_digits_shape(n / 10);
        assert(is_digit(digit_char(n % 10)));
    }
}

/// The decimal notation of a number is not empty. It is made of digits,
/// after a minus sign in the first place if and only if the number is
/// negative.
pub proof fn lemma_decimal_shape(x: int)
    ensures
        decimal(x).len() > 0,
        x < 0 <==> decimal(x)[0] == '-',
        forall|i: int|
            0 <= i < decimal(x).len() && !(i == 0 && x < 0) ==> is_digit(#[trigger] decimal(x)[i]),
{
    if x < 0 {
        lemma_digits_shape((-x) as nat);
        assert forall|i: int| 0 < i < decimal(x).len() implies is_digit(
            #[trigger] decimal(x)[i],
        ) by {
            assert(decimal(x)[i] == digits((-x) as nat)[i - 1]);
        }
    } else {
        lemma_digits_shape(x as nat);
        let first = digits(x as nat)[0];
        assert(is_digit(first));
    }
}

/// The one-character text of a single digit.
fn digit_text(d: u32) -> (t: &'static str)
    requires
        d < 10,
    ensures
        t@ == seq![digit_char(d as nat)],
{
    proof {
        reveal_strlit("0");
        reveal_strlit("1");
        reveal_strlit("2");
        reveal_strlit("3");
        reveal_strlit("4");
        reveal_strlit("5");
        reveal_strlit("6");
        reveal_strlit("7");
        reveal_strlit("8");
        reveal_strlit("9");
    }
    let t = if d == 0 {
        "0"
    } else if d == 1 {
        "1"
    } else if d == 2 {
        "2"
    } else if d == 3 {
        "3"
    } else if d == 4 {
        "4"
    } else if d == 5 {
        "5"
    } else if d == 6 {
        "6"
    } else if d == 7 {
        "7"
    } else if d == 8 {
        "8"
    } else {
        "9"
    };
    assert(t@ =~= seq![digit_char(d as nat)]);
    t
}

/// Appends the digits of `n` to `out`.
fn push_digits(n: u32, out: &mut String)
    ensures
        final(out)@ == old(out)@ + digits(n as nat),
    decreases n,
{
    if n >= 10 {
        push_digits(n / 10, out);
    }
    out.append(digit_text(n % 10));
    assert(out@ =~= old(out)@ + digits(n as nat));
}

/// Appends the decimal notation of `x` to `out`.
pub fn push_decimal(x: i32, out: &mut String)
    ensures
        final(out)@ == old(out)@ + decimal(x as int),
{
    if x < 0 {
        proof {
            reveal_strlit("-");
        }
        out.append("-");
        let magnitude: u32 = (0 - (x as i64)) as u32;
        push_digits(magnitude, out);
        assert(out@ =~= old(out)@ + decimal(x as int));
    } else {
        push_digits(x as u32, out);
    }
}

} // verus!
