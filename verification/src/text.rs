//! Decimal numbers in error texts.

use vstd::prelude::*;
use vstd::string::*;

verus! {

/// The character of a decimal digit.
pub open spec fn digit_char(d: int) -> char {
    ('0' as int + d) as char
}

/// The decimal notation of `n`, without leading zeros.
pub open spec fn decimal(n: nat) -> Seq<char>
    decreases n,
{
    if n < 10 {
        seq![digit_char(n as int)]
    } else {
        decimal(n / 10).push(digit_char((n % 10) as int))
    }
}

/// Appends one decimal digit to a text.
fn push_digit(text: &mut String, d: usize)
    requires
        d < 10,
    ensures
        final(text)@ == old(text)@.push(digit_char(d as int)),
{
    proof {
        reveal_strlit("0");
        reveal_strlit("1");
        reveal_strlit("2");
        reveal_strlit("3");
        reveal_strlit("4");
        reveal_strlit("5");
        reveal_strlit("6");
        reveal_strlit("7");
        reveal_strlit("8");
        reveal_strlit("9");
    }
    let digit: &str = if d == 0 {
        "0"
    } else if d == 1 {
        "1"
    } else if d == 2 {
        "2"
    } else if d == 3 {
        "3"
    } else if d == 4 {
        "4"
    } else if d == 5 {
        "5"
    } else if d == 6 {
        "6"
    } else if d == 7 {
        "7"
    } else if d == 8 {
        "8"
    } else {
        "9"
    };
    assert(digit@ =~= seq![digit_char(d as int)]);
    text.append(digit);
    assert(text@ =~= old(text)@.push(digit_char(d as int)));
}

/// Appends the decimal notation of `n` to a text.
pub fn push_decimal(text: &mut String, n: usize)
    ensures
        final(text)@ == old(text)@ + decimal(n as nat),
    decreases n,
{
    if n >= 10 {
        push_decimal(text, n / 10);
    }
    push_digit(text, n % 10);
    assert(text@ =~= old(text)@ + decimal(n as nat));
}

/// The decimal notation of a number has digits only, none of them a leading zero
/// unless the number is below ten, and its value is the number.
pub proof fn law_decimal_has_its_value(n: nat)
    ensures
        decimal(n).len() > 0,
        forall|i: int| 0 <= i < decimal(n).len() ==> '0' <= #[trigger] decimal(n)[i] <= '9',
        decimal(n).len() > 1 ==> decimal(n)[0] != '0',
        n > 0 ==> decimal(n)[0] != '0',
        decimal(n).fold_left(0, |value: int, c: char| 10 * value + (c as int - '0' as int)) == n,
    decreases n,
{
    let digits = decimal(n);
    let f = |value: int, c: char| 10 * value + (c as int - '0' as int);
    if n < 10 {
        assert(digits.drop_last() =~= Seq::empty());
        assert(digits.drop_last().fold_left(0, f) == 0);
    } else {
        law_decimal_has_its_value(n / 10);
        assert(digits.drop_last() =~= decimal(n / 10));
        assert(n == 10 * (n / 10) + n % 10);
    }
}

} // verus!
