//! Decimal text for identifiers and error messages.

use vstd::prelude::*;

verus! {

/// The character of one decimal digit.
pub open spec fn digit(value: nat) -> char
    recommends
        value < 10,
{
    if value == 0 {
        '0'
    } else if value == 1 {
        '1'
    } else if value == 2 {
        '2'
    } else if value == 3 {
        '3'
    } else if value == 4 {
        '4'
    } else if value == 5 {
        '5'
    } else if value == 6 {
        '6'
    } else if value == 7 {
        '7'
    } else if value == 8 {
        '8'
    } else {
        '9'
    }
}

/// The decimal digits of `value`, most significant first and without leading
/// zeros.
pub open spec fn digits(value: nat) -> Seq<char>
    decreases value,
{
    if value < 10 {
        seq![digit(value)]
    } else {
        digits(value / 10).push(digit(value % 10))
    }
}

fn digit_text(value: u64) -> (out: &'static str)
    requires
        value < 10,
    ensures
        out@ == seq![digit(value as nat)],
{
    proof {
        reveal_strlit("0");
        reveal_strlit("1");
        reveal_strlit("2");
        reveal_strlit("3");
        reveal_strlit("4");
        reveal_strlit("5");
        reveal_strlit("6");
        reveal_strlit("7");
        reveal_strlit("8");
        reveal_strlit("9");
    }
    if value == 0 {
        "0"
    } else if value == 1 {
        "1"
    } else if value == 2 {
        "2"
    } else if value == 3 {
        "3"
    } else if value == 4 {
        "4"
    } else if value == 5 {
        "5"
    } else if value == 6 {
        "6"
    } else if value == 7 {
        "7"
    } else if value == 8 {
        "8"
    } else {
        "9"
    }
}

/// Append the decimal text of `value` to `out`.
pub fn push_decimal(out: &mut String, value: u64)
    ensures
        final(out)@ == old(out)@ + digits(value as nat),
    decreases value,
{
    if value >= 10 {
        push_decimal(out, value / 10);
    }
    out.append(digit_text(value % 10));
    assert(out@ =~= old(out)@ + digits(value as nat));
}

/// Append `label` and then the decimal text of `value` to `out`.
pub fn push_field(out: &mut String, label: &str, value: u64)
    ensures
        final(out)@ == old(out)@ + label@ + digits(value as nat),
{
    out.append(label);
    push_decimal(out, value);
}

/// `label` followed by the decimal text of `value`.
pub fn field(label: &str, value: u64) -> (out: String)
    ensures
        out@ == label@ + digits(value as nat),
{
    let mut out = String::from_str(label);
    push_decimal(&mut out, value);
    out
}

/// The decimal text of `value`.
pub fn decimal(value: u64) -> (out: String)
    ensures
        out@ == digits(value as nat),
{
    proof {
        reveal_strlit("");
    }
    let mut out = String::from_str("");
    push_decimal(&mut out, value);
    assert(out@ =~= digits(value as nat));
    out
}

/// Distinct numbers have distinct decimal texts.
pub proof fn digits_are_injective(left: nat, right: nat)
    requires
        digits(left) == digits(right),
    ensures
        left == right,
    decreases left,
{
    if left >= 10 && right >= 10 {
        assert(digits(left).drop_last() =~= digits(left / 10));
        assert(digits(right).drop_last() =~= digits(right / 10));
        assert(digits(left).last() == digit(left % 10));
        assert(digits(right).last() == digit(right % 10));
        digits_are_injective(left / 10, right / 10);
    } else if left >= 10 {
        digits_nonempty(left / 10);
        assert(digits(right).len() == 1);
    } else if right >= 10 {
        digits_nonempty(right / 10);
        assert(digits(left).len() == 1);
    } else {
        assert(digits(left)[0] == digit(left));
        assert(digits(right)[0] == digit(right));
    }
}

proof fn digits_nonempty(value: nat)
    ensures
        digits(value).len() >= 1,
    decreases value,
{
    if value >= 10 {
        digits_nonempty(value / 10);
    }
}

/// The number that decimal text stands for.
pub open spec fn number_of(text: Seq<char>) -> int
    decreases text.len(),
{
    if text.len() == 0 {
        0
    } else {
        10 * number_of(text.drop_last()) + (text.last() as int - '0' as int)
    }
}

/// Decimal text is made of digits, stands for its number, and has no leading zero
/// but for zero itself.
pub proof fn decimal_text_reads_back(value: nat)
    ensures
        number_of(digits(value)) == value,
        digits(value).len() > 0,
        forall|i: int| 0 <= i < digits(value).len() ==> '0' <= #[trigger] digits(value)[i] <= '9',
        value > 0 ==> digits(value)[0] != '0',
        value == 0 ==> digits(value) == seq!['0'],
    decreases value,
{
    let text = digits(value);
    let last = value % 10;
    assert(digit(last) as int - '0' as int == last);
    assert(text.last() == digit(last));
    if value >= 10 {
        decimal_text_reads_back(value / 10);
        assert(text.drop_last() =~= digits(value / 10));
    } else {
        assert(text.drop_last() =~= Seq::empty());
        assert(number_of(text.drop_last()) == 0);
    }
}

/// Different numbers have different text.
pub proof fn decimal_text_tells_numbers_apart(left: nat, right: nat)
    requires
        digits(left) == digits(right),
    ensures
        left == right,
{
    decimal_text_reads_back(left);
    decimal_text_reads_back(right);
}

} // verus!
