//! Names with numbers in them.

use vstd::prelude::*;
use vstd::string::StringExecFns;

verus! {

pub open spec fn digit(value: nat) -> Seq<char> {
    if value == 0 {
        "0"@
    } else if value == 1 {
        "1"@
    } else if value == 2 {
        "2"@
    } else if value == 3 {
        "3"@
    } else if value == 4 {
        "4"@
    } else if value == 5 {
        "5"@
    } else if value == 6 {
        "6"@
    } else if value == 7 {
        "7"@
    } else if value == 8 {
        "8"@
    } else {
        "9"@
    }
}

/// A number in decimal digits.
pub open spec fn decimal(value: nat) -> Seq<char>
    decreases value,
{
    if value < 10 {
        digit(value)
    } else {
        decimal(value / 10) + digit(value % 10)
    }
}

fn digit_text(value: u64) -> (text: &'static str)
    requires
        value < 10,
    ensures
        text@ == digit(value as nat),
{
    if value == 0 {
        "0"
    } else if value == 1 {
        "1"
    } else if value == 2 {
        "2"
    } else if value == 3 {
        "3"
    } else if value == 4 {
        "4"
    } else if value == 5 {
        "5"
    } else if value == 6 {
        "6"
    } else if value == 7 {
        "7"
    } else if value == 8 {
        "8"
    } else {
        "9"
    }
}

/// Appends a number in decimal digits.
pub fn append_decimal(text: &mut String, value: u64)
    ensures
        final(text)@ == old(text)@ + decimal(value as nat),
    decreases value,
{
    let ghost start = text@;
    if value >= 10 {
        append_decimal(text, value / 10);
    }
    let ghost middle = text@;
    text.append(digit_text(value % 10));
    assert(text@ =~= start + decimal(value as nat));
}

/// A text followed by a number.
pub fn numbered_name(base: &str, value: u64) -> (name: String)
    ensures
        name@ == base@ + decimal(value as nat),
{
    let mut name = String::new();
    name.append(base);
    append_decimal(&mut name, value);
    assert(name@ =~= base@ + decimal(value as nat));
    name
}

/// Digits are told apart.
proof fn lemma_digits(left: nat, right: nat)
    requires
        left < 10,
        right < 10,
        digit(left) == digit(right),
    ensures
        left == right,
{
    reveal_strlit("0");
    reveal_strlit("1");
    reveal_strlit("2");
    reveal_strlit("3");
    reveal_strlit("4");
    reveal_strlit("5");
    reveal_strlit("6");
    reveal_strlit("7");
    reveal_strlit("8");
    reveal_strlit("9");
    assert("0"@[0] == '0' && "1"@[0] == '1' && "2"@[0] == '2' && "3"@[0] == '3' && "4"@[0] == '4');
    assert("5"@[0] == '5' && "6"@[0] == '6' && "7"@[0] == '7' && "8"@[0] == '8' && "9"@[0] == '9');
    assert(digit(left)[0] == digit(right)[0]);
}

proof fn lemma_digit_length(value: nat)
    ensures
        digit(value).len() == 1,
{
    reveal_strlit("0");
    reveal_strlit("1");
    reveal_strlit("2");
    reveal_strlit("3");
    reveal_strlit("4");
    reveal_strlit("5");
    reveal_strlit("6");
    reveal_strlit("7");
    reveal_strlit("8");
    reveal_strlit("9");
}

proof fn lemma_decimal_length(value: nat)
    ensures
        decimal(value).len() >= 1,
        value >= 10 ==> decimal(value).len() == decimal(value / 10).len() + 1,
        value < 10 ==> decimal(value).len() == 1,
        value >= 10 ==> decimal(value).len() >= 2,
    decreases value,
{
    lemma_digit_length(value);
    lemma_digit_length(value % 10);
    if value >= 10 {
        lemma_decimal_length(value / 10);
    }
}

/// Different numbers have different digits.
pub proof fn decimals_are_distinct(left: nat, right: nat)
    requires
        decimal(left) == decimal(right),
    ensures
        left == right,
    decreases left,
{
    lemma_decimal_length(left);
    lemma_decimal_length(right);
    if left < 10 {
        lemma_digits(left, right);
    } else {
        lemma_digit_length(left % 10);
        lemma_digit_length(right % 10);
        crate::digest::lemma_split(
            decimal(left / 10),
            digit(left % 10),
            decimal(right / 10),
            digit(right % 10),
        );
        lemma_digits(left % 10, right % 10);
        decimals_are_distinct(left / 10, right / 10);
    }
}

} // verus!
