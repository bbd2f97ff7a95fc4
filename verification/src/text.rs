//! Numbers as text.

use vstd::prelude::*;

verus! {

/// The character of a decimal digit.
pub open spec fn digit(value: nat) -> char {
    (48 + value) as char
}

/// A number in decimal notation, without leading zeros.
pub open spec fn decimal(value: nat) -> Seq<char>
    decreases value,
{
    if value < 10 {
        seq![digit(value)]
    } else {
        decimal(value / 10).push(digit(value % 10))
    }
}

/// The text of one decimal digit.
fn digit_text(value: u64) -> (text: &'static str)
    requires
        value < 10,
    ensures
        text@ == seq![digit(value as nat)],
{
    proof {
        reveal_strlit("0");
        reveal_strlit("1");
        reveal_strlit("2");
        reveal_strlit("3");
        reveal_strlit("4");
        reveal_strlit("5");
        reveal_strlit("6");
        reveal_strlit("7");
        reveal_strlit("8");
        reveal_strlit("9");
    }
    let text = match value {
        0 => "0",
        1 => "1",
        2 => "2",
        3 => "3",
        4 => "4",
        5 => "5",
        6 => "6",
        7 => "7",
        8 => "8",
        _ => "9",
    };
    assert(text@ =~= seq![digit(value as nat)]);
    text
}

/// Append a number in decimal notation.
pub fn push_decimal(text: &mut String, value: u64)
    ensures
        final(text)@ == old(text)@ + decimal(value as nat),
    decreases value,
{
    if value >= 10 {
        push_decimal(text, value / 10);
    }
    text.append(digit_text(value % 10));
    assert(text@ =~= old(text)@ + decimal(value as nat));
}

/// The number that some digits make, read from left to right.
pub open spec fn number(digits: Seq<char>) -> int
    decreases digits.len(),
{
    if digits.len() == 0 {
        0
    } else {
        number(digits.drop_last()) * 10 + (digits.last() as int - '0' as int)
    }
}

/// Whether the text is a number in decimal digits, without leading zeros.
pub open spec fn reads_as(text: Seq<char>, value: nat) -> bool {
    &&& text.len() > 0
    &&& forall|i: int| 0 <= i < text.len() ==> '0' <= #[trigger] text[i] <= '9'
    &&& text.len() > 1 ==> text[0] != '0'
    &&& number(text) == value
}

/// A number is read back from the text that it is written as.
pub proof fn law_numbers_read_back(value: nat)
    ensures
        reads_as(decimal(value), value),
    decreases value,
{
    let text = decimal(value);
    if value < 10 {
        assert(text.drop_last() == Seq::<char>::empty());
        assert(text.last() == digit(value));
        assert(number(text.drop_last()) == 0);
        assert(text[0] == digit(value));
        assert(number(text) == value);
    } else {
        let rest = decimal(value / 10);
        law_numbers_read_back(value / 10);
        assert(text.drop_last() == rest);
        assert(text.last() == digit(value % 10));
        assert forall|i: int| 0 <= i < text.len() implies '0' <= #[trigger] text[i] <= '9' by {
            if i < rest.len() {
                assert(text[i] == rest[i]);
            }
        }
        assert(text[0] == rest[0]);
        assert(number(text) == (value / 10) * 10 + value % 10);
        if rest.len() == 1 {
            assert(rest.drop_last() == Seq::<char>::empty());
            assert(number(rest) == rest[0] as int - '0' as int) by {
                assert(number(rest.drop_last()) == 0);
            }
        }
    }
}

/// Digits that do not start with a zero make a positive number.
proof fn lemma_number_positive(text: Seq<char>)
    requires
        text.len() > 0,
        forall|i: int| 0 <= i < text.len() ==> '0' <= #[trigger] text[i] <= '9',
        text[0] != '0',
    ensures
        number(text) > 0,
    decreases text.len(),
{
    let rest = text.drop_last();
    if rest.len() == 0 {
        assert(number(rest) == 0);
    } else {
        assert(rest[0] == text[0]);
        assert forall|i: int| 0 <= i < rest.len() implies '0' <= #[trigger] rest[i] <= '9' by {
            assert(rest[i] == text[i]);
        }
        lemma_number_positive(rest);
    }
    assert('0' <= text[text.len() - 1]);
}

/// There is one way to write a number.
pub proof fn law_numbers_are_written_one_way(text: Seq<char>, value: nat)
    requires
        reads_as(text, value),
    ensures
        text == decimal(value),
    decreases text.len(),
{
    let rest = text.drop_last();
    let last = text.len() - 1;
    assert('0' <= text[last] <= '9');
    if rest.len() == 0 {
        assert(number(rest) == 0);
        assert(text == seq![digit(value)]);
    } else {
        assert(rest[0] == text[0]);
        assert forall|i: int| 0 <= i < rest.len() implies '0' <= #[trigger] rest[i] <= '9' by {
            assert(rest[i] == text[i]);
        }
        lemma_number_positive(rest);
        assert(number(rest) == value / 10);
        law_numbers_are_written_one_way(rest, value / 10);
        assert(text == rest.push(text[last]));
        assert(text[last] == digit(value % 10));
    }
}

} // verus!
