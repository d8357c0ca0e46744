//! Numbers in decimal: written out, and read.

use vstd::prelude::*;

verus! {

/// The character of a decimal digit.
pub open spec fn digit_char(digit: nat) -> char {
    if digit == 0 {
        '0'
    } else if digit == 1 {
        '1'
    } else if digit == 2 {
        '2'
    } else if digit == 3 {
        '3'
    } else if digit == 4 {
        '4'
    } else if digit == 5 {
        '5'
    } else if digit == 6 {
        '6'
    } else if digit == 7 {
        '7'
    } else if digit == 8 {
        '8'
    } else {
        '9'
    }
}

/// A number in decimal, without leading zeros.
pub open spec fn decimal(n: nat) -> Seq<char>
    decreases n,
{
    if n < 10 {
        seq![digit_char(n)]
    } else {
        decimal(n / 10).push(digit_char(n % 10))
    }
}

/// The text of one decimal digit.
fn digit_text(digit: usize) -> (text: &'static str)
    requires
        digit < 10,
    ensures
        text@ == seq![digit_char(digit as nat)],
{
    proof {
        reveal_strlit("0");
        reveal_strlit("1");
        reveal_strlit("2");
        reveal_strlit("3");
        reveal_strlit("4");
        reveal_strlit("5");
        reveal_strlit("6");
        reveal_strlit("7");
        reveal_strlit("8");
        reveal_strlit("9");
    }
    let text = match digit {
        0 => "0",
        1 => "1",
        2 => "2",
        3 => "3",
        4 => "4",
        5 => "5",
        6 => "6",
        7 => "7",
        8 => "8",
        _ => "9",
    };
    assert(text@ =~= seq![digit_char(digit as nat)]);
    text
}

/// Writes `n` in decimal behind `text`.
pub fn append_decimal(text: &mut String, n: usize)
    ensures
        final(text)@ == old(text)@ + decimal(n as nat),
    decreases n,
{
    if n >= 10 {
        append_decimal(text, n / 10);
    }
    text.append(digit_text(n % 10));
    proof {
        if n >= 10 {
            assert(old(text)@ + decimal(n as nat) =~= old(text)@ + decimal((n / 10) as nat)
                + seq![digit_char((n % 10) as nat)]);
        } else {
            assert(old(text)@ + decimal(n as nat) =~= old(text)@ + seq![digit_char(n as nat)]);
        }
    }
}

/// Whether a character is one of the digits `0` to `9`.
pub open spec fn is_digit(c: char) -> bool {
    0x30 <= c as u32 <= 0x39
}

/// Whether every character is a digit.
pub open spec fn all_digits(digits: Seq<char>) -> bool {
    forall|k: int| 0 <= k < digits.len() ==> is_digit(#[trigger] digits[k])
}

/// The number that digits stand for in decimal.
pub open spec fn digits_value(digits: Seq<char>) -> nat
    decreases digits.len(),
{
    if digits.len() == 0 {
        0
    } else {
        (10 * digits_value(digits.drop_last()) + (digits.last() as u32 - 0x30)) as nat
    }
}

/// A word without the plus sign that may stand before its digits.
pub open spec fn unsigned_part(word: Seq<char>) -> Seq<char> {
    if word.len() > 0 && word[0] == '+' {
        word.drop_first()
    } else {
        word
    }
}

/// The number that a word stands for, where it stands for one up to
/// `limit`: the word is one digit or more, with or without a plus sign
/// before them, and nothing else.
pub open spec fn number_within(word: Seq<char>, limit: nat) -> Option<nat> {
    let digits = unsigned_part(word);
    if digits.len() > 0 && all_digits(digits) && digits_value(digits) <= limit {
        Some(digits_value(digits))
    } else {
        None
    }
}

/// The first digits of a number stand for no more than the number.
pub proof fn lemma_digits_grow(digits: Seq<char>, n: int)
    requires
        all_digits(digits),
        0 <= n <= digits.len(),
    ensures
        digits_value(digits.take(n)) <= digits_value(digits),
    decreases digits.len() - n,
{
    if n < digits.len() {
        lemma_digits_grow(digits, n + 1);
        assert(digits.take(n + 1).drop_last() == digits.take(n));
        assert(is_digit(digits[n]));
        assert(digits.take(n + 1).last() == digits[n]);
    } else {
        assert(digits.take(n) == digits);
    }
}

/// Reads a number up to `limit` from a word.
pub fn parse_number(word: &str, limit: u32) -> (number: Option<u32>)
    ensures
        number == (match number_within(word@, limit as nat) {
            Some(value) => Some(value as u32),
            None => None,
        }),
{
    let length = word.unicode_len();
    let first: usize = if length > 0 && word.get_char(0) == '+' {
        1
    } else {
        0
    };
    if first == length {
        return None;
    }
    let ghost digits = word@.subrange(first as int, length as int);
    proof {
        assert(digits == unsigned_part(word@));
        assert(digits.take(0) == Seq::<char>::empty());
    }
    let mut value: u32 = 0;
    let mut at: usize = first;
    while at < length
        invariant
            first <= at <= length,
            length == word@.len(),
            digits == word@.subrange(first as int, length as int),
            digits == unsigned_part(word@),
            all_digits(digits.take(at - first)),
            value == digits_value(digits.take(at - first)),
            value <= limit,
        decreases length - at,
    {
        let c = word.get_char(at);
        let code = c as u32;
        proof {
            assert(digits[at - first] == c);
            assert(digits.take(at - first + 1).drop_last() == digits.take(at - first));
            assert(digits.take(at - first + 1).last() == c);
        }
        if code < 0x30 || code > 0x39 {
            proof {
                assert(!is_digit(digits[at - first]));
                assert(digits == unsigned_part(word@));
            }
            return None;
        }
        let next: u64 = value as u64 * 10 + (code - 0x30) as u64;
        proof {
            assert(next == digits_value(digits.take(at - first + 1)));
        }
        if next > limit as u64 {
            proof {
                if all_digits(digits) {
                    lemma_digits_grow(digits, at - first + 1);
                }
                assert(digits == unsigned_part(word@));
            }
            return None;
        }
        value = next as u32;
        at += 1;
    }
    proof {
        assert(digits.take(at - first) == digits);
    }
    Some(value)
}

} // verus!
