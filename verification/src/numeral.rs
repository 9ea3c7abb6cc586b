//! Decimal numerals: numbers as they are written on a command line and in the
//! factor file.

use vstd::prelude::*;
use vstd::string::{StrSliceExecFns, StringExecFns};

verus! {

/// The decimal digit of a number below ten.
pub open spec fn digit(value: nat) -> char
    recommends
        value < 10,
{
    if value == 0 {
        '0'
    } else if value == 1 {
        '1'
    } else if value == 2 {
        '2'
    } else if value == 3 {
        '3'
    } else if value == 4 {
        '4'
    } else if value == 5 {
        '5'
    } else if value == 6 {
        '6'
    } else if value == 7 {
        '7'
    } else if value == 8 {
        '8'
    } else {
        '9'
    }
}

/// A whole number written in decimal digits, without leading zeros.
pub open spec fn decimal(value: nat) -> Seq<char>
    decreases value,
{
    if value < 10 {
        seq![digit(value)]
    } else {
        decimal(value / 10).push(digit(value % 10))
    }
}

/// Whether `c` is one of the ten decimal digits.
pub open spec fn is_digit(c: char) -> bool {
    '0' <= c && c <= '9'
}

/// Whether `text` is a decimal numeral: digits, or digits on both sides of
/// one decimal point. There is no sign, no exponent and no blank.
pub open spec fn is_numeral(text: Seq<char>) -> bool {
    &&& text.len() > 0
    &&& is_digit(text.first())
    &&& is_digit(text.last())
    &&& forall|i: int| 0 <= i < text.len() ==> is_digit(#[trigger] text[i]) || text[i] == '.'
    &&& forall|i: int, j: int|
        0 <= i < j < text.len() ==> !(#[trigger] text[i] == '.' && #[trigger] text[j] == '.')
}

/// A decimal numeral holds no line feed.
pub proof fn lemma_numeral_is_single_line(text: Seq<char>)
    requires
        is_numeral(text),
    ensures
        forall|i: int| 0 <= i < text.len() ==> #[trigger] text[i] != '\n',
{
    assert forall|i: int| 0 <= i < text.len() implies #[trigger] text[i] != '\n' by {
        assert(is_digit(text[i]) || text[i] == '.');
    }
}

/// The text of one decimal digit.
fn digit_text(value: usize) -> (text: &'static str)
    requires
        value < 10,
    ensures
        text@ == seq![digit(value as nat)],
{
    proof {
        reveal_strlit("0");
        reveal_strlit("1");
        reveal_strlit("2");
        reveal_strlit("3");
        reveal_strlit("4");
        reveal_strlit("5");
        reveal_strlit("6");
        reveal_strlit("7");
        reveal_strlit("8");
        reveal_strlit("9");
    }
    let text = if value == 0 {
        "0"
    } else if value == 1 {
        "1"
    } else if value == 2 {
        "2"
    } else if value == 3 {
        "3"
    } else if value == 4 {
        "4"
    } else if value == 5 {
        "5"
    } else if value == 6 {
        "6"
    } else if value == 7 {
        "7"
    } else if value == 8 {
        "8"
    } else {
        "9"
    };
    assert(text@ =~= seq![digit(value as nat)]);
    text
}

/// Writes a whole number in decimal digits.
pub fn decimal_text(value: usize) -> (text: String)
    ensures
        text@ == decimal(value as nat),
    decreases value,
{
    if value < 10 {
        String::from_str(digit_text(value))
    } else {
        let mut text = decimal_text(value / 10);
        text.append(digit_text(value % 10));
        assert(text@ =~= decimal(value as nat));
        text
    }
}

/// Whether `text` is a decimal numeral.
pub fn is_numeral_text(text: &str) -> (numeral: bool)
    ensures
        numeral == is_numeral(text@),
{
    let length = text.unicode_len();
    if length == 0 {
        return false;
    }
    let mut points: usize = 0;
    let mut point_at: usize = 0;
    let mut i: usize = 0;
    while i < length
        invariant
            i <= length,
            length == text@.len(),
            points <= 1,
            points == 1 ==> point_at < i && text@[point_at as int] == '.',
            points == 0 ==> forall|j: int| 0 <= j < i ==> is_digit(#[trigger] text@[j]),
            forall|j: int| 0 <= j < i ==> is_digit(#[trigger] text@[j]) || text@[j] == '.',
            forall|j: int, k: int|
                0 <= j < k < i ==> !(#[trigger] text@[j] == '.' && #[trigger] text@[k] == '.'),
        decreases length - i,
    {
        let c = text.get_char(i);
        if c == '.' {
            if points == 1 {
                assert(text@[point_at as int] == '.' && text@[i as int] == '.');
                return false;
            }
            points = 1;
            point_at = i;
        } else if !('0' <= c && c <= '9') {
            assert(!(is_digit(text@[i as int]) || text@[i as int] == '.'));
            return false;
        }
        i += 1;
    }
    let first = text.get_char(0);
    let last = text.get_char(length - 1);
    first != '.' && last != '.'
}

} // verus!
