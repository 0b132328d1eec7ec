//! Reading a coordinate, such as `A8` or `j10`, from a line of text.
//!
//! A line names a coordinate when it starts with a column letter, in either
//! case, and goes on with a row number in decimal digits; blanks may stand
//! between the two and after the number.

use crate::coord::{column_to_index, valid_column, valid_row};
use vstd::prelude::*;

verus! {

/// A blank: a space, a tab, a line feed or a carriage return.
pub open spec fn is_blank(c: char) -> bool {
    c == ' ' || c == '\t' || c == '\n' || c == '\r'
}

/// A decimal digit.
pub open spec fn is_digit(c: char) -> bool {
    '0' as int <= c as int <= '9' as int
}

/// The upper-case form of a letter `a` to `z`; any other character itself.
pub open spec fn upper(c: char) -> char {
    if 'a' as int <= c as int <= 'z' as int {
        (c as int - 32) as char
    } else {
        c
    }
}

/// The text without the blanks at its start.
pub open spec fn skip_blanks(s: Seq<char>) -> Seq<char>
    decreases s.len(),
{
    if s.len() > 0 && is_blank(s[0]) {
        skip_blanks(s.subrange(1, s.len() as int))
    } else {
        s
    }
}

/// The text without the blanks at its end.
pub open spec fn drop_blanks(s: Seq<char>) -> Seq<char>
    decreases s.len(),
{
    if s.len() > 0 && is_blank(s.last()) {
        drop_blanks(s.drop_last())
    } else {
        s
    }
}

/// Every character of the text is a decimal digit.
pub open spec fn all_digits(s: Seq<char>) -> bool {
    forall|i: int| 0 <= i < s.len() ==> is_digit(#[trigger] s[i])
}

/// The number that a text of decimal digits writes; 0 for the empty text.
pub open spec fn number(s: Seq<char>) -> nat
    decreases s.len(),
{
    if s.len() == 0 {
        0
    } else {
        number(s.drop_last()) * 10 + (s.last() as int - '0' as int) as nat
    }
}

/// The row number and column letter that a line names, if it names any: its
/// first character, in upper case, is a column letter, and the rest, with
/// the blanks at both ends left out, is a number in digits from 1 to 10.
pub open spec fn coord_of_line(line: Seq<char>) -> Option<(i32, char)> {
    if line.len() == 0 {
        None
    } else {
        let column = upper(line[0]);
        let digits = drop_blanks(skip_blanks(line.subrange(1, line.len() as int)));
        if valid_column(column) && digits.len() > 0 && all_digits(digits) && valid_row(
            number(digits) as int,
        ) {
            Some((number(digits) as i32, column))
        } else {
            None
        }
    }
}

/// Whether the character is a blank.
fn blank(c: char) -> (res: bool)
    ensures
        res == is_blank(c),
{
    c == ' ' || c == '\t' || c == '\n' || c == '\r'
}

/// The upper-case form of a letter `a` to `z`; any other character itself.
fn to_upper(c: char) -> (res: char)
    ensures
        res == upper(c),
{
    let code: u32 = c as u32;
    if 'a' as u32 <= code && code <= 'z' as u32 {
        ((code - 32) as u8) as char
    } else {
        c
    }
}

/// The value of a decimal digit, if the character is one.
fn digit_value(c: char) -> (res: Option<u32>)
    ensures
        is_digit(c) ==> res == Some((c as int - '0' as int) as u32),
        !is_digit(c) ==> res is None,
{
    let code: u32 = c as u32;
    if '0' as u32 <= code && code <= '9' as u32 {
        Some(code - '0' as u32)
    } else {
        None
    }
}

/// The characters of a text.
fn chars_of(line: &str) -> (chars: Vec<char>)
    ensures
        chars@ == line@,
{
    let len = line.unicode_len();
    let mut chars: Vec<char> = Vec::new();
    let mut i: usize = 0;
    while i < len
        invariant
            i <= len,
            len == line@.len(),
            chars@.len() == i,
            forall|k: int| 0 <= k < i ==> chars@[k] == line@[k],
        decreases len - i,
    {
        chars.push(line.get_char(i));
        i += 1;
    }
    proof {
        assert(chars@ =~= line@);
    }
    chars
}

/// Reads the row number and column letter that a line of text names.
pub fn parse_coord(line: &str) -> (res: Option<(i32, char)>)
    ensures
        res == coord_of_line(line@),
{
    let chars = chars_of(line);
    let len = chars.len();
    if len == 0 {
        return None;
    }
    let column = to_upper(chars[0]);
    let ghost rest = chars@.subrange(1, len as int);
    let mut from: usize = 1;
    while from < len && blank(chars[from])
        invariant
            1 <= from <= len,
            len == chars@.len(),
            skip_blanks(rest) == skip_blanks(chars@.subrange(from as int, len as int)),
        decreases len - from,
    {
        proof {
            let here = chars@.subrange(from as int, len as int);
            assert(here.subrange(1, here.len() as int) =~= chars@.subrange(from + 1, len as int));
        }
        from += 1;
    }
    let ghost tail = chars@.subrange(from as int, len as int);
    assert(skip_blanks(rest) == tail);
    let mut to: usize = len;
    while to > from && blank(chars[to - 1])
        invariant
            from <= to <= len,
            len == chars@.len(),
            drop_blanks(tail) == drop_blanks(chars@.subrange(from as int, to as int)),
            tail == chars@.subrange(from as int, len as int),
        decreases to,
    {
        proof {
            let here = chars@.subrange(from as int, to as int);
            assert(here.drop_last() =~= chars@.subrange(from as int, to - 1));
        }
        to -= 1;
    }
    let ghost digits = chars@.subrange(from as int, to as int);
    assert(drop_blanks(tail) == digits);
    if to == from {
        return None;
    }
    let mut value: u32 = 0;
    let mut k: usize = from;
    while k < to
        invariant
            from <= k <= to <= len,
            len == chars@.len(),
            digits == chars@.subrange(from as int, to as int),
            digits == drop_blanks(skip_blanks(chars@.subrange(1, len as int))),
            chars@ == line@,
            all_digits(chars@.subrange(from as int, k as int)),
            value <= 11,
            value == (if number(chars@.subrange(from as int, k as int)) <= 10 {
                number(chars@.subrange(from as int, k as int))
            } else {
                11
            }),
        decreases to - k,
    {
        let ghost seen = chars@.subrange(from as int, k as int);
        let ghost grown = chars@.subrange(from as int, k + 1);
        proof {
            assert(grown.drop_last() =~= seen);
            assert(grown.last() == chars@[k as int]);
        }
        match digit_value(chars[k]) {
            None => {
                proof {
                    assert(digits[k - from] == chars@[k as int]);
                    assert(!is_digit(digits[k - from]));
                }
                return None;
            },
            Some(d) => {
                let raw: u32 = value * 10 + d;
                value = if raw > 10 { 11 } else { raw };
                proof {
                    assert forall|i: int| 0 <= i < grown.len() implies is_digit(
                        #[trigger] grown[i],
                    ) by {
                        if i < seen.len() {
                            assert(grown[i] == seen[i]);
                        }
                    }
                    assert(number(grown) == number(seen) * 10 + d);
                }
            },
        }
        k += 1;
    }
    proof {
        assert(chars@.subrange(from as int, to as int) =~= digits);
    }
    if value < 1 || value > 10 {
        return None;
    }
    match column_to_index(column) {
        Some(_) => Some((value as i32, column)),
        None => None,
    }
}

} // verus!
