//! How cell values are written out: as escaped bytes where they fit in a
//! byte, as decimal numerals where they do not.

use vstd::prelude::*;

verus! {

/// The character for the hexadecimal digit `d`, in lower case.
pub open spec fn hex_digit(d: int) -> char {
    if d < 10 {
        (48 + d) as char
    } else {
        (87 + d) as char
    }
}

/// The character for the decimal digit `d`.
pub open spec fn digit(d: int) -> char {
    (48 + d) as char
}

/// A byte, escaped: a backslash and a letter for tab, carriage return and
/// line feed; a backslash before a quote or a backslash; the character
/// itself for the other printable ones; `\x` and two hexadecimal digits for
/// the rest.
pub open spec fn escaped(b: u8) -> Seq<char> {
    if b == 9 {
        seq!['\\', 't']
    } else if b == 13 {
        seq!['\\', 'r']
    } else if b == 10 {
        seq!['\\', 'n']
    } else if b == 39 {
        seq!['\\', '\'']
    } else if b == 34 {
        seq!['\\', '"']
    } else if b == 92 {
        seq!['\\', '\\']
    } else if 0x20 <= b <= 0x7e {
        seq![b as char]
    } else {
        seq!['\\', 'x', hex_digit(b as int / 16), hex_digit(b as int % 16)]
    }
}

/// The decimal digits of `n`, without leading zeros.
pub open spec fn digits(n: nat) -> Seq<char>
    decreases n,
{
    if n < 10 {
        seq![digit(n as int)]
    } else {
        digits(n / 10).push(digit(n as int % 10))
    }
}

/// The decimal numeral of `v`, with a minus sign where it is negative.
pub open spec fn decimal(v: int) -> Seq<char> {
    if v < 0 {
        seq!['-'] + digits((-v) as nat)
    } else {
        digits(v as nat)
    }
}

/// A cell value as it is written out: escaped where it fits in a byte, in
/// decimal where it does not.
pub open spec fn rendered(value: i32) -> Seq<char> {
    if 0 <= value <= 255 {
        escaped(value as u8)
    } else {
        decimal(value as int)
    }
}

/// The decimal numerals of `values`, with a comma and a space between each
/// two.
pub open spec fn listed(values: Seq<i32>) -> Seq<char>
    decreases values.len(),
{
    if values.len() == 0 {
        Seq::empty()
    } else if values.len() == 1 {
        decimal(values[0] as int)
    } else {
        listed(values.drop_last()) + seq![',', ' '] + decimal(values.last() as int)
    }
}

/// `String::push` of the standard library: one more character at the end.
#[verifier::external_body]
fn push_char(text: &mut String, c: char)
    ensures
        final(text)@ == old(text)@.push(c),
{
    text.push(c);
}

fn hex_digit_char(d: u8) -> (c: char)
    requires
        d < 16,
    ensures
        c == hex_digit(d as int),
{
    if d < 10 {
        (48u8 + d) as char
    } else {
        (87u8 + d) as char
    }
}

fn push_escaped(text: &mut String, b: u8)
    ensures
        final(text)@ == old(text)@ + escaped(b),
{
    if b == 9 {
        push_char(text, '\\');
        push_char(text, 't');
    } else if b == 13 {
        push_char(text, '\\');
        push_char(text, 'r');
    } else if b == 10 {
        push_char(text, '\\');
        push_char(text, 'n');
    } else if b == 39 {
        push_char(text, '\\');
        push_char(text, '\'');
    } else if b == 34 {
        push_char(text, '\\');
        push_char(text, '"');
    } else if b == 92 {
        push_char(text, '\\');
        push_char(text, '\\');
    } else if 0x20 <= b && b <= 0x7e {
        push_char(text, b as char);
    } else {
        push_char(text, '\\');
        push_char(text, 'x');
        push_char(text, hex_digit_char(b / 16));
        push_char(text, hex_digit_char(b % 16));
    }
}

fn push_digits(text: &mut String, n: u32)
    ensures
        final(text)@ == old(text)@ + digits(n as nat),
    decreases n,
{
    if n >= 10 {
        push_digits(text, n / 10);
    }
    push_char(text, (48u8 + (n % 10) as u8) as char);
}

fn push_decimal(text: &mut String, value: i32)
    ensures
        final(text)@ == old(text)@ + decimal(value as int),
{
    if value < 0 {
        push_char(text, '-');
        push_digits(text, (-(value as i64)) as u32);
    } else {
        push_digits(text, value as u32);
    }
}

/// Writes a cell value out: escaped where it fits in a byte, in decimal
/// where it does not.
pub fn format_for_ttv(value: i32) -> (text: String)
    ensures
        text@ == rendered(value),
{
    let mut text = String::new();
    if 0 <= value && value <= 255 {
        push_escaped(&mut text, value as u8);
    } else {
        push_decimal(&mut text, value);
    }
    text
}

/// Writes a tape out: its values in decimal, separated by a comma and a
/// space, between square brackets.
pub fn vec_to_string(vec: Vec<i32>) -> (text: String)
    ensures
        text@ == seq!['['] + listed(vec@) + seq![']'],
{
    let mut text = String::new();
    push_char(&mut text, '[');
    let mut i: usize = 0;
    while i < vec.len()
        invariant
            i <= vec.len(),
            text@ == seq!['['] + listed(vec@.take(i as int)),
        decreases vec.len() - i,
    {
        if i > 0 {
            push_char(&mut text, ',');
            push_char(&mut text, ' ');
        }
        push_decimal(&mut text, vec[i]);
        assert(vec@.take(i + 1).drop_last() =~= vec@.take(i as int));
        i = i + 1;
    }
    assert(vec@.take(i as int) =~= vec@);
    push_char(&mut text, ']');
    text
}

} // verus!
