//! Colors, palette entries and their canonical hexadecimal codes.

use vstd::prelude::*;

verus! {

/// One pixel or representative color: three 8-bit channels.
#[derive(Clone, Copy, Debug, PartialEq, Eq, Structural)]
pub struct Rgb {
    pub r: u8,
    pub g: u8,
    pub b: u8,
}

/// A final palette entry: a representative color and the number of samples
/// that it stands for.
#[derive(Clone, Copy, Debug, PartialEq, Eq, Structural)]
pub struct DominantColor {
    pub color: Rgb,
    pub count: usize,
}

/// The uppercase hexadecimal digit for a value below 16.
pub open spec fn hex_digit_spec(n: int) -> char {
    if n < 10 {
        (('0' as int) + n) as char
    } else {
        (('A' as int) + n - 10) as char
    }
}

/// Two zero-padded uppercase digits for one channel.
pub open spec fn channel_hex(v: u8) -> Seq<char> {
    seq![hex_digit_spec(v as int / 16), hex_digit_spec(v as int % 16)]
}

/// The canonical six-digit form of a color: red, green, then blue.
pub open spec fn hex_of(c: Rgb) -> Seq<char> {
    channel_hex(c.r) + channel_hex(c.g) + channel_hex(c.b)
}

/// A character of `[0-9A-F]`.
pub open spec fn is_upper_hex_char(ch: char) -> bool {
    ('0' <= ch && ch <= '9') || ('A' <= ch && ch <= 'F')
}

/// The value of a character of `[0-9A-F]`.
pub open spec fn hex_value(ch: char) -> int {
    if ch <= '9' {
        ch as int - '0' as int
    } else {
        ch as int - 'A' as int + 10
    }
}

fn hex_digit(n: u8) -> (ch: char)
    requires
        n < 16,
    ensures
        ch == hex_digit_spec(n as int),
{
    if n < 10 {
        ((48u8 + n) as char)
    } else {
        ((55u8 + n) as char)
    }
}

/// The six hexadecimal digits of a color, as characters.
pub fn hex_chars(c: Rgb) -> (v: Vec<char>)
    ensures
        v@ == hex_of(c),
{
    let mut v: Vec<char> = Vec::new();
    v.push(hex_digit(c.r / 16));
    v.push(hex_digit(c.r % 16));
    v.push(hex_digit(c.g / 16));
    v.push(hex_digit(c.g % 16));
    v.push(hex_digit(c.b / 16));
    v.push(hex_digit(c.b % 16));
    assert(v@ == hex_of(c));
    v
}

/// Relies on `String`'s `FromIterator<char>`: the string holds the characters
/// in the order given.
#[verifier::external_body]
fn string_from_chars(v: Vec<char>) -> (s: String)
    ensures
        s@ == v@,
{
    v.into_iter().collect()
}

/// The six-character uppercase hexadecimal code of a color, each channel
/// zero-padded to two digits.
pub fn format_hex(c: Rgb) -> (s: String)
    ensures
        s@ == hex_of(c),
{
    string_from_chars(hex_chars(c))
}

/// The hexadecimal codes of a palette, in the palette's order.
pub fn format_as_hex(colors: &Vec<DominantColor>) -> (out: Vec<String>)
    ensures
        out.len() == colors.len(),
        forall|i: int| 0 <= i < out.len() ==> (#[trigger] out[i])@ == hex_of(colors[i].color),
{
    let mut out: Vec<String> = Vec::new();
    let mut i: usize = 0;
    while i < colors.len()
        invariant
            i <= colors.len(),
            out.len() == i,
            forall|k: int| 0 <= k < i ==> (#[trigger] out[k])@ == hex_of(colors[k].color),
        decreases colors.len() - i,
    {
        out.push(format_hex(colors[i].color));
        i = i + 1;
    }
    out
}

proof fn lemma_digit_round_trip(n: int)
    requires
        0 <= n < 16,
    ensures
        is_upper_hex_char(hex_digit_spec(n)),
        hex_value(hex_digit_spec(n)) == n,
{
}

/// Every color's code is six characters of `[0-9A-F]`, and the code
/// determines the color: reading the digits back gives the three channels.
pub proof fn lemma_hex_shape_and_inverse(c: Rgb)
    ensures
        hex_of(c).len() == 6,
        forall|i: int| 0 <= i < 6 ==> is_upper_hex_char(#[trigger] hex_of(c)[i]),
        16 * hex_value(hex_of(c)[0]) + hex_value(hex_of(c)[1]) == c.r as int,
        16 * hex_value(hex_of(c)[2]) + hex_value(hex_of(c)[3]) == c.g as int,
        16 * hex_value(hex_of(c)[4]) + hex_value(hex_of(c)[5]) == c.b as int,
{
    lemma_digit_round_trip(c.r as int / 16);
    lemma_digit_round_trip(c.r as int % 16);
    lemma_digit_round_trip(c.g as int / 16);
    lemma_digit_round_trip(c.g as int % 16);
    lemma_digit_round_trip(c.b as int / 16);
    lemma_digit_round_trip(c.b as int % 16);
    let h = hex_of(c);
    assert(h[0] == hex_digit_spec(c.r as int / 16));
    assert(h[1] == hex_digit_spec(c.r as int % 16));
    assert(h[2] == hex_digit_spec(c.g as int / 16));
    assert(h[3] == hex_digit_spec(c.g as int % 16));
    assert(h[4] == hex_digit_spec(c.b as int / 16));
    assert(h[5] == hex_digit_spec(c.b as int % 16));
}

/// Formatting is one-to-one: two colors with the same code are the same color.
pub proof fn lemma_hex_injective(a: Rgb, b: Rgb)
    requires
        hex_of(a) == hex_of(b),
    ensures
        a == b,
{
    lemma_hex_shape_and_inverse(a);
    lemma_hex_shape_and_inverse(b);
}

} // verus!
