use vstd::prelude::*;
use vstd::utf8::{decode_utf8, valid_utf8};

verus! {

/// The upper-case hexadecimal digit of `d`.
pub open spec fn hex_digit_upper(d: u8) -> char {
    if d < 10 {
        ('0' as u8 + d) as char
    } else {
        ('A' as u8 + (d - 10)) as char
    }
}

/// The two upper-case hexadecimal digits of `b`.
pub open spec fn hex_byte_upper_chars(b: u8) -> Seq<char> {
    seq![hex_digit_upper(b / 16), hex_digit_upper(b % 16)]
}

fn hex_digit(d: u8) -> (c: char)
    requires
        d < 16,
    ensures
        c == hex_digit_upper(d),
{
    if d < 10 {
        (48u8 + d) as char
    } else {
        (65u8 + (d - 10)) as char
    }
}

/// Appends one character to `s`: `String::push`, which appends `c` at the end.
#[verifier::external_body]
pub(crate) fn push_char(s: &mut String, c: char)
    ensures
        final(s)@ == old(s)@.push(c),
{
    s.push(c);
}

/// The text that `String::from_utf8_lossy` reads from `bytes`.
pub uninterp spec fn utf8_lossy(bytes: Seq<u8>) -> Seq<char>;

/// Reads `bytes` as UTF-8 text with `String::from_utf8_lossy`, which replaces each invalid
/// sequence by U+FFFD. Its documentation says that valid UTF-8 is read as it stands; how it
/// splits and replaces invalid sequences is not stated here beyond the name `utf8_lossy`.
#[verifier::external_body]
pub(crate) fn read_utf8_lossy(bytes: &[u8]) -> (s: String)
    ensures
        s@ == utf8_lossy(bytes@),
        valid_utf8(bytes@) ==> s@ == decode_utf8(bytes@),
{
    String::from_utf8_lossy(bytes).into_owned()
}

/// The two upper-case hexadecimal digits of `b`.
pub fn hex_byte_upper(b: u8) -> (s: String)
    ensures
        s@ == hex_byte_upper_chars(b),
{
    let mut s = String::new();
    push_char(&mut s, hex_digit(b / 16));
    push_char(&mut s, hex_digit(b % 16));
    s
}

} // verus!
