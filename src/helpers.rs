use vstd::prelude::*;

use vstd::std_specs::iter::IteratorSpec;
use vstd::utf8::*;

use crate::Encoder;

verus! {

/// The only visible character that is always escaped.
pub const BSLASH: u8 = 0x5C;

/// [`BSLASH`] as a 16-bit unit.
pub const BSLASH_U16: u16 = 0x5C;

// ---------------------------------------------------------------------------
// Hexadecimal digits
// ---------------------------------------------------------------------------

/// The upper-case hexadecimal digit for a value below 16.
pub open spec fn hex_char(n: u8) -> char {
    if n < 10 {
        (n + 48) as char
    } else {
        (n + 55) as char
    }
}

/// Whether `c` is a hexadecimal digit (`0-9`, `a-f` or `A-F`).
pub open spec fn is_hex_digit(c: char) -> bool {
    let u = c as u32;
    (48 <= u <= 57) || (65 <= u <= 70) || (97 <= u <= 102)
}

/// The value of a hexadecimal digit (0 for any other character).
pub open spec fn hex_digit_value(c: char) -> nat {
    let u = c as u32;
    if 48 <= u <= 57 {
        (u - 48) as nat
    } else if 65 <= u <= 70 {
        (u - 55) as nat
    } else if 97 <= u <= 102 {
        (u - 87) as nat
    } else {
        0
    }
}

/// Whether every character of `h` is a hexadecimal digit.
pub open spec fn all_hex_digits(h: Seq<char>) -> bool {
    forall|k: int| 0 <= k < h.len() ==> is_hex_digit(#[trigger] h[k])
}

/// The number written by two hexadecimal digits.
pub open spec fn hex2_value(h: Seq<char>) -> nat {
    hex_digit_value(h[0]) * 16 + hex_digit_value(h[1])
}

/// The number written by six hexadecimal digits.
pub open spec fn hex6_value(h: Seq<char>) -> nat {
    hex_prefix_value(h, 6)
}

/// The two upper-case hexadecimal digits of a byte.
pub open spec fn hex2_chars(b: u8) -> Seq<char> {
    seq![hex_char(b / 16), hex_char(b % 16)]
}

/// The six upper-case hexadecimal digits of a 16-bit value, zero padded.
pub open spec fn hex6_chars(u: u16) -> Seq<char> {
    seq![
        '0',
        '0',
        hex_char((u / 4096) as u8),
        hex_char(((u / 256) % 16) as u8),
        hex_char(((u / 16) % 16) as u8),
        hex_char((u % 16) as u8),
    ]
}

/// The upper-case hexadecimal digit for a value below 16.
pub fn hex_digit(n: u8) -> (r: char)
    requires
        n < 16,
    ensures
        r == hex_char(n),
{
    if n < 10 {
        (n + 48) as char
    } else {
        (n + 55) as char
    }
}

/// Convert a hexadecimal character (`0-F`) into its numerical value (0-15).
pub fn from_hex(c: char) -> (r: Result<u8, ()>)
    ensures
        r is Ok <==> is_hex_digit(c),
        r is Ok ==> r->Ok_0 as nat == hex_digit_value(c),
{
    let u = c as u32;
    if 48 <= u && u <= 57 {
        Ok((u - 48) as u8)
    } else if 65 <= u && u <= 70 {
        Ok((u - 55) as u8)
    } else if 97 <= u && u <= 102 {
        Ok((u - 87) as u8)
    } else {
        Err(())
    }
}

/// Create a `u8` from two hexadecimal digits.
pub fn from_hex2(hex2: &[char]) -> (r: Result<u8, ()>)
    requires
        hex2@.len() == 2,
    ensures
        r is Ok <==> all_hex_digits(hex2@),
        r is Ok ==> r->Ok_0 as nat == hex2_value(hex2@),
{
    let hi = match from_hex(hex2[0]) {
        Ok(d) => d,
        Err(e) => {
            return Err(e);
        },
    };
    let lo = match from_hex(hex2[1]) {
        Ok(d) => d,
        Err(e) => {
            return Err(e);
        },
    };
    Ok(hi * 16 + lo)
}

/// Create a `u32` from six hexadecimal digits.
pub fn from_hex6(hex6: &[char]) -> (r: Result<u32, ()>)
    requires
        hex6@.len() == 6,
    ensures
        r is Ok <==> all_hex_digits(hex6@),
        r is Ok ==> r->Ok_0 as nat == hex6_value(hex6@),
        r is Ok ==> r->Ok_0 < 0x100_0000,
{
    let mut acc: u32 = 0;
    let mut k: usize = 0;
    while k < 6
        invariant
            hex6@.len() == 6,
            k <= 6,
            forall|j: int| 0 <= j < k ==> is_hex_digit(#[trigger] hex6@[j]),
            acc < pow16(k as nat),
            acc == hex_prefix_value(hex6@, k as nat),
        decreases 6 - k,
    {
        proof {
            reveal_with_fuel(pow16, 7);
        }
        match from_hex(hex6[k]) {
            Ok(d) => {
                acc = acc * 16 + d as u32;
            },
            Err(e) => {
                return Err(e);
            },
        }
        k = k + 1;
    }
    proof {
        reveal_with_fuel(pow16, 7);
    }
    Ok(acc)
}

/// 16 to the power `k`.
pub open spec fn pow16(k: nat) -> nat
    decreases k,
{
    if k == 0 {
        1
    } else {
        16 * pow16((k - 1) as nat)
    }
}

/// The number written by the first `k` hexadecimal digits of `h`.
pub open spec fn hex_prefix_value(h: Seq<char>, k: nat) -> nat
    decreases k,
{
    if k == 0 {
        0
    } else {
        hex_prefix_value(h, (k - 1) as nat) * 16 + hex_digit_value(h[k - 1]) as nat
    }
}

// ---------------------------------------------------------------------------
// Escapes
// ---------------------------------------------------------------------------

/// How [`escape_u8`] writes a byte: `\\` for the backslash; `\t`, `\n`,
/// `\r` or the literal character, as the encoder asks; and the upper-case
/// `\xHH` escape for every other byte, visible ASCII included.
pub open spec fn escaped_byte(e: Encoder, b: u8) -> Seq<char> {
    if b == BSLASH {
        seq!['\\', '\\']
    } else if b == 0x09 {
        if e.encode_tab {
            seq!['\\', 't']
        } else {
            seq![b as char]
        }
    } else if b == 0x0A {
        if e.encode_line_feed {
            seq!['\\', 'n']
        } else {
            seq![b as char]
        }
    } else if b == 0x0D {
        if e.encode_cariage {
            seq!['\\', 'r']
        } else {
            seq![b as char]
        }
    } else {
        seq!['\\', 'x'] + hex2_chars(b)
    }
}

/// The `\uHHHHHH` escape of a 16-bit value.
pub open spec fn escaped_unit(u: u16) -> Seq<char> {
    seq!['\\', 'u'] + hex6_chars(u)
}

/// Escape a single byte as [`escaped_byte`] says.
pub fn escape_u8(dst: &mut String, encoder: &Encoder, b: u8)
    ensures
        final(dst)@ == old(dst)@ + escaped_byte(*encoder, b),
{
    if b == BSLASH {
        push_char(dst, '\\');
        push_char(dst, '\\');
    } else if b == 0x09 && encoder.encode_tab {
        push_char(dst, '\\');
        push_char(dst, 't');
    } else if b == 0x0A && encoder.encode_line_feed {
        push_char(dst, '\\');
        push_char(dst, 'n');
    } else if b == 0x0D && encoder.encode_cariage {
        push_char(dst, '\\');
        push_char(dst, 'r');
    } else if b == 0x09 || b == 0x0A || b == 0x0D {
        push_char(dst, b as char);
    } else {
        push_char(dst, '\\');
        push_char(dst, 'x');
        push_char(dst, hex_digit(b / 16));
        push_char(dst, hex_digit(b % 16));
    }
    assert(final(dst)@ =~= old(dst)@ + escaped_byte(*encoder, b));
}

/// Write a 16-bit value as a six-digit `\u` escape.
pub fn escape_u16(dst: &mut String, c16: u16)
    ensures
        final(dst)@ == old(dst)@ + escaped_unit(c16),
{
    push_char(dst, '\\');
    push_char(dst, 'u');
    push_char(dst, '0');
    push_char(dst, '0');
    push_char(dst, hex_digit((c16 / 4096) as u8));
    push_char(dst, hex_digit(((c16 / 256) % 16) as u8));
    push_char(dst, hex_digit(((c16 / 16) % 16) as u8));
    push_char(dst, hex_digit((c16 % 16) as u8));
    assert(final(dst)@ =~= old(dst)@ + escaped_unit(c16));
}

// ---------------------------------------------------------------------------
// UTF-16 surrogates
// ---------------------------------------------------------------------------

/// Whether `u` leads a surrogate pair.
pub open spec fn is_lead_surrogate(u: u16) -> bool {
    0xD800 <= u <= 0xDBFF
}

/// Whether `u` trails a surrogate pair.
pub open spec fn is_trail_surrogate(u: u16) -> bool {
    0xDC00 <= u <= 0xDFFF
}

/// The scalar value of a surrogate pair.
pub open spec fn pair_value(lead: u16, trail: u16) -> u32 {
    ((lead - 0xD800) * 0x400 + (trail - 0xDC00) + 0x10000) as u32
}

/// The scalar value of one unit, or of a lead and a trail surrogate.
pub open spec fn utf32_of(v: Seq<u16>) -> u32 {
    if v.len() == 1 {
        v[0] as u32
    } else {
        pair_value(v[0], v[1])
    }
}

/// The UTF-16 encoding of a character: one unit in the Basic Multilingual
/// Plane, else a lead and a trail surrogate.
pub open spec fn utf16_units(c: char) -> Seq<u16> {
    let v = c as u32;
    if v < 0x10000 {
        seq![v as u16]
    } else {
        seq![(0xD800 + (v - 0x10000) / 0x400) as u16, (0xDC00 + (v - 0x10000) % 0x400) as u16]
    }
}

/// Convert from UTF-16 to UTF-32: a single unit, or a lead surrogate followed
/// by a trail surrogate.
pub fn to_utf32(v: &[u16]) -> (r: u32)
    requires
        v@.len() == 1 || (v@.len() == 2 && is_lead_surrogate(v@[0]) && is_trail_surrogate(v@[1])),
    ensures
        r == utf32_of(v@),
        v@.len() == 2 ==> 0x10000 <= r <= 0x10FFFF,
{
    if v.len() == 1 {
        v[0] as u32
    } else {
        let lead = v[0] as u32;
        let trail = v[1] as u32;
        (lead - 0xD800) * 0x400 + (trail - 0xDC00) + 0x10000
    }
}

/// Append the UTF-16 encoding of `c`.
pub fn push_utf16(out: &mut Vec<u16>, c: char)
    ensures
        final(out)@ == old(out)@ + utf16_units(c),
{
    let v = c as u32;
    if v < 0x10000 {
        out.push(v as u16);
    } else {
        proof {
            char_is_scalar(c);
        }
        out.push((0xD800 + (v - 0x10000) / 0x400) as u16);
        out.push((0xDC00 + (v - 0x10000) % 0x400) as u16);
    }
    assert(final(out)@ =~= old(out)@ + utf16_units(c));
}

// ---------------------------------------------------------------------------
// UTF-8
// ---------------------------------------------------------------------------

/// Append the UTF-8 encoding of `c`.
pub fn push_utf8(out: &mut Vec<u8>, c: char)
    ensures
        final(out)@ == old(out)@ + encode_scalar(c as u32),
{
    let v = c as u32;
    proof {
        char_is_scalar(c);
    }
    if v <= 0x7F {
        out.push((v & 0x7F) as u8);
    } else if v <= 0x7FF {
        out.push(0xC0 | ((v >> 6) & 0x1F) as u8);
        out.push(0x80 | (v & 0x3F) as u8);
    } else if v <= 0xFFFF {
        out.push(0xE0 | ((v >> 12) & 0x0F) as u8);
        out.push(0x80 | ((v >> 6) & 0x3F) as u8);
        out.push(0x80 | (v & 0x3F) as u8);
    } else {
        out.push(0xF0 | ((v >> 18) & 0x7) as u8);
        out.push(0x80 | ((v >> 12) & 0x3F) as u8);
        out.push(0x80 | ((v >> 6) & 0x3F) as u8);
        out.push(0x80 | (v & 0x3F) as u8);
    }
    assert(final(out)@ =~= old(out)@ + encode_scalar(c as u32));
}

/// The number of bytes in the UTF-8 encoding of `c`.
pub fn char_utf8_len(c: char) -> (r: usize)
    ensures
        r == encode_scalar(c as u32).len(),
        1 <= r <= 4,
{
    let v = c as u32;
    proof {
        char_is_scalar(c);
    }
    if v <= 0x7F {
        1
    } else if v <= 0x7FF {
        2
    } else if v <= 0xFFFF {
        3
    } else {
        4
    }
}

/// Relies on `char::from_u32`: `Some` exactly for a Unicode scalar value,
/// holding the character of that value.
#[verifier::external_body]
pub(crate) fn char_from_u32(v: u32) -> (r: Option<char>)
    ensures
        r is Some <==> is_scalar(v),
        r is Some ==> r->0 as u32 == v,
{
    char::from_u32(v)
}

/// The characters of a string, in order.
pub fn chars_of(s: &str) -> (r: Vec<char>)
    ensures
        r@ == s@,
{
    broadcast use vstd::string::group_string_axioms;

    let mut it = s.chars();
    let mut out: Vec<char> = Vec::new();
    loop
        invariant
            out@ + it.remaining() == s@,
        decreases s@.len() - out@.len(),
    {
        match it.next() {
            Some(c) => {
                out.push(c);
            },
            None => {
                return out;
            },
        }
    }
}

// ---------------------------------------------------------------------------
// Wrappers around std
// ---------------------------------------------------------------------------

/// Relies on `String::push`: appends the character `c` to the string.
#[verifier::external_body]
pub(crate) fn push_char(s: &mut String, c: char)
    ensures
        final(s)@ == old(s)@.push(c),
{
    s.push(c)
}

} // verus!
