//! Decoding of escaped text: a scanner that reads one piece at a cursor, and
//! the meaning of a whole text as bytes or as 16-bit units.
use vstd::prelude::*;
use vstd::utf8::*;

use crate::helpers::{
    all_hex_digits, char_from_u32, char_utf8_len, from_hex2, from_hex6, hex2_value, hex6_value, push_char,
    utf16_units,
};

verus! {

/// What went wrong in a decode.
#[derive(Clone, Copy, Debug, PartialEq, Eq, Structural)]
pub enum DecodeErrorKind {
    /// A single unescaped backslash was found. Either the following character doesn't
    /// start a valid escape sequence or it is at the end of the string.
    UnescapedSlash,
    /// The value from a '\x' or '\u' hexadecimal escape sequence is out of range for the decode.
    InvalidValue,
    /// There are not enough characters after a '\x' or '\u' to build a escape sequence.
    HexNumberToShort,
    /// The required characters after a '\x' or '\u' are not all valid hex digits.
    InvalidHexDigit,
}

/// A decode error: its kind, the byte offset of the backslash that starts the
/// offending escape, and the offending text itself (the backslash and as much
/// of the escape as there was).
#[derive(Debug)]
pub struct DecodeError {
    pub kind: DecodeErrorKind,
    pub index: usize,
    pub mat: String,
}

/// A decode error as the contracts see it: kind, byte offset, offending text.
pub type Failure = (DecodeErrorKind, nat, Seq<char>);

impl View for DecodeError {
    type V = Failure;

    open spec fn view(&self) -> Failure {
        (self.kind, self.index as nat, self.mat@)
    }
}

impl DecodeError {
    /// A short description of the error's kind.
    pub fn description(&self) -> (r: &'static str)
        ensures
            self.kind == DecodeErrorKind::UnescapedSlash ==> r@
                == "Found unmatched '\\'. Use \"\\\\\" to escape slashes"@,
            self.kind == DecodeErrorKind::InvalidValue ==> r@
                == "Escaped value is out of range of the decoder"@,
            self.kind == DecodeErrorKind::HexNumberToShort ==> r@
                == "Not enough characters after \"\\x\" or \"\\u\""@,
            self.kind == DecodeErrorKind::InvalidHexDigit ==> r@
                == "Invalid hex digit after \"\\x\" or \"\\u\""@,
    {
        match self.kind {
            DecodeErrorKind::UnescapedSlash => "Found unmatched '\\'. Use \"\\\\\" to escape slashes",
            DecodeErrorKind::InvalidValue => "Escaped value is out of range of the decoder",
            DecodeErrorKind::HexNumberToShort => "Not enough characters after \"\\x\" or \"\\u\"",
            DecodeErrorKind::InvalidHexDigit => "Invalid hex digit after \"\\x\" or \"\\u\"",
        }
    }
}

/// One piece of decoded text.
#[derive(Clone, Copy, Debug, PartialEq, Eq, Structural)]
pub enum Piece {
    /// A character, given literally or as a `\u` escape of a Unicode scalar
    /// value: it stands for its encoding in the output's units.
    Char(char),
    /// A value given by an escape that stands for exactly one output unit;
    /// it may be too large for the units that are asked for.
    Value(u32),
}

/// The piece that the non-empty text `t` starts with, with the number of
/// characters it takes; or the kind of error found there, with the length of
/// the offending text.
pub open spec fn piece_of(t: Seq<char>) -> Result<(Piece, int), (DecodeErrorKind, int)> {
    if t[0] != '\\' {
        Ok((Piece::Char(t[0]), 1))
    } else if t.len() < 2 {
        Err((DecodeErrorKind::UnescapedSlash, 1))
    } else if t[1] == 't' {
        Ok((Piece::Value(0x09), 2))
    } else if t[1] == 'n' {
        Ok((Piece::Value(0x0A), 2))
    } else if t[1] == 'r' {
        Ok((Piece::Value(0x0D), 2))
    } else if t[1] == '\\' {
        Ok((Piece::Value(0x5C), 2))
    } else if t[1] == 'x' {
        if t.len() < 4 {
            Err((DecodeErrorKind::HexNumberToShort, t.len() as int))
        } else if !all_hex_digits(t.subrange(2, 4)) {
            Err((DecodeErrorKind::InvalidHexDigit, 4))
        } else {
            Ok((Piece::Value(hex2_value(t.subrange(2, 4)) as u32), 4))
        }
    } else if t[1] == 'u' {
        if t.len() < 8 {
            Err((DecodeErrorKind::HexNumberToShort, t.len() as int))
        } else if !all_hex_digits(t.subrange(2, 8)) {
            Err((DecodeErrorKind::InvalidHexDigit, 8))
        } else {
            let v = hex6_value(t.subrange(2, 8)) as u32;
            if is_scalar(v) {
                Ok((Piece::Char(v as char), 8))
            } else {
                Ok((Piece::Value(v), 8))
            }
        }
    } else {
        Err((DecodeErrorKind::UnescapedSlash, 2))
    }
}

/// The number of bytes in the UTF-8 encoding of `t`.
pub open spec fn utf8_len(t: Seq<char>) -> nat {
    encode_utf8(t).len()
}

/// The bytes that a piece stands for, if it fits.
pub open spec fn piece_bytes(p: Piece) -> Option<Seq<u8>> {
    match p {
        Piece::Char(c) => Some(encode_scalar(c as u32)),
        Piece::Value(v) => if v <= 0xFF {
            Some(seq![v as u8])
        } else {
            None
        },
    }
}

/// The 16-bit units that a piece stands for, if it fits.
pub open spec fn piece_units(p: Piece) -> Option<Seq<u16>> {
    match p {
        Piece::Char(c) => Some(utf16_units(c)),
        Piece::Value(v) => if v <= 0xFFFF {
            Some(seq![v as u16])
        } else {
            None
        },
    }
}

/// The bytes that the text `t` decodes to, where `t` starts at byte offset
/// `off` of the whole text; or the first error, as kind, byte offset and
/// offending text.
pub open spec fn decode_bytes_from(t: Seq<char>, off: nat) -> Result<Seq<u8>, Failure>
    decreases t.len(),
{
    if t.len() == 0 {
        Ok(seq![])
    } else {
        match piece_of(t) {
            Err((k, m)) => Err((k, off, t.take(m))),
            Ok((p, n)) => match piece_bytes(p) {
                None => Err((DecodeErrorKind::InvalidValue, off, t.take(n))),
                Some(b) => match decode_bytes_from(t.skip(n), off + utf8_len(t.take(n))) {
                    Ok(rest) => Ok(b + rest),
                    Err(e) => Err(e),
                },
            },
        }
    }
}

/// The 16-bit units that the text `t` decodes to, where `t` starts at byte
/// offset `off` of the whole text; or the first error.
pub open spec fn decode_units_from(t: Seq<char>, off: nat) -> Result<Seq<u16>, Failure>
    decreases t.len(),
{
    if t.len() == 0 {
        Ok(seq![])
    } else {
        match piece_of(t) {
            Err((k, m)) => Err((k, off, t.take(m))),
            Ok((p, n)) => match piece_units(p) {
                None => Err((DecodeErrorKind::InvalidValue, off, t.take(n))),
                Some(u) => match decode_units_from(t.skip(n), off + utf8_len(t.take(n))) {
                    Ok(rest) => Ok(u + rest),
                    Err(e) => Err(e),
                },
            },
        }
    }
}

/// The bytes that the whole text `t` decodes to, or the first error.
pub open spec fn decode_bytes(t: Seq<char>) -> Result<Seq<u8>, Failure> {
    decode_bytes_from(t, 0)
}

/// The 16-bit units that the whole text `t` decodes to, or the first error.
pub open spec fn decode_units(t: Seq<char>) -> Result<Seq<u16>, Failure> {
    decode_units_from(t, 0)
}

/// Read the piece that starts at position `i` of `cs`: a literal character,
/// or the escape that a backslash there introduces.
pub fn next_piece(cs: &[char], i: usize) -> (r: Result<(Piece, usize), (DecodeErrorKind, usize)>)
    requires
        i < cs@.len(),
    ensures
        match r {
            Ok((p, n)) => piece_of(cs@.skip(i as int)) == Ok::<(Piece, int), (DecodeErrorKind, int)>(
                (p, n as int),
            ),
            Err((k, m)) => piece_of(cs@.skip(i as int)) == Err::<(Piece, int), (DecodeErrorKind, int)>(
                (k, m as int),
            ),
        },
{
    let ghost t = cs@.skip(i as int);
    let rest = cs.len() - i;
    let c = cs[i];
    if c != '\\' {
        return Ok((Piece::Char(c), 1));
    }
    if rest < 2 {
        return Err((DecodeErrorKind::UnescapedSlash, 1));
    }
    let e = cs[i + 1];
    if e == 't' {
        Ok((Piece::Value(0x09), 2))
    } else if e == 'n' {
        Ok((Piece::Value(0x0A), 2))
    } else if e == 'r' {
        Ok((Piece::Value(0x0D), 2))
    } else if e == '\\' {
        Ok((Piece::Value(0x5C), 2))
    } else if e == 'x' {
        if rest < 4 {
            return Err((DecodeErrorKind::HexNumberToShort, rest));
        }
        let digits = &cs[i + 2..i + 4];
        assert(digits@ =~= t.subrange(2, 4));
        match from_hex2(digits) {
            Ok(x) => Ok((Piece::Value(x as u32), 4)),
            Err(_) => Err((DecodeErrorKind::InvalidHexDigit, 4)),
        }
    } else if e == 'u' {
        if rest < 8 {
            return Err((DecodeErrorKind::HexNumberToShort, rest));
        }
        let digits = &cs[i + 2..i + 8];
        assert(digits@ =~= t.subrange(2, 8));
        match from_hex6(digits) {
            Ok(x) => match char_from_u32(x) {
                // a valid code point: always decode it as such
                Some(ch) => {
                    proof {
                        char_u32_cast(ch, x);
                    }
                    Ok((Piece::Char(ch), 8))
                },
                // not a code point: keep its value as it is
                None => Ok((Piece::Value(x), 8)),
            },
            Err(_) => Err((DecodeErrorKind::InvalidHexDigit, 8)),
        }
    } else {
        Err((DecodeErrorKind::UnescapedSlash, 2))
    }
}

/// `a` before the decoded units of `r`, or the error of `r`.
pub open spec fn prepend<T, E>(a: Seq<T>, r: Result<Seq<T>, E>) -> Result<Seq<T>, E> {
    match r {
        Ok(x) => Ok(a + x),
        Err(e) => Err(e),
    }
}

/// UTF-8 encoding distributes over concatenation.
pub proof fn lemma_encode_utf8_concat(a: Seq<char>, b: Seq<char>)
    ensures
        encode_utf8(a + b) == encode_utf8(a) + encode_utf8(b),
    decreases a.len(),
{
    if a.len() == 0 {
        assert(a + b =~= b);
        assert(encode_utf8(a) + encode_utf8(b) =~= encode_utf8(b));
    } else {
        assert((a + b).drop_first() =~= a.drop_first() + b);
        lemma_encode_utf8_concat(a.drop_first(), b);
        assert(encode_utf8(a + b) =~= encode_utf8(a) + encode_utf8(b));
    }
}

/// The UTF-8 encoding of one character.
pub proof fn lemma_encode_utf8_single(c: char)
    ensures
        encode_utf8(seq![c]) == encode_scalar(c as u32),
{
    char_is_scalar(c);
    assert(seq![c].drop_first() =~= Seq::<char>::empty());
    assert(encode_utf8(Seq::<char>::empty()) =~= Seq::<u8>::empty());
    assert(encode_utf8(seq![c]) =~= encode_scalar(c as u32));
}

/// Decoding one more piece extends what was decoded before it.
pub proof fn lemma_prepend_assoc<T, E>(a: Seq<T>, b: Seq<T>, r: Result<Seq<T>, E>)
    ensures
        prepend(a, prepend(b, r)) == prepend(a + b, r),
{
    match r {
        Ok(x) => {
            assert(a + (b + x) =~= (a + b) + x);
        },
        Err(_) => {},
    }
}

/// The byte offset of position `to` of `cs`, from that of position `from`.
pub fn advance_offset(cs: &[char], from: usize, to: usize, off: usize, total: usize) -> (r: usize)
    requires
        from <= to <= cs@.len(),
        off == utf8_len(cs@.take(from as int)),
        total == utf8_len(cs@),
    ensures
        r == utf8_len(cs@.take(to as int)),
{
    let mut acc = off;
    let mut k = from;
    while k < to
        invariant
            from <= k <= to <= cs@.len(),
            acc == utf8_len(cs@.take(k as int)),
            total == utf8_len(cs@),
        decreases to - k,
    {
        let w = char_utf8_len(cs[k]);
        proof {
            let c = cs@[k as int];
            assert(cs@.take(k + 1) =~= cs@.take(k as int) + seq![c]);
            lemma_encode_utf8_concat(cs@.take(k as int), seq![c]);
            lemma_encode_utf8_single(c);
            assert(cs@ =~= cs@.take(k + 1) + cs@.skip(k + 1));
            lemma_encode_utf8_concat(cs@.take(k + 1), cs@.skip(k + 1));
        }
        acc = acc + w;
        k = k + 1;
    }
    acc
}

/// The characters `cs[from..to]` as a string.
pub fn text_of(cs: &[char], from: usize, to: usize) -> (r: String)
    requires
        from <= to <= cs@.len(),
    ensures
        r@ == cs@.subrange(from as int, to as int),
{
    let mut out = String::new();
    let mut k: usize = from;
    while k < to
        invariant
            from <= k <= to <= cs@.len(),
            out@ == cs@.subrange(from as int, k as int),
        decreases to - k,
    {
        push_char(&mut out, cs[k]);
        k = k + 1;
        assert(out@ =~= cs@.subrange(from as int, k as int));
    }
    out
}

} // verus!
