//! # STFU-8: Sorta Text Format in UTF-8
//!
//! STFU-8 is a text encoding for data that might be *not quite* UTF-8 but is still mostly UTF-8.
//! It writes every byte that is not visible, valid UTF-8 as an escape in the style of the `repr`
//! of a string in Python, C or Rust (`\x1B`, `\n`, `\\`), so that binary data can be viewed
//! and edited as text. It can also encode and decode ill-formed UTF-16 with [`encode_u16`] and
//! [`decode_u16`].
//!
//! Decoding the encoding of any input gives that input back, for bytes and for 16-bit units
//! alike: see [`laws`].
use vstd::prelude::*;

pub mod helpers;
pub mod encode_u8;
pub mod encode_u16;
pub mod decode;
pub mod laws;

pub use decode::{DecodeError, DecodeErrorKind};

use decode::{
    advance_offset, decode_bytes, decode_bytes_from, decode_units, decode_units_from,
    lemma_encode_utf8_concat, lemma_prepend_assoc, next_piece, prepend, text_of, utf8_len, Failure,
    Piece,
};
use encode_u16::encode_units;
use encode_u8::encode_bytes;
use helpers::{chars_of, push_utf16, push_utf8};

verus! {

/// Settings for encoding binary data: which of the three whitespace control
/// characters are written as escapes rather than literally.
#[derive(Clone, Copy, Debug, PartialEq, Eq, Structural)]
pub struct Encoder {
    /// Escape `\t` (0x09).
    pub encode_tab: bool,
    /// Escape `\n` (0x0A).
    pub encode_line_feed: bool,
    /// Escape `\r` (0x0D).
    pub encode_cariage: bool,
}

/// The "non pretty" settings: every non-printable character is escaped.
pub open spec fn strict_spec() -> Encoder {
    Encoder { encode_tab: true, encode_line_feed: true, encode_cariage: true }
}

/// The "pretty" settings: tab, line feed and carriage return stay literal.
pub open spec fn pretty_spec() -> Encoder {
    Encoder { encode_tab: false, encode_line_feed: false, encode_cariage: false }
}

impl Encoder {
    /// Create a new "non pretty" `Encoder`.
    ///
    /// ALL non-printable characters will be escaped.
    pub fn new() -> (r: Encoder)
        ensures
            r == strict_spec(),
    {
        Encoder { encode_tab: true, encode_line_feed: true, encode_cariage: true }
    }

    /// Create a "pretty" `Encoder`.
    ///
    /// The following non-printable characters will NOT be escaped:
    ///
    /// - `\t`: tab
    /// - `\n`: line feed
    /// - `\r`: carriage return
    pub fn pretty() -> (r: Encoder)
        ensures
            r == pretty_spec(),
    {
        Encoder { encode_tab: false, encode_line_feed: false, encode_cariage: false }
    }
}

/// Encode text as STFU-8, escaping all non-printable or non UTF-8 bytes.
///
/// See also [`encode_u8_pretty`] and [`decode_u8`].
pub fn encode_u8(v: &[u8]) -> (r: String)
    ensures
        r@ == encode_bytes(strict_spec(), v@),
{
    let encoder = Encoder::new();
    encode_u8::encode(&encoder, v)
}

/// Encode text as STFU-8, escaping all non-printable or non UTF-8 bytes EXCEPT:
///
/// - `\t`: tab
/// - `\n`: line feed
/// - `\r`: carriage return
///
/// This will allow the encoded text to print "prettily" while still escaping invalid unicode and
/// other non-printable characters.
pub fn encode_u8_pretty(v: &[u8]) -> (r: String)
    ensures
        r@ == encode_bytes(pretty_spec(), v@),
{
    let encoder = Encoder::pretty();
    encode_u8::encode(&encoder, v)
}

/// Encode UTF-16 as STFU-8, escaping all non-printable or ill-formed UTF-16 characters.
///
/// See also [`encode_u16_pretty`] and [`decode_u16`].
pub fn encode_u16(v: &[u16]) -> (r: String)
    ensures
        r@ == encode_units(strict_spec(), v@),
{
    let encoder = Encoder::new();
    encode_u16::encode(&encoder, v)
}

/// Encode UTF-16 as STFU-8, escaping all non-printable or ill-formed UTF-16 characters EXCEPT:
///
/// - `\t`: tab
/// - `\n`: line feed
/// - `\r`: carriage return
pub fn encode_u16_pretty(v: &[u16]) -> (r: String)
    ensures
        r@ == encode_units(pretty_spec(), v@),
{
    let encoder = Encoder::pretty();
    encode_u16::encode(&encoder, v)
}

/// Decode a UTF-8 string containing encoded STFU-8 into binary.
///
/// Can decode the output of [`encode_u8`] and [`encode_u8_pretty`].
///
/// A `\u` escape of a valid Unicode scalar value is a character, and gives the
/// bytes of its UTF-8 encoding (`\u000156` gives `C5 96`). Any other value, such
/// as a lone surrogate, stands for one byte, and a value above 0xFF is an
/// `InvalidValue` error at the escape's backslash.
pub fn decode_u8(s: &str) -> (r: Result<Vec<u8>, DecodeError>)
    ensures
        match r {
            Ok(v) => decode_bytes(s@) == Ok::<Seq<u8>, Failure>(v@),
            Err(e) => decode_bytes(s@) == Err::<Seq<u8>, Failure>(e@),
        },
{
    let cs = chars_of(s);
    let total = s.as_bytes().len();
    let mut out: Vec<u8> = Vec::new();
    let mut i: usize = 0;
    let mut off: usize = 0;
    proof {
        assert(cs@.take(0) =~= Seq::<char>::empty());
        assert(cs@.skip(0) =~= cs@);
        assert(out@ + Seq::<u8>::empty() =~= Seq::<u8>::empty());
    }
    while i < cs.len()
        invariant
            cs@ == s@,
            i <= cs@.len(),
            total == utf8_len(cs@),
            off == utf8_len(cs@.take(i as int)),
            decode_bytes(s@) == prepend(out@, decode_bytes_from(cs@.skip(i as int), off as nat)),
        decreases cs@.len() - i,
    {
        let ghost t = cs@.skip(i as int);
        let ghost old_out = out@;
        match next_piece(cs.as_slice(), i) {
            Err((kind, m)) => {
                let mat = text_of(cs.as_slice(), i, i + m);
                proof {
                    assert(mat@ =~= t.take(m as int));
                }
                return Err(DecodeError { kind, index: off, mat });
            },
            Ok((p, n)) => {
                match p {
                    Piece::Char(c) => {
                        push_utf8(&mut out, c);
                    },
                    Piece::Value(v) => {
                        if v > 0xFF {
                            let mat = text_of(cs.as_slice(), i, i + n);
                            proof {
                                assert(mat@ =~= t.take(n as int));
                            }
                            return Err(DecodeError { kind: DecodeErrorKind::InvalidValue, index: off, mat });
                        }
                        out.push(v as u8);
                    },
                }
                let next_off = advance_offset(cs.as_slice(), i, i + n, off, total);
                proof {
                    assert(t.skip(n as int) =~= cs@.skip(i + n));
                    assert(cs@.take(i + n) =~= cs@.take(i as int) + t.take(n as int));
                    lemma_encode_utf8_concat(cs@.take(i as int), t.take(n as int));
                    assert(out@ =~= old_out + decode::piece_bytes(p)->0);
                    lemma_prepend_assoc(
                        old_out,
                        decode::piece_bytes(p)->0,
                        decode_bytes_from(cs@.skip(i + n), next_off as nat),
                    );
                }
                off = next_off;
                i = i + n;
            },
        }
    }
    Ok(out)
}

/// Decode a UTF-8 string containing encoded STFU-8 into a `Vec<u16>`.
///
/// Can decode the output of [`encode_u16`] and [`encode_u16_pretty`].
///
/// A `\u` escape of a valid Unicode scalar value is a character, and gives the
/// units of its UTF-16 encoding (a surrogate pair above 0xFFFF). Any other
/// value, such as a lone surrogate, stands for one unit, and a value above
/// 0xFFFF is an `InvalidValue` error at the escape's backslash.
pub fn decode_u16(s: &str) -> (r: Result<Vec<u16>, DecodeError>)
    ensures
        match r {
            Ok(v) => decode_units(s@) == Ok::<Seq<u16>, Failure>(v@),
            Err(e) => decode_units(s@) == Err::<Seq<u16>, Failure>(e@),
        },
{
    let cs = chars_of(s);
    let total = s.as_bytes().len();
    let mut out: Vec<u16> = Vec::new();
    let mut i: usize = 0;
    let mut off: usize = 0;
    proof {
        assert(cs@.take(0) =~= Seq::<char>::empty());
        assert(cs@.skip(0) =~= cs@);
        assert(out@ + Seq::<u16>::empty() =~= Seq::<u16>::empty());
    }
    while i < cs.len()
        invariant
            cs@ == s@,
            i <= cs@.len(),
            total == utf8_len(cs@),
            off == utf8_len(cs@.take(i as int)),
            decode_units(s@) == prepend(out@, decode_units_from(cs@.skip(i as int), off as nat)),
        decreases cs@.len() - i,
    {
        let ghost t = cs@.skip(i as int);
        let ghost old_out = out@;
        match next_piece(cs.as_slice(), i) {
            Err((kind, m)) => {
                let mat = text_of(cs.as_slice(), i, i + m);
                proof {
                    assert(mat@ =~= t.take(m as int));
                }
                return Err(DecodeError { kind, index: off, mat });
            },
            Ok((p, n)) => {
                match p {
                    Piece::Char(c) => {
                        push_utf16(&mut out, c);
                    },
                    Piece::Value(v) => {
                        if v > 0xFFFF {
                            let mat = text_of(cs.as_slice(), i, i + n);
                            proof {
                                assert(mat@ =~= t.take(n as int));
                            }
                            return Err(DecodeError { kind: DecodeErrorKind::InvalidValue, index: off, mat });
                        }
                        out.push(v as u16);
                    },
                }
                let next_off = advance_offset(cs.as_slice(), i, i + n, off, total);
                proof {
                    assert(t.skip(n as int) =~= cs@.skip(i + n));
                    assert(cs@.take(i + n) =~= cs@.take(i as int) + t.take(n as int));
                    lemma_encode_utf8_concat(cs@.take(i as int), t.take(n as int));
                    assert(out@ =~= old_out + decode::piece_units(p)->0);
                    lemma_prepend_assoc(
                        old_out,
                        decode::piece_units(p)->0,
                        decode_units_from(cs@.skip(i + n), next_off as nat),
                    );
                }
                off = next_off;
                i = i + n;
            },
        }
    }
    Ok(out)
}

} // verus!
