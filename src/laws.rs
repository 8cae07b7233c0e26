//! What holds of the encoders and decoders together: decoding an encoding
//! gives the input back, an encoding is valid UTF-8 text, and printable ASCII
//! is its own encoding.
use vstd::prelude::*;
use vstd::utf8::*;

use crate::decode::{
    decode_bytes, decode_bytes_from, decode_units, decode_units_from, piece_bytes, piece_of,
    piece_units, utf8_len, Failure,
};
use crate::encode_u16::{encode_units, encode_units_from};
use crate::encode_u8::{
    encode_bytes, encode_from, escaped_bytes, high_run, written_byte, lemma_high_run_bounds, lemma_valid_run,
};
use crate::helpers::{
    all_hex_digits, escaped_byte, escaped_unit, hex2_chars, hex2_value, hex6_chars, hex6_value,
    hex_char, hex_digit_value, hex_prefix_value, is_hex_digit, is_lead_surrogate,
    is_trail_surrogate, pair_value, utf16_units, BSLASH_U16,
};
use crate::{pretty_spec, Encoder};

verus! {

proof fn lemma_hex_char(n: u8)
    requires
        n < 16,
    ensures
        is_hex_digit(hex_char(n)),
        hex_digit_value(hex_char(n)) == n as nat,
{
}

proof fn lemma_ascii_low_bits(b: u8)
    by (bit_vector)
    requires
        b < 0x80,
    ensures
        ((b as u32) & 0x7F) as u8 == b,
{
}

proof fn lemma_hex6_digits(u: u32)
    by (bit_vector)
    requires
        u < 0x10000,
    ensures
        u == (u / 4096) * 4096 + ((u / 256) % 16) * 256 + ((u / 16) % 16) * 16 + u % 16,
{
}

/// Six hexadecimal digits of a 16-bit value read back as that value.
proof fn lemma_hex6(u: u16)
    ensures
        all_hex_digits(hex6_chars(u)),
        hex6_value(hex6_chars(u)) == u as nat,
{
    let h = hex6_chars(u);
    lemma_hex_char((u / 4096) as u8);
    lemma_hex_char(((u / 256) % 16) as u8);
    lemma_hex_char(((u / 16) % 16) as u8);
    lemma_hex_char((u % 16) as u8);
    assert(is_hex_digit('0') && hex_digit_value('0') == 0);
    assert forall|k: int| 0 <= k < h.len() implies is_hex_digit(#[trigger] h[k]) by {}
    reveal_with_fuel(hex_prefix_value, 7);
    lemma_hex6_digits(u as u32);
}

/// A written byte is read back as one piece that stands for that byte.
proof fn lemma_piece_of_written_byte(e: Encoder, b: u8, rest: Seq<char>)
    ensures
        ({
            let h = written_byte(e, b);
            let t = h + rest;
            &&& h.len() > 0
            &&& piece_of(t) is Ok
            &&& piece_of(t)->Ok_0.1 == h.len()
            &&& piece_bytes(piece_of(t)->Ok_0.0) == Some(seq![b])
            &&& piece_units(piece_of(t)->Ok_0.0) == Some(seq![b as u16])
        }),
{
    let h = written_byte(e, b);
    let t = h + rest;
    assert(t[0] == h[0]);
    if h.len() == 1 {
        lemma_ascii_low_bits(b);
        assert(encode_scalar((b as char) as u32) =~= seq![b]);
        assert(utf16_units(b as char) =~= seq![b as u16]);
    } else if h.len() == 2 {
        assert(t[1] == h[1]);
    } else {
        assert(t[1] == h[1] && t[2] == h[2] && t[3] == h[3]);
        lemma_hex_char(b / 16);
        lemma_hex_char(b % 16);
        assert(t.subrange(2, 4) =~= hex2_chars(b));
        assert(hex2_value(t.subrange(2, 4)) == b as nat);
    }
}

/// A text that starts with one piece standing for the bytes `x`, followed by
/// a text that decodes to `r`, decodes to `x + r`.
proof fn lemma_bytes_step(h: Seq<char>, rest: Seq<char>, x: Seq<u8>, r: Seq<u8>)
    requires
        h.len() > 0,
        piece_of(h + rest) is Ok,
        piece_of(h + rest)->Ok_0.1 == h.len(),
        piece_bytes(piece_of(h + rest)->Ok_0.0) == Some(x),
        forall|o: nat| #[trigger] decode_bytes_from(rest, o) == Ok::<Seq<u8>, Failure>(r),
    ensures
        forall|o: nat| #[trigger] decode_bytes_from(h + rest, o) == Ok::<Seq<u8>, Failure>(x + r),
{
    let t = h + rest;
    assert(t.skip(h.len() as int) =~= rest);
    assert forall|o: nat| #[trigger]
        decode_bytes_from(h + rest, o) == Ok::<Seq<u8>, Failure>(x + r) by {
        assert(decode_bytes_from(rest, o + utf8_len(t.take(h.len() as int))) == Ok::<
            Seq<u8>,
            Failure,
        >(r));
    }
}

/// A text that starts with one piece standing for the units `x`, followed by
/// a text that decodes to `r`, decodes to `x + r`.
proof fn lemma_units_step(h: Seq<char>, rest: Seq<char>, x: Seq<u16>, r: Seq<u16>)
    requires
        h.len() > 0,
        piece_of(h + rest) is Ok,
        piece_of(h + rest)->Ok_0.1 == h.len(),
        piece_units(piece_of(h + rest)->Ok_0.0) == Some(x),
        forall|o: nat| #[trigger] decode_units_from(rest, o) == Ok::<Seq<u16>, Failure>(r),
    ensures
        forall|o: nat| #[trigger] decode_units_from(h + rest, o) == Ok::<Seq<u16>, Failure>(x + r),
{
    let t = h + rest;
    assert(t.skip(h.len() as int) =~= rest);
    assert forall|o: nat| #[trigger]
        decode_units_from(h + rest, o) == Ok::<Seq<u16>, Failure>(x + r) by {
        assert(decode_units_from(rest, o + utf8_len(t.take(h.len() as int))) == Ok::<
            Seq<u16>,
            Failure,
        >(r));
    }
}

/// Bytes escaped one by one decode to themselves.
proof fn lemma_escaped_bytes_decode(e: Encoder, b: Seq<u8>, rest: Seq<char>, r: Seq<u8>)
    requires
        forall|o: nat| #[trigger] decode_bytes_from(rest, o) == Ok::<Seq<u8>, Failure>(r),
    ensures
        forall|o: nat| #[trigger]
            decode_bytes_from(escaped_bytes(e, b) + rest, o) == Ok::<Seq<u8>, Failure>(b + r),
    decreases b.len(),
{
    if b.len() == 0 {
        assert(escaped_bytes(e, b) + rest =~= rest);
        assert(b + r =~= r);
    } else {
        let l = b.last();
        let front = b.drop_last();
        let rest2 = written_byte(e, l) + rest;
        lemma_piece_of_written_byte(e, l, rest);
        lemma_bytes_step(written_byte(e, l), rest, seq![l], r);
        lemma_escaped_bytes_decode(e, front, rest2, seq![l] + r);
        assert(escaped_bytes(e, b) + rest =~= escaped_bytes(e, front) + rest2);
        assert(front + (seq![l] + r) =~= b + r);
    }
}

proof fn lemma_bytes_round_trip_from(e: Encoder, v: Seq<u8>, i: int)
    requires
        0 <= i <= v.len(),
    ensures
        forall|o: nat| #[trigger]
            decode_bytes_from(encode_from(e, v, i), o) == Ok::<Seq<u8>, Failure>(
                v.subrange(i, v.len() as int),
            ),
    decreases v.len() - i,
{
    let len = v.len() as int;
    if i == len {
        assert(v.subrange(i, len) =~= Seq::<u8>::empty());
    } else if v[i] < 0x80 {
        let rest = encode_from(e, v, i + 1);
        lemma_bytes_round_trip_from(e, v, i + 1);
        lemma_piece_of_written_byte(e, v[i], rest);
        lemma_bytes_step(written_byte(e, v[i]), rest, seq![v[i]], v.subrange(i + 1, len));
        assert(seq![v[i]] + v.subrange(i + 1, len) =~= v.subrange(i, len));
    } else {
        let (valid, n) = high_run(v, i);
        lemma_high_run_bounds(v, i);
        let rest = encode_from(e, v, i + n);
        lemma_bytes_round_trip_from(e, v, i + n);
        let s = v.subrange(i, i + n);
        if valid {
            lemma_valid_run(v, i);
            let c = decode_first_scalar(s) as char;
            let h = seq![c];
            assert((h + rest)[0] == c);
            lemma_bytes_step(h, rest, s, v.subrange(i + n, len));
        } else {
            lemma_escaped_bytes_decode(e, s, rest, v.subrange(i + n, len));
        }
        assert(s + v.subrange(i + n, len) =~= v.subrange(i, len));
    }
}

/// A surrogate pair's character splits back into the pair.
proof fn lemma_pair_round_trip(lead: u16, trail: u16)
    requires
        is_lead_surrogate(lead),
        is_trail_surrogate(trail),
    ensures
        0x10000 <= pair_value(lead, trail) <= 0x10FFFF,
        utf16_units(pair_value(lead, trail) as char) == seq![lead, trail],
{
    let v = pair_value(lead, trail);
    let a = (lead - 0xD800) as int;
    let b = (trail - 0xDC00) as int;
    assert(v - 0x10000 == a * 0x400 + b);
    assert((a * 0x400 + b) / 0x400 == a && (a * 0x400 + b) % 0x400 == b) by (nonlinear_arith)
        requires
            0 <= a < 0x400,
            0 <= b < 0x400,
    ;
    assert(is_scalar(v));
    assert(utf16_units(v as char) =~= seq![lead, trail]);
}

proof fn lemma_units_round_trip_from(e: Encoder, v: Seq<u16>, i: int)
    requires
        0 <= i <= v.len(),
    ensures
        forall|o: nat| #[trigger]
            decode_units_from(encode_units_from(e, v, i), o) == Ok::<Seq<u16>, Failure>(
                v.subrange(i, v.len() as int),
            ),
    decreases v.len() - i,
{
    let len = v.len() as int;
    if i == len {
        assert(v.subrange(i, len) =~= Seq::<u16>::empty());
    } else {
        let c = v[i];
        if c <= 0x1F || c == BSLASH_U16 {
            let rest = encode_units_from(e, v, i + 1);
            lemma_units_round_trip_from(e, v, i + 1);
            assert(escaped_byte(e, c as u8) == written_byte(e, c as u8));
            lemma_piece_of_written_byte(e, c as u8, rest);
            lemma_units_step(escaped_byte(e, c as u8), rest, seq![c], v.subrange(i + 1, len));
            assert(seq![c] + v.subrange(i + 1, len) =~= v.subrange(i, len));
        } else if is_lead_surrogate(c) && i + 1 < len && is_trail_surrogate(v[i + 1]) {
            let rest = encode_units_from(e, v, i + 2);
            lemma_units_round_trip_from(e, v, i + 2);
            lemma_pair_round_trip(c, v[i + 1]);
            let h = seq![pair_value(c, v[i + 1]) as char];
            assert((h + rest)[0] == h[0]);
            lemma_units_step(h, rest, seq![c, v[i + 1]], v.subrange(i + 2, len));
            assert(seq![c, v[i + 1]] + v.subrange(i + 2, len) =~= v.subrange(i, len));
        } else if is_lead_surrogate(c) || is_trail_surrogate(c) {
            let rest = encode_units_from(e, v, i + 1);
            lemma_units_round_trip_from(e, v, i + 1);
            let h = escaped_unit(c);
            let t = h + rest;
            lemma_hex6(c);
            assert(t[0] == h[0] && t[1] == h[1]);
            assert(t.subrange(2, 8) =~= hex6_chars(c));
            assert(!is_scalar(hex6_value(t.subrange(2, 8)) as u32));
            lemma_units_step(h, rest, seq![c], v.subrange(i + 1, len));
            assert(seq![c] + v.subrange(i + 1, len) =~= v.subrange(i, len));
        } else {
            let rest = encode_units_from(e, v, i + 1);
            lemma_units_round_trip_from(e, v, i + 1);
            let h = seq![(c as u32) as char];
            assert(is_scalar(c as u32));
            assert((h + rest)[0] == h[0]);
            assert(utf16_units((c as u32) as char) =~= seq![c]);
            lemma_units_step(h, rest, seq![c], v.subrange(i + 1, len));
            assert(seq![c] + v.subrange(i + 1, len) =~= v.subrange(i, len));
        }
    }
}

/// Decoding the encoding of any bytes, under any settings (strict, pretty or
/// any other), gives the same bytes back.
pub proof fn lemma_round_trip_u8(e: Encoder, v: Seq<u8>)
    ensures
        decode_bytes(encode_bytes(e, v)) == Ok::<Seq<u8>, Failure>(v),
{
    lemma_bytes_round_trip_from(e, v, 0);
    assert(v.subrange(0, v.len() as int) =~= v);
    assert(decode_bytes_from(encode_from(e, v, 0), 0) == Ok::<Seq<u8>, Failure>(
        v.subrange(0, v.len() as int),
    ));
}

/// Decoding the encoding of any 16-bit units, including ill-formed UTF-16
/// with unpaired surrogates, under any settings, gives the same units back.
pub proof fn lemma_round_trip_u16(e: Encoder, v: Seq<u16>)
    ensures
        decode_units(encode_units(e, v)) == Ok::<Seq<u16>, Failure>(v),
{
    lemma_units_round_trip_from(e, v, 0);
    assert(v.subrange(0, v.len() as int) =~= v);
    assert(decode_units_from(encode_units_from(e, v, 0), 0) == Ok::<Seq<u16>, Failure>(
        v.subrange(0, v.len() as int),
    ));
}

/// The encoding of any bytes and of any 16-bit units is valid UTF-8 text:
/// its UTF-8 bytes form a valid sequence, which decodes to the same text.
pub proof fn lemma_encoding_is_utf8(e: Encoder, v: Seq<u8>, u: Seq<u16>)
    ensures
        valid_utf8(encode_utf8(encode_bytes(e, v))),
        decode_utf8(encode_utf8(encode_bytes(e, v))) == encode_bytes(e, v),
        valid_utf8(encode_utf8(encode_units(e, u))),
        decode_utf8(encode_utf8(encode_units(e, u))) == encode_units(e, u),
{
    encode_utf8_valid_utf8(encode_bytes(e, v));
    encode_utf8_decode_utf8(encode_bytes(e, v));
    encode_utf8_valid_utf8(encode_units(e, u));
    encode_utf8_decode_utf8(encode_units(e, u));
}

/// Whether every byte of `v` is printable ASCII other than the backslash.
pub open spec fn is_plain_ascii(v: Seq<u8>) -> bool {
    forall|k: int| 0 <= k < v.len() ==> 0x20 <= #[trigger] v[k] <= 0x7E && v[k] != 0x5C
}

/// The characters of the bytes `v`, one for each.
pub open spec fn ascii_text(v: Seq<u8>) -> Seq<char> {
    v.map_values(|b: u8| b as char)
}

proof fn lemma_plain_ascii_from(v: Seq<u8>, i: int)
    requires
        0 <= i <= v.len(),
        is_plain_ascii(v),
    ensures
        encode_from(pretty_spec(), v, i) == ascii_text(v.subrange(i, v.len() as int)),
    decreases v.len() - i,
{
    let len = v.len() as int;
    if i == len {
        assert(ascii_text(v.subrange(i, len)) =~= Seq::<char>::empty());
    } else {
        lemma_plain_ascii_from(v, i + 1);
        assert(ascii_text(v.subrange(i, len)) =~= seq![v[i] as char] + ascii_text(
            v.subrange(i + 1, len),
        ));
    }
}

/// Printable ASCII without a backslash is its own encoding under the pretty
/// settings: the text has one character for each byte, that byte's.
pub proof fn lemma_printable_ascii_unchanged(v: Seq<u8>)
    requires
        is_plain_ascii(v),
    ensures
        encode_bytes(pretty_spec(), v) == ascii_text(v),
{
    lemma_plain_ascii_from(v, 0);
    assert(v.subrange(0, v.len() as int) =~= v);
}

} // verus!
