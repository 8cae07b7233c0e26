//! Encoding of bytes: a scan that keeps each valid UTF-8 sequence as its
//! character and escapes every other byte.
use vstd::prelude::*;
use vstd::utf8::*;

use crate::helpers::{char_from_u32, escape_u8, escaped_byte, push_char, BSLASH};
use crate::Encoder;

verus! {

/// The width of the UTF-8 sequence that a byte starts (RFC 3629): 1 for ASCII,
/// 2 to 4 for a lead byte, 0 for a continuation byte or a byte that never
/// starts a sequence.
pub open spec fn lead_width(b: u8) -> nat {
    if b < 0x80 {
        1
    } else if 0xC2 <= b <= 0xDF {
        2
    } else if 0xE0 <= b <= 0xEF {
        3
    } else if 0xF0 <= b <= 0xF4 {
        4
    } else {
        0
    }
}

/// Whether `b` may stand `k` bytes after the lead byte `first` (RFC 3629): the
/// second byte of some three- and four-byte sequences has a narrower range,
/// which rules out overlong encodings, surrogates and values past U+10FFFF.
pub open spec fn continuation_ok(first: u8, k: int, b: u8) -> bool {
    if k == 1 && first == 0xE0 {
        0xA0 <= b <= 0xBF
    } else if k == 1 && first == 0xED {
        0x80 <= b <= 0x9F
    } else if k == 1 && first == 0xF0 {
        0x90 <= b <= 0xBF
    } else if k == 1 && first == 0xF4 {
        0x80 <= b <= 0x8F
    } else {
        0x80 <= b <= 0xBF
    }
}

/// Whether the byte `k` places after position `i` exists and may continue the
/// sequence that starts at `i`.
pub open spec fn continues_at(v: Seq<u8>, i: int, k: int) -> bool {
    i + k < v.len() && continuation_ok(v[i], k, v[i + k])
}

/// The first offset after the lead byte at `i` where the sequence breaks off,
/// or the sequence's width when it does not.
pub open spec fn first_failure(v: Seq<u8>, i: int) -> int {
    let w = lead_width(v[i]) as int;
    if 1 < w && !continues_at(v, i, 1) {
        1
    } else if 2 < w && !continues_at(v, i, 2) {
        2
    } else if 3 < w && !continues_at(v, i, 3) {
        3
    } else {
        w
    }
}

/// What the encoder does at a byte `v[i] >= 0x80`: `(true, w)` when a valid
/// sequence of `w` bytes starts there, which is written as its character;
/// otherwise `(false, n)`, where `n` bytes (the lead, the bytes that passed,
/// and the byte that failed) are escaped one by one.
pub open spec fn high_run(v: Seq<u8>, i: int) -> (bool, int) {
    let w = lead_width(v[i]) as int;
    let f = first_failure(v, i);
    if w == 0 {
        (false, 1)
    } else if f == w {
        (true, w)
    } else if i + f >= v.len() {
        (false, v.len() - i)
    } else {
        (false, f + 1)
    }
}

/// How a single byte is written when it is not part of a valid multi-byte
/// UTF-8 sequence: visible ASCII other than the backslash literally, every
/// other byte as [`escaped_byte`] says.
pub open spec fn written_byte(e: Encoder, b: u8) -> Seq<char> {
    if 0x20 <= b <= 0x7E && b != BSLASH {
        seq![b as char]
    } else {
        escaped_byte(e, b)
    }
}

/// Every byte of `b` written on its own, as [`written_byte`] says.
pub open spec fn escaped_bytes(e: Encoder, b: Seq<u8>) -> Seq<char>
    decreases b.len(),
{
    if b.len() == 0 {
        seq![]
    } else {
        escaped_bytes(e, b.drop_last()) + written_byte(e, b.last())
    }
}

/// The encoding of the bytes of `v` from position `i` on.
pub open spec fn encode_from(e: Encoder, v: Seq<u8>, i: int) -> Seq<char>
    decreases v.len() - i,
{
    if i < 0 || i >= v.len() {
        seq![]
    } else if v[i] < 0x80 {
        written_byte(e, v[i]) + encode_from(e, v, i + 1)
    } else {
        let (valid, n) = high_run(v, i);
        if valid {
            seq![decode_first_scalar(v.subrange(i, i + n)) as char] + encode_from(e, v, i + n)
        } else {
            escaped_bytes(e, v.subrange(i, i + n)) + encode_from(e, v, i + n)
        }
    }
}

/// The text that encodes the bytes `v` under the settings `e`.
pub open spec fn encode_bytes(e: Encoder, v: Seq<u8>) -> Seq<char> {
    encode_from(e, v, 0)
}

/// The run that [`high_run`] finds at `i` is not empty and stays within `v`.
pub proof fn lemma_high_run_bounds(v: Seq<u8>, i: int)
    requires
        0 <= i < v.len(),
    ensures
        1 <= high_run(v, i).1 <= v.len() - i,
{
}

/// Given a first byte, determines how many bytes are in this UTF-8 character
/// (0 where the byte cannot start one).
pub fn utf8_char_width(b: u8) -> (r: usize)
    ensures
        r == lead_width(b),
{
    if b < 0x80 {
        1
    } else if 0xC2 <= b && b <= 0xDF {
        2
    } else if 0xE0 <= b && b <= 0xEF {
        3
    } else if 0xF0 <= b && b <= 0xF4 {
        4
    } else {
        0
    }
}

/// Write a single byte that may be ASCII, as [`written_byte`] says.
pub fn maybe_ascii(dst: &mut String, encoder: &Encoder, b: u8)
    ensures
        final(dst)@ == old(dst)@ + written_byte(*encoder, b),
{
    if 0x20 <= b && b <= 0x7E && b != BSLASH {
        // visible ASCII
        push_char(dst, b as char);
    } else {
        escape_u8(dst, encoder, b);
    }
}

fn continues_at_exec(v: &[u8], i: usize, k: usize) -> (r: bool)
    requires
        i < v@.len(),
        1 <= k <= 3,
    ensures
        r == continues_at(v@, i as int, k as int),
{
    if k >= v.len() - i {
        return false;
    }
    let first = v[i];
    let b = v[i + k];
    if k == 1 && first == 0xE0 {
        0xA0 <= b && b <= 0xBF
    } else if k == 1 && first == 0xED {
        0x80 <= b && b <= 0x9F
    } else if k == 1 && first == 0xF0 {
        0x90 <= b && b <= 0xBF
    } else if k == 1 && first == 0xF4 {
        0x80 <= b && b <= 0x8F
    } else {
        0x80 <= b && b <= 0xBF
    }
}

fn high_run_exec(v: &[u8], i: usize) -> (r: (bool, usize))
    requires
        i < v@.len(),
        v@[i as int] >= 0x80,
    ensures
        r.0 == high_run(v@, i as int).0,
        r.1 as int == high_run(v@, i as int).1,
        1 <= r.1 <= v@.len() - i,
{
    let w = utf8_char_width(v[i]);
    if w == 0 {
        return (false, 1);
    }
    let f: usize = if 1 < w && !continues_at_exec(v, i, 1) {
        1
    } else if 2 < w && !continues_at_exec(v, i, 2) {
        2
    } else if 3 < w && !continues_at_exec(v, i, 3) {
        3
    } else {
        w
    };
    if f == w {
        (true, w)
    } else if f >= v.len() - i {
        (false, v.len() - i)
    } else {
        (false, f + 1)
    }
}

proof fn lemma_width2_value(b0: u8, b1: u8)
    by (bit_vector)
    requires
        0xC2 <= b0 <= 0xDF,
        0x80 <= b1 <= 0xBF,
    ensures
        0x80 <= ((((b0 & 0x1F) as u32) << 6) | ((b1 & 0x3F) as u32)) <= 0x7FF,
{
}

proof fn lemma_width3_value(b0: u8, b1: u8, b2: u8)
    by (bit_vector)
    requires
        0xE0 <= b0 <= 0xEF,
        0x80 <= b1 <= 0xBF,
        0x80 <= b2 <= 0xBF,
        b0 == 0xE0 ==> 0xA0 <= b1,
        b0 == 0xED ==> b1 <= 0x9F,
    ensures
        0x800 <= ((((b0 & 0x0F) as u32) << 12) | (((b1 & 0x3F) as u32) << 6) | ((b2
            & 0x3F) as u32)) <= 0xFFFF,
        !(0xD800 <= ((((b0 & 0x0F) as u32) << 12) | (((b1 & 0x3F) as u32) << 6) | ((b2
            & 0x3F) as u32)) <= 0xDFFF),
{
}

proof fn lemma_width4_value(b0: u8, b1: u8, b2: u8, b3: u8)
    by (bit_vector)
    requires
        0xF0 <= b0 <= 0xF4,
        0x80 <= b1 <= 0xBF,
        0x80 <= b2 <= 0xBF,
        0x80 <= b3 <= 0xBF,
        b0 == 0xF0 ==> 0x90 <= b1,
        b0 == 0xF4 ==> b1 <= 0x8F,
    ensures
        0x10000 <= ((((b0 & 0x07) as u32) << 18) | (((b1 & 0x3F) as u32) << 12) | (((b2
            & 0x3F) as u32) << 6) | ((b3 & 0x3F) as u32)) <= 0x10FFFF,
{
}

/// A run that [`high_run`] accepts is one valid UTF-8 character, and writing
/// that character as UTF-8 gives the run back.
pub proof fn lemma_valid_run(v: Seq<u8>, i: int)
    requires
        0 <= i < v.len(),
        v[i] >= 0x80,
        high_run(v, i).0,
    ensures
        ({
            let s = v.subrange(i, i + high_run(v, i).1);
            &&& 2 <= s.len() <= 4
            &&& i + s.len() <= v.len()
            &&& decode_first_scalar(s) >= 0x80
            &&& valid_utf8(s)
            &&& is_scalar(decode_first_scalar(s))
            &&& encode_scalar((decode_first_scalar(s) as char) as u32) == s
        }),
{
    let w = high_run(v, i).1;
    let s = v.subrange(i, i + w);
    assert(s.len() == w);
    if w == 2 {
        lemma_width2_value(s[0], s[1]);
    } else if w == 3 {
        lemma_width3_value(s[0], s[1], s[2]);
    } else {
        lemma_width4_value(s[0], s[1], s[2], s[3]);
    }
    assert(valid_first_scalar(s));
    assert(pop_first_scalar(s).len() == 0);
    assert(valid_utf8(pop_first_scalar(s)));
    assert(valid_utf8(s));
    decode_utf8_first_scalar(s);
    assert(take_first_scalar(s) =~= s);
}

/// The scalar value of the valid sequence of `w` bytes at `i`.
fn sequence_value(v: &[u8], i: usize, w: usize) -> (r: u32)
    requires
        i < v@.len(),
        v@[i as int] >= 0x80,
        high_run(v@, i as int) == (true, w as int),
    ensures
        r == decode_first_scalar(v@.subrange(i as int, i + w)),
{
    let ghost s = v@.subrange(i as int, i + w);
    assert(s[0] == v@[i as int] && s[1] == v@[i + 1]);
    let b0 = v[i];
    let b1 = v[i + 1];
    if w == 2 {
        ((b0 & 0x1F) as u32) << 6 | (b1 & 0x3F) as u32
    } else if w == 3 {
        assert(s[2] == v@[i + 2]);
        let b2 = v[i + 2];
        ((b0 & 0x0F) as u32) << 12 | ((b1 & 0x3F) as u32) << 6 | (b2 & 0x3F) as u32
    } else {
        assert(s[2] == v@[i + 2] && s[3] == v@[i + 3]);
        let b2 = v[i + 2];
        let b3 = v[i + 3];
        ((b0 & 0x07) as u32) << 18 | ((b1 & 0x3F) as u32) << 12 | ((b2 & 0x3F) as u32) << 6 | (b3
            & 0x3F) as u32
    }
}

/// Encode bytes as STFU-8: each valid UTF-8 sequence of a printable character
/// stays as it is, every other byte is escaped.
pub fn encode(encoder: &Encoder, v: &[u8]) -> (r: String)
    ensures
        r@ == encode_bytes(*encoder, v@),
{
    let mut index: usize = 0;
    let len = v.len();
    let mut out = String::new();
    while index < len
        invariant
            index <= len == v@.len(),
            out@ + encode_from(*encoder, v@, index as int) == encode_bytes(*encoder, v@),
        decreases len - index,
    {
        let first = v[index];
        if first >= 0x80 {
            let (valid, n) = high_run_exec(v, index);
            if valid {
                let val = sequence_value(v, index, n);
                proof {
                    lemma_valid_run(v@, index as int);
                }
                match char_from_u32(val) {
                    Some(c) => {
                        proof {
                            char_u32_cast(c, val);
                        }
                        push_char(&mut out, c);
                    },
                    None => {},
                }
            } else {
                let ghost before = out@;
                let mut j: usize = index;
                while j < index + n
                    invariant
                        index <= j <= index + n <= len == v@.len(),
                        out@ == before + escaped_bytes(*encoder, v@.subrange(index as int, j as int)),
                    decreases index + n - j,
                {
                    maybe_ascii(&mut out, encoder, v[j]);
                    proof {
                        let b = v@.subrange(index as int, j + 1);
                        assert(b.drop_last() =~= v@.subrange(index as int, j as int));
                    }
                    j = j + 1;
                }
            }
            proof {
                assert(out@ + encode_from(*encoder, v@, index + n) == encode_bytes(*encoder, v@));
            }
            index = index + n;
        } else {
            maybe_ascii(&mut out, encoder, first);
            index = index + 1;
        }
    }
    out
}

} // verus!
