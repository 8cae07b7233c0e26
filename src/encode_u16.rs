//! Encoding of 16-bit units (UTF-16 that may be ill formed).
use vstd::prelude::*;
use vstd::utf8::*;

use crate::helpers::{
    char_from_u32, escape_u16, escape_u8, escaped_byte, escaped_unit, is_lead_surrogate,
    is_trail_surrogate, pair_value, push_char, to_utf32, BSLASH_U16,
};
use crate::Encoder;

verus! {

const LEAD_MIN: u16 = 0xD800;

const LEAD_MAX: u16 = 0xDBFF;

const TRAIL_MIN: u16 = 0xDC00;

const TRAIL_MAX: u16 = 0xDFFF;

/// The encoding of the units of `v` from position `i` on: control characters
/// and the backslash are escaped as bytes are, a lead surrogate followed by a
/// trail surrogate is written as their character, an unpaired surrogate is
/// written as a `\uHHHHHH` escape, and any other unit as its character.
pub open spec fn encode_units_from(e: Encoder, v: Seq<u16>, i: int) -> Seq<char>
    decreases v.len() - i,
{
    if i < 0 || i >= v.len() {
        seq![]
    } else {
        let c = v[i];
        if c <= 0x1F || c == BSLASH_U16 {
            escaped_byte(e, c as u8) + encode_units_from(e, v, i + 1)
        } else if is_lead_surrogate(c) && i + 1 < v.len() && is_trail_surrogate(v[i + 1]) {
            seq![pair_value(c, v[i + 1]) as char] + encode_units_from(e, v, i + 2)
        } else if is_lead_surrogate(c) || is_trail_surrogate(c) {
            escaped_unit(c) + encode_units_from(e, v, i + 1)
        } else {
            seq![(c as u32) as char] + encode_units_from(e, v, i + 1)
        }
    }
}

/// The text that encodes the units `v` under the settings `e`.
pub open spec fn encode_units(e: Encoder, v: Seq<u16>) -> Seq<char> {
    encode_units_from(e, v, 0)
}

/// Encode u16 (i.e. almost UTF-16) into STFU-8.
pub fn encode(encoder: &Encoder, v: &[u16]) -> (r: String)
    ensures
        r@ == encode_units(*encoder, v@),
{
    let mut out = String::new();
    let len = v.len();
    let mut i: usize = 0;
    while i < len
        invariant
            i <= len == v@.len(),
            out@ + encode_units_from(*encoder, v@, i as int) == encode_units(*encoder, v@),
        decreases len - i,
    {
        let c16 = v[i];
        if c16 <= 0x1F || c16 == BSLASH_U16 {
            // non-printable ascii, or the backslash
            escape_u8(&mut out, encoder, c16 as u8);
            i = i + 1;
        } else if LEAD_MIN <= c16 && c16 <= LEAD_MAX && i + 1 < len && TRAIL_MIN <= v[i + 1]
            && v[i + 1] <= TRAIL_MAX {
            // a lead and a trail: a valid pair
            let buf = [c16, v[i + 1]];
            let val = to_utf32(&buf);
            assert(buf@ =~= seq![c16, v@[i + 1]]);
            match char_from_u32(val) {
                Some(c) => {
                    proof {
                        char_u32_cast(c, val);
                    }
                    push_char(&mut out, c);
                },
                None => {},
            }
            i = i + 2;
        } else if LEAD_MIN <= c16 && c16 <= TRAIL_MAX {
            // a lead without a trail, or a trail without a lead
            escape_u16(&mut out, c16);
            i = i + 1;
        } else {
            match char_from_u32(c16 as u32) {
                Some(c) => {
                    proof {
                        char_u32_cast(c, c16 as u32);
                    }
                    push_char(&mut out, c);
                },
                None => {},
            }
            i = i + 1;
        }
    }
    out
}

} // verus!
