use stfu8::encode_u8::{maybe_ascii, utf8_char_width};
use stfu8::helpers::escape_u8;
use stfu8::Encoder;
use stfu8::helpers::{from_hex2, from_hex6, to_utf32};

fn chars(s: &str) -> Vec<char> {
    s.chars().collect()
}

fn assert_conversions(s: &str, expect_suplimental: bool) {
    let mut got_suplimental = false;
    for c in s.chars() {
        let mut expected = [0_u16; 2];
        let mut c16 = [0_u16; 2];
        let expected = c.encode_utf16(&mut expected);
        let c16 = c.encode_utf16(&mut c16);
        if expected.len() == 2 {
            got_suplimental = true
        }
        assert_eq!(expected, c16);

        let c32 = to_utf32(c16);
        assert_eq!(c as u32, c32);
    }

    assert_eq!(expect_suplimental, got_suplimental);
}

#[test]
fn test_hex2() {
    assert_eq!(0, from_hex2(&chars("00")).unwrap());
    assert_eq!(15, from_hex2(&chars("0F")).unwrap());
    assert_eq!(15, from_hex2(&chars("0f")).unwrap());
    assert_eq!(16, from_hex2(&chars("10")).unwrap());
    assert_eq!(31, from_hex2(&chars("1F")).unwrap());
    assert_eq!(31, from_hex2(&chars("1f")).unwrap());
}

#[test]
fn test_hex6() {
    assert_eq!(0, from_hex6(&chars("000000")).unwrap());
    assert_eq!(15, from_hex6(&chars("00000F")).unwrap());
    assert_eq!(16, from_hex6(&chars("000010")).unwrap());
    assert_eq!(31, from_hex6(&chars("00001f")).unwrap());
    assert_eq!(2039583, from_hex6(&chars("1f1f1f")).unwrap());
}

#[test]
fn hex_rejects_non_digits() {
    assert!(from_hex2(&chars("0g")).is_err());
    assert!(from_hex2(&chars("+1")).is_err());
    assert!(from_hex6(&chars("00000é")).is_err());
    assert_eq!(0xFFFFFF, from_hex6(&chars("ffFFff")).unwrap());
}

#[test]
fn sanity_utf_conversion() {
    assert_conversions("foo bar", false);
    assert_conversions("foo bar", false);
    assert_conversions("¡ ¢ £ ¤ ¥ ¦ § ¨ © ª « ¬ ­", false);
    assert_conversions(" ʰ ʱ ʲ ʳ ʴ ʵ ʶ ʷ ʸ ʹ ʺ ʻ", false);
    assert_conversions("܀ ܁ ܂ ܃ ܄ ܅ ܆ ܇ ܈ ܉ ܊ ܋ ܌ ܍ ܏", false);
    assert_conversions("Ꭰ Ꭱ Ꭲ Ꭳ Ꭴ Ꭵ Ꭶ Ꭷ Ꭸ Ꭹ", false);
    assert_conversions("ἀ ἁ ἂ ἃ ἄ ἅ ἆ ἇ Ἀ Ἁ", false);
    assert_conversions("                          ​ ‌ ‍ ‎ ‏ ‐ ", false);
    assert_conversions("‑ ‒ – — ― ‖ ‗ ‘ ’ ‚ ‛ “", false);
    assert_conversions("    ⃐ ⃑ ⃒ ⃓ ⃔ ⃕ ⃖ ⃗ ⃘ ⃙ ⃚ ⃛ ⃜ ⃝ ⃞ ⃟ ⃠ ⃡ ⃢ ⃣ ⃤ ⃥ ⃦ ⃧ ⃨ ⃩ ⃪ ", false);
    assert_conversions("⟰ ⟱ ⟲ ⟳ ⟴ ⟵ ⟶ ⟷ ⟸ ⟹ ⟺ ⟻ ⟼ ⟽ ⟾ ⟿", false);

    // suplimentary codes:
    assert_conversions(
        "𠜎 𠜎 𠜱 𠜱 𠝹 𠝹 𠱓 𠱓 𠱸 𠱸 𠲖 𠲖 𠳏 𠳏 𠳕 𠳕 𠴕 𠴕 𠵼 𠵼 𠵿 𠵿 𠸎 𠸎 𠸏 𠸏",
        true,
    );
}

#[test]
fn utf8_char_width_table() {
    assert_eq!(utf8_char_width(b'a'), 1);
    assert_eq!(utf8_char_width(0x80), 0);
    assert_eq!(utf8_char_width(0xC1), 0);
    assert_eq!(utf8_char_width(0xC2), 2);
    assert_eq!(utf8_char_width(0xE0), 3);
    assert_eq!(utf8_char_width(0xF4), 4);
    assert_eq!(utf8_char_width(0xF5), 0);
}

#[test]
fn escape_u8_escapes_all_but_whitespace_controls() {
    let mut s = String::new();
    escape_u8(&mut s, &Encoder::new(), b'a');
    escape_u8(&mut s, &Encoder::new(), b'\\');
    escape_u8(&mut s, &Encoder::new(), b'\t');
    escape_u8(&mut s, &Encoder::pretty(), b'\n');
    escape_u8(&mut s, &Encoder::new(), 0xFE);
    assert_eq!(s, "\\x61\\\\\\t\n\\xFE");
}

#[test]
fn maybe_ascii_keeps_visible_ascii() {
    let mut s = String::new();
    maybe_ascii(&mut s, &Encoder::new(), b'a');
    maybe_ascii(&mut s, &Encoder::new(), b'\\');
    maybe_ascii(&mut s, &Encoder::new(), 0x7F);
    assert_eq!(s, "a\\\\\\x7F");
}
