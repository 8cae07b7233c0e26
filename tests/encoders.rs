use stfu8::{encode_u16, encode_u16_pretty, encode_u8, encode_u8_pretty, Encoder};

fn enc(s: &str) -> String {
    let out = stfu8::encode_u8::encode(&Encoder::new(), s.as_bytes());
    let _ = std::str::from_utf8(out.as_bytes()).unwrap();
    out
}

fn assert_enc(s: &str) {
    assert_eq!(enc(s), s);
}

fn enc16(s: &str) -> String {
    let utf16: Vec<u16> = s.encode_utf16().collect();
    println!("utf16: {:?}", utf16);
    let out = stfu8::encode_u16::encode(&Encoder::new(), &utf16);
    let _ = std::str::from_utf8(out.as_bytes()).unwrap();
    out
}

fn assert_enc16(s: &str) {
    assert_eq!(enc16(s), s);
}

fn check_sanity_encode(enc: fn(&str) -> String, assert_enc: fn(&str)) {
    assert_enc("foo bar");
    assert_enc("¡ ¢ £ ¤ ¥ ¦ § ¨ © ª « ¬ ­");
    assert_enc(" ʰ ʱ ʲ ʳ ʴ ʵ ʶ ʷ ʸ ʹ ʺ ʻ");
    assert_enc("܀ ܁ ܂ ܃ ܄ ܅ ܆ ܇ ܈ ܉ ܊ ܋ ܌ ܍ ܏");
    assert_enc("Ꭰ Ꭱ Ꭲ Ꭳ Ꭴ Ꭵ Ꭶ Ꭷ Ꭸ Ꭹ");
    assert_enc("ἀ ἁ ἂ ἃ ἄ ἅ ἆ ἇ Ἀ Ἁ");
    assert_enc("                          ​ ‌ ‍ ‎ ‏ ‐ ");
    assert_enc("‑ ‒ – — ― ‖ ‗ ‘ ’ ‚ ‛ “");
    assert_enc("    ⃐ ⃑ ⃒ ⃓ ⃔ ⃕ ⃖ ⃗ ⃘ ⃙ ⃚ ⃛ ⃜ ⃝ ⃞ ⃟ ⃠ ⃡ ⃢ ⃣ ⃤ ⃥ ⃦ ⃧ ⃨ ⃩ ⃪ ");

    // Test that `\` gets escaped
    assert_eq!(
        enc("¡ ¢ £ ¤ \\¥ ¦ § ¨ © ª « \\¬ ­"),
        r"¡ ¢ £ ¤ \\¥ ¦ § ¨ © ª « \\¬ ­"
    );

    // Test that newlines gets escaped
    assert_eq!(
        enc("Ā ā Ă \nă Ą ą Ć\n ć Ĉ ĉ\n"),
        r"Ā ā Ă \nă Ą ą Ć\n ć Ĉ ĉ\n",
    );
}

fn binary_sample() -> Vec<u8> {
    let mut bytes: Vec<u8> = Vec::new();
    bytes.extend_from_slice("¡ ¢ £".as_bytes());
    bytes.extend_from_slice(b"\t\n\r"); // "\x09\x0a\x0d"
    bytes.extend_from_slice(b"\x07\x7f\xFE");
    bytes.extend_from_slice("¤ ¥ ¦".as_bytes());
    bytes
}

#[test]
fn encode_sanity_encode() {
    check_sanity_encode(enc, assert_enc);
}

#[test]
fn encode_sanity_encode_binary() {
    let bytes = binary_sample();
    assert_eq!(
        stfu8::encode_u8::encode(&Encoder::new(), &bytes),
        r"¡ ¢ £\t\n\r\x07\x7F\xFE¤ ¥ ¦"
    );
}

#[test]
fn encode_sanity_encode_pretty() {
    let expected = "foo\nbar\n";
    let result = stfu8::encode_u8::encode(&Encoder::pretty(), expected.as_bytes());
    assert_eq!(expected, result);
}

#[test]
fn encode_u8_sanity_encode() {
    check_sanity_encode(enc, assert_enc);
}

#[test]
fn encode_u8_sanity_encode_binary() {
    let bytes = binary_sample();
    assert_eq!(
        stfu8::encode_u8::encode(&Encoder::new(), &bytes),
        r"¡ ¢ £\t\n\r\x07\x7F\xFE¤ ¥ ¦"
    );
}

#[test]
fn encode_u8_sanity_encode_pretty() {
    let expected = "foo\nbar\n";
    let result = stfu8::encode_u8::encode(&Encoder::pretty(), expected.as_bytes());
    assert_eq!(expected, result);
}

#[test]
fn encode_u16_sanity_encode() {
    assert_enc16("foo bar");
    check_sanity_encode(enc16, assert_enc16);
}

#[test]
fn encode_u8_strict_and_pretty_examples() {
    assert_eq!(encode_u8(b"foo\xFF\nbar"), r"foo\xFF\nbar");
    assert_eq!(encode_u8_pretty(b"foo\xFF\nbar"), "foo\\xFF\nbar");
}

#[test]
fn encode_u8_printable_ascii_passes_through() {
    let s = " !\"#$%&'()*+,-./0123456789:;<=>?@ABCDEFGHIJKLMNOPQRSTUVWXYZ[]^_`abcdefghijklmnopqrstuvwxyz{|}~";
    assert_eq!(encode_u8_pretty(s.as_bytes()), s);
    assert_eq!(encode_u8(s.as_bytes()), s);
    assert_eq!(encode_u8(b""), "");
}

#[test]
fn encode_u8_invalid_sequences() {
    // a lead byte followed by a byte that cannot continue it: both escaped
    assert_eq!(encode_u8(b"\xE2\xC3\xA9"), r"\xE2\xC3\xA9");
    assert_eq!(encode_u8(b"\xE2(\xA1"), r"\xE2(\xA1");
    // truncated sequences at the end
    assert_eq!(encode_u8(b"a\xF0\x9F\x98"), r"a\xF0\x9F\x98");
    assert_eq!(encode_u8(b"\xC3"), r"\xC3");
    // overlong, surrogate and out-of-range encodings
    assert_eq!(encode_u8(b"\xC0\xAF"), r"\xC0\xAF");
    assert_eq!(encode_u8(b"\xE0\x80\xAF"), r"\xE0\x80\xAF");
    assert_eq!(encode_u8(b"\xED\xA0\x80"), r"\xED\xA0\x80");
    assert_eq!(encode_u8(b"\xF4\x90\x80\x80"), r"\xF4\x90\x80\x80");
    // valid sequences of every width
    assert_eq!(encode_u8("é€😀".as_bytes()), "é€😀");
    // control characters
    assert_eq!(encode_u8(b"\x00\x1B\x7F"), r"\x00\x1B\x7F");
    assert_eq!(encode_u8_pretty(b"\t\r\n\\"), "\t\r\n\\\\");
}

#[test]
fn encode_u16_ill_formed() {
    let mut ill: Vec<u16> = "fooÿ\nbar".encode_utf16().collect();
    ill.push(0xD800); // surrogate pair lead
    ill.push(b' ' as u16); // NOT a trail
    ill.push(0xDEED); // Trail... with no lead
    ill.push(b' ' as u16);
    ill.push(0xDABA); // lead... but end of str
    assert_eq!(encode_u16(&ill), r"fooÿ\nbar\u00D800 \u00DEED \u00DABA");
    assert_eq!(encode_u16_pretty(&ill), "fooÿ\nbar\\u00D800 \\u00DEED \\u00DABA");
    assert_eq!(stfu8::decode_u16(&encode_u16(&ill)).unwrap(), ill);
}

#[test]
fn encode_u16_pairs() {
    assert_eq!(encode_u16(&[0xD83D, 0xDE00]), "😀");
    assert_eq!(encode_u16(&[0xD83D, 0xD83D, 0xDE00]), "\\u00D83D😀");
    assert_eq!(encode_u16(&[0x5C, 0x09, 0x7F]), "\\\\\\t\u{7f}");
}
