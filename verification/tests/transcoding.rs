use krnch::base64::base64_encode;
use krnch::text::{escape_xml, push_decimal, quote_csv};

fn decode(text: &str) -> Vec<u8> {
    let value = |c: u8| -> u8 {
        match c {
            b'A'..=b'Z' => c - b'A',
            b'a'..=b'z' => c - b'a' + 26,
            b'0'..=b'9' => c - b'0' + 52,
            b'+' => 62,
            _ => 63,
        }
    };
    let mut out = Vec::new();
    for group in text.as_bytes().chunks(4) {
        let s: Vec<u8> = group.iter().map(|c| value(*c)).collect();
        out.push((s[0] << 2) | (s[1] >> 4));
        if group[2] != b'=' {
            out.push(((s[1] & 0x0f) << 4) | (s[2] >> 2));
        }
        if group[3] != b'=' {
            out.push(((s[2] & 0x03) << 6) | s[3]);
        }
    }
    out
}

#[test]
fn base64_known_vectors() {
    assert_eq!(base64_encode(b""), "");
    assert_eq!(base64_encode(b"f"), "Zg==");
    assert_eq!(base64_encode(b"fo"), "Zm8=");
    assert_eq!(base64_encode(b"foo"), "Zm9v");
    assert_eq!(base64_encode(b"foob"), "Zm9vYg==");
    assert_eq!(base64_encode(b"fooba"), "Zm9vYmE=");
    assert_eq!(base64_encode(b"foobar"), "Zm9vYmFy");
    assert_eq!(base64_encode(b"Hello"), "SGVsbG8=");
    assert_eq!(base64_encode(&[0xFF]), "/w==");
    assert_eq!(base64_encode(&[0x00]), "AA==");
    assert_eq!(base64_encode(&[0xFB, 0xEF, 0xBE]), "++++");
    assert_eq!(base64_encode(&[0xFF, 0xFF, 0xFF]), "////");
}

#[test]
fn base64_round_trip_every_byte_value() {
    let all: Vec<u8> = (0u16..256).map(|b| b as u8).collect();
    assert_eq!(decode(&base64_encode(&all)), all);
    for b in 0u16..256 {
        let one = vec![b as u8];
        assert_eq!(decode(&base64_encode(&one)), one);
        let two = vec![b as u8, 255 - b as u8];
        assert_eq!(decode(&base64_encode(&two)), two);
    }
}

#[test]
fn base64_round_trip_every_length() {
    for len in 0usize..40 {
        let data: Vec<u8> = (0..len).map(|i| (i * 37 + 11) as u8).collect();
        let text = base64_encode(&data);
        assert_eq!(text.len(), (len + 2) / 3 * 4);
        assert_eq!(decode(&text), data);
    }
}

#[test]
fn base64_uses_only_its_alphabet() {
    let all: Vec<u8> = (0u16..256).map(|b| b as u8).collect();
    let text = base64_encode(&all);
    assert!(text
        .bytes()
        .all(|c| c.is_ascii_alphanumeric() || c == b'+' || c == b'/' || c == b'='));
}

#[test]
fn escape_xml_replaces_the_five_characters() {
    assert_eq!(escape_xml("a&b"), "a&amp;b");
    assert_eq!(escape_xml("<tag>"), "&lt;tag&gt;");
    assert_eq!(escape_xml("\"q\""), "&quot;q&quot;");
    assert_eq!(escape_xml("it's"), "it&apos;s");
    assert_eq!(escape_xml("&amp;"), "&amp;amp;");
    assert_eq!(escape_xml(""), "");
    assert_eq!(escape_xml("plain/path.txt"), "plain/path.txt");
    assert_eq!(escape_xml("\u{e9}<\u{65e5}"), "\u{e9}&lt;\u{65e5}");
}

#[test]
fn quote_csv_doubles_quotes() {
    assert_eq!(quote_csv("a\"b"), "a\"\"b");
    assert_eq!(quote_csv("\"\""), "\"\"\"\"");
    assert_eq!(quote_csv("no quotes, here"), "no quotes, here");
    assert_eq!(quote_csv(""), "");
}

#[test]
fn push_decimal_appends_the_numeral() {
    let mut s = String::from("n=");
    push_decimal(&mut s, 0);
    assert_eq!(s, "n=0");
    push_decimal(&mut s, 7);
    push_decimal(&mut s, 10);
    push_decimal(&mut s, 4096);
    assert_eq!(s, "n=07104096");
    let mut t = String::new();
    push_decimal(&mut t, u64::MAX);
    assert_eq!(t, "18446744073709551615");
}
