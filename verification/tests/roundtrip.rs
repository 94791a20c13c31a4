use krnch::formatter::Formatter;
use krnch::types::{FileData, OutputFormat};

type Decoded = Vec<(String, u64, Vec<u8>)>;

fn unbase64(text: &[u8]) -> Vec<u8> {
    let value = |c: u8| -> u8 {
        match c {
            b'A'..=b'Z' => c - b'A',
            b'a'..=b'z' => c - b'a' + 26,
            b'0'..=b'9' => c - b'0' + 52,
            b'+' => 62,
            _ => 63,
        }
    };
    let mut out = Vec::new();
    for group in text.chunks(4) {
        let s: Vec<u8> = group.iter().map(|c| value(*c)).collect();
        out.push((s[0] << 2) | (s[1] >> 4));
        if group[2] != b'=' {
            out.push(((s[1] & 0x0f) << 4) | (s[2] >> 2));
        }
        if group[3] != b'=' {
            out.push(((s[2] & 0x03) << 6) | s[3]);
        }
    }
    out
}

struct Cursor<'a> {
    rest: &'a [u8],
}

impl<'a> Cursor<'a> {
    fn expect(&mut self, lit: &[u8]) {
        assert!(self.rest.starts_with(lit));
        self.rest = &self.rest[lit.len()..];
    }

    fn span(&mut self, keep: fn(u8) -> bool) -> &'a [u8] {
        let n = self.rest.iter().position(|b| !keep(*b)).unwrap_or(self.rest.len());
        let (field, rest) = self.rest.split_at(n);
        self.rest = rest;
        field
    }

    fn take(&mut self, n: usize) -> &'a [u8] {
        let (field, rest) = self.rest.split_at(n);
        self.rest = rest;
        field
    }

    fn number(&mut self) -> u64 {
        let digits = self.span(|b| b.is_ascii_digit());
        assert!(!digits.is_empty());
        std::str::from_utf8(digits).unwrap().parse().unwrap()
    }

    fn transcoded(&mut self) -> Vec<u8> {
        unbase64(self.span(|b| b.is_ascii_alphanumeric() || b == b'+' || b == b'/' || b == b'='))
    }
}

fn text_of(bytes: &[u8]) -> String {
    String::from_utf8(bytes.to_vec()).unwrap()
}

fn decode_csv(doc: &[u8]) -> Decoded {
    let mut c = Cursor { rest: doc };
    let mut out = Vec::new();
    c.expect(b"path,size,content_base64\n");
    while !c.rest.is_empty() {
        c.expect(b"\"");
        let mut path = Vec::new();
        loop {
            if c.rest[0] != b'"' {
                path.push(c.take(1)[0]);
            } else if c.rest.len() >= 2 && c.rest[1] == b'"' {
                c.take(2);
                path.push(b'"');
            } else {
                break;
            }
        }
        c.expect(b"\",");
        let size = c.number();
        c.expect(b",\"");
        let content = c.transcoded();
        c.expect(b"\"\n");
        out.push((text_of(&path), size, content));
    }
    out
}

fn decode_xml(doc: &[u8]) -> Decoded {
    let mut c = Cursor { rest: doc };
    let mut out = Vec::new();
    c.expect(b"<?xml version=\"1.0\" encoding=\"UTF-8\"?>\n<files>\n");
    while c.rest != b"</files>\n" {
        c.expect(b"  <file path=\"");
        let escaped = text_of(c.span(|b| b != b'"'));
        let mut path = String::new();
        let mut rest = escaped.as_str();
        while !rest.is_empty() {
            let entities = [("&amp;", '&'), ("&lt;", '<'), ("&gt;", '>'), ("&quot;", '"'), ("&apos;", '\'')];
            match entities.iter().find(|(e, _)| rest.starts_with(e)) {
                Some((e, ch)) => {
                    path.push(*ch);
                    rest = &rest[e.len()..];
                }
                None => {
                    let ch = rest.chars().next().unwrap();
                    path.push(ch);
                    rest = &rest[ch.len_utf8()..];
                }
            }
        }
        c.expect(b"\" size=\"");
        let size = c.number();
        c.expect(b"\">\n    <content>");
        let content = c.transcoded();
        c.expect(b"</content>\n  </file>\n");
        out.push((path, size, content));
    }
    out
}

fn decode_yaml(doc: &[u8]) -> Decoded {
    let mut c = Cursor { rest: doc };
    let mut out = Vec::new();
    c.expect(b"files:\n");
    while !c.rest.is_empty() {
        c.expect(b"  - path: \"");
        let path = text_of(c.span(|b| b != b'"'));
        c.expect(b"\"\n    size: ");
        let size = c.number();
        c.expect(b"\n    content: |\n      ");
        let content = c.transcoded();
        c.expect(b"\n");
        out.push((path, size, content));
    }
    out
}

fn decode_text(doc: &[u8]) -> Decoded {
    let mut c = Cursor { rest: doc };
    let mut out = Vec::new();
    let rule = "=".repeat(80);
    while !c.rest.is_empty() {
        c.expect(format!("\n{}\n File: ", rule).as_bytes());
        let path = text_of(c.span(|b| b != b'\n'));
        c.expect(b"\n Size: ");
        let size = c.number();
        c.expect(format!(" bytes\n{}\n\n", rule).as_bytes());
        let content = c.take(size as usize).to_vec();
        c.expect(b"\n\n");
        out.push((path, size, content));
    }
    out
}

fn decode_json(doc: &[u8]) -> Decoded {
    let tree: serde_json::Value = serde_json::from_slice(doc).unwrap();
    tree["files"]
        .as_array()
        .unwrap()
        .iter()
        .map(|f| {
            (
                f["path"].as_str().unwrap().to_string(),
                f["size"].as_u64().unwrap(),
                unbase64(f["content"].as_str().unwrap().as_bytes()),
            )
        })
        .collect()
}

fn given(files: &[FileData]) -> Decoded {
    files.iter().map(|f| (f.path.clone(), f.size, f.content.clone())).collect()
}

fn sample(paths: &[&str]) -> Vec<FileData> {
    let all: Vec<u8> = (0u16..256).map(|b| b as u8).collect();
    let contents: Vec<Vec<u8>> = vec![
        vec![],
        vec![0x00],
        vec![0xFF, 0xFE],
        b"Hello".to_vec(),
        b"\n\n====\n File: x\n Size: 1 bytes\n\",\"<content>&amp;</content>".to_vec(),
        all,
    ];
    paths
        .iter()
        .enumerate()
        .map(|(i, p)| FileData::new(p.to_string(), contents[i % contents.len()].clone()))
        .collect()
}

fn encode(format: OutputFormat, files: &[FileData]) -> Vec<u8> {
    Formatter::new(format).format(files).unwrap()
}

const PLAIN: [&str; 7] = [
    "a.bin",
    "dir/b.bin",
    "",
    "with space/and,comma.txt",
    "d\u{e9}j\u{e0}/\u{65e5}\u{672c}\u{8a9e}.txt",
    "emoji-\u{1f600}",
    "tab\there",
];

const MARKED: [&str; 6] = [
    "quote\"inside",
    "\"\"",
    "a&b<c>d'e",
    "&amp;&lt;",
    "trailing\"",
    "\",\"",
];

#[test]
fn csv_documents_decode_to_what_was_given() {
    for paths in [&PLAIN[..], &MARKED[..], &["line\nfeed"][..], &[][..]] {
        let files = sample(paths);
        assert_eq!(decode_csv(&encode(OutputFormat::Csv, &files)), given(&files));
    }
}

#[test]
fn xml_documents_decode_to_what_was_given() {
    for paths in [&PLAIN[..], &MARKED[..], &["line\nfeed"][..], &[][..]] {
        let files = sample(paths);
        assert_eq!(decode_xml(&encode(OutputFormat::Xml, &files)), given(&files));
    }
}

#[test]
fn json_documents_decode_to_what_was_given() {
    for paths in [&PLAIN[..], &MARKED[..], &["line\nfeed", "back\\slash"][..], &[][..]] {
        let files = sample(paths);
        assert_eq!(decode_json(&encode(OutputFormat::Json, &files)), given(&files));
    }
}

#[test]
fn yaml_documents_decode_where_paths_hold_no_quote() {
    for paths in [&PLAIN[..], &["a&b<c>d'e", "line\nfeed"][..], &[][..]] {
        let files = sample(paths);
        assert_eq!(decode_yaml(&encode(OutputFormat::Yaml, &files)), given(&files));
    }
}

#[test]
fn text_documents_decode_where_paths_hold_no_line_feed() {
    for paths in [&PLAIN[..], &MARKED[..], &[][..]] {
        let files = sample(paths);
        assert_eq!(decode_text(&encode(OutputFormat::Text, &files)), given(&files));
    }
}

#[test]
fn yaml_path_with_quote_is_written_as_it_is() {
    let files = vec![FileData::new("a\"b".to_string(), vec![1])];
    let doc = encode(OutputFormat::Yaml, &files);
    let mut c = Cursor { rest: &doc };
    c.expect(b"files:\n  - path: \"");
    assert_eq!(c.span(|b| b != b'"'), b"a");
    assert!(c.rest.starts_with(b"\"b\"\n    size: 1\n"));
}
