//! The output formats and the record that stands for one file.

use vstd::prelude::*;
use vstd::string::*;

verus! {

/// The closed set of output formats.
#[derive(Debug, Clone, Copy, PartialEq, Eq, Structural)]
pub enum OutputFormat {
    Json,
    Text,
    Xml,
    Yaml,
    Csv,
}

/// `c` with an ASCII capital letter replaced by its small letter.
pub open spec fn ascii_lower(c: char) -> char {
    if 'A' <= c && c <= 'Z' {
        ((c as u32 + 32) as u8) as char
    } else {
        c
    }
}

/// `token` with every ASCII capital letter replaced by its small letter.
pub open spec fn fold_case(token: Seq<char>) -> Seq<char> {
    Seq::new(token.len(), |i: int| ascii_lower(token[i]))
}

/// The format that a selector names, if it names one.
pub open spec fn resolve_alias(token: Seq<char>) -> Option<OutputFormat> {
    let t = fold_case(token);
    if t == seq!['j', 's', 'o', 'n'] {
        Some(OutputFormat::Json)
    } else if t == seq!['t', 'e', 'x', 't'] || t == seq!['t', 'x', 't'] {
        Some(OutputFormat::Text)
    } else if t == seq!['x', 'm', 'l'] {
        Some(OutputFormat::Xml)
    } else if t == seq!['y', 'a', 'm', 'l'] || t == seq!['y', 'm', 'l'] {
        Some(OutputFormat::Yaml)
    } else if t == seq!['c', 's', 'v'] {
        Some(OutputFormat::Csv)
    } else {
        None
    }
}

/// The message for a selector that names no format.
pub open spec fn unknown_format_message(token: Seq<char>) -> Seq<char> {
    "Unknown format: "@ + token + ". Supported formats: json, text, xml, yaml, csv"@
}

/// Resolution ignores case: two selectors that differ only in the case of
/// their ASCII letters name the same format, or both name none.
pub proof fn lemma_alias_ignores_case(a: Seq<char>, b: Seq<char>)
    requires
        a.len() == b.len(),
        forall|i: int| 0 <= i < a.len() ==> ascii_lower(a[i]) == ascii_lower(b[i]),
    ensures
        resolve_alias(a) == resolve_alias(b),
{
    assert(fold_case(a) =~= fold_case(b));
}

/// Whether `c` is the small letter `lower` or its capital.
fn same_letter(c: char, lower: char) -> (r: bool)
    requires
        'a' <= lower && lower <= 'z',
    ensures
        r == (ascii_lower(c) == lower),
{
    let cu: u32 = c as u32;
    let lu: u32 = lower as u32;
    c == lower || (65 <= cu && cu <= 90 && cu + 32 == lu)
}

/// Whether `token`, compared without regard to ASCII case, is `alias`.
fn is_alias(token: &str, alias: &str) -> (r: bool)
    requires
        forall|i: int| 0 <= i < alias@.len() ==> 'a' <= #[trigger] alias@[i] && alias@[i] <= 'z',
    ensures
        r == (fold_case(token@) == alias@),
{
    let n: usize = alias.unicode_len();
    if token.unicode_len() != n {
        return false;
    }
    let mut i: usize = 0;
    while i < n
        invariant
            i <= n,
            n == alias@.len(),
            n == token@.len(),
            forall|k: int| 0 <= k < alias@.len() ==> 'a' <= #[trigger] alias@[k] && alias@[k] <= 'z',
            forall|k: int| 0 <= k < i ==> ascii_lower(token@[k]) == alias@[k],
        decreases n - i,
    {
        if !same_letter(token.get_char(i), alias.get_char(i)) {
            assert(fold_case(token@)[i as int] != alias@[i as int]);
            return false;
        }
        i += 1;
    }
    assert(fold_case(token@) =~= alias@);
    true
}

impl OutputFormat {
    /// Resolves a format selector, without regard to case. A selector that
    /// names no format is an error that quotes it.
    pub fn from_str(s: &str) -> (r: Result<OutputFormat, String>)
        ensures
            match resolve_alias(s@) {
                Some(f) => r == Ok::<OutputFormat, String>(f),
                None => r is Err && r->Err_0@ == unknown_format_message(s@),
            },
    {
        proof {
            reveal_strlit("json");
            reveal_strlit("text");
            reveal_strlit("txt");
            reveal_strlit("xml");
            reveal_strlit("yaml");
            reveal_strlit("yml");
            reveal_strlit("csv");
            assert("json"@ =~= seq!['j', 's', 'o', 'n']);
            assert("text"@ =~= seq!['t', 'e', 'x', 't']);
            assert("txt"@ =~= seq!['t', 'x', 't']);
            assert("xml"@ =~= seq!['x', 'm', 'l']);
            assert("yaml"@ =~= seq!['y', 'a', 'm', 'l']);
            assert("yml"@ =~= seq!['y', 'm', 'l']);
            assert("csv"@ =~= seq!['c', 's', 'v']);
        }
        if is_alias(s, "json") {
            Ok(OutputFormat::Json)
        } else if is_alias(s, "text") || is_alias(s, "txt") {
            Ok(OutputFormat::Text)
        } else if is_alias(s, "xml") {
            Ok(OutputFormat::Xml)
        } else if is_alias(s, "yaml") || is_alias(s, "yml") {
            Ok(OutputFormat::Yaml)
        } else if is_alias(s, "csv") {
            Ok(OutputFormat::Csv)
        } else {
            let message = String::from_str("Unknown format: ").concat(s).concat(
                ". Supported formats: json, text, xml, yaml, csv",
            );
            Err(message)
        }
    }

    /// The extension of the file that holds a document in this format.
    pub fn extension(&self) -> (r: &'static str)
        ensures
            r@ == match *self {
                OutputFormat::Json => "json"@,
                OutputFormat::Text => "txt"@,
                OutputFormat::Xml => "xml"@,
                OutputFormat::Yaml => "yaml"@,
                OutputFormat::Csv => "csv"@,
            },
    {
        match self {
            OutputFormat::Json => "json",
            OutputFormat::Text => "txt",
            OutputFormat::Xml => "xml",
            OutputFormat::Yaml => "yaml",
            OutputFormat::Csv => "csv",
        }
    }
}

/// One file: its path as it was found, its bytes, and how many they are.
#[derive(Debug, Clone)]
pub struct FileData {
    pub path: String,
    pub content: Vec<u8>,
    pub size: u64,
}

/// What a record says of its file: the path's text, the size and the
/// bytes.
pub struct Record {
    pub path: Seq<char>,
    pub size: nat,
    pub content: Seq<u8>,
}

impl View for FileData {
    type V = Record;

    open spec fn view(&self) -> Record {
        Record { path: self.path@, size: self.size as nat, content: self.content@ }
    }
}

/// What each of `files` says of its file.
pub open spec fn views(files: Seq<FileData>) -> Seq<Record> {
    files.map_values(|f: FileData| f@)
}

impl FileData {
    /// Whether `size` is the length of `content`.
    pub open spec fn wf(&self) -> bool {
        self.size == self.content@.len()
    }

    /// A record for the file at `path` that holds `content`.
    pub fn new(path: String, content: Vec<u8>) -> (r: FileData)
        ensures
            r.path == path,
            r.content == content,
            r.size == content@.len(),
            r.wf(),
    {
        let size: u64 = content.len() as u64;
        FileData { path, content, size }
    }
}

} // verus!
