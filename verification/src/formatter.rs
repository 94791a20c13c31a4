//! The encoder: one document for a sequence of files, in the format chosen.

use crate::base64::{ascii_text, base64, base64_encode};
use crate::json::{
    json_error_text, json_list, json_map_insert, json_map_new, json_members, json_number,
    json_object, json_pretty, json_pretty_bytes, json_text, json_value, JsonModel,
};
use crate::text::{csv_quoted, decimal, escape_xml, push_decimal, quote_csv, xml_escaped};
use crate::types::{FileData, OutputFormat};
use vstd::prelude::*;
use vstd::string::*;
use vstd::utf8::encode_utf8;

verus! {

/// `String::into_bytes` hands out the bytes of the string, which are the
/// UTF-8 encoding of its characters.
pub assume_specification[ String::into_bytes ](s: String) -> (bytes: Vec<u8>)
    ensures
        bytes@ == encode_utf8(s@),
;

/// The sum of the `size` fields of `files`.
pub open spec fn total_size(files: Seq<FileData>) -> nat
    decreases files.len(),
{
    if files.len() == 0 {
        0
    } else {
        total_size(files.drop_last()) + files.last().size as nat
    }
}

/// A line of eighty equals signs.
pub open spec fn rule() -> Seq<char> {
    Seq::new(80, |i: int| '=')
}

/// The banner that precedes a file's bytes in the plain-text format.
pub open spec fn text_banner(f: FileData) -> Seq<char> {
    "\n"@ + rule() + "\n File: "@ + f.path@ + "\n Size: "@ + decimal(f.size as nat) + " bytes\n"@
        + rule() + "\n\n"@
}

/// One file in the plain-text format: the banner, the file's bytes as they
/// are, and a blank line.
pub open spec fn text_entry(f: FileData) -> Seq<u8> {
    encode_utf8(text_banner(f)) + f.content@ + seq![10u8, 10u8]
}

/// The plain-text document.
pub open spec fn text_document(files: Seq<FileData>) -> Seq<u8>
    decreases files.len(),
{
    if files.len() == 0 {
        Seq::empty()
    } else {
        text_document(files.drop_last()) + text_entry(files.last())
    }
}

/// One file in the XML format.
pub open spec fn xml_entry(f: FileData) -> Seq<char> {
    "  <file path=\""@ + xml_escaped(f.path@) + "\" size=\""@ + decimal(f.size as nat)
        + "\">\n    <content>"@ + ascii_text(base64(f.content@)) + "</content>\n  </file>\n"@
}

/// The elements of the XML document, one for each file.
pub open spec fn xml_entries(files: Seq<FileData>) -> Seq<char>
    decreases files.len(),
{
    if files.len() == 0 {
        Seq::empty()
    } else {
        xml_entries(files.drop_last()) + xml_entry(files.last())
    }
}

/// The XML document.
pub open spec fn xml_document(files: Seq<FileData>) -> Seq<char> {
    "<?xml version=\"1.0\" encoding=\"UTF-8\"?>\n<files>\n"@ + xml_entries(files) + "</files>\n"@
}

/// One file in the YAML format. The path stands between quotes as it is.
pub open spec fn yaml_entry(f: FileData) -> Seq<char> {
    "  - path: \""@ + f.path@ + "\"\n    size: "@ + decimal(f.size as nat)
        + "\n    content: |\n      "@ + ascii_text(base64(f.content@)) + "\n"@
}

/// The blocks of the YAML document, one for each file.
pub open spec fn yaml_entries(files: Seq<FileData>) -> Seq<char>
    decreases files.len(),
{
    if files.len() == 0 {
        Seq::empty()
    } else {
        yaml_entries(files.drop_last()) + yaml_entry(files.last())
    }
}

/// The YAML document.
pub open spec fn yaml_document(files: Seq<FileData>) -> Seq<char> {
    "files:\n"@ + yaml_entries(files)
}

/// One file in the CSV format.
pub open spec fn csv_row(f: FileData) -> Seq<char> {
    "\""@ + csv_quoted(f.path@) + "\","@ + decimal(f.size as nat) + ",\""@ + ascii_text(
        base64(f.content@),
    ) + "\"\n"@
}

/// The rows of the CSV document, one for each file.
pub open spec fn csv_rows(files: Seq<FileData>) -> Seq<char>
    decreases files.len(),
{
    if files.len() == 0 {
        Seq::empty()
    } else {
        csv_rows(files.drop_last()) + csv_row(files.last())
    }
}

/// The CSV document.
pub open spec fn csv_document(files: Seq<FileData>) -> Seq<char> {
    "path,size,content_base64\n"@ + csv_rows(files)
}

/// One file in the JSON format.
pub open spec fn json_file(f: FileData) -> JsonModel {
    JsonModel::Object(
        Map::<Seq<char>, JsonModel>::empty().insert("path"@, JsonModel::Text(f.path@)).insert(
            "size"@,
            JsonModel::Number(f.size as nat),
        ).insert("content"@, JsonModel::Text(ascii_text(base64(f.content@)))),
    )
}

/// The JSON document: the files, how many they are, and the sum of their
/// sizes.
pub open spec fn json_document(files: Seq<FileData>) -> JsonModel {
    JsonModel::Object(
        Map::<Seq<char>, JsonModel>::empty().insert(
            "files"@,
            JsonModel::List(files.map_values(|f: FileData| json_file(f))),
        ).insert("total_files"@, JsonModel::Number(files.len())).insert(
            "total_size"@,
            JsonModel::Number(total_size(files)),
        ),
    )
}

/// The document for `files` in `format`, as bytes.
pub open spec fn document(format: OutputFormat, files: Seq<FileData>) -> Seq<u8> {
    match format {
        OutputFormat::Json => json_pretty(json_document(files)),
        OutputFormat::Text => text_document(files),
        OutputFormat::Xml => encode_utf8(xml_document(files)),
        OutputFormat::Yaml => encode_utf8(yaml_document(files)),
        OutputFormat::Csv => encode_utf8(csv_document(files)),
    }
}

/// The message for a JSON text that could not be written.
pub open spec fn json_failure(cause: Seq<char>) -> Seq<char> {
    "JSON serialization error: "@ + cause
}

/// The sum of the sizes of a part of the files is at most that of all.
pub proof fn lemma_total_size_prefix(files: Seq<FileData>, n: int)
    requires
        0 <= n <= files.len(),
    ensures
        total_size(files.take(n)) <= total_size(files),
    decreases files.len(),
{
    if n < files.len() {
        lemma_total_size_prefix(files.drop_last(), n);
        assert(files.drop_last().take(n) =~= files.take(n));
    } else {
        assert(files.take(n) =~= files);
    }
}

/// The sum of the sizes of `files`, where it fits.
pub fn checked_total_size(files: &[FileData]) -> (r: Option<u64>)
    ensures
        match r {
            Some(t) => t == total_size(files@),
            None => total_size(files@) > u64::MAX,
        },
{
    let mut total: u64 = 0;
    let mut i: usize = 0;
    assert(files@.take(0) =~= Seq::<FileData>::empty());
    while i < files.len()
        invariant
            i <= files@.len(),
            total == total_size(files@.take(i as int)),
        decreases files@.len() - i,
    {
        proof {
            assert(files@.take(i + 1).drop_last() =~= files@.take(i as int));
            lemma_total_size_prefix(files@, i + 1);
        }
        match total.checked_add(files[i].size) {
            Some(t) => {
                total = t;
            },
            None => {
                return None;
            },
        }
        i += 1;
    }
    assert(files@.take(i as int) =~= files@);
    Some(total)
}

/// Appends `bytes` to `out`.
fn append_bytes(out: &mut Vec<u8>, bytes: &[u8])
    ensures
        final(out)@ == old(out)@ + bytes@,
{
    out.extend_from_slice(bytes);
    assert(out@ =~= old(out)@ + bytes@);
}

/// Appends a line of eighty equals signs to `out`.
fn push_rule(out: &mut String)
    ensures
        final(out)@ == old(out)@ + rule(),
{
    let mut i: usize = 0;
    while i < 80
        invariant
            i <= 80,
            out@ == old(out)@ + rule().take(i as int),
        decreases 80 - i,
    {
        out.push('=');
        assert(out@ =~= old(out)@ + rule().take(i + 1));
        i += 1;
    }
    assert(rule().take(80) =~= rule());
}

/// What the encoder returns for the outcome of writing the JSON text: the
/// bytes where they were written, else a message that holds the cause.
pub fn finish_json(outcome: Result<Vec<u8>, serde_json::Error>) -> (r: Result<Vec<u8>, String>)
    ensures
        outcome matches Ok(bytes) ==> r == Ok::<Vec<u8>, String>(bytes),
        outcome is Err ==> r is Err && exists|cause: Seq<char>| r->Err_0@ == json_failure(cause),
{
    match outcome {
        Ok(bytes) => Ok(bytes),
        Err(e) => {
            let cause = json_error_text(&e);
            let message = String::from_str("JSON serialization error: ").concat(cause.as_str());
            assert(message@ == json_failure(cause@));
            Err(message)
        },
    }
}

/// Encodes files in the format it was made for.
pub struct Formatter {
    format: OutputFormat,
}

impl Formatter {
    /// The format that this encoder writes.
    pub closed spec fn target(&self) -> OutputFormat {
        self.format
    }

    /// An encoder for `format`.
    pub fn new(format: OutputFormat) -> (r: Formatter)
        ensures
            r.target() == format,
    {
        Formatter { format }
    }

    /// Encodes `files`, in their order, as one document in this encoder's
    /// format. It succeeds for every format and for all files. For JSON
    /// the sum of the sizes has to fit, since the document holds it.
    pub fn format(&self, files: &[FileData]) -> (r: Result<Vec<u8>, String>)
        requires
            self.target() == OutputFormat::Json ==> total_size(files@) <= u64::MAX,
        ensures
            r is Ok,
            r->Ok_0@ == document(self.target(), files@),
    {
        match self.format {
            OutputFormat::Json => self.format_json(files),
            OutputFormat::Text => self.format_text(files),
            OutputFormat::Xml => self.format_xml(files),
            OutputFormat::Yaml => self.format_yaml(files),
            OutputFormat::Csv => self.format_csv(files),
        }
    }

    /// The JSON document for `files`: one object that lists the files, each
    /// with its path, its size and its bytes transcoded, and holds their
    /// number and the sum of their sizes. The text is the pretty-printed
    /// one of that object.
    pub fn format_json(&self, files: &[FileData]) -> (r: Result<Vec<u8>, String>)
        requires
            total_size(files@) <= u64::MAX,
        ensures
            r is Ok,
            r->Ok_0@ == json_pretty(json_document(files@)),
    {
        let mut entries: Vec<serde_json::Value> = Vec::new();
        let mut i: usize = 0;
        while i < files.len()
            invariant
                i <= files@.len(),
                entries@.len() == i,
                forall|k: int| 0 <= k < i ==> json_value(#[trigger] entries@[k]) == json_file(files@[k]),
            decreases files@.len() - i,
        {
            let file = &files[i];
            let mut members = json_map_new();
            json_map_insert(&mut members, String::from_str("path"), json_text(file.path.clone()));
            json_map_insert(&mut members, String::from_str("size"), json_number(file.size));
            json_map_insert(
                &mut members,
                String::from_str("content"),
                json_text(base64_encode(file.content.as_slice())),
            );
            assert(json_members(members) =~= json_file(*file)->Object_0);
            entries.push(json_object(members));
            i += 1;
        }
        let total: u64 = checked_total_size(files).unwrap();
        let ghost listed = entries@.map_values(|x: serde_json::Value| json_value(x));
        assert(listed =~= files@.map_values(|f: FileData| json_file(f)));
        let mut members = json_map_new();
        json_map_insert(&mut members, String::from_str("files"), json_list(entries));
        json_map_insert(&mut members, String::from_str("total_files"), json_number(files.len() as u64));
        json_map_insert(&mut members, String::from_str("total_size"), json_number(total));
        assert(json_members(members) =~= json_document(files@)->Object_0);
        let value = json_object(members);
        finish_json(json_pretty_bytes(&value))
    }

    /// The plain-text document for `files`: for each file a banner with its
    /// path and size, then its bytes as they are, then a blank line.
    pub fn format_text(&self, files: &[FileData]) -> (r: Result<Vec<u8>, String>)
        ensures
            r is Ok && r->Ok_0@ == text_document(files@),
    {
        let mut output: Vec<u8> = Vec::new();
        let mut i: usize = 0;
        assert(files@.take(0) =~= Seq::<FileData>::empty());
        while i < files.len()
            invariant
                i <= files@.len(),
                output@ == text_document(files@.take(i as int)),
            decreases files@.len() - i,
        {
            let file = &files[i];
            let mut banner = String::from_str("\n");
            push_rule(&mut banner);
            banner.append("\n File: ");
            banner.append(file.path.as_str());
            banner.append("\n Size: ");
            push_decimal(&mut banner, file.size);
            banner.append(" bytes\n");
            push_rule(&mut banner);
            banner.append("\n\n");
            assert(banner@ =~= text_banner(*file));
            append_bytes(&mut output, banner.as_str().as_bytes());
            append_bytes(&mut output, file.content.as_slice());
            output.push(10u8);
            output.push(10u8);
            proof {
                assert(files@.take(i + 1).drop_last() =~= files@.take(i as int));
                assert(output@ =~= text_document(files@.take(i as int)) + text_entry(*file));
            }
            i += 1;
        }
        assert(files@.take(i as int) =~= files@);
        Ok(output)
    }

    /// The XML document for `files`: one element for each file, with the
    /// escaped path and the size as attributes and the bytes transcoded as
    /// its text, inside one enclosing element.
    pub fn format_xml(&self, files: &[FileData]) -> (r: Result<Vec<u8>, String>)
        ensures
            r is Ok && r->Ok_0@ == encode_utf8(xml_document(files@)),
    {
        let mut output = String::from_str("<?xml version=\"1.0\" encoding=\"UTF-8\"?>\n<files>\n");
        let ghost header = output@;
        let mut i: usize = 0;
        assert(files@.take(0) =~= Seq::<FileData>::empty());
        assert(output@ =~= header + xml_entries(files@.take(0)));
        while i < files.len()
            invariant
                i <= files@.len(),
                output@ == header + xml_entries(files@.take(i as int)),
            decreases files@.len() - i,
        {
            let file = &files[i];
            let ghost before = output@;
            output.append("  <file path=\"");
            output.append(escape_xml(file.path.as_str()).as_str());
            output.append("\" size=\"");
            push_decimal(&mut output, file.size);
            output.append("\">\n    <content>");
            output.append(base64_encode(file.content.as_slice()).as_str());
            output.append("</content>\n  </file>\n");
            proof {
                assert(files@.take(i + 1).drop_last() =~= files@.take(i as int));
                assert(output@ =~= before + xml_entry(*file));
                assert(output@ =~= header + xml_entries(files@.take(i + 1)));
            }
            i += 1;
        }
        assert(files@.take(i as int) =~= files@);
        output.append("</files>\n");
        Ok(output.into_bytes())
    }

    /// The YAML document for `files`: under one key, a block for each file
    /// with its path between quotes as it is, its size, and its bytes
    /// transcoded.
    pub fn format_yaml(&self, files: &[FileData]) -> (r: Result<Vec<u8>, String>)
        ensures
            r is Ok && r->Ok_0@ == encode_utf8(yaml_document(files@)),
    {
        let mut output = String::from_str("files:\n");
        let ghost header = output@;
        let mut i: usize = 0;
        assert(files@.take(0) =~= Seq::<FileData>::empty());
        assert(output@ =~= header + yaml_entries(files@.take(0)));
        while i < files.len()
            invariant
                i <= files@.len(),
                output@ == header + yaml_entries(files@.take(i as int)),
            decreases files@.len() - i,
        {
            let file = &files[i];
            let ghost before = output@;
            output.append("  - path: \"");
            output.append(file.path.as_str());
            output.append("\"\n    size: ");
            push_decimal(&mut output, file.size);
            output.append("\n    content: |\n      ");
            output.append(base64_encode(file.content.as_slice()).as_str());
            output.append("\n");
            proof {
                assert(files@.take(i + 1).drop_last() =~= files@.take(i as int));
                assert(output@ =~= before + yaml_entry(*file));
                assert(output@ =~= header + yaml_entries(files@.take(i + 1)));
            }
            i += 1;
        }
        assert(files@.take(i as int) =~= files@);
        Ok(output.into_bytes())
    }

    /// The CSV document for `files`: a header row, then for each file a row
    /// with the path quoted, every quote character in it doubled, the size,
    /// and the bytes transcoded.
    pub fn format_csv(&self, files: &[FileData]) -> (r: Result<Vec<u8>, String>)
        ensures
            r is Ok && r->Ok_0@ == encode_utf8(csv_document(files@)),
    {
        let mut output = String::from_str("path,size,content_base64\n");
        let ghost header = output@;
        let mut i: usize = 0;
        assert(files@.take(0) =~= Seq::<FileData>::empty());
        assert(output@ =~= header + csv_rows(files@.take(0)));
        while i < files.len()
            invariant
                i <= files@.len(),
                output@ == header + csv_rows(files@.take(i as int)),
            decreases files@.len() - i,
        {
            let file = &files[i];
            let ghost before = output@;
            output.append("\"");
            output.append(quote_csv(file.path.as_str()).as_str());
            output.append("\",");
            push_decimal(&mut output, file.size);
            output.append(",\"");
            output.append(base64_encode(file.content.as_slice()).as_str());
            output.append("\"\n");
            proof {
                assert(files@.take(i + 1).drop_last() =~= files@.take(i as int));
                assert(output@ =~= before + csv_row(*file));
                assert(output@ =~= header + csv_rows(files@.take(i + 1)));
            }
            i += 1;
        }
        assert(files@.take(i as int) =~= files@);
        Ok(output.into_bytes())
    }
}

} // verus!
