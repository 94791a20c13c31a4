//! The decoding rules of the YAML format. A path stands between quotes as
//! it is, so it is read up to the next quote character: a path that holds
//! one is not found again.

use crate::base64::{
    ascii_codes, ascii_text, base64, is_base64_char, lemma_base64_field, unbase64,
};
use crate::formatter::{document, yaml_document, yaml_entries, yaml_entry};
use crate::parse::{
    decimal_value, expect, is_digit, is_unquoted, lemma_decimal, lemma_expect, lemma_span, span,
};
use crate::text::decimal;
use crate::types::{views, FileData, OutputFormat, Record};
use vstd::prelude::*;
use vstd::utf8::{decode_utf8, encode_utf8_decode_utf8};

verus! {

/// One block of a YAML document: the record it stands for, and what
/// follows the block.
pub open spec fn decode_yaml_entry(s: Seq<char>) -> Option<(Record, Seq<char>)> {
    match expect(s, "  - path: \""@) {
        None => None,
        Some(s1) => {
            let n = span(s1, |c: char| is_unquoted(c));
            let path = s1.take(n as int);
            match expect(s1.skip(n as int), "\"\n    size: "@) {
                None => None,
                Some(s2) => {
                    let d = span(s2, |c: char| is_digit(c));
                    let size = decimal_value(s2.take(d as int));
                    match expect(s2.skip(d as int), "\n    content: |\n      "@) {
                        None => None,
                        Some(s3) => {
                            let b = span(s3, |c: char| is_base64_char(c));
                            let content = unbase64(ascii_codes(s3.take(b as int)));
                            match expect(s3.skip(b as int), "\n"@) {
                                None => None,
                                Some(rest) => if d >= 1 {
                                    Some((Record { path, size, content }, rest))
                                } else {
                                    None
                                },
                            }
                        },
                    }
                },
            }
        },
    }
}

/// The blocks of a YAML document, to its end.
pub open spec fn decode_yaml_entries(s: Seq<char>) -> Option<Seq<Record>>
    decreases s.len(),
{
    if s.len() == 0 {
        Some(Seq::empty())
    } else {
        match decode_yaml_entry(s) {
            None => None,
            Some((record, rest)) => if rest.len() < s.len() {
                match decode_yaml_entries(rest) {
                    None => None,
                    Some(records) => Some(seq![record] + records),
                }
            } else {
                None
            },
        }
    }
}

/// What a YAML document says of its files.
pub open spec fn decode_yaml(doc: Seq<u8>) -> Option<Seq<Record>> {
    match expect(decode_utf8(doc), "files:\n"@) {
        None => None,
        Some(entries) => decode_yaml_entries(entries),
    }
}

/// Whether no path of `files` holds a quote character.
pub open spec fn paths_unquoted(files: Seq<FileData>) -> bool {
    forall|i: int| 0 <= i < files.len() ==> !(#[trigger] files[i]).path@.contains('"')
}

proof fn lemma_yaml_marks()
    ensures
        "  - path: \""@.len() > 0,
        "\"\n    size: "@.len() > 0,
        "\"\n    size: "@[0] == '"',
        "\n    content: |\n      "@.len() > 0,
        "\n    content: |\n      "@[0] == '\n',
        "\n"@.len() == 1,
        "\n"@[0] == '\n',
{
    reveal_strlit("  - path: \"");
    reveal_strlit("\"\n    size: ");
    reveal_strlit("\n    content: |\n      ");
    reveal_strlit("\n");
}

/// A block of the encoder, for a path without a quote character, is
/// decoded to the record that it was made from.
pub proof fn lemma_yaml_entry(f: FileData, tail: Seq<char>)
    requires
        !f.path@.contains('"'),
    ensures
        decode_yaml_entry(yaml_entry(f) + tail) == Some((f@, tail)),
        yaml_entry(f).len() > 0,
{
    let plain = |c: char| is_unquoted(c);
    let digit = |c: char| is_digit(c);
    let letter = |c: char| is_base64_char(c);
    let path = f.path@;
    let num = decimal(f.size as nat);
    let text = ascii_text(base64(f.content@));
    let t3 = "\n"@ + tail;
    let t2 = "\n    content: |\n      "@ + (text + t3);
    let t1 = "\"\n    size: "@ + (num + t2);
    let s = "  - path: \""@ + (path + t1);
    lemma_yaml_marks();
    assert(yaml_entry(f) + tail =~= s);
    lemma_expect("  - path: \""@, path + t1);
    assert forall|i: int| 0 <= i < path.len() implies plain(#[trigger] path[i]) by {
        assert(path.contains(path[i]));
    }
    assert(!plain(t1[0]));
    lemma_span(path, t1, plain);
    lemma_expect("\"\n    size: "@, num + t2);
    lemma_decimal(f.size as nat);
    assert(!digit(t2[0]));
    lemma_span(num, t2, digit);
    lemma_expect("\n    content: |\n      "@, text + t3);
    lemma_base64_field(f.content@);
    assert(!letter(t3[0]));
    lemma_span(text, t3, letter);
    lemma_expect("\n"@, tail);
}

/// Blocks for files in two parts are the blocks of each part.
pub proof fn lemma_yaml_entries_concat(a: Seq<FileData>, b: Seq<FileData>)
    ensures
        yaml_entries(a + b) == yaml_entries(a) + yaml_entries(b),
    decreases b.len(),
{
    if b.len() == 0 {
        assert(a + b =~= a);
        assert(yaml_entries(a) + yaml_entries(b) =~= yaml_entries(a));
    } else {
        lemma_yaml_entries_concat(a, b.drop_last());
        assert((a + b).drop_last() =~= a + b.drop_last());
        assert(yaml_entries(a + b) =~= yaml_entries(a) + yaml_entries(b));
    }
}

proof fn lemma_yaml_entries(files: Seq<FileData>)
    requires
        paths_unquoted(files),
    ensures
        decode_yaml_entries(yaml_entries(files)) == Some(views(files)),
    decreases files.len(),
{
    if files.len() == 0 {
        assert(views(files) =~= Seq::<Record>::empty());
    } else {
        let first = seq![files[0]];
        let rest = files.skip(1);
        assert(first + rest =~= files);
        lemma_yaml_entries_concat(first, rest);
        assert(first.drop_last() =~= Seq::<FileData>::empty());
        assert(yaml_entries(first.drop_last()) =~= Seq::<char>::empty());
        assert(first.last() == files[0]);
        assert(yaml_entries(first) =~= yaml_entry(files[0]));
        lemma_yaml_entry(files[0], yaml_entries(rest));
        assert forall|i: int| 0 <= i < rest.len() implies !(#[trigger] rest[i]).path@.contains(
            '"',
        ) by {
            assert(rest[i] == files[i + 1]);
        }
        lemma_yaml_entries(rest);
        assert(seq![files[0]@] + views(rest) =~= views(files));
    }
}

/// YAML: the document that the encoder writes for files whose paths hold
/// no quote character says of each file its path, its size and its bytes,
/// in the order given.
pub proof fn lemma_yaml_decodes(files: Seq<FileData>)
    requires
        paths_unquoted(files),
    ensures
        decode_yaml(document(OutputFormat::Yaml, files)) == Some(views(files)),
{
    encode_utf8_decode_utf8(yaml_document(files));
    lemma_expect("files:\n"@, yaml_entries(files));
    lemma_yaml_entries(files);
}

} // verus!
