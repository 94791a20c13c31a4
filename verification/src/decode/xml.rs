//! The decoding rules of the XML format.

use crate::base64::{
    ascii_codes, ascii_text, base64, is_base64_char, lemma_base64_field, unbase64,
};
use crate::formatter::{document, xml_document, xml_entries, xml_entry};
use crate::parse::{
    all, decimal_value, expect, is_digit, is_unquoted, lemma_decimal, lemma_expect,
    lemma_expect_other, lemma_span, span, starts_with,
};
use crate::text::{decimal, xml_entity, xml_escaped};
use crate::types::{views, FileData, OutputFormat, Record};
use vstd::prelude::*;
use vstd::utf8::{decode_utf8, encode_utf8_decode_utf8};

verus! {

/// The text that an escaped attribute value stands for: each of the five
/// entities is its character.
pub open spec fn xml_unescaped(s: Seq<char>) -> Seq<char>
    decreases s.len(),
{
    if s.len() == 0 {
        Seq::empty()
    } else if starts_with(s, xml_entity('&')) {
        seq!['&'] + xml_unescaped(s.skip(5))
    } else if starts_with(s, xml_entity('<')) {
        seq!['<'] + xml_unescaped(s.skip(4))
    } else if starts_with(s, xml_entity('>')) {
        seq!['>'] + xml_unescaped(s.skip(4))
    } else if starts_with(s, xml_entity('"')) {
        seq!['"'] + xml_unescaped(s.skip(6))
    } else if starts_with(s, xml_entity('\'')) {
        seq!['\''] + xml_unescaped(s.skip(6))
    } else {
        seq![s[0]] + xml_unescaped(s.skip(1))
    }
}

/// Escaping a text in two parts is escaping each part.
pub proof fn lemma_xml_escaped_concat(a: Seq<char>, b: Seq<char>)
    ensures
        xml_escaped(a + b) == xml_escaped(a) + xml_escaped(b),
    decreases b.len(),
{
    if b.len() == 0 {
        assert(a + b =~= a);
        assert(xml_escaped(a) + xml_escaped(b) =~= xml_escaped(a));
    } else {
        lemma_xml_escaped_concat(a, b.drop_last());
        assert((a + b).drop_last() =~= a + b.drop_last());
        assert(xml_escaped(a + b) =~= xml_escaped(a) + xml_escaped(b));
    }
}

/// An escaped text begins with what stands for its first character.
proof fn lemma_xml_escaped_first(p: Seq<char>)
    requires
        p.len() > 0,
    ensures
        xml_escaped(p) == xml_entity(p[0]) + xml_escaped(p.skip(1)),
{
    let one = seq![p[0]];
    assert(one + p.skip(1) =~= p);
    lemma_xml_escaped_concat(one, p.skip(1));
    assert(one.drop_last() =~= Seq::<char>::empty());
    assert(xml_escaped(one.drop_last()) =~= Seq::<char>::empty());
    assert(one.last() == p[0]);
    assert(xml_escaped(one) =~= xml_entity(p[0]));
}

/// A text that differs from `lit` at some place does not begin with it.
proof fn lemma_not_prefix(s: Seq<char>, lit: Seq<char>, at: int)
    requires
        0 <= at < lit.len(),
        s.len() <= at || s[at] != lit[at],
    ensures
        !starts_with(s, lit),
{
    if s.len() >= lit.len() {
        assert(s.take(lit.len() as int)[at] == s[at]);
    }
}

/// What stands for a character, followed by anything, is read as that
/// character.
proof fn lemma_xml_entity(c: char, rest: Seq<char>)
    ensures
        xml_unescaped(xml_entity(c) + rest) == seq![c] + xml_unescaped(rest),
{
    let e = xml_entity(c);
    let s = e + rest;
    assert(s.take(e.len() as int) =~= e);
    assert(s.skip(e.len() as int) =~= rest);
    assert(s[0] == e[0]);
    if c == '&' {
    } else if c == '<' {
        assert(s[1] == 'l');
        lemma_not_prefix(s, xml_entity('&'), 1);
    } else if c == '>' {
        assert(s[1] == 'g');
        lemma_not_prefix(s, xml_entity('&'), 1);
        lemma_not_prefix(s, xml_entity('<'), 1);
    } else if c == '"' {
        assert(s[1] == 'q');
        lemma_not_prefix(s, xml_entity('&'), 1);
        lemma_not_prefix(s, xml_entity('<'), 1);
        lemma_not_prefix(s, xml_entity('>'), 1);
    } else if c == '\'' {
        assert(s[1] == 'a');
        assert(s[2] == 'p');
        lemma_not_prefix(s, xml_entity('&'), 2);
        lemma_not_prefix(s, xml_entity('<'), 1);
        lemma_not_prefix(s, xml_entity('>'), 1);
        lemma_not_prefix(s, xml_entity('"'), 1);
    } else {
        lemma_not_prefix(s, xml_entity('&'), 0);
        lemma_not_prefix(s, xml_entity('<'), 0);
        lemma_not_prefix(s, xml_entity('>'), 0);
        lemma_not_prefix(s, xml_entity('"'), 0);
        lemma_not_prefix(s, xml_entity('\''), 0);
    }
}

/// An escaped text holds no quote character and stands for the text that
/// was escaped.
pub proof fn lemma_xml_field(p: Seq<char>)
    ensures
        all(xml_escaped(p), |c: char| is_unquoted(c)),
        xml_unescaped(xml_escaped(p)) == p,
    decreases p.len(),
{
    let plain = |c: char| is_unquoted(c);
    if p.len() > 0 {
        let e = xml_entity(p[0]);
        let rest = xml_escaped(p.skip(1));
        lemma_xml_escaped_first(p);
        lemma_xml_field(p.skip(1));
        lemma_xml_entity(p[0], rest);
        assert(seq![p[0]] + p.skip(1) =~= p);
        assert forall|i: int| 0 <= i < xml_escaped(p).len() implies plain(
            #[trigger] xml_escaped(p)[i],
        ) by {
            if i < e.len() {
                assert(xml_escaped(p)[i] == e[i]);
            } else {
                assert(xml_escaped(p)[i] == rest[i - e.len()]);
                assert(plain(rest[i - e.len()]));
            }
        }
    }
}

/// One element of an XML document: the record it stands for, and what
/// follows the element.
pub open spec fn decode_xml_entry(s: Seq<char>) -> Option<(Record, Seq<char>)> {
    match expect(s, "  <file path=\""@) {
        None => None,
        Some(s1) => {
            let n = span(s1, |c: char| is_unquoted(c));
            let path = xml_unescaped(s1.take(n as int));
            match expect(s1.skip(n as int), "\" size=\""@) {
                None => None,
                Some(s2) => {
                    let d = span(s2, |c: char| is_digit(c));
                    let size = decimal_value(s2.take(d as int));
                    match expect(s2.skip(d as int), "\">\n    <content>"@) {
                        None => None,
                        Some(s3) => {
                            let b = span(s3, |c: char| is_base64_char(c));
                            let content = unbase64(ascii_codes(s3.take(b as int)));
                            match expect(s3.skip(b as int), "</content>\n  </file>\n"@) {
                                None => None,
                                Some(rest) => if d >= 1 {
                                    Some((Record { path, size, content }, rest))
                                } else {
                                    None
                                },
                            }
                        },
                    }
                },
            }
        },
    }
}

/// The elements of an XML document, up to the end of the enclosing
/// element.
pub open spec fn decode_xml_entries(s: Seq<char>) -> Option<Seq<Record>>
    decreases s.len(),
{
    match decode_xml_entry(s) {
        None => if s == "</files>\n"@ {
            Some(Seq::empty())
        } else {
            None
        },
        Some((record, rest)) => if rest.len() < s.len() {
            match decode_xml_entries(rest) {
                None => None,
                Some(records) => Some(seq![record] + records),
            }
        } else {
            None
        },
    }
}

/// What an XML document says of its files.
pub open spec fn decode_xml(doc: Seq<u8>) -> Option<Seq<Record>> {
    match expect(decode_utf8(doc), "<?xml version=\"1.0\" encoding=\"UTF-8\"?>\n<files>\n"@) {
        None => None,
        Some(entries) => decode_xml_entries(entries),
    }
}

proof fn lemma_xml_marks()
    ensures
        "  <file path=\""@.len() > 0,
        "  <file path=\""@[0] == ' ',
        "\" size=\""@.len() > 0,
        "\" size=\""@[0] == '"',
        "\">\n    <content>"@.len() > 0,
        "\">\n    <content>"@[0] == '"',
        "</content>\n  </file>\n"@.len() > 0,
        "</content>\n  </file>\n"@[0] == '<',
        "</files>\n"@.len() > 0,
        "</files>\n"@[0] == '<',
{
    reveal_strlit("  <file path=\"");
    reveal_strlit("\" size=\"");
    reveal_strlit("\">\n    <content>");
    reveal_strlit("</content>\n  </file>\n");
    reveal_strlit("</files>\n");
}

/// An element of the encoder is decoded to the record that it was made
/// from.
pub proof fn lemma_xml_entry(f: FileData, tail: Seq<char>)
    ensures
        decode_xml_entry(xml_entry(f) + tail) == Some((f@, tail)),
        xml_entry(f).len() > 0,
{
    let plain = |c: char| is_unquoted(c);
    let digit = |c: char| is_digit(c);
    let letter = |c: char| is_base64_char(c);
    let path = xml_escaped(f.path@);
    let num = decimal(f.size as nat);
    let text = ascii_text(base64(f.content@));
    let t3 = "</content>\n  </file>\n"@ + tail;
    let t2 = "\">\n    <content>"@ + (text + t3);
    let t1 = "\" size=\""@ + (num + t2);
    let s = "  <file path=\""@ + (path + t1);
    lemma_xml_marks();
    assert(xml_entry(f) + tail =~= s);
    lemma_expect("  <file path=\""@, path + t1);
    lemma_xml_field(f.path@);
    assert(!plain(t1[0]));
    lemma_span(path, t1, plain);
    lemma_expect("\" size=\""@, num + t2);
    lemma_decimal(f.size as nat);
    assert(!digit(t2[0]));
    lemma_span(num, t2, digit);
    lemma_expect("\">\n    <content>"@, text + t3);
    lemma_base64_field(f.content@);
    assert(!letter(t3[0]));
    lemma_span(text, t3, letter);
    lemma_expect("</content>\n  </file>\n"@, tail);
}

/// Elements for files in two parts are the elements of each part.
pub proof fn lemma_xml_entries_concat(a: Seq<FileData>, b: Seq<FileData>)
    ensures
        xml_entries(a + b) == xml_entries(a) + xml_entries(b),
    decreases b.len(),
{
    if b.len() == 0 {
        assert(a + b =~= a);
        assert(xml_entries(a) + xml_entries(b) =~= xml_entries(a));
    } else {
        lemma_xml_entries_concat(a, b.drop_last());
        assert((a + b).drop_last() =~= a + b.drop_last());
        assert(xml_entries(a + b) =~= xml_entries(a) + xml_entries(b));
    }
}

proof fn lemma_xml_entries(files: Seq<FileData>)
    ensures
        decode_xml_entries(xml_entries(files) + "</files>\n"@) == Some(views(files)),
    decreases files.len(),
{
    let foot = "</files>\n"@;
    lemma_xml_marks();
    if files.len() == 0 {
        assert(xml_entries(files) + foot =~= foot);
        lemma_expect_other(foot, "  <file path=\""@);
        assert(views(files) =~= Seq::<Record>::empty());
    } else {
        let first = seq![files[0]];
        let rest = files.skip(1);
        assert(first + rest =~= files);
        lemma_xml_entries_concat(first, rest);
        assert(first.drop_last() =~= Seq::<FileData>::empty());
        assert(xml_entries(first.drop_last()) =~= Seq::<char>::empty());
        assert(first.last() == files[0]);
        assert(xml_entries(first) =~= xml_entry(files[0]));
        let tail = xml_entries(rest) + foot;
        assert(xml_entries(files) + foot =~= xml_entry(files[0]) + tail);
        lemma_xml_entry(files[0], tail);
        lemma_xml_entries(rest);
        assert(seq![files[0]@] + views(rest) =~= views(files));
    }
}

/// XML: the document that the encoder writes for any files says of each
/// file its path, its size and its bytes, in the order given.
pub proof fn lemma_xml_decodes(files: Seq<FileData>)
    ensures
        decode_xml(document(OutputFormat::Xml, files)) == Some(views(files)),
{
    let head = "<?xml version=\"1.0\" encoding=\"UTF-8\"?>\n<files>\n"@;
    let foot = "</files>\n"@;
    encode_utf8_decode_utf8(xml_document(files));
    assert(xml_document(files) =~= head + (xml_entries(files) + foot));
    lemma_expect(head, xml_entries(files) + foot);
    lemma_xml_entries(files);
}

} // verus!
