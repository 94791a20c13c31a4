//! The decoding rules of the CSV format.

use crate::base64::{
    ascii_codes, ascii_text, base64, is_base64_char, lemma_base64_field, unbase64,
};
use crate::formatter::{csv_document, csv_row, csv_rows, document};
use crate::parse::{decimal_value, expect, is_digit, lemma_decimal, lemma_expect, lemma_span, span};
use crate::text::{csv_quoted, csv_unit, decimal};
use crate::types::{views, FileData, OutputFormat, Record};
use vstd::prelude::*;
use vstd::utf8::{decode_utf8, encode_utf8_decode_utf8};

verus! {

/// The length of the quoted text at the start of `s`: it ends before the
/// first quote character that is not doubled.
pub open spec fn csv_field_len(s: Seq<char>) -> nat
    decreases s.len(),
{
    if s.len() == 0 {
        0
    } else if s[0] != '"' {
        1 + csv_field_len(s.skip(1))
    } else if s.len() >= 2 && s[1] == '"' {
        2 + csv_field_len(s.skip(2))
    } else {
        0
    }
}

/// The text that a quoted text stands for: each doubled quote character
/// is one.
pub open spec fn csv_unquoted(q: Seq<char>) -> Seq<char>
    decreases q.len(),
{
    if q.len() == 0 {
        Seq::empty()
    } else if q[0] == '"' && q.len() >= 2 {
        seq!['"'] + csv_unquoted(q.skip(2))
    } else {
        seq![q[0]] + csv_unquoted(q.skip(1))
    }
}

/// Quoting a text in two parts is quoting each part.
pub proof fn lemma_csv_quoted_concat(a: Seq<char>, b: Seq<char>)
    ensures
        csv_quoted(a + b) == csv_quoted(a) + csv_quoted(b),
    decreases b.len(),
{
    if b.len() == 0 {
        assert(a + b =~= a);
        assert(csv_quoted(a) + csv_quoted(b) =~= csv_quoted(a));
    } else {
        lemma_csv_quoted_concat(a, b.drop_last());
        assert((a + b).drop_last() =~= a + b.drop_last());
        assert(csv_quoted(a + b) =~= csv_quoted(a) + csv_quoted(b));
    }
}

/// A quoted text begins with what stands for its first character.
proof fn lemma_csv_quoted_first(p: Seq<char>)
    requires
        p.len() > 0,
    ensures
        csv_quoted(p) == csv_unit(p[0]) + csv_quoted(p.skip(1)),
{
    let one = seq![p[0]];
    assert(one + p.skip(1) =~= p);
    lemma_csv_quoted_concat(one, p.skip(1));
    assert(one.drop_last() =~= Seq::<char>::empty());
    assert(csv_quoted(one.drop_last()) =~= Seq::<char>::empty());
    assert(one.last() == p[0]);
    assert(csv_quoted(one) =~= csv_unit(p[0]));
}

/// A quoted text, followed by a quote character that is not doubled, is
/// found again and stands for the text that was quoted.
pub proof fn lemma_csv_field(p: Seq<char>, tail: Seq<char>)
    requires
        tail.len() >= 1,
        tail[0] == '"',
        tail.len() == 1 || tail[1] != '"',
    ensures
        csv_field_len(csv_quoted(p) + tail) == csv_quoted(p).len(),
        csv_unquoted(csv_quoted(p)) == p,
    decreases p.len(),
{
    let q = csv_quoted(p);
    let s = q + tail;
    if p.len() == 0 {
        assert(s =~= tail);
    } else {
        let rest = csv_quoted(p.skip(1));
        lemma_csv_quoted_first(p);
        lemma_csv_field(p.skip(1), tail);
        if p[0] == '"' {
            assert(q =~= seq!['"', '"'] + rest);
            assert(s.skip(2) =~= rest + tail);
            assert(q.skip(2) =~= rest);
        } else {
            assert(q =~= seq![p[0]] + rest);
            assert(s.skip(1) =~= rest + tail);
            assert(q.skip(1) =~= rest);
        }
        assert(seq![p[0]] + p.skip(1) =~= p);
    }
}

/// One row of a CSV document: the record it stands for, and what follows
/// the row.
pub open spec fn decode_csv_row(s: Seq<char>) -> Option<(Record, Seq<char>)> {
    match expect(s, "\""@) {
        None => None,
        Some(s1) => {
            let n = csv_field_len(s1);
            let path = csv_unquoted(s1.take(n as int));
            match expect(s1.skip(n as int), "\","@) {
                None => None,
                Some(s2) => {
                    let d = span(s2, |c: char| is_digit(c));
                    let size = decimal_value(s2.take(d as int));
                    match expect(s2.skip(d as int), ",\""@) {
                        None => None,
                        Some(s3) => {
                            let b = span(s3, |c: char| is_base64_char(c));
                            let content = unbase64(ascii_codes(s3.take(b as int)));
                            match expect(s3.skip(b as int), "\"\n"@) {
                                None => None,
                                Some(rest) => if d >= 1 {
                                    Some((Record { path, size, content }, rest))
                                } else {
                                    None
                                },
                            }
                        },
                    }
                },
            }
        },
    }
}

/// The rows of a CSV document, to its end.
pub open spec fn decode_csv_rows(s: Seq<char>) -> Option<Seq<Record>>
    decreases s.len(),
{
    if s.len() == 0 {
        Some(Seq::empty())
    } else {
        match decode_csv_row(s) {
            None => None,
            Some((record, rest)) => if rest.len() < s.len() {
                match decode_csv_rows(rest) {
                    None => None,
                    Some(records) => Some(seq![record] + records),
                }
            } else {
                None
            },
        }
    }
}

/// What a CSV document says of its files.
pub open spec fn decode_csv(doc: Seq<u8>) -> Option<Seq<Record>> {
    match expect(decode_utf8(doc), "path,size,content_base64\n"@) {
        None => None,
        Some(rows) => decode_csv_rows(rows),
    }
}

proof fn lemma_csv_marks()
    ensures
        "\","@.len() == 2,
        "\","@[0] == '"',
        "\","@[1] == ',',
        ",\""@.len() == 2,
        ",\""@[0] == ',',
        "\"\n"@.len() == 2,
        "\"\n"@[0] == '"',
        "\""@.len() == 1,
{
    reveal_strlit("\",");
    reveal_strlit(",\"");
    reveal_strlit("\"\n");
    reveal_strlit("\"");
}

/// A row of the encoder is decoded to the record that it was made from.
pub proof fn lemma_csv_row(f: FileData, tail: Seq<char>)
    ensures
        decode_csv_row(csv_row(f) + tail) == Some((f@, tail)),
        csv_row(f).len() > 0,
{
    let digit = |c: char| is_digit(c);
    let letter = |c: char| is_base64_char(c);
    let q = csv_quoted(f.path@);
    let num = decimal(f.size as nat);
    let text = ascii_text(base64(f.content@));
    let t3 = "\"\n"@ + tail;
    let t2 = ",\""@ + (text + t3);
    let t1 = "\","@ + (num + t2);
    let s = "\""@ + (q + t1);
    lemma_csv_marks();
    assert(csv_row(f) + tail =~= s);
    lemma_expect("\""@, q + t1);
    lemma_csv_field(f.path@, t1);
    assert((q + t1).take(q.len() as int) =~= q);
    assert((q + t1).skip(q.len() as int) =~= t1);
    lemma_expect("\","@, num + t2);
    lemma_decimal(f.size as nat);
    assert(!digit(t2[0]));
    lemma_span(num, t2, digit);
    lemma_expect(",\""@, text + t3);
    lemma_base64_field(f.content@);
    assert(!letter(t3[0]));
    lemma_span(text, t3, letter);
    lemma_expect("\"\n"@, tail);
}

/// Rows for files in two parts are the rows of each part.
pub proof fn lemma_csv_rows_concat(a: Seq<FileData>, b: Seq<FileData>)
    ensures
        csv_rows(a + b) == csv_rows(a) + csv_rows(b),
    decreases b.len(),
{
    if b.len() == 0 {
        assert(a + b =~= a);
        assert(csv_rows(a) + csv_rows(b) =~= csv_rows(a));
    } else {
        lemma_csv_rows_concat(a, b.drop_last());
        assert((a + b).drop_last() =~= a + b.drop_last());
        assert(csv_rows(a + b) =~= csv_rows(a) + csv_rows(b));
    }
}

proof fn lemma_csv_rows(files: Seq<FileData>)
    ensures
        decode_csv_rows(csv_rows(files)) == Some(views(files)),
    decreases files.len(),
{
    if files.len() == 0 {
        assert(views(files) =~= Seq::<Record>::empty());
    } else {
        let first = seq![files[0]];
        let rest = files.skip(1);
        assert(first + rest =~= files);
        lemma_csv_rows_concat(first, rest);
        assert(first.drop_last() =~= Seq::<FileData>::empty());
        assert(csv_rows(first.drop_last()) =~= Seq::<char>::empty());
        assert(first.last() == files[0]);
        assert(csv_rows(first) =~= csv_row(files[0]));
        lemma_csv_row(files[0], csv_rows(rest));
        lemma_csv_rows(rest);
        assert(seq![files[0]@] + views(rest) =~= views(files));
    }
}

/// CSV: the document that the encoder writes for any files says of each
/// file its path, its size and its bytes, in the order given.
pub proof fn lemma_csv_decodes(files: Seq<FileData>)
    ensures
        decode_csv(document(OutputFormat::Csv, files)) == Some(views(files)),
{
    encode_utf8_decode_utf8(csv_document(files));
    lemma_expect("path,size,content_base64\n"@, csv_rows(files));
    lemma_csv_rows(files);
}

} // verus!
