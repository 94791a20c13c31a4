//! The decoding rules of the plain-text format. A document holds the bytes
//! of each file as they are, so a file is found again by the size that its
//! banner gives. A banner gives the path on one line: a path that holds a
//! line feed is not found again.

use crate::base64::ascii_text;
use crate::formatter::{document, rule, text_banner, text_document, text_entry};
use crate::parse::{
    all, decimal_value, expect, is_digit, lemma_decimal, lemma_expect, lemma_span, span,
};
use crate::text::decimal;
use crate::types::{views, FileData, OutputFormat, Record};
use vstd::prelude::*;
use vstd::utf8::*;

verus! {

/// The text of a banner before the path.
pub open spec fn banner_head() -> Seq<char> {
    "\n"@ + rule() + "\n File: "@
}

/// The text of a banner after the size.
pub open spec fn banner_foot() -> Seq<char> {
    " bytes\n"@ + rule() + "\n\n"@
}

/// The bytes of a banner before the path.
#[verifier::opaque]
pub open spec fn head_code() -> Seq<u8> {
    encode_utf8(banner_head())
}

/// The bytes of a banner between the path and the size.
#[verifier::opaque]
pub open spec fn size_code() -> Seq<u8> {
    encode_utf8("\n Size: "@)
}

/// The bytes of a banner after the size.
#[verifier::opaque]
pub open spec fn foot_code() -> Seq<u8> {
    encode_utf8(banner_foot())
}

/// Whether `b` is no line feed.
pub open spec fn is_inline(b: u8) -> bool {
    b != 10
}

/// Whether `b` is the code of a decimal digit.
pub open spec fn is_digit_code(b: u8) -> bool {
    48 <= b && b <= 57
}

/// One file of a plain-text document: the record it stands for, and what
/// follows the file.
pub open spec fn decode_text_entry(s: Seq<u8>) -> Option<(Record, Seq<u8>)> {
    match expect(s, head_code()) {
        None => None,
        Some(s1) => {
            let n = span(s1, |b: u8| is_inline(b));
            let path = decode_utf8(s1.take(n as int));
            match expect(s1.skip(n as int), size_code()) {
                None => None,
                Some(s2) => {
                    let d = span(s2, |b: u8| is_digit_code(b));
                    let size = decimal_value(ascii_text(s2.take(d as int)));
                    match expect(s2.skip(d as int), foot_code()) {
                        None => None,
                        Some(s3) => if d >= 1 && s3.len() >= size {
                            let content = s3.take(size as int);
                            match expect(s3.skip(size as int), seq![10u8, 10u8]) {
                                None => None,
                                Some(rest) => Some((Record { path, size, content }, rest)),
                            }
                        } else {
                            None
                        },
                    }
                },
            }
        },
    }
}

/// The files of a plain-text document, to its end.
pub open spec fn decode_text(s: Seq<u8>) -> Option<Seq<Record>>
    decreases s.len(),
{
    if s.len() == 0 {
        Some(Seq::empty())
    } else {
        match decode_text_entry(s) {
            None => None,
            Some((record, rest)) => if rest.len() < s.len() {
                match decode_text(rest) {
                    None => None,
                    Some(records) => Some(seq![record] + records),
                }
            } else {
                None
            },
        }
    }
}

/// Whether each of `files` has the size of its bytes and a path without a
/// line feed.
pub open spec fn text_decodable(files: Seq<FileData>) -> bool {
    forall|i: int|
        0 <= i < files.len() ==> (#[trigger] files[i]).wf() && !files[i].path@.contains('\n')
}

/// The encoding of a text in two parts is the encoding of each part.
pub proof fn lemma_encode_concat(a: Seq<char>, b: Seq<char>)
    ensures
        encode_utf8(a + b) == encode_utf8(a) + encode_utf8(b),
    decreases a.len(),
{
    if a.len() == 0 {
        assert(a + b =~= b);
        assert(encode_utf8(a) + encode_utf8(b) =~= encode_utf8(b));
    } else {
        lemma_encode_concat(a.drop_first(), b);
        assert((a + b).drop_first() =~= a.drop_first() + b);
        assert(encode_utf8(a + b) =~= encode_utf8(a) + encode_utf8(b));
    }
}

/// The encoding of a character other than the line feed holds no line
/// feed.
proof fn lemma_scalar_inline(c: u32)
    by (bit_vector)
    requires
        c != 10,
        c <= 0x10FFFF,
    ensures
        c <= 0x7F ==> (c & 0x7F) as u8 != 10,
        c > 0x7F ==> 0xC0 | ((c >> 6) & 0x1F) as u8 != 10,
        c > 0x7F ==> 0xE0 | ((c >> 12) & 0x0F) as u8 != 10,
        c > 0x7F ==> 0xF0 | ((c >> 18) & 0x7) as u8 != 10,
        0x80 | (c & 0x3F) as u8 != 10,
        0x80 | ((c >> 6) & 0x3F) as u8 != 10,
        0x80 | ((c >> 12) & 0x3F) as u8 != 10,
{
}

/// The encoding of a text without a line feed holds no line feed.
pub proof fn lemma_inline(text: Seq<char>)
    requires
        !text.contains('\n'),
    ensures
        all(encode_utf8(text), |b: u8| is_inline(b)),
    decreases text.len(),
{
    let inline = |b: u8| is_inline(b);
    if text.len() > 0 {
        let c = text[0] as u32;
        let first = encode_scalar(c);
        let rest = encode_utf8(text.drop_first());
        assert(text.contains(text[0]));
        assert(text[0] != '\n');
        char_is_scalar(text[0]);
        assert(c != 10) by {
            if c == 10 {
                char_u32_cast(text[0], 10u32);
                char_u32_cast('\n', 10u32);
            }
        }
        lemma_scalar_inline(c);
        assert forall|i: int| 0 <= i < first.len() implies inline(#[trigger] first[i]) by {}
        assert(!text.drop_first().contains('\n')) by {
            if text.drop_first().contains('\n') {
                let k = choose|k: int|
                    0 <= k < text.drop_first().len() && text.drop_first()[k] == '\n';
                assert(text[k + 1] == '\n');
            }
        }
        lemma_inline(text.drop_first());
        assert forall|i: int| 0 <= i < encode_utf8(text).len() implies inline(
            #[trigger] encode_utf8(text)[i],
        ) by {
            if i < first.len() {
                assert(encode_utf8(text)[i] == first[i]);
            } else {
                assert(encode_utf8(text)[i] == rest[i - first.len()]);
                assert(inline(rest[i - first.len()]));
            }
        }
    }
}

/// The encoding of a decimal numeral is made of digit codes, at least
/// one, and stands for its number.
proof fn lemma_decimal_codes(n: nat)
    ensures
        encode_utf8(decimal(n)).len() >= 1,
        all(encode_utf8(decimal(n)), |b: u8| is_digit_code(b)),
        decimal_value(ascii_text(encode_utf8(decimal(n)))) == n,
{
    let num = decimal(n);
    let code = |b: u8| is_digit_code(b);
    lemma_decimal(n);
    assert forall|i: int| 0 <= i < num.len() implies '\0' <= #[trigger] num[i] <= '\u{7f}' by {
        assert(is_digit(num[i]));
    }
    is_ascii_chars_encode_utf8(num);
    assert forall|i: int| 0 <= i < encode_utf8(num).len() implies code(
        #[trigger] encode_utf8(num)[i],
    ) by {
        assert(is_digit(num[i]));
        assert(num[i] as u8 == encode_utf8(num)[i]);
    }
    assert forall|i: int| 0 <= i < num.len() implies ascii_text(encode_utf8(num))[i] == num[i] by {
        assert(is_digit(num[i]));
        assert(num[i] as u8 == encode_utf8(num)[i]);
    }
    assert(ascii_text(encode_utf8(num)) =~= num);
}

proof fn lemma_text_marks()
    ensures
        size_code().len() > 0,
        size_code()[0] == 10,
        foot_code().len() > 0,
        foot_code()[0] == 32,
{
    reveal(size_code);
    reveal(foot_code);
    reveal_strlit("\n Size: ");
    reveal_strlit(" bytes\n");
    let size = "\n Size: "@;
    let bytes = " bytes\n"@;
    is_ascii_chars_encode_utf8(size);
    assert(size[0] as u8 == encode_utf8(size)[0]);
    is_ascii_chars_encode_utf8(bytes);
    assert(bytes[0] as u8 == encode_utf8(bytes)[0]);
    assert(banner_foot() =~= bytes + (rule() + "\n\n"@));
    lemma_encode_concat(bytes, rule() + "\n\n"@);
}

/// The bytes of a banner, part by part.
proof fn lemma_banner(f: FileData)
    ensures
        encode_utf8(text_banner(f)) == head_code() + (encode_utf8(f.path@) + (size_code() + (
            encode_utf8(decimal(f.size as nat)) + foot_code()))),
{
    reveal(head_code);
    reveal(size_code);
    reveal(foot_code);
    let a = banner_head();
    let b = f.path@;
    let c = "\n Size: "@;
    let d = decimal(f.size as nat);
    let e = banner_foot();
    assert(text_banner(f) =~= a + (b + (c + (d + e))));
    lemma_encode_concat(a, b + (c + (d + e)));
    lemma_encode_concat(b, c + (d + e));
    lemma_encode_concat(c, d + e);
    lemma_encode_concat(d, e);
}

/// A file of the encoder, with the size of its bytes and a path without a
/// line feed, is decoded to the record that it was made from.
pub proof fn lemma_text_entry(f: FileData, tail: Seq<u8>)
    requires
        f.wf(),
        !f.path@.contains('\n'),
    ensures
        decode_text_entry(text_entry(f) + tail) == Some((f@, tail)),
        text_entry(f).len() > 0,
{
    let inline = |b: u8| is_inline(b);
    let code = |b: u8| is_digit_code(b);
    let head = head_code();
    let path = encode_utf8(f.path@);
    let mark = size_code();
    let num = encode_utf8(decimal(f.size as nat));
    let foot = foot_code();
    let end = seq![10u8, 10u8];
    let t4 = end + tail;
    let t3 = foot + (f.content@ + t4);
    let t2 = mark + (num + t3);
    let s = head + (path + t2);
    lemma_text_marks();
    lemma_banner(f);
    assert(text_entry(f) + tail =~= s);
    lemma_expect(head, path + t2);
    lemma_inline(f.path@);
    assert(!inline(t2[0]));
    lemma_span(path, t2, inline);
    encode_utf8_decode_utf8(f.path@);
    lemma_expect(mark, num + t3);
    lemma_decimal_codes(f.size as nat);
    assert(!code(t3[0]));
    lemma_span(num, t3, code);
    lemma_expect(foot, f.content@ + t4);
    assert((f.content@ + t4).take(f.size as int) =~= f.content@);
    assert((f.content@ + t4).skip(f.size as int) =~= t4);
    lemma_expect(end, tail);
}

/// The document for files in two parts is the documents of the parts.
pub proof fn lemma_text_document_concat(a: Seq<FileData>, b: Seq<FileData>)
    ensures
        text_document(a + b) == text_document(a) + text_document(b),
    decreases b.len(),
{
    if b.len() == 0 {
        assert(a + b =~= a);
        assert(text_document(a) + text_document(b) =~= text_document(a));
    } else {
        lemma_text_document_concat(a, b.drop_last());
        assert((a + b).drop_last() =~= a + b.drop_last());
        assert(text_document(a + b) =~= text_document(a) + text_document(b));
    }
}

/// Plain text: the document that the encoder writes for files that have
/// the size of their bytes and paths without a line feed says of each
/// file its path, its size and its bytes as they are, in the order given.
pub proof fn lemma_text_decodes(files: Seq<FileData>)
    requires
        text_decodable(files),
    ensures
        decode_text(document(OutputFormat::Text, files)) == Some(views(files)),
    decreases files.len(),
{
    if files.len() == 0 {
        assert(views(files) =~= Seq::<Record>::empty());
    } else {
        let first = seq![files[0]];
        let rest = files.skip(1);
        assert(first + rest =~= files);
        lemma_text_document_concat(first, rest);
        assert(first.drop_last() =~= Seq::<FileData>::empty());
        assert(text_document(first.drop_last()) =~= Seq::<u8>::empty());
        assert(first.last() == files[0]);
        assert(text_document(first) =~= text_entry(files[0]));
        lemma_text_entry(files[0], text_document(rest));
        assert forall|i: int| 0 <= i < rest.len() implies (#[trigger] rest[i]).wf()
            && !rest[i].path@.contains('\n') by {
            assert(rest[i] == files[i + 1]);
        }
        lemma_text_decodes(rest);
        assert(seq![files[0]@] + views(rest) =~= views(files));
    }
}

} // verus!
