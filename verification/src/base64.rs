//! The binary-to-text transcoding that every format but plain text uses:
//! base64 with the alphabet `A-Z a-z 0-9 + /` and `=` padding.

use crate::parse::all;
use vstd::prelude::*;
use vstd::string::*;

verus! {

/// The padding symbol, `=`.
pub open spec fn pad() -> u8 {
    61
}

/// The symbol that stands for the six-bit value `k`.
pub open spec fn symbol(k: u8) -> u8 {
    if k < 26 {
        (65 + k) as u8
    } else if k < 52 {
        (71 + k) as u8
    } else if k < 62 {
        (k - 4) as u8
    } else if k == 62 {
        43
    } else {
        47
    }
}

/// The six-bit value that the symbol `c` stands for.
pub open spec fn sextet(c: u8) -> u8 {
    if 65 <= c && c <= 90 {
        (c - 65) as u8
    } else if 97 <= c && c <= 122 {
        (c - 71) as u8
    } else if 48 <= c && c <= 57 {
        (c + 4) as u8
    } else if c == 43 {
        62
    } else {
        63
    }
}

/// Whether `c` is a symbol of the alphabet.
pub open spec fn is_symbol(c: u8) -> bool {
    (65 <= c && c <= 90) || (97 <= c && c <= 122) || (48 <= c && c <= 57) || c == 43 || c == 47
}

/// The four symbols for a group of one, two or three bytes.
pub open spec fn encode_group(group: Seq<u8>) -> Seq<u8> {
    let b0 = group[0];
    let b1 = if group.len() > 1 { group[1] } else { 0u8 };
    let b2 = if group.len() > 2 { group[2] } else { 0u8 };
    seq![
        symbol(b0 >> 2),
        symbol(((b0 & 0x03) << 4) | (b1 >> 4)),
        if group.len() > 1 { symbol(((b1 & 0x0f) << 2) | (b2 >> 6)) } else { pad() },
        if group.len() > 2 { symbol(b2 & 0x3f) } else { pad() },
    ]
}

/// The length of the last group of `len` bytes, for `len > 0`.
pub open spec fn last_group_len(len: nat) -> nat {
    if len % 3 == 0 {
        3
    } else {
        len % 3
    }
}

/// The transcoding of `data`: one group of four symbols for every three
/// bytes, the last group padded.
pub open spec fn base64(data: Seq<u8>) -> Seq<u8>
    decreases data.len(),
{
    if data.len() == 0 {
        Seq::empty()
    } else {
        let cut = data.len() - last_group_len(data.len());
        base64(data.take(cut)) + encode_group(data.skip(cut))
    }
}

/// The bytes that a group of four symbols stands for.
pub open spec fn decode_group(group: Seq<u8>) -> Seq<u8> {
    let s0 = sextet(group[0]);
    let s1 = sextet(group[1]);
    let s2 = sextet(group[2]);
    let s3 = sextet(group[3]);
    let b0 = (s0 << 2) | (s1 >> 4);
    let b1 = ((s1 & 0x0f) << 4) | (s2 >> 2);
    let b2 = ((s2 & 0x03) << 6) | s3;
    if group[2] == pad() {
        seq![b0]
    } else if group[3] == pad() {
        seq![b0, b1]
    } else {
        seq![b0, b1, b2]
    }
}

/// The bytes that a transcoded text stands for.
pub open spec fn unbase64(text: Seq<u8>) -> Seq<u8>
    decreases text.len(),
{
    if text.len() < 4 {
        Seq::empty()
    } else {
        let cut = text.len() - 4;
        unbase64(text.take(cut)) + decode_group(text.skip(cut))
    }
}

/// A text of ASCII codes as characters.
pub open spec fn ascii_text(bytes: Seq<u8>) -> Seq<char> {
    Seq::new(bytes.len(), |i: int| bytes[i] as char)
}

/// The symbol for a six-bit value is in the alphabet and stands for that
/// value.
proof fn lemma_symbol(k: u8)
    requires
        k < 64,
    ensures
        is_symbol(symbol(k)),
        symbol(k) != pad(),
        sextet(symbol(k)) == k,
{
}

/// Three bytes are cut into four six-bit values, from which they are put
/// together again.
proof fn lemma_sextet_bits(b0: u8, b1: u8, b2: u8)
    ensures
        b0 >> 2 < 64,
        ((b0 & 0x03) << 4) | (b1 >> 4) < 64,
        ((b1 & 0x0f) << 2) | (b2 >> 6) < 64,
        b2 & 0x3f < 64,
        ((b0 >> 2) << 2) | ((((b0 & 0x03) << 4) | (b1 >> 4)) >> 4) == b0,
        (((((b0 & 0x03) << 4) | (b1 >> 4)) & 0x0f) << 4) | ((((b1 & 0x0f) << 2) | (b2 >> 6)) >> 2)
            == b1,
        (((((b1 & 0x0f) << 2) | (b2 >> 6)) & 0x03) << 6) | (b2 & 0x3f) == b2,
{
    assert(b0 >> 2 < 64) by (bit_vector);
    assert(((b0 & 0x03) << 4) | (b1 >> 4) < 64) by (bit_vector);
    assert(((b1 & 0x0f) << 2) | (b2 >> 6) < 64) by (bit_vector);
    assert(b2 & 0x3f < 64) by (bit_vector);
    assert(((b0 >> 2) << 2) | ((((b0 & 0x03) << 4) | (b1 >> 4)) >> 4) == b0) by (bit_vector);
    assert((((((b0 & 0x03) << 4) | (b1 >> 4)) & 0x0f) << 4) | ((((b1 & 0x0f) << 2) | (b2 >> 6))
        >> 2) == b1) by (bit_vector);
    assert((((((b1 & 0x0f) << 2) | (b2 >> 6)) & 0x03) << 6) | (b2 & 0x3f) == b2) by (bit_vector);
}

/// A group of four symbols stands for the bytes that it was made from.
pub proof fn lemma_group_round_trip(group: Seq<u8>)
    requires
        1 <= group.len() <= 3,
    ensures
        encode_group(group).len() == 4,
        decode_group(encode_group(group)) == group,
        forall|i: int|
            0 <= i < 4 ==> is_symbol(#[trigger] encode_group(group)[i]) || encode_group(group)[i]
                == pad(),
{
    let b0 = group[0];
    let b1 = if group.len() > 1 { group[1] } else { 0u8 };
    let b2 = if group.len() > 2 { group[2] } else { 0u8 };
    lemma_sextet_bits(b0, b1, b2);
    lemma_symbol(b0 >> 2);
    lemma_symbol(((b0 & 0x03) << 4) | (b1 >> 4));
    lemma_symbol(((b1 & 0x0f) << 2) | (b2 >> 6));
    lemma_symbol(b2 & 0x3f);
    assert(decode_group(encode_group(group)) =~= group);
}

/// The transcoding has four symbols for every group of three bytes.
pub proof fn lemma_base64_len(data: Seq<u8>)
    ensures
        base64(data).len() == 4 * ((data.len() + 2) / 3),
    decreases data.len(),
{
    if data.len() > 0 {
        let cut = data.len() - last_group_len(data.len());
        lemma_base64_len(data.take(cut));
    }
}

/// Round trip: the transcoding of any bytes, the empty sequence included,
/// stands for exactly those bytes.
pub proof fn lemma_round_trip(data: Seq<u8>)
    ensures
        unbase64(base64(data)) == data,
    decreases data.len(),
{
    if data.len() == 0 {
        assert(unbase64(base64(data)) =~= data);
    } else {
        let cut = data.len() - last_group_len(data.len());
        let head = data.take(cut);
        let tail = data.skip(cut);
        let text = base64(data);
        lemma_round_trip(head);
        lemma_group_round_trip(tail);
        lemma_base64_len(head);
        assert(text.len() == base64(head).len() + 4);
        assert(text.take(text.len() - 4) =~= base64(head));
        assert(text.skip(text.len() - 4) =~= encode_group(tail));
        assert(head + tail =~= data);
    }
}

/// Every element of a transcoding is a symbol of the alphabet or the padding.
pub proof fn lemma_base64_symbols(data: Seq<u8>)
    ensures
        forall|i: int|
            0 <= i < base64(data).len() ==> is_symbol(#[trigger] base64(data)[i]) || base64(
                data,
            )[i] == pad(),
    decreases data.len(),
{
    if data.len() > 0 {
        let cut = data.len() - last_group_len(data.len());
        lemma_base64_symbols(data.take(cut));
        lemma_group_round_trip(data.skip(cut));
        lemma_base64_len(data.take(cut));
    }
}

/// Whether `c` can stand in a transcoded text.
pub open spec fn is_base64_char(c: char) -> bool {
    (c as u32) < 128 && (is_symbol(c as u8) || c as u8 == pad())
}

/// The ASCII codes of a text.
pub open spec fn ascii_codes(text: Seq<char>) -> Seq<u8> {
    Seq::new(text.len(), |i: int| text[i] as u8)
}

/// A transcoded text is made of the alphabet and the padding, and stands
/// for the bytes that were transcoded.
pub proof fn lemma_base64_field(data: Seq<u8>)
    ensures
        all(ascii_text(base64(data)), |c: char| is_base64_char(c)),
        unbase64(ascii_codes(ascii_text(base64(data)))) == data,
{
    lemma_base64_symbols(data);
    lemma_round_trip(data);
    let text = ascii_text(base64(data));
    assert forall|i: int| 0 <= i < text.len() implies is_base64_char(#[trigger] text[i]) by {
        let b = base64(data)[i];
        assert(is_symbol(b) || b == pad());
        assert(text[i] == b as char);
        assert((b as char) as u8 == b);
    }
    assert forall|i: int| 0 <= i < text.len() implies ascii_codes(text)[i] == base64(data)[i] by {
        let b = base64(data)[i];
        assert(is_symbol(b) || b == pad());
        assert((b as char) as u8 == b);
    }
    assert(ascii_codes(text) =~= base64(data));
}

/// Appends the symbol for the six-bit value `k` to `out`.
fn push_symbol(out: &mut String, k: u8)
    requires
        k < 64,
    ensures
        final(out)@ == old(out)@.push(symbol(k) as char),
{
    let alphabet = "ABCDEFGHIJKLMNOPQRSTUVWXYZabcdefghijklmnopqrstuvwxyz0123456789+/";
    proof {
        reveal_strlit("ABCDEFGHIJKLMNOPQRSTUVWXYZabcdefghijklmnopqrstuvwxyz0123456789+/");
        assert(alphabet@[k as int] == symbol(k) as char);
    }
    let at: usize = k as usize;
    let one = alphabet.substring_ascii(at, at + 1);
    assert(one@ =~= seq![symbol(k) as char]);
    out.append(one);
    assert(out@ =~= old(out)@.push(symbol(k) as char));
}

/// Appends the padding symbol to `out`.
fn push_pad(out: &mut String)
    ensures
        final(out)@ == old(out)@.push(pad() as char),
{
    proof {
        reveal_strlit("=");
    }
    out.append("=");
    assert(out@ =~= old(out)@.push(pad() as char));
}

/// Transcodes `data` into text: every three bytes become four symbols, and
/// a last group of one or two bytes is padded with `=`.
pub fn base64_encode(data: &[u8]) -> (r: String)
    ensures
        r@ == ascii_text(base64(data@)),
        unbase64(ascii_codes(r@)) == data@,
{
    let mut out = String::new();
    let n: usize = data.len();
    let mut i: usize = 0;
    assert(ascii_text(base64(data@.take(0))) =~= Seq::<char>::empty());
    while i < n
        invariant
            i <= n,
            n == data@.len(),
            i % 3 == 0 || i == n,
            out@ == ascii_text(base64(data@.take(i as int))),
        decreases n - i,
    {
        let left: usize = n - i;
        let b1: u8 = data[i];
        let b2: u8 = if left > 1 { data[i + 1] } else { 0 };
        let b3: u8 = if left > 2 { data[i + 2] } else { 0 };
        let next: usize = if left > 2 { i + 3 } else { n };
        proof {
            lemma_sextet_bits(b1, b2, b3);
            let whole = data@.take(next as int);
            assert(whole.take(i as int) =~= data@.take(i as int));
            assert(whole.len() - last_group_len(whole.len()) == i);
            assert(encode_group(whole.skip(i as int)) =~= seq![
                symbol(b1 >> 2),
                symbol(((b1 & 0x03) << 4) | (b2 >> 4)),
                if left > 1 { symbol(((b2 & 0x0f) << 2) | (b3 >> 6)) } else { pad() },
                if left > 2 { symbol(b3 & 0x3f) } else { pad() },
            ]);
        }
        push_symbol(&mut out, b1 >> 2);
        push_symbol(&mut out, ((b1 & 0x03) << 4) | (b2 >> 4));
        if left > 1 {
            push_symbol(&mut out, ((b2 & 0x0f) << 2) | (b3 >> 6));
        } else {
            push_pad(&mut out);
        }
        if left > 2 {
            push_symbol(&mut out, b3 & 0x3f);
        } else {
            push_pad(&mut out);
        }
        assert(out@ =~= ascii_text(base64(data@.take(next as int))));
        i = next;
    }
    proof {
        assert(data@.take(n as int) =~= data@);
        lemma_base64_field(data@);
    }
    out
}

} // verus!
