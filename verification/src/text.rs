//! Text building blocks that the formats share: decimal numbers, the XML
//! entity escape and the quoting of a delimited field.

use vstd::prelude::*;
use vstd::std_specs::iter::IteratorSpec;
use vstd::string::*;

verus! {

/// `String::push` appends the one character `ch` to the end of the string
/// and changes nothing else.
pub assume_specification[ String::push ](s: &mut String, ch: char)
    ensures
        final(s)@ == old(s)@.push(ch),
;

/// The character for the decimal digit `d`.
pub open spec fn digit_char(d: nat) -> char {
    ((48 + d) as u8) as char
}

/// The decimal numeral of `n`, without leading zeros.
pub open spec fn decimal(n: nat) -> Seq<char>
    decreases n,
{
    if n < 10 {
        seq![digit_char(n)]
    } else {
        decimal(n / 10).push(digit_char(n % 10))
    }
}

/// The text that stands for the character `c` in an XML attribute value.
pub open spec fn xml_entity(c: char) -> Seq<char> {
    if c == '&' {
        seq!['&', 'a', 'm', 'p', ';']
    } else if c == '<' {
        seq!['&', 'l', 't', ';']
    } else if c == '>' {
        seq!['&', 'g', 't', ';']
    } else if c == '"' {
        seq!['&', 'q', 'u', 'o', 't', ';']
    } else if c == '\'' {
        seq!['&', 'a', 'p', 'o', 's', ';']
    } else {
        seq![c]
    }
}

/// `s` with each of `& < > " '` replaced by its entity.
pub open spec fn xml_escaped(s: Seq<char>) -> Seq<char>
    decreases s.len(),
{
    if s.len() == 0 {
        Seq::empty()
    } else {
        xml_escaped(s.drop_last()) + xml_entity(s.last())
    }
}

/// The text that stands for the character `c` inside a quoted field of a
/// delimited table.
pub open spec fn csv_unit(c: char) -> Seq<char> {
    if c == '"' {
        seq!['"', '"']
    } else {
        seq![c]
    }
}

/// `s` with every quote character doubled.
pub open spec fn csv_quoted(s: Seq<char>) -> Seq<char>
    decreases s.len(),
{
    if s.len() == 0 {
        Seq::empty()
    } else {
        csv_quoted(s.drop_last()) + csv_unit(s.last())
    }
}

/// Appends the decimal numeral of `n` to `out`.
pub fn push_decimal(out: &mut String, n: u64)
    ensures
        final(out)@ == old(out)@ + decimal(n as nat),
    decreases n,
{
    if n >= 10 {
        push_decimal(out, n / 10);
    }
    let d: u8 = (n % 10) as u8;
    out.push((48 + d) as char);
    assert(out@ =~= old(out)@ + decimal(n as nat));
}

/// Escapes `s` for an XML attribute value: each of `& < > " '` becomes its
/// entity, every other character stays.
pub fn escape_xml(s: &str) -> (r: String)
    ensures
        r@ == xml_escaped(s@),
{
    broadcast use vstd::string::group_string_axioms;

    let mut out = String::new();
    let mut it = s.chars();
    let ghost mut done: int = 0;
    assert(s@.skip(0) =~= s@);
    loop
        invariant
            0 <= done <= s@.len(),
            it.remaining() == s@.skip(done),
            out@ == xml_escaped(s@.take(done)),
        ensures
            out@ == xml_escaped(s@),
        decreases s@.len() - done,
    {
        proof {
            reveal_strlit("&amp;");
            reveal_strlit("&lt;");
            reveal_strlit("&gt;");
            reveal_strlit("&quot;");
            reveal_strlit("&apos;");
        }
        let ghost before = out@;
        match it.next() {
            None => {
                assert(s@.take(done) =~= s@);
                break ;
            },
            Some(c) => {
                if c == '&' {
                    out.append("&amp;");
                } else if c == '<' {
                    out.append("&lt;");
                } else if c == '>' {
                    out.append("&gt;");
                } else if c == '"' {
                    out.append("&quot;");
                } else if c == '\'' {
                    out.append("&apos;");
                } else {
                    out.push(c);
                }
                proof {
                    let next = s@.take(done + 1);
                    assert(next.drop_last() =~= s@.take(done));
                    assert(next.last() == c);
                    assert(out@ =~= before + xml_entity(c));
                    assert(s@.skip(done).drop_first() =~= s@.skip(done + 1));
                    done = done + 1;
                }
            },
        }
    }
    out
}

/// Doubles every quote character of `s`, as a quoted field of a delimited
/// table asks.
pub fn quote_csv(s: &str) -> (r: String)
    ensures
        r@ == csv_quoted(s@),
{
    broadcast use vstd::string::group_string_axioms;

    let mut out = String::new();
    let mut it = s.chars();
    let ghost mut done: int = 0;
    assert(s@.skip(0) =~= s@);
    loop
        invariant
            0 <= done <= s@.len(),
            it.remaining() == s@.skip(done),
            out@ == csv_quoted(s@.take(done)),
        ensures
            out@ == csv_quoted(s@),
        decreases s@.len() - done,
    {
        let ghost before = out@;
        match it.next() {
            None => {
                assert(s@.take(done) =~= s@);
                break ;
            },
            Some(c) => {
                out.push(c);
                if c == '"' {
                    out.push('"');
                }
                proof {
                    let next = s@.take(done + 1);
                    assert(next.drop_last() =~= s@.take(done));
                    assert(next.last() == c);
                    assert(out@ =~= before + csv_unit(c));
                    assert(s@.skip(done).drop_first() =~= s@.skip(done + 1));
                    done = done + 1;
                }
            },
        }
    }
    out
}

} // verus!
