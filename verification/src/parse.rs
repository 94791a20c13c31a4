//! The steps that the decoding rules of the formats are made of: a fixed
//! text that must come next, and a field that runs as far as its elements
//! belong to it. Each step comes with what it does on a text that begins
//! with what an encoder wrote.

use crate::text::{decimal, digit_char};
use vstd::prelude::*;

verus! {

/// Whether `s` begins with `lit`.
pub open spec fn starts_with<A>(s: Seq<A>, lit: Seq<A>) -> bool {
    s.len() >= lit.len() && s.take(lit.len() as int) == lit
}

/// What follows `lit` in `s`, if `s` begins with `lit`.
pub open spec fn expect<A>(s: Seq<A>, lit: Seq<A>) -> Option<Seq<A>> {
    if starts_with(s, lit) {
        Some(s.skip(lit.len() as int))
    } else {
        None
    }
}

/// The length of the longest beginning of `s` whose elements all meet
/// `pred`.
pub open spec fn span<A>(s: Seq<A>, pred: spec_fn(A) -> bool) -> nat
    decreases s.len(),
{
    if s.len() > 0 && pred(s[0]) {
        1 + span(s.skip(1), pred)
    } else {
        0
    }
}

/// Whether every element of `s` meets `pred`.
pub open spec fn all<A>(s: Seq<A>, pred: spec_fn(A) -> bool) -> bool {
    forall|i: int| 0 <= i < s.len() ==> pred(#[trigger] s[i])
}

/// Whether `c` is a decimal digit.
pub open spec fn is_digit(c: char) -> bool {
    '0' <= c && c <= '9'
}

/// Whether `c` is no quote character.
pub open spec fn is_unquoted(c: char) -> bool {
    c != '"'
}

/// The number that a text of decimal digits stands for.
pub open spec fn decimal_value(digits: Seq<char>) -> nat
    decreases digits.len(),
{
    if digits.len() == 0 {
        0
    } else {
        decimal_value(digits.drop_last()) * 10 + (digits.last() as u32 - 48) as nat
    }
}

/// A text that begins with `lit` is `lit` and what follows it.
pub proof fn lemma_expect<A>(lit: Seq<A>, tail: Seq<A>)
    ensures
        expect(lit + tail, lit) == Some(tail),
{
    assert((lit + tail).take(lit.len() as int) =~= lit);
    assert((lit + tail).skip(lit.len() as int) =~= tail);
}

/// Texts that differ in their first element do not begin with one another.
pub proof fn lemma_expect_other<A>(s: Seq<A>, lit: Seq<A>)
    requires
        lit.len() > 0,
        s.len() == 0 || s[0] != lit[0],
    ensures
        expect(s, lit) is None,
{
    if s.len() >= lit.len() {
        assert(s.take(lit.len() as int)[0] == s[0]);
    }
}

/// A field whose elements all meet `pred`, followed by nothing or by an
/// element that does not, is found again by `span`.
pub proof fn lemma_span<A>(field: Seq<A>, tail: Seq<A>, pred: spec_fn(A) -> bool)
    requires
        all(field, pred),
        tail.len() == 0 || !pred(tail[0]),
    ensures
        span(field + tail, pred) == field.len(),
        (field + tail).take(field.len() as int) == field,
        (field + tail).skip(field.len() as int) == tail,
    decreases field.len(),
{
    let s = field + tail;
    assert(s.take(field.len() as int) =~= field);
    assert(s.skip(field.len() as int) =~= tail);
    if field.len() == 0 {
        assert(s =~= tail);
    } else {
        assert(s[0] == field[0]);
        assert(s.skip(1) =~= field.skip(1) + tail);
        assert forall|i: int| 0 <= i < field.skip(1).len() implies pred(
            #[trigger] field.skip(1)[i],
        ) by {
            assert(field.skip(1)[i] == field[i + 1]);
        }
        lemma_span(field.skip(1), tail, pred);
    }
}

/// A decimal numeral is made of digits, at least one, and stands for its
/// number.
pub proof fn lemma_decimal(n: nat)
    ensures
        decimal(n).len() >= 1,
        all(decimal(n), |c: char| is_digit(c)),
        decimal_value(decimal(n)) == n,
    decreases n,
{
    let pred = |c: char| is_digit(c);
    if n < 10 {
        assert(is_digit(digit_char(n)));
        assert(decimal(n).drop_last() =~= Seq::<char>::empty());
        assert(decimal_value(decimal(n).drop_last()) == 0);
        assert(decimal(n).last() == digit_char(n));
    } else {
        lemma_decimal(n / 10);
        let head = decimal(n / 10);
        assert(decimal(n).drop_last() =~= head);
        assert(decimal(n).last() == digit_char(n % 10));
        assert(is_digit(digit_char(n % 10)));
        assert forall|i: int| 0 <= i < decimal(n).len() implies pred(#[trigger] decimal(n)[i]) by {
            if i < head.len() {
                assert(decimal(n)[i] == head[i]);
                assert(pred(head[i]));
            }
        }
    }
}

} // verus!
