//! Promises about texts and numbers.
use vstd::prelude::*;

use crate::text::{
    all_digits, begins_with, contains_text, decimal, digits_value, ends_with, has_at, is_digit,
    joined, lemma_decimal_number, number, number_up_to, signed_decimal, without_prefix,
};

verus! {

/// The character of a decimal digit.
pub open spec fn digit_char(d: nat) -> char {
    (0x30 + d) as char
}

/// A single digit is read as its value.
pub proof fn law_one_digit(d: nat)
    requires
        d < 10,
    ensures
        number(seq![digit_char(d)]) == Some(d),
{
    let s = seq![digit_char(d)];
    assert(s.drop_last() =~= Seq::<char>::empty());
    assert(digits_value(s.drop_last()) == 0);
}

/// A digit behind a number makes ten times the number and the digit.
pub proof fn law_digit_behind(s: Seq<char>, n: nat, d: nat)
    requires
        number(s) == Some(n),
        d < 10,
    ensures
        number(s.push(digit_char(d))) == Some(10 * n + d),
{
    let c = digit_char(d);
    let longer = s.push(c);
    if s[0] == '+' {
        let digits = s.drop_first();
        assert(longer.drop_first() =~= digits.push(c));
        assert(digits.push(c).drop_last() =~= digits);
        assert(all_digits(digits.push(c)));
    } else {
        assert(longer.drop_last() =~= s);
        assert(longer[0] == s[0]);
        assert(all_digits(longer));
    }
}

/// A plus sign in front of digits makes no difference.
pub proof fn law_plus_sign(s: Seq<char>)
    requires
        s.len() > 0,
        s[0] != '+',
    ensures
        number(seq!['+'] + s) == number(s),
{
    assert((seq!['+'] + s).drop_first() =~= s);
}

/// A text is a number exactly if it is made of one or more digits, perhaps behind a plus sign.
pub proof fn law_number_texts(s: Seq<char>)
    ensures
        number(s) is Some <==> {
            ||| s.len() > 0 && forall|i: int| 0 <= i < s.len() ==> 0x30 <= #[trigger] s[i] as int
                <= 0x39
            ||| s.len() > 1 && s[0] == '+' && forall|i: int|
                1 <= i < s.len() ==> 0x30 <= #[trigger] s[i] as int <= 0x39
        },
{
    if s.len() > 0 && s[0] == '+' {
        let digits = s.drop_first();
        assert(!(0x30 <= s[0] as int));
        if all_digits(digits) {
            assert forall|i: int| 1 <= i < s.len() implies 0x30 <= #[trigger] s[i] as int
                <= 0x39 by {
                assert(is_digit(digits[i - 1]));
            }
        } else {
            let i = choose|i: int| 0 <= i < digits.len() && !is_digit(#[trigger] digits[i]);
            assert(s[i + 1] == digits[i]);
        }
    } else if all_digits(s) {
        assert forall|i: int| 0 <= i < s.len() implies 0x30 <= #[trigger] s[i] as int <= 0x39 by {
            assert(is_digit(s[i]));
        }
    } else {
        let i = choose|i: int| 0 <= i < s.len() && !is_digit(#[trigger] s[i]);
        assert(!(0x30 <= s[i] as int <= 0x39));
    }
}

/// A bounded number is a number that is at most the bound.
pub proof fn law_bounded_number(s: Seq<char>, max: int, n: nat)
    ensures
        number_up_to(s, max) == Some(n) <==> number(s) == Some(n) && n <= max,
{
}

/// The decimal digits of a number end with its last digit, and are read back as the number.
pub proof fn law_decimal(n: nat, d: nat)
    requires
        d < 10,
    ensures
        decimal(10 * n + d) == if n == 0 {
            seq![digit_char(d)]
        } else {
            decimal(n).push(digit_char(d))
        },
        number(decimal(n)) == Some(n),
{
    assert((10 * n + d) / 10 == n);
    assert((10 * n + d) % 10 == d);
    lemma_decimal_number(n, n as int);
}

/// A negative integer is written as its amount behind a minus sign.
pub proof fn law_signed_decimal(n: nat)
    ensures
        signed_decimal(n as int) == decimal(n),
        n > 0 ==> signed_decimal(-n) == seq!['-'] + decimal(n),
{
    reveal_strlit("-");
    assert("-"@ =~= seq!['-']);
}

/// A text begins with another, ends with it or contains it exactly if it is that one with something
/// behind it, in front of it or around it.
pub proof fn law_searches(s: Seq<char>, piece: Seq<char>)
    ensures
        begins_with(s, piece) <==> exists|b: Seq<char>| s == #[trigger] (piece + b),
        ends_with(s, piece) <==> exists|a: Seq<char>| s == #[trigger] (a + piece),
        contains_text(s, piece) <==> exists|a: Seq<char>, b: Seq<char>| s == #[trigger] (a + piece
            + b),
{
    if begins_with(s, piece) {
        assert(s =~= piece + s.skip(piece.len() as int));
    }
    if exists|b: Seq<char>| s == #[trigger] (piece + b) {
        let b = choose|b: Seq<char>| s == #[trigger] (piece + b);
        assert(s.take(piece.len() as int) =~= piece);
    }
    if ends_with(s, piece) {
        assert(s =~= s.take(s.len() - piece.len()) + piece);
    }
    if exists|a: Seq<char>| s == #[trigger] (a + piece) {
        let a = choose|a: Seq<char>| s == #[trigger] (a + piece);
        assert(s.skip(s.len() - piece.len()) =~= piece);
    }
    if contains_text(s, piece) {
        let i = choose|i: int| has_at(s, i, piece);
        assert(s =~= s.take(i) + piece + s.skip(i + piece.len()));
    }
    if exists|a: Seq<char>, b: Seq<char>| s == #[trigger] (a + piece + b) {
        let (a, b) = choose|a: Seq<char>, b: Seq<char>| s == #[trigger] (a + piece + b);
        let i = a.len() as int;
        assert(s.subrange(i, i + piece.len()) =~= piece);
        assert(has_at(s, i, piece));
    }
}

/// A beginning that a text has is taken off, and nothing else.
pub proof fn law_prefix(prefix: Seq<char>, s: Seq<char>)
    ensures
        without_prefix(prefix + s, prefix) == s,
        (forall|b: Seq<char>| s != #[trigger] (prefix + b)) ==> without_prefix(s, prefix) == s,
{
    assert((prefix + s).take(prefix.len() as int) =~= prefix);
    assert((prefix + s).skip(prefix.len() as int) =~= s);
    if begins_with(s, prefix) {
        assert(s =~= prefix + s.skip(prefix.len() as int));
    }
}

/// Joining puts the separator between each two texts, and nowhere else.
pub proof fn law_joined(texts: Seq<Seq<char>>, t: Seq<char>, separator: Seq<char>)
    ensures
        joined(Seq::empty(), separator) == Seq::<char>::empty(),
        joined(texts.push(t), separator) == if texts.len() == 0 {
            t
        } else {
            joined(texts, separator) + separator + t
        },
{
    assert(texts.push(t).drop_last() =~= texts);
}

} // verus!
