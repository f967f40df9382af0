//! Strings: their UTF-8 bytes, decimal numbers, and searches.
use vstd::prelude::*;
use vstd::string::*;
use vstd::utf8::*;

verus! {

/// Two strings with the same UTF-8 bytes are equal.
pub proof fn lemma_same_bytes(a: Seq<char>, b: Seq<char>)
    requires
        encode_utf8(a) == encode_utf8(b),
    ensures
        a == b,
{
    encode_utf8_decode_utf8(a);
    encode_utf8_decode_utf8(b);
}

/// The UTF-8 bytes of two texts behind each other are those of the first and then those of the
/// second.
pub proof fn lemma_encode_concat(a: Seq<char>, b: Seq<char>)
    ensures
        encode_utf8(a + b) == encode_utf8(a) + encode_utf8(b),
    decreases a.len(),
{
    if a.len() == 0 {
        assert(a + b =~= b);
        assert(encode_utf8(a) + encode_utf8(b) =~= encode_utf8(b));
    } else {
        assert((a + b).drop_first() =~= a.drop_first() + b);
        lemma_encode_concat(a.drop_first(), b);
        assert(encode_utf8(a + b) =~= encode_utf8(a) + encode_utf8(b));
    }
}

/// Where a string begins at a character boundary of a text, it ends at one.
pub proof fn lemma_boundary_after(text: Seq<u8>, at: int, piece: Seq<u8>)
    requires
        valid_utf8(text),
        valid_utf8(piece),
        is_char_boundary(text, at),
        0 <= at,
        at + piece.len() <= text.len(),
        text.subrange(at, at + piece.len()) == piece,
    ensures
        is_char_boundary(text, at + piece.len()),
{
    let rest = text.subrange(at, text.len() as int);
    let n = piece.len() as int;
    valid_utf8_split(text, at);
    assert(rest.subrange(0, n) =~= piece);
    if !valid_utf8(rest.subrange(n, rest.len() as int)) {
        partial_valid_partial_invalid_utf8(rest, n);
    }
    is_char_boundary_start_end_of_seq(text);
    if at + n < text.len() {
        let tail = rest.subrange(n, rest.len() as int);
        assert(tail[0] == text[at + n]);
        is_char_boundary_iff_not_is_continuation_byte(text, at + n);
    }
}

/// The ASCII bytes `from..to` of a text as characters.
pub open spec fn ascii_text(text: Seq<u8>, from: int, to: int) -> Seq<char> {
    Seq::new((to - from) as nat, |i: int| text[from + i] as char)
}

/// ASCII bytes are the UTF-8 bytes of the characters that they stand for.
pub proof fn lemma_ascii_text(text: Seq<u8>, from: int, to: int)
    requires
        0 <= from <= to <= text.len(),
        forall|i: int| from <= i < to ==> #[trigger] text[i] < 0x80,
    ensures
        encode_utf8(ascii_text(text, from, to)) == text.subrange(from, to),
{
    let chars = ascii_text(text, from, to);
    assert forall|i: int| 0 <= i < chars.len() implies '\0' <= #[trigger] chars[i] <= '\u{7f}' by {
        assert(text[from + i] < 0x80);
    }
    is_ascii_chars_encode_utf8(chars);
    assert forall|i: int| 0 <= i < chars.len() implies #[trigger] encode_utf8(chars)[i]
        == text.subrange(from, to)[i] by {
        let byte = text[from + i];
        assert(byte < 0x80);
        assert(chars[i] == byte as char);
        assert(chars[i] as u8 == byte);
    }
    assert(encode_utf8(chars) =~= text.subrange(from, to));
}

/// The part of `s` between two character boundaries.
pub fn slice<'s>(s: &'s str, from: usize, to: usize) -> (res: &'s str)
    requires
        from <= to,
        is_char_boundary(encode_utf8(s@), from as int),
        is_char_boundary(encode_utf8(s@), to as int),
    ensures
        encode_utf8(res@) == encode_utf8(s@).subrange(from as int, to as int),
{
    let ghost b = encode_utf8(s@);
    proof {
        encode_utf8_valid_utf8(s@);
        lemma_boundary_range(b, from as int);
        lemma_boundary_range(b, to as int);
    }
    let (head, _tail) = s.split_at(to);
    proof {
        encode_utf8_valid_utf8(head@);
        assert(encode_utf8(head@) == b.subrange(0, to as int));
        if from < to {
            is_char_boundary_iff_not_is_continuation_byte(b, from as int);
            is_char_boundary_iff_not_is_continuation_byte(encode_utf8(head@), from as int);
        } else {
            is_char_boundary_start_end_of_seq(encode_utf8(head@));
        }
    }
    let (_front, res) = head.split_at(from);
    assert(b.subrange(0, to as int).subrange(from as int, to as int) =~= b.subrange(
        from as int,
        to as int,
    ));
    res
}

/// The part of `s` behind the bytes of `head`, which it begins with.
pub(crate) fn skip_head<'s>(s: &'s str, len: usize, head: Ghost<Seq<char>>) -> (res: &'s str)
    requires
        begins_with(s@, head@),
        len == encode_utf8(head@).len(),
    ensures
        res@ == s@.skip(head@.len() as int),
{
    let ghost rest = s@.skip(head@.len() as int);
    let ghost bytes = encode_utf8(s@);
    proof {
        assert(head@ + rest =~= s@);
        lemma_encode_concat(head@, rest);
        encode_utf8_valid_utf8(s@);
        encode_utf8_valid_utf8(head@);
        is_char_boundary_start_end_of_seq(bytes);
        assert(bytes.subrange(0, len as int) =~= encode_utf8(head@));
        lemma_boundary_after(bytes, 0, encode_utf8(head@));
    }
    let (_front, res) = s.split_at(len);
    proof {
        assert(bytes.subrange(len as int, bytes.len() as int) =~= encode_utf8(rest));
        lemma_same_bytes(res@, rest);
    }
    res
}

/// A character boundary lies in the text or at its end.
pub proof fn lemma_boundary_range(text: Seq<u8>, at: int)
    requires
        valid_utf8(text),
        is_char_boundary(text, at),
    ensures
        0 <= at <= text.len(),
{
}

/// The decimal digits of `n`.
pub open spec fn decimal(n: nat) -> Seq<char>
    decreases n,
{
    if n < 10 {
        seq![('0' as u8 + n) as char]
    } else {
        decimal(n / 10).push(('0' as u8 + n % 10) as char)
    }
}

/// Tells whether `c` is a decimal digit.
pub open spec fn is_digit(c: char) -> bool {
    '0' <= c <= '9'
}

/// Tells whether all characters are decimal digits.
pub open spec fn all_digits(s: Seq<char>) -> bool {
    forall|i: int| 0 <= i < s.len() ==> is_digit(#[trigger] s[i])
}

/// The number that decimal digits stand for.
pub open spec fn digits_value(s: Seq<char>) -> nat
    decreases s.len(),
{
    if s.len() == 0 {
        0
    } else {
        digits_value(s.drop_last()) * 10 + (s.last() as nat - '0' as nat) as nat
    }
}

/// The number that a text stands for: one or more decimal digits, perhaps after a `+`.
pub open spec fn number(s: Seq<char>) -> Option<nat> {
    let digits = if s.len() > 0 && s[0] == '+' {
        s.drop_first()
    } else {
        s
    };
    if digits.len() > 0 && all_digits(digits) {
        Some(digits_value(digits))
    } else {
        None
    }
}

/// The number that a text stands for, where it is at most `max`.
pub open spec fn number_up_to(s: Seq<char>, max: int) -> Option<nat> {
    match number(s) {
        Some(n) => if n <= max {
            Some(n)
        } else {
            None
        },
        None => None,
    }
}

proof fn lemma_digits_prefix(s: Seq<char>, i: int)
    requires
        0 <= i <= s.len(),
    ensures
        digits_value(s.take(i)) <= digits_value(s),
    decreases s.len() - i,
{
    if i < s.len() {
        assert(s.take(i + 1).drop_last() =~= s.take(i));
        lemma_digits_prefix(s, i + 1);
    } else {
        assert(s.take(i) =~= s);
    }
}

/// The characters of a string.
pub fn chars_of(s: &str) -> (res: Vec<char>)
    ensures
        res@ == s@,
{
    let mut out: Vec<char> = Vec::new();
    for c in it: s.chars()
        invariant
            it.seq() == s@,
            out@ == it.seq().take(it.index() as int),
    {
        assert(it.seq().take(it.index() as int + 1) =~= it.seq().take(it.index() as int).push(c));
        out.push(c);
    }
    assert(s@.take(s@.len() as int) =~= s@);
    out
}

/// Reads a number of at most `max`.
pub fn read_number(s: &str, max: usize) -> (res: Option<usize>)
    ensures
        match res {
            Some(n) => number_up_to(s@, max as int) == Some(n as nat),
            None => number_up_to(s@, max as int) is None,
        },
{
    let chars = chars_of(s);
    let start: usize = if chars.len() > 0 && chars[0] == '+' {
        1
    } else {
        0
    };
    let ghost digits = if s@.len() > 0 && s@[0] == '+' {
        s@.drop_first()
    } else {
        s@
    };
    if start == chars.len() {
        return None;
    }
    let mut value: usize = 0;
    let mut i: usize = start;
    assert(digits.take(0) =~= Seq::empty());
    assert(digits =~= chars@.skip(start as int));
    while i < chars.len()
        invariant
            start <= i <= chars@.len(),
            digits == chars@.skip(start as int),
            digits.len() > 0,
            value <= max,
            value == digits_value(digits.take(i - start)),
            forall|j: int| 0 <= j < i - start ==> is_digit(#[trigger] digits[j]),
            number(s@) == (if all_digits(digits) {
                Some(digits_value(digits))
            } else {
                None
            }),
        decreases chars@.len() - i,
    {
        let c = chars[i];
        assert(digits[i - start] == c);
        if c < '0' || c > '9' {
            assert(!is_digit(digits[i - start]));
            return None;
        }
        let digit: usize = (c as u32 - '0' as u32) as usize;
        proof {
            assert(digits.take(i - start + 1).drop_last() =~= digits.take(i - start));
            lemma_digits_prefix(digits, i - start + 1);
        }
        if digit > max || value > (max - digit) / 10 {
            return None;
        }
        value = value * 10 + digit;
        i += 1;
    }
    assert(digits.take(digits.len() as int) =~= digits);
    Some(value)
}

/// The digit of a number below ten.
fn digit_text(digit: usize) -> (res: &'static str)
    requires
        digit < 10,
    ensures
        res@ == decimal(digit as nat),
{
    proof {
        reveal_strlit("0");
        reveal_strlit("1");
        reveal_strlit("2");
        reveal_strlit("3");
        reveal_strlit("4");
        reveal_strlit("5");
        reveal_strlit("6");
        reveal_strlit("7");
        reveal_strlit("8");
        reveal_strlit("9");
    }
    let res = match digit {
        0 => "0",
        1 => "1",
        2 => "2",
        3 => "3",
        4 => "4",
        5 => "5",
        6 => "6",
        7 => "7",
        8 => "8",
        _ => "9",
    };
    assert(res@ =~= decimal(digit as nat));
    res
}

/// Writes a number in decimal digits.
pub fn decimal_text(n: usize) -> (res: String)
    ensures
        res@ == decimal(n as nat),
    decreases n,
{
    if n < 10 {
        digit_text(n).to_string()
    } else {
        let mut res = decimal_text(n / 10);
        res.append(digit_text(n % 10));
        assert(res@ =~= decimal(n as nat));
        res
    }
}

/// The decimal digits of an integer, behind a minus sign where it is negative.
pub open spec fn signed_decimal(n: int) -> Seq<char> {
    if n < 0 {
        "-"@ + decimal((-n) as nat)
    } else {
        decimal(n as nat)
    }
}

/// Writes an integer in decimal digits.
pub fn signed_text(n: i32) -> (res: String)
    ensures
        res@ == signed_decimal(n as int),
{
    if n < 0 {
        let magnitude: i64 = -(n as i64);
        combine("-", decimal_text(magnitude as usize).as_str())
    } else {
        decimal_text(n as usize)
    }
}

/// Tells whether a text begins with another.
pub open spec fn begins_with(s: Seq<char>, head: Seq<char>) -> bool {
    s.len() >= head.len() && s.take(head.len() as int) == head
}

/// Tells whether a text ends with another.
pub open spec fn ends_with(s: Seq<char>, tail: Seq<char>) -> bool {
    s.len() >= tail.len() && s.skip(s.len() - tail.len()) == tail
}

/// Tells whether a text has another at the position `i`.
pub open spec fn has_at(s: Seq<char>, i: int, piece: Seq<char>) -> bool {
    0 <= i && i + piece.len() <= s.len() && s.subrange(i, i + piece.len()) == piece
}

/// Tells whether a text contains another.
pub open spec fn contains_text(s: Seq<char>, piece: Seq<char>) -> bool {
    exists|i: int| has_at(s, i, piece)
}

/// Tells whether characters have others at the position `at`.
fn chars_have_at(chars: &Vec<char>, at: usize, piece: &Vec<char>) -> (res: bool)
    requires
        at <= chars@.len(),
    ensures
        res == has_at(chars@, at as int, piece@),
{
    let n = chars.len();
    if piece.len() > n - at {
        return false;
    }
    let ghost part = chars@.subrange(at as int, at + piece@.len());
    let mut i: usize = 0;
    while i < piece.len()
        invariant
            i <= piece@.len(),
            at + piece@.len() <= n == chars@.len(),
            part == chars@.subrange(at as int, at + piece@.len()),
            forall|j: int| 0 <= j < i ==> part[j] == #[trigger] piece@[j],
        decreases piece@.len() - i,
    {
        if chars[at + i] != piece[i] {
            assert(part[i as int] != piece@[i as int]);
            return false;
        }
        i += 1;
    }
    assert(part =~= piece@);
    true
}

/// Tells whether `s` begins with `head`.
pub fn starts_with(s: &str, head: &str) -> (res: bool)
    ensures
        res == begins_with(s@, head@),
{
    let chars = chars_of(s);
    let piece = chars_of(head);
    proof {
        if head@.len() <= s@.len() {
            assert(s@.subrange(0, head@.len() as int) =~= s@.take(head@.len() as int));
        }
    }
    chars_have_at(&chars, 0, &piece)
}

/// Tells whether `s` ends with `tail`.
pub fn finishes_with(s: &str, tail: &str) -> (res: bool)
    ensures
        res == ends_with(s@, tail@),
{
    let chars = chars_of(s);
    let piece = chars_of(tail);
    if piece.len() > chars.len() {
        return false;
    }
    proof {
        let at = s@.len() - tail@.len();
        assert(s@.subrange(at, at + tail@.len()) =~= s@.skip(at));
    }
    chars_have_at(&chars, chars.len() - piece.len(), &piece)
}

/// Tells whether `s` contains `piece`.
pub fn holds(s: &str, piece: &str) -> (res: bool)
    ensures
        res == contains_text(s@, piece@),
{
    let chars = chars_of(s);
    let piece_chars = chars_of(piece);
    if piece_chars.len() > chars.len() {
        return false;
    }
    let last: usize = chars.len() - piece_chars.len();
    let mut i: usize = 0;
    while i < last
        invariant
            chars@ == s@,
            piece_chars@ == piece@,
            last + piece@.len() == s@.len(),
            i <= last,
            forall|j: int| 0 <= j < i ==> !has_at(s@, j, piece@),
        decreases last - i,
    {
        if chars_have_at(&chars, i, &piece_chars) {
            return true;
        }
        i += 1;
    }
    chars_have_at(&chars, last, &piece_chars)
}

/// A text without the given beginning, where it has it.
pub open spec fn without_prefix(s: Seq<char>, prefix: Seq<char>) -> Seq<char> {
    if begins_with(s, prefix) {
        s.skip(prefix.len() as int)
    } else {
        s
    }
}

/// Takes the given beginning off a text, where it has it.
pub fn strip_prefix<'s>(s: &'s str, prefix: &str) -> (res: &'s str)
    ensures
        res@ == without_prefix(s@, prefix@),
{
    if starts_with(s, prefix) {
        let from = prefix.unicode_len();
        let to = s.unicode_len();
        assert(s@.subrange(from as int, to as int) =~= s@.skip(from as int));
        s.substring_char(from, to)
    } else {
        s
    }
}

/// Texts with a separator between each two of them.
pub open spec fn joined(texts: Seq<Seq<char>>, separator: Seq<char>) -> Seq<char>
    decreases texts.len(),
{
    if texts.len() == 0 {
        Seq::empty()
    } else if texts.len() == 1 {
        texts[0]
    } else {
        joined(texts.drop_last(), separator) + separator + texts.last()
    }
}

/// The texts of strings.
pub open spec fn texts_of(strings: Seq<String>) -> Seq<Seq<char>> {
    Seq::new(strings.len(), |i: int| strings[i]@)
}

/// Puts strings together, with a separator between each two of them.
pub fn join(strings: &Vec<String>, separator: &str) -> (res: String)
    ensures
        res@ == joined(texts_of(strings@), separator@),
{
    let mut res = String::new();
    let ghost texts = texts_of(strings@);
    let mut i: usize = 0;
    assert(texts.take(0) =~= Seq::empty());
    while i < strings.len()
        invariant
            i <= strings@.len(),
            texts == texts_of(strings@),
            res@ == joined(texts.take(i as int), separator@),
        decreases strings@.len() - i,
    {
        assert(texts.take(i + 1).drop_last() =~= texts.take(i as int));
        if i > 0 {
            res.append(separator);
        }
        res.append(strings[i].as_str());
        assert(res@ =~= joined(texts.take(i + 1), separator@));
        i += 1;
    }
    assert(texts.take(i as int) =~= texts);
    res
}

/// Puts two texts together.
pub fn combine(a: &str, b: &str) -> (res: String)
    ensures
        res@ == a@ + b@,
{
    let mut res = a.to_string();
    res.append(b);
    res
}

/// Puts three texts together.
pub fn combine3(a: &str, b: &str, c: &str) -> (res: String)
    ensures
        res@ == a@ + b@ + c@,
{
    let mut res = a.to_string();
    res.append(b);
    res.append(c);
    res
}

/// Decimal digits are digits that stand for the number.
pub proof fn lemma_decimal_digits(n: nat)
    ensures
        decimal(n).len() > 0,
        all_digits(decimal(n)),
        digits_value(decimal(n)) == n,
    decreases n,
{
    if n < 10 {
        let d = decimal(n);
        assert(d.drop_last() =~= Seq::<char>::empty());
        assert(digits_value(d.drop_last()) == 0);
    } else {
        lemma_decimal_digits(n / 10);
        let d = decimal(n);
        let digit = ('0' as u8 + n % 10) as char;
        assert(d.drop_last() =~= decimal(n / 10));
        assert forall|i: int| 0 <= i < d.len() implies is_digit(#[trigger] d[i]) by {
            if i < d.len() - 1 {
                assert(d[i] == decimal(n / 10)[i]);
            } else {
                assert(d[i] == digit);
            }
        }
    }
}

/// A number that is written in decimal digits is read back as it was.
pub proof fn lemma_decimal_number(n: nat, max: int)
    requires
        n <= max,
    ensures
        number_up_to(decimal(n), max) == Some(n),
{
    lemma_decimal_digits(n);
    assert(is_digit(decimal(n)[0]));
}

} // verus!
