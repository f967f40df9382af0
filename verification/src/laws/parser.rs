//! Promises about how the text of a model is read.
use vstd::prelude::*;
use vstd::utf8::*;

use crate::env::GlobalEnv;
use crate::model::{model_of, parsed_model};
use crate::order::{
    inserted, lemma_inserted_lookup, lemma_inserted_sorted, lookup, position, Rank, rank, sorted,
};
use crate::parser::{
    bytes_at, expected_at, goes_on_with, in_literal, is_space, items_at, key_at, lemma_bytes_split,
    lemma_char_start, lemma_literal_bytes, lemma_literal_ends, lemma_one_byte, lemma_past_space,
    lemma_value_read, lemma_written_start, map_at, MODEL_END_MARKER, past, past_space, value_at,
    writable, written, written_items,
};
use crate::text::{ascii_text, joined, lemma_encode_concat};
use crate::value::Value;

verus! {

/// Tells whether a byte is a blank, a tab, a line feed or a carriage return.
pub open spec fn blank_byte(b: u8) -> bool {
    b == 32 || b == 9 || b == 10 || b == 13
}

/// Skipping white space goes past blanks, tabs, line feeds and carriage returns, and past nothing
/// else.
pub proof fn law_space(text: Seq<u8>, at: int)
    requires
        0 <= at <= text.len(),
    ensures
        at <= past_space(text, at) <= text.len(),
        forall|i: int| at <= i < past_space(text, at) ==> blank_byte(#[trigger] text[i]),
        past_space(text, at) < text.len() ==> !blank_byte(text[past_space(text, at)]),
    decreases text.len() - at,
{
    if at < text.len() && is_space(text[at]) {
        law_space(text, at + 1);
    }
}

proof fn lemma_one_char(text: Seq<u8>, at: int, s: Seq<char>, c: char)
    requires
        s == seq![c],
        c <= '\u{7f}',
        0 <= at,
    ensures
        past(at, s) == at + 1,
        goes_on_with(text, at, s) <==> at < text.len() && text[at] == c as u8,
{
    lemma_one_byte(s);
    if at < text.len() {
        assert(text.subrange(at, at + 1) =~= seq![text[at]]);
        assert(seq![text[at]][0] == text[at]);
        assert(seq![c as u8][0] == c as u8);
    }
}

proof fn lemma_arrow(text: Seq<u8>, at: int)
    requires
        0 <= at,
    ensures
        past(at, "->"@) == at + 2,
        goes_on_with(text, at, "->"@) <==> at + 1 < text.len() && text[at] == 0x2d && text[at + 1]
            == 0x3e,
{
    reveal_strlit("->");
    let a = seq!['-'];
    let b = seq!['>'];
    assert("->"@ =~= a + b);
    lemma_encode_concat(a, b);
    lemma_one_byte(a);
    lemma_one_byte(b);
    assert(encode_utf8("->"@) =~= seq![0x2du8, 0x3eu8]);
    if at + 1 < text.len() {
        assert(text.subrange(at, at + 2) =~= seq![text[at], text[at + 1]]);
        assert(text.subrange(at, at + 2)[0] == text[at]);
        assert(text.subrange(at, at + 2)[1] == text[at + 1]);
        assert(seq![0x2du8, 0x3eu8][0] == 0x2d);
        assert(seq![0x2du8, 0x3eu8][1] == 0x3e);
    }
}

/// Where a text goes on with other than an opening parenthesis, the bytes up to the next white
/// space, closing parenthesis or the end are read as a literal, if they are in ASCII.
pub proof fn law_literal_read(text: Seq<u8>, start: int, end: int)
    requires
        0 <= start <= end <= text.len(),
        start < text.len() ==> text[start] != 0x28 && !blank_byte(text[start]),
        forall|i: int|
            start <= i < end ==> !blank_byte(#[trigger] text[i]) && text[i] != 0x29,
        end == text.len() || blank_byte(text[end]) || text[end] == 0x29,
    ensures
        (forall|i: int| start <= i < end ==> #[trigger] text[i] < 0x80) ==> value_at(text, start)
            == Some(
            (Value::Literal(Seq::new((end - start) as nat, |i: int| text[start + i] as char)), end),
        ),
        (exists|i: int| start <= i < end && #[trigger] text[i] >= 0x80) ==> value_at(
            text,
            start,
        ) is None,
{
    assert(past_space(text, start) == start);
    reveal_strlit("(");
    assert("("@ =~= seq!['(']);
    lemma_one_char(text, start, "("@, '(');
    lemma_literal_ends(text, start, end);
    assert(ascii_text(text, start, end) =~= Seq::new(
        (end - start) as nat,
        |i: int| text[start + i] as char,
    ));
}

/// An opening parenthesis starts a list; each value in it becomes one more item, in order, whatever
/// it is; and a closing parenthesis ends it.
pub proof fn law_items_read(
    text: Seq<u8>,
    at: int,
    items: Seq<Value>,
    item: Value,
    next: int,
)
    requires
        0 <= at <= text.len(),
    ensures
        ({
            let start = past_space(text, at);
            &&& start < text.len() && text[start] == 0x28 ==> value_at(text, at) == items_at(
                text,
                start + 1,
                Seq::empty(),
            )
            &&& start < text.len() && text[start] == 0x29 ==> items_at(text, at, items) == Some(
                (Value::List(items), start + 1),
            )
            &&& (start < text.len() ==> text[start] != 0x29) && value_at(text, start) == Some(
                (item, next),
            ) && start < next <= text.len() ==> items_at(text, at, items) == items_at(
                text,
                next,
                items.push(item),
            )
        }),
{
    let start = past_space(text, at);
    law_space(text, at);
    reveal_strlit("(");
    reveal_strlit(")");
    assert("("@ =~= seq!['(']);
    assert(")"@ =~= seq![')']);
    lemma_one_char(text, start, "("@, '(');
    lemma_one_char(text, start, ")"@, ')');
}

/// Each value in front of an arrow becomes one more component of the key, in order, whatever it is.
/// A key of one component is that component, and one of more is the list of them.
pub proof fn law_components_read(
    text: Seq<u8>,
    at: int,
    components: Seq<Value>,
    component: Value,
    next: int,
)
    requires
        0 <= at <= text.len(),
    ensures
        ({
            let start = past_space(text, at);
            let arrow = start + 1 < text.len() && text[start] == 0x2d && text[start + 1] == 0x3e;
            &&& !arrow && value_at(text, start) == Some((component, next)) && start < next
                <= text.len() ==> key_at(text, at, components) == key_at(
                text,
                next,
                components.push(component),
            )
            &&& arrow && components.len() == 1 ==> key_at(text, at, components) == Some(
                (Ok::<Value, Seq<char>>(components[0]), start),
            )
            &&& arrow && components.len() > 1 ==> key_at(text, at, components) == Some(
                (Ok::<Value, Seq<char>>(Value::List(components)), start),
            )
            &&& arrow && components.len() == 0 ==> key_at(text, at, components) == Some(
                (Err::<Value, Seq<char>>("expected at least one component of a key"@), start),
            )
        }),
{
    let start = past_space(text, at);
    law_space(text, at);
    lemma_arrow(text, start);
}

/// An expected text that stands there is read. Otherwise the message names it and quotes what
/// stands there, at most 80 bytes of it, unless these end within a character.
pub proof fn law_expected(text: Seq<u8>, at: int, s: Seq<char>)
    requires
        0 <= at <= text.len(),
    ensures
        ({
            let start = past_space(text, at);
            let size = encode_utf8(s).len();
            let there = start + size <= text.len() && text.subrange(start, start + size)
                == encode_utf8(s);
            let end = if start + 80 < text.len() {
                start + 80
            } else {
                text.len() as int
            };
            &&& there ==> expected_at(text, at, s) == Some((Ok::<(), Seq<char>>(()), start + size))
            &&& !there && is_char_boundary(text, end) ==> expected_at(text, at, s) == Some(
                (
                    Err::<(), Seq<char>>(
                        "expected `"@ + s + "` (at `"@ + decode_utf8(text.subrange(start, end))
                            + "...`)"@,
                    ),
                    start,
                ),
            )
            &&& !there && !is_char_boundary(text, end) ==> expected_at(text, at, s) is None
        }),
{
    law_space(text, at);
}

/// After an entry `key -> value` has been read, whatever its value is, the key is mapped to the
/// value, and the entries behind it are read.
pub proof fn law_entry_read(
    text: Seq<u8>,
    at: int,
    entries: Seq<(Value, Value)>,
    key: Value,
    arrow: int,
    value: Value,
    next: int,
)
    requires
        0 <= at <= text.len(),
        !goes_on_with(text, past_space(text, at), MODEL_END_MARKER@),
        past_space(text, at) < text.len() ==> text[past_space(text, at)] != 0x7d,
        key_at(text, past_space(text, at), Seq::empty()) == Some(
            (Ok::<Value, Seq<char>>(key), arrow),
        ),
        at <= arrow,
        arrow + 1 < text.len(),
        text[arrow] == 0x2d,
        text[arrow + 1] == 0x3e,
        next <= text.len(),
        ({
            let open = past_space(text, arrow + 2);
            if open < text.len() && text[open] == 0x7b {
                &&& value is Mapping
                &&& map_at(text, open + 1, Seq::empty()) matches Some((Ok(inner), close))
                &&& value == Value::Mapping(inner)
                &&& open < close
                &&& past_space(text, close) < text.len()
                &&& text[past_space(text, close)] == 0x7d
                &&& next == past_space(text, close) + 1
            } else {
                value_at(text, open) == Some((value, next)) && open <= next
            }
        }),
    ensures
        map_at(text, at, entries) == map_at(text, next, inserted(entries, key, value)),
{
    let start = past_space(text, at);
    law_space(text, at);
    reveal_strlit("}");
    reveal_strlit("{");
    assert("}"@ =~= seq!['}']);
    assert("{"@ =~= seq!['{']);
    lemma_one_char(text, start, "}"@, '}');
    lemma_arrow(text, arrow);
    assert(past_space(text, arrow) == arrow);
    let open = past_space(text, arrow + 2);
    law_space(text, arrow + 2);
    lemma_one_char(text, open, "{"@, '{');
    if open < text.len() && text[open] == 0x7b {
        let close = (map_at(text, open + 1, Seq::empty())->0).1;
        lemma_past_space(text, close);
        lemma_one_char(text, past_space(text, close), "}"@, '}');
    }
}

/// Where an entry cannot be read, no entries are: what is wrong is told as it is of its key or of
/// the mapping that is its value, and a nested mapping has to end with a closing brace.
pub proof fn law_entry_rejected(
    text: Seq<u8>,
    at: int,
    entries: Seq<(Value, Value)>,
    key: Value,
    arrow: int,
    message: Seq<char>,
    next: int,
)
    requires
        0 <= at <= text.len(),
        !goes_on_with(text, past_space(text, at), MODEL_END_MARKER@),
        past_space(text, at) < text.len() ==> text[past_space(text, at)] != 0x7d,
    ensures
        ({
            let read = key_at(text, past_space(text, at), Seq::empty());
            let open = past_space(text, arrow + 2);
            let inner = map_at(text, open + 1, Seq::empty());
            &&& read is None ==> map_at(text, at, entries) is None
            &&& read == Some((Err::<Value, Seq<char>>(message), next)) ==> map_at(text, at, entries)
                == Some((Err::<Seq<(Value, Value)>, Seq<char>>(message), next))
            &&& read == Some((Ok::<Value, Seq<char>>(key), arrow)) && at <= arrow && arrow + 1
                < text.len() && text[arrow] == 0x2d && text[arrow + 1] == 0x3e ==> {
                let nested = open < text.len() && text[open] == 0x7b;
                &&& !nested && value_at(text, open) is None ==> map_at(text, at, entries) is None
                &&& nested && inner is None ==> map_at(text, at, entries) is None
                &&& nested && inner == Some(
                    (Err::<Seq<(Value, Value)>, Seq<char>>(message), next),
                ) ==> map_at(text, at, entries) == Some(
                    (Err::<Seq<(Value, Value)>, Seq<char>>(message), next),
                )
                &&& nested && inner is Some && (inner->0).0 is Ok && expected_at(
                    text,
                    (inner->0).1,
                    "}"@,
                ) == Some((Err::<(), Seq<char>>(message), next)) ==> map_at(text, at, entries)
                    == Some((Err::<Seq<(Value, Value)>, Seq<char>>(message), next))
            }
        }),
{
    let start = past_space(text, at);
    law_space(text, at);
    reveal_strlit("}");
    reveal_strlit("{");
    assert("}"@ =~= seq!['}']);
    assert("{"@ =~= seq!['{']);
    lemma_one_char(text, start, "}"@, '}');
    if at <= arrow && arrow + 1 < text.len() && text[arrow] == 0x2d {
        lemma_arrow(text, arrow);
        assert(past_space(text, arrow) == arrow);
        let open = past_space(text, arrow + 2);
        law_space(text, arrow + 2);
        lemma_one_char(text, open, "{"@, '{');
    }
}

/// Where a list is not closed, or no arrow comes behind a key, because no value is left to read or
/// it cannot be read, there is no list or key.
pub proof fn law_unfinished(text: Seq<u8>, at: int, items: Seq<Value>)
    requires
        0 <= at <= text.len(),
        match value_at(text, past_space(text, at)) {
            Some((_, next)) => next <= past_space(text, at),
            None => true,
        },
    ensures
        ({
            let start = past_space(text, at);
            &&& !(start < text.len() && text[start] == 0x29) ==> items_at(text, at, items) is None
            &&& !(start + 1 < text.len() && text[start] == 0x2d && text[start + 1] == 0x3e)
                ==> key_at(text, at, items) is None
        }),
{
    let start = past_space(text, at);
    law_space(text, at);
    reveal_strlit(")");
    assert(")"@ =~= seq![')']);
    lemma_one_char(text, start, ")"@, ')');
    lemma_arrow(text, start);
}

/// A closing brace, or the end marker, ends the entries.
pub proof fn law_entries_end(text: Seq<u8>, at: int, entries: Seq<(Value, Value)>)
    requires
        0 <= at <= text.len(),
        goes_on_with(text, past_space(text, at), MODEL_END_MARKER@) || (past_space(text, at)
            < text.len() && text[past_space(text, at)] == 0x7d),
    ensures
        map_at(text, at, entries) == Some(
            (Ok::<Seq<(Value, Value)>, Seq<char>>(entries), past_space(text, at)),
        ),
{
    law_space(text, at);
    reveal_strlit("}");
    assert("}"@ =~= seq!['}']);
    lemma_one_char(text, past_space(text, at), "}"@, '}');
}

/// The components that a key is written as: the items of a list of two or more, and otherwise the
/// key itself.
pub open spec fn components_of(key: Value) -> Seq<Value> {
    match key {
        Value::List(items) => if items.len() >= 2 {
            items
        } else {
            seq![key]
        },
        _ => seq![key],
    }
}

/// The text of a key: its components with a blank between each two of them.
pub open spec fn key_text(key: Value) -> Seq<char> {
    joined(written_items(components_of(key)), seq![' '])
}

/// The text of a value: that of a mapping holds its entries in braces.
pub open spec fn value_text(v: Value) -> Seq<char>
    decreases v, 0int,
{
    match v {
        Value::Mapping(entries) => seq!['{'] + entries_text(entries, 0) + seq![' ', '}'],
        _ => written(v),
    }
}

/// The text of the entries from `i` on: for each its key, an arrow and its value.
pub open spec fn entries_text(entries: Seq<(Value, Value)>, i: int) -> Seq<char>
    decreases entries, entries.len() - i,
{
    if 0 <= i < entries.len() {
        seq![' '] + key_text(entries[i].0) + seq![' ', '-', '>', ' '] + value_text(entries[i].1)
            + entries_text(entries, i + 1)
    } else {
        Seq::empty()
    }
}

/// Tells whether a value can stand in a key: it can be written, and does not begin like an arrow.
pub open spec fn can_be_component(v: Value) -> bool {
    &&& writable(v)
    &&& v matches Value::Literal(s) ==> !(s.len() >= 2 && s[0] == '-' && s[1] == '>')
}

/// Tells whether a key can be written: its components can stand in it, and it does not begin like
/// the end of a mapping.
pub open spec fn can_be_key(key: Value) -> bool {
    &&& forall|i: int|
        0 <= i < components_of(key).len() ==> can_be_component(#[trigger] components_of(key)[i])
    &&& components_of(key)[0] matches Value::Literal(s) ==> s[0] != '}' && s[0] != '*'
}

/// Tells whether a value can be written as that of an entry: a literal does not begin with a brace,
/// and a mapping has increasing keys.
pub open spec fn can_be_value(v: Value) -> bool
    decreases v,
{
    match v {
        Value::Literal(s) => writable(v) && s[0] != '{',
        Value::List(_) => writable(v),
        Value::Mapping(entries) => {
            &&& sorted(entries)
            &&& forall|i: int|
                0 <= i < entries.len() ==> can_be_key((#[trigger] entries[i]).0) && can_be_value(
                    entries[i].1,
                )
        },
    }
}

/// Texts from `i` on, each behind a blank but for the first, and what closes them.
spec fn spaced(texts: Seq<Seq<char>>, i: int, closing: Seq<char>) -> Seq<char>
    decreases texts.len() - i,
{
    if 0 <= i < texts.len() {
        (if i > 0 {
            seq![' ']
        } else {
            Seq::empty()
        }) + texts[i] + spaced(texts, i + 1, closing)
    } else {
        closing
    }
}

proof fn lemma_spaced(texts: Seq<Seq<char>>, i: int, closing: Seq<char>)
    requires
        0 <= i <= texts.len(),
    ensures
        joined(texts, seq![' ']) + closing == joined(texts.take(i), seq![' ']) + spaced(
            texts,
            i,
            closing,
        ),
    decreases texts.len() - i,
{
    if i < texts.len() {
        lemma_spaced(texts, i + 1, closing);
        let front = texts.take(i + 1);
        assert(front.drop_last() =~= texts.take(i));
        assert(front.last() == texts[i]);
        let head = joined(texts.take(i), seq![' ']);
        let rest = spaced(texts, i + 1, closing);
        if i > 0 {
            assert(joined(front, seq![' ']) + rest =~= head + (seq![' '] + texts[i] + rest));
        } else {
            assert(texts.take(0) =~= Seq::<Seq<char>>::empty());
            assert(joined(front, seq![' ']) == texts[0]);
            assert(texts[0] + rest =~= head + (Seq::<char>::empty() + texts[0] + rest));
        }
    } else {
        assert(texts.take(i) =~= texts);
    }
}

proof fn lemma_byte_at(text: Seq<u8>, at: int, c: char, rest: Seq<char>)
    requires
        bytes_at(text, at, seq![c] + rest),
        c <= '\u{7f}',
    ensures
        at < text.len(),
        text[at] == c as u8,
        bytes_at(text, at + 1, rest),
        past(at, seq![c] + rest) == past(at + 1, rest),
{
    lemma_bytes_split(text, at, seq![c], rest);
    lemma_one_byte(seq![c]);
    assert(text.subrange(at, past(at, seq![c]))[0] == text[at]);
    assert(seq![c as u8][0] == c as u8);
}

/// The components of a key from `i` on are read, up to the arrow behind them.
proof fn lemma_key_read(text: Seq<u8>, at: int, components: Seq<Value>, i: int)
    requires
        0 <= i <= components.len(),
        components.len() > 0,
        forall|j: int| 0 <= j < components.len() ==> can_be_component(#[trigger] components[j]),
        bytes_at(text, at, spaced(written_items(components), i, seq![' ', '-', '>'])),
    ensures
        key_at(text, at, components.take(i)) == Some(
            (
                Ok::<Value, Seq<char>>(
                    if components.len() == 1 {
                        components[0]
                    } else {
                        Value::List(components)
                    },
                ),
                past(at, spaced(written_items(components), i, seq![' ', '-', '>'])) - 2,
            ),
        ),
    decreases components.len() - i,
{
    let texts = written_items(components);
    let closing = seq![' ', '-', '>'];
    let all = spaced(texts, i, closing);
    if i < components.len() {
        let component = components[i];
        let rest = spaced(texts, i + 1, closing);
        assert(can_be_component(component));
        assert(texts[i] == written(component));
        let start = if i > 0 {
            at + 1
        } else {
            at
        };
        if i > 0 {
            assert(all =~= seq![' '] + (texts[i] + rest));
            lemma_byte_at(text, at, ' ', texts[i] + rest);
        } else {
            assert(all =~= texts[i] + rest);
        }
        lemma_bytes_split(text, start, texts[i], rest);
        let next = past(start, texts[i]);
        lemma_written_start(text, start, component);
        assert(past_space(text, start) == start);
        assert(past_space(text, at) == start);
        // behind the component comes a blank
        if i + 1 < components.len() {
            assert(rest =~= seq![' '] + (texts[i + 1] + spaced(texts, i + 2, closing)));
            lemma_byte_at(text, next, ' ', texts[i + 1] + spaced(texts, i + 2, closing));
        } else {
            assert(rest =~= seq![' '] + seq!['-', '>']);
            lemma_byte_at(text, next, ' ', seq!['-', '>']);
        }
        lemma_value_read(text, start, component);
        // no arrow stands here
        lemma_arrow(text, start);
        lemma_component_start(text, start, component, next);
        assert(components.take(i + 1) =~= components.take(i).push(component));
        law_components_read(text, at, components.take(i), component, next);
        lemma_key_read(text, next, components, i + 1);
    } else {
        assert(all =~= seq![' '] + (seq!['-'] + seq!['>']));
        lemma_byte_at(text, at, ' ', seq!['-'] + seq!['>']);
        lemma_byte_at(text, at + 1, '-', seq!['>']);
        assert(seq!['>'] =~= seq!['>'] + Seq::<char>::empty());
        lemma_byte_at(text, at + 2, '>', Seq::empty());
        assert(past_space(text, at + 1) == at + 1);
        assert(past_space(text, at) == at + 1);
        lemma_arrow(text, at + 1);
        assert(components.take(i) =~= components);
        assert(past(at, all) == at + 3);
        law_components_read(text, at, components, components[0], at);
    }
}

/// The first bytes of the text of a component are no arrow.
proof fn lemma_component_start(text: Seq<u8>, at: int, v: Value, next: int)
    requires
        can_be_component(v),
        bytes_at(text, at, written(v)),
        next == past(at, written(v)),
        next < text.len(),
        text[next] == 0x20,
    ensures
        !(text[at] == 0x2d && text[at + 1] == 0x3e),
        v matches Value::Literal(s) ==> s[0] as u8 == text[at],
        v is List ==> text[at] == 0x28,
{
    match v {
        Value::Literal(s) => {
            lemma_literal_chars(text, at, s);
            if s.len() == 1 {
                assert(text[at + 1] == 0x20);
            } else {
                assert(text[at + 1] == s[1] as u8);
                assert(s[1] <= '\u{7f}');
            }
            assert('\0' <= s[0] <= '\u{7f}');
        },
        Value::List(items) => {
            let inner = joined(written_items(items), " "@) + ")"@;
            reveal_strlit("(");
            assert("("@ =~= seq!['(']);
            assert(written(v) =~= seq!['('] + inner);
            lemma_byte_at(text, at, '(', inner);
        },
        Value::Mapping(_) => {},
    }
}

proof fn lemma_literal_chars(text: Seq<u8>, at: int, s: Seq<char>)
    requires
        writable(Value::Literal(s)),
        bytes_at(text, at, s),
    ensures
        past(at, s) == at + s.len(),
        forall|i: int|
            0 <= i < s.len() ==> '\0' <= #[trigger] s[i] <= '\u{7f}' && text[at + i] == s[i] as u8,
{
    lemma_literal_bytes(text, at, s);
    assert forall|i: int| 0 <= i < s.len() implies '\0' <= #[trigger] s[i] <= '\u{7f}' && text[at
        + i] == s[i] as u8 by {
        assert(in_literal(s[i]));
        lemma_char_start(s[i]);
        assert(s =~= s.take(i) + (seq![s[i]] + s.skip(i + 1)));
        lemma_bytes_split(text, at, s.take(i), seq![s[i]] + s.skip(i + 1));
        lemma_byte_at(text, past(at, s.take(i)), s[i], s.skip(i + 1));
        lemma_prefix_bytes(s, i);
    }
}

proof fn lemma_prefix_bytes(s: Seq<char>, i: int)
    requires
        writable(Value::Literal(s)),
        0 <= i <= s.len(),
    ensures
        encode_utf8(s.take(i)).len() == i,
    decreases i,
{
    if i > 0 {
        lemma_prefix_bytes(s, i - 1);
        assert(in_literal(s[i - 1]));
        assert(s.take(i) =~= s.take(i - 1) + seq![s[i - 1]]);
        lemma_encode_concat(s.take(i - 1), seq![s[i - 1]]);
        lemma_one_byte(seq![s[i - 1]]);
    } else {
        assert(s.take(0) =~= Seq::<char>::empty());
    }
}

/// The mapping that results where entries from `i` on are added to others, one after the other.
pub open spec fn all_inserted(
    known: Seq<(Value, Value)>,
    entries: Seq<(Value, Value)>,
    i: int,
) -> Seq<(Value, Value)>
    decreases entries.len() - i,
{
    if 0 <= i < entries.len() {
        all_inserted(inserted(known, entries[i].0, entries[i].1), entries, i + 1)
    } else {
        known
    }
}

proof fn lemma_position_end(entries: Seq<(Value, Value)>, key: Value, i: int)
    requires
        0 <= i <= entries.len(),
        forall|j: int|
            0 <= j < entries.len() ==> rank((#[trigger] entries[j]).0, key) == Rank::Less,
    ensures
        position(entries, key, i) == entries.len(),
    decreases entries.len() - i,
{
    if i < entries.len() {
        assert(rank(entries[i].0, key) == Rank::Less);
        lemma_position_end(entries, key, i + 1);
    }
}

proof fn lemma_all_inserted_sorted(entries: Seq<(Value, Value)>, i: int)
    requires
        sorted(entries),
        0 <= i <= entries.len(),
    ensures
        all_inserted(entries.take(i), entries, i) == entries,
    decreases entries.len() - i,
{
    if i < entries.len() {
        let front = entries.take(i);
        let key = entries[i].0;
        assert forall|j: int| 0 <= j < front.len() implies rank((#[trigger] front[j]).0, key)
            == Rank::Less by {
            assert(front[j] == entries[j]);
            assert(rank(entries[j].0, entries[i].0) == Rank::Less);
        }
        lemma_position_end(front, key, 0);
        assert(inserted(front, key, entries[i].1) =~= entries.take(i + 1));
        lemma_all_inserted_sorted(entries, i + 1);
    } else {
        assert(entries.take(i) =~= entries);
    }
}

proof fn lemma_all_inserted_lookup(
    known: Seq<(Value, Value)>,
    entries: Seq<(Value, Value)>,
    i: int,
    key: Value,
    j: int,
)
    requires
        sorted(known),
        0 <= i <= entries.len(),
    ensures
        sorted(all_inserted(known, entries, i)),
        i <= j < entries.len() && entries[j].0 == key && (forall|k: int|
            j < k < entries.len() ==> (#[trigger] entries[k]).0 != key) ==> lookup(
            all_inserted(known, entries, i),
            key,
        ) == Some(entries[j].1),
        (forall|k: int| i <= k < entries.len() ==> (#[trigger] entries[k]).0 != key) ==> lookup(
            all_inserted(known, entries, i),
            key,
        ) == lookup(known, key),
    decreases entries.len() - i,
{
    if i < entries.len() {
        let next = inserted(known, entries[i].0, entries[i].1);
        lemma_inserted_sorted(known, entries[i].0, entries[i].1);
        lemma_inserted_lookup(known, entries[i].0, entries[i].1, key);
        lemma_all_inserted_lookup(next, entries, i + 1, key, j);
    }
}

/// Entries that have been written are read, up to what closes them.
#[verifier::rlimit(40)]
#[verifier::spinoff_prover]
proof fn lemma_entries_read(
    text: Seq<u8>,
    at: int,
    entries: Seq<(Value, Value)>,
    i: int,
    known: Seq<(Value, Value)>,
    closing: Seq<char>,
)
    requires
        0 <= i <= entries.len(),
        forall|j: int|
            0 <= j < entries.len() ==> can_be_key((#[trigger] entries[j]).0) && can_be_value(
                entries[j].1,
            ),
        closing == seq!['}'] || closing == MODEL_END_MARKER@,
        bytes_at(text, at, entries_text(entries, i) + (seq![' '] + closing)),
    ensures
        map_at(text, at, known) == Some(
            (
                Ok::<Seq<(Value, Value)>, Seq<char>>(all_inserted(known, entries, i)),
                past(at, entries_text(entries, i)) + 1,
            ),
        ),
    decreases entries, entries.len() - i,
{
    let end = seq![' '] + closing;
    if i < entries.len() {
        let key = entries[i].0;
        let value = entries[i].1;
        let components = components_of(key);
        let texts = written_items(components);
        let tail = entries_text(entries, i + 1) + end;
        assert(can_be_key(key) && can_be_value(value));
        let arrow_text = seq![' ', '-', '>'];
        let behind_key = seq![' '] + (value_text(value) + tail);
        lemma_spaced(texts, 0, arrow_text);
        assert(texts.take(0) =~= Seq::<Seq<char>>::empty());
        let head = spaced(texts, 0, arrow_text);
        assert(joined(texts.take(0), seq![' ']) + head =~= head);
        assert(entries_text(entries, i) + end =~= seq![' '] + (head + behind_key));
        lemma_byte_at(text, at, ' ', head + behind_key);
        let start = at + 1;
        lemma_bytes_split(text, start, head, behind_key);
        // the key
        assert(components.take(0) =~= Seq::<Value>::empty());
        lemma_key_read(text, start, components, 0);
        let arrow = past(start, head) - 2;
        lemma_key_start(text, start, components, behind_key);
        assert(past_space(text, start) == start);
        assert(past_space(text, at) == start);
        lemma_arrow_bytes(text, start, texts, behind_key);
        // the value
        lemma_byte_at(text, arrow + 2, ' ', value_text(value) + tail);
        let open = arrow + 3;
        lemma_bytes_split(text, open, value_text(value), tail);
        let next = past(open, value_text(value));
        lemma_tail_blank(text, next, entries, i + 1, closing);
        match value {
            Value::Mapping(inner) => {
                let inner_text = entries_text(inner, 0) + (seq![' '] + seq!['}']);
                assert(value_text(value) =~= seq!['{'] + inner_text);
                lemma_byte_at(text, open, '{', inner_text);
                assert(past_space(text, open) == open);
                assert(past_space(text, arrow + 2) == open);
                lemma_entries_read(text, open + 1, inner, 0, Seq::empty(), seq!['}']);
                lemma_all_inserted_sorted(inner, 0);
                assert(inner.take(0) =~= Seq::<(Value, Value)>::empty());
                lemma_bytes_split(text, open + 1, entries_text(inner, 0), seq![' '] + seq!['}']);
                let close = past(open + 1, entries_text(inner, 0)) + 1;
                lemma_byte_at(text, close - 1, ' ', seq!['}']);
                assert(seq!['}'] =~= seq!['}'] + Seq::<char>::empty());
                lemma_byte_at(text, close, '}', Seq::empty());
                assert(past_space(text, close) == close);
                assert(past(close + 1, Seq::<char>::empty()) == close + 1);
                assert(next == close + 1);
            },
            _ => {
                assert(value_text(value) == written(value));
                lemma_written_start(text, open, value);
                assert(past_space(text, open) == open);
                assert(past_space(text, arrow + 2) == open);
                lemma_value_read(text, open, value);
                lemma_value_start(text, open, value, next);
            },
        }
        law_entry_read(text, at, known, key, arrow, value, next);
        lemma_entries_read(
            text,
            next,
            entries,
            i + 1,
            inserted(known, key, value),
            closing,
        );
        lemma_encode_lengths(at, entries, i, head, value, next);
    } else {
        assert(entries_text(entries, i) + end =~= end);
        lemma_byte_at(text, at, ' ', closing);
        lemma_closing(text, at + 1, closing);
        assert(past_space(text, at + 1) == at + 1);
        assert(past_space(text, at) == at + 1);
        assert(past(at, Seq::<char>::empty()) == at);
        law_entries_end(text, at, known);
    }
}

/// What closes entries is no white space, and ends them.
proof fn lemma_closing(text: Seq<u8>, at: int, closing: Seq<char>)
    requires
        closing == seq!['}'] || closing == MODEL_END_MARKER@,
        bytes_at(text, at, closing),
    ensures
        at < text.len(),
        !is_space(text[at]),
        goes_on_with(text, at, MODEL_END_MARKER@) || text[at] == 0x7d,
{
    reveal_strlit("*** END_MODEL");
    if closing == seq!['}'] {
        assert(seq!['}'] =~= seq!['}'] + Seq::<char>::empty());
        lemma_byte_at(text, at, '}', Seq::empty());
    } else {
        let rest = closing.drop_first();
        assert(closing =~= seq!['*'] + rest);
        lemma_byte_at(text, at, '*', rest);
    }
}

/// Behind the value of an entry comes a blank.
proof fn lemma_tail_blank(
    text: Seq<u8>,
    at: int,
    entries: Seq<(Value, Value)>,
    i: int,
    closing: Seq<char>,
)
    requires
        0 <= i <= entries.len(),
        bytes_at(text, at, entries_text(entries, i) + (seq![' '] + closing)),
    ensures
        at < text.len(),
        text[at] == 0x20,
{
    let end = seq![' '] + closing;
    if i < entries.len() {
        let rest = key_text(entries[i].0) + seq![' ', '-', '>', ' '] + value_text(entries[i].1)
            + entries_text(entries, i + 1) + end;
        assert(entries_text(entries, i) + end =~= seq![' '] + rest);
        lemma_byte_at(text, at, ' ', rest);
    } else {
        assert(entries_text(entries, i) + end =~= seq![' '] + closing);
        lemma_byte_at(text, at, ' ', closing);
    }
}

/// A key begins neither with white space nor like the end of a mapping.
proof fn lemma_key_start(
    text: Seq<u8>,
    at: int,
    components: Seq<Value>,
    rest: Seq<char>,
)
    requires
        components.len() > 0,
        forall|j: int| 0 <= j < components.len() ==> can_be_component(#[trigger] components[j]),
        components[0] matches Value::Literal(s) ==> s[0] != '}' && s[0] != '*',
        bytes_at(text, at, spaced(written_items(components), 0, seq![' ', '-', '>']) + rest),
    ensures
        at < text.len(),
        !is_space(text[at]),
        text[at] != 0x7d,
        !goes_on_with(text, at, MODEL_END_MARKER@),
{
    let texts = written_items(components);
    let closing = seq![' ', '-', '>'];
    let first = components[0];
    assert(can_be_component(first));
    assert(texts[0] == written(first));
    let more = spaced(texts, 1, closing);
    assert(spaced(texts, 0, closing) =~= texts[0] + more);
    lemma_bytes_split(text, at, spaced(texts, 0, closing), rest);
    lemma_bytes_split(text, at, texts[0], more);
    lemma_written_start(text, at, first);
    let next = past(at, texts[0]);
    if components.len() > 1 {
        assert(more =~= seq![' '] + (texts[1] + spaced(texts, 2, closing)));
        lemma_byte_at(text, next, ' ', texts[1] + spaced(texts, 2, closing));
    } else {
        assert(more =~= seq![' '] + seq!['-', '>']);
        lemma_byte_at(text, next, ' ', seq!['-', '>']);
    }
    lemma_component_start(text, at, first, next);
    if first is Literal {
        lemma_literal_chars(text, at, first->Literal_0);
        assert(first->Literal_0[0] <= '\u{7f}');
    }
    if goes_on_with(text, at, MODEL_END_MARKER@) {
        reveal_strlit("*** END_MODEL");
        let tail = MODEL_END_MARKER@.drop_first();
        assert(MODEL_END_MARKER@ =~= seq!['*'] + tail);
        lemma_byte_at(text, at, '*', tail);
    }
}

/// Behind the components of a key stands the arrow.
proof fn lemma_arrow_bytes(text: Seq<u8>, at: int, texts: Seq<Seq<char>>, rest: Seq<char>)
    requires
        bytes_at(text, at, spaced(texts, 0, seq![' ', '-', '>']) + rest),
    ensures
        ({
            let arrow = past(at, spaced(texts, 0, seq![' ', '-', '>'])) - 2;
            &&& at < arrow
            &&& arrow + 1 < text.len() || rest.len() == 0
            &&& text[arrow] == 0x2d
            &&& text[arrow + 1] == 0x3e
            &&& bytes_at(text, arrow + 2, rest)
        }),
{
    let closing = seq![' ', '-', '>'];
    lemma_spaced(texts, 0, closing);
    assert(texts.take(0) =~= Seq::<Seq<char>>::empty());
    let head = spaced(texts, 0, closing);
    assert(joined(texts.take(0), seq![' ']) + head =~= head);
    let front = joined(texts, seq![' ']);
    lemma_bytes_split(text, at, head, rest);
    assert(head =~= front + closing);
    lemma_bytes_split(text, at, front, closing);
    let p = past(at, front);
    assert(closing =~= seq![' '] + (seq!['-'] + seq!['>']));
    lemma_byte_at(text, p, ' ', seq!['-'] + seq!['>']);
    lemma_byte_at(text, p + 1, '-', seq!['>']);
    assert(seq!['>'] =~= seq!['>'] + Seq::<char>::empty());
    lemma_byte_at(text, p + 2, '>', Seq::empty());
    assert(past(p + 3, Seq::<char>::empty()) == p + 3);
}

/// A value of an entry that is no mapping does not begin with a brace.
proof fn lemma_value_start(text: Seq<u8>, at: int, v: Value, next: int)
    requires
        can_be_value(v),
        !(v is Mapping),
        bytes_at(text, at, written(v)),
        next == past(at, written(v)),
    ensures
        at < text.len(),
        text[at] != 0x7b,
{
    lemma_written_start(text, at, v);
    match v {
        Value::Literal(s) => {
            lemma_literal_chars(text, at, s);
            assert('\0' <= s[0] <= '\u{7f}');
        },
        Value::List(items) => {
            let inner = joined(written_items(items), " "@) + ")"@;
            reveal_strlit("(");
            assert("("@ =~= seq!['(']);
            assert(written(v) =~= seq!['('] + inner);
            lemma_byte_at(text, at, '(', inner);
        },
        Value::Mapping(_) => {},
    }
}

proof fn lemma_encode_lengths(
    at: int,
    entries: Seq<(Value, Value)>,
    i: int,
    head: Seq<char>,
    value: Value,
    next: int,
)
    requires
        0 <= i < entries.len(),
        value == entries[i].1,
        head == spaced(
            written_items(components_of(entries[i].0)),
            0,
            seq![' ', '-', '>'],
        ),
        next == past(past(at + 1, head) + 1, value_text(value)),
    ensures
        past(at, entries_text(entries, i)) == past(next, entries_text(entries, i + 1)),
{
    let texts = written_items(components_of(entries[i].0));
    let arrow_text = seq![' ', '-', '>'];
    lemma_spaced(texts, 0, arrow_text);
    assert(texts.take(0) =~= Seq::<Seq<char>>::empty());
    assert(joined(texts.take(0), seq![' ']) + head =~= head);
    let rest = entries_text(entries, i + 1);
    assert(entries_text(entries, i) =~= seq![' '] + (head + (seq![' '] + (value_text(value)
        + rest))));
    lemma_encode_concat(seq![' '], head + (seq![' '] + (value_text(value) + rest)));
    lemma_encode_concat(head, seq![' '] + (value_text(value) + rest));
    lemma_encode_concat(seq![' '], value_text(value) + rest);
    lemma_encode_concat(value_text(value), rest);
    lemma_one_byte(seq![' ']);
}

/// Tells whether entries can be written.
pub open spec fn can_be_entries(entries: Seq<(Value, Value)>) -> bool {
    forall|i: int|
        0 <= i < entries.len() ==> can_be_key((#[trigger] entries[i]).0) && can_be_value(
            entries[i].1,
        )
}

/// Entries that are written are read back: each key is mapped to the value of the last entry with
/// that key, whether that is a literal, a list or a mapping, and no other key is mapped to
/// anything. Where the keys increase, the entries come out as they were.
pub proof fn law_mapping_read_back(entries: Seq<(Value, Value)>, key: Value, j: int)
    requires
        can_be_entries(entries),
    ensures
        map_at(
            encode_utf8(entries_text(entries, 0) + seq![' ', '}']),
            0,
            Seq::empty(),
        ) matches Some((Ok(all), end)) && {
            &&& end == encode_utf8(entries_text(entries, 0)).len() + 1
            &&& sorted(all)
            &&& 0 <= j < entries.len() && entries[j].0 == key && (forall|k: int|
                j < k < entries.len() ==> (#[trigger] entries[k]).0 != key) ==> lookup(all, key)
                == Some(entries[j].1)
            &&& (forall|k: int| 0 <= k < entries.len() ==> (#[trigger] entries[k]).0 != key)
                ==> lookup(all, key) is None
            &&& sorted(entries) ==> all == entries
        },
{
    let written_text = entries_text(entries, 0) + seq![' ', '}'];
    let text = encode_utf8(written_text);
    assert(written_text =~= entries_text(entries, 0) + (seq![' '] + seq!['}']));
    assert(text.subrange(0, text.len() as int) =~= text);
    lemma_entries_read(text, 0, entries, 0, Seq::empty(), seq!['}']);
    lemma_all_inserted_lookup(Seq::empty(), entries, 0, key, j);
    if sorted(entries) {
        lemma_all_inserted_sorted(entries, 0);
        assert(entries.take(0) =~= Seq::<(Value, Value)>::empty());
    }
}

/// A model that is written, with the end marker behind its variables, is read back with each
/// variable mapped to its value.
pub proof fn law_model_read_back(env: GlobalEnv, entries: Seq<(Value, Value)>)
    requires
        can_be_entries(entries),
        sorted(entries),
    ensures
        parsed_model(env, entries_text(entries, 0) + seq![' '] + "*** END_MODEL"@) == Some(
            model_of(env, entries),
        ),
{
    let written_text = entries_text(entries, 0) + seq![' '] + "*** END_MODEL"@;
    let text = encode_utf8(written_text);
    assert(written_text =~= entries_text(entries, 0) + (seq![' '] + MODEL_END_MARKER@));
    assert(text.subrange(0, text.len() as int) =~= text);
    lemma_entries_read(text, 0, entries, 0, Seq::empty(), MODEL_END_MARKER@);
    lemma_all_inserted_sorted(entries, 0);
    assert(entries.take(0) =~= Seq::<(Value, Value)>::empty());
    lemma_bytes_split(text, 0, entries_text(entries, 0), seq![' '] + MODEL_END_MARKER@);
    let p = past(0, entries_text(entries, 0));
    lemma_byte_at(text, p, ' ', MODEL_END_MARKER@);
    lemma_closing(text, p + 1, MODEL_END_MARKER@);
    assert(past_space(text, p + 1) == p + 1);
}

} // verus!
