//! The parser of Boogie models.
use vstd::prelude::*;
use vstd::string::*;
use vstd::utf8::*;

use crate::order::{inserted, lemma_inserted_entry, lemma_inserted_sorted, sorted};
use crate::text::{
    ascii_text, joined, lemma_ascii_text, lemma_boundary_after, lemma_boundary_range,
    lemma_encode_concat, lemma_same_bytes, slice,
};
use crate::value::{ModelValue, Value, ValueMap, lemma_list_view, lemma_mapping_view, values_of};

verus! {

/// The text that ends a model.
pub const MODEL_END_MARKER: &'static str = "*** END_MODEL";

/// Represents parser for a boogie model: the text, and the byte that comes next.
pub struct ModelParser<'s> {
    pub input: &'s str,
    pub at: usize,
}

/// Represents error resulting from model parsing.
#[derive(Debug, PartialEq, Eq)]
pub struct ModelParseError(pub String);

impl View for ModelParseError {
    type V = Seq<char>;

    open spec fn view(&self) -> Seq<char> {
        self.0@
    }
}

impl ModelParseError {
    /// Makes an error from its message.
    pub fn new(s: &str) -> (res: ModelParseError)
        ensures
            res@ == s@,
    {
        ModelParseError(s.to_string())
    }
}

/// Tells whether a byte is white space: a blank, a carriage return, a line feed or a tab.
pub open spec fn is_space(byte: u8) -> bool {
    byte == 0x20 || byte == 0x0d || byte == 0x0a || byte == 0x09
}

/// The first position from `at` on that holds no white space.
pub open spec fn past_space(text: Seq<u8>, at: int) -> int
    decreases text.len() - at,
{
    if 0 <= at < text.len() && is_space(text[at]) {
        past_space(text, at + 1)
    } else {
        at
    }
}

/// Tells whether the text goes on with `s` at the position `at`.
pub open spec fn goes_on_with(text: Seq<u8>, at: int, s: Seq<char>) -> bool {
    0 <= at <= past(at, s) <= text.len() && text.subrange(at, past(at, s)) == encode_utf8(s)
}

/// The position after a text `s` that stands at the position `at`.
pub open spec fn past(at: int, s: Seq<char>) -> int {
    at + encode_utf8(s).len()
}

/// Tells whether a byte ends a literal: white space or a closing parenthesis.
pub open spec fn ends_literal(byte: u8) -> bool {
    is_space(byte) || byte == 0x29
}

/// The first position from `at` on that does not belong to a literal.
pub open spec fn literal_end(text: Seq<u8>, at: int) -> int
    decreases text.len() - at,
{
    if 0 <= at < text.len() && !ends_literal(text[at]) {
        literal_end(text, at + 1)
    } else {
        at
    }
}

/// The literal at the position `at`, and the position after it. There is none where the text
/// goes on with characters outside of ASCII.
pub open spec fn literal_at(text: Seq<u8>, at: int) -> Option<(Value, int)> {
    let end = literal_end(text, at);
    if forall|i: int| at <= i < end ==> #[trigger] text[i] < 0x80 {
        Some((Value::Literal(ascii_text(text, at, end)), end))
    } else {
        None
    }
}

/// What `expect` says where the text does not go on with `s` at the position `at`: it quotes the
/// next 80 bytes. There is no such message where these end within a character.
pub open spec fn unexpected(text: Seq<u8>, at: int, s: Seq<char>) -> Option<Seq<char>> {
    let end = if at + 80 <= text.len() {
        at + 80
    } else {
        text.len() as int
    };
    if is_char_boundary(text, end) {
        Some("expected `"@ + s + "` (at `"@ + decode_utf8(text.subrange(at, end)) + "...`)"@)
    } else {
        None
    }
}

/// What comes of expecting `s` at the position `at`, and the position after it.
pub open spec fn expected_at(text: Seq<u8>, at: int, s: Seq<char>) -> Option<
    (Result<(), Seq<char>>, int),
> {
    let start = past_space(text, at);
    if goes_on_with(text, start, s) {
        Some((Ok(()), past(start, s)))
    } else {
        match unexpected(text, start, s) {
            Some(message) => Some((Err(message), start)),
            None => None,
        }
    }
}

/// White space is skipped forwards, within the text.
pub proof fn lemma_past_space(text: Seq<u8>, at: int)
    ensures
        at <= past_space(text, at),
        at <= text.len() ==> past_space(text, at) <= text.len(),
    decreases text.len() - at,
{
    if 0 <= at < text.len() && is_space(text[at]) {
        lemma_past_space(text, at + 1);
    }
}

/// The value at the position `at`, and the position after it. There is none where no value ends:
/// a list is not closed, or a literal leaves ASCII.
pub open spec fn value_at(text: Seq<u8>, at: int) -> Option<(Value, int)>
    decreases text.len() - at, 0nat,
{
    let start = past_space(text, at);
    if goes_on_with(text, start, "("@) {
        let inside = past(start, "("@);
        if at < inside {
            items_at(text, inside, Seq::empty())
        } else {
            None
        }
    } else {
        literal_at(text, start)
    }
}

/// The list of the given items and of those from the position `at` on, up to the closing
/// parenthesis, and the position after that. There is none where the items do not get there.
pub open spec fn items_at(text: Seq<u8>, at: int, items: Seq<Value>) -> Option<(Value, int)>
    decreases text.len() - at, 1nat,
{
    let start = past_space(text, at);
    proof {
        lemma_past_space(text, at);
    }
    if goes_on_with(text, start, ")"@) {
        Some((Value::List(items), past(start, ")"@)))
    } else {
        match value_at(text, start) {
            Some((item, next)) => if start < next <= text.len() {
                items_at(text, next, items.push(item))
            } else {
                None
            },
            None => None,
        }
    }
}

/// The key made of the given components and of those from the position `at` on, up to the arrow,
/// and the position of the arrow. There is none where the components do not get there.
pub open spec fn key_at(text: Seq<u8>, at: int, components: Seq<Value>) -> Option<
    (Result<Value, Seq<char>>, int),
>
    decreases text.len() - at,
{
    let start = past_space(text, at);
    proof {
        lemma_past_space(text, at);
    }
    if goes_on_with(text, start, "->"@) {
        if components.len() == 0 {
            Some((Err("expected at least one component of a key"@), start))
        } else if components.len() == 1 {
            Some((Ok(components[0]), start))
        } else {
            Some((Ok(Value::List(components)), start))
        }
    } else {
        match value_at(text, start) {
            Some((component, next)) => if start < next <= text.len() {
                key_at(text, next, components.push(component))
            } else {
                None
            },
            None => None,
        }
    }
}

/// The mapping made of the given entries and of those from the position `at` on, up to a closing
/// brace or the end marker, and the position of that. There is none where the entries do not get
/// there.
pub open spec fn map_at(text: Seq<u8>, at: int, entries: Seq<(Value, Value)>) -> Option<
    (Result<Seq<(Value, Value)>, Seq<char>>, int),
>
    decreases text.len() - at,
{
    let start = past_space(text, at);
    if goes_on_with(text, start, "}"@) || goes_on_with(text, start, MODEL_END_MARKER@) {
        Some((Ok(entries), start))
    } else {
        match key_at(text, start, Seq::empty()) {
            None => None,
            Some((Err(message), next)) => Some((Err(message), next)),
            Some((Ok(key), next)) => match expected_at(text, next, "->"@) {
                None => None,
                Some((Err(message), next)) => Some((Err(message), next)),
                Some((Ok(()), next)) => {
                    let open = past_space(text, next);
                    if goes_on_with(text, open, "{"@) {
                        let inside = past(open, "{"@);
                        if at < inside <= text.len() {
                            match map_at(text, inside, Seq::empty()) {
                                None => None,
                                Some((Err(message), next)) => Some((Err(message), next)),
                                Some((Ok(inner), next)) => match expected_at(text, next, "}"@) {
                                    None => None,
                                    Some((Err(message), next)) => Some((Err(message), next)),
                                    Some((Ok(()), next)) => if at < next <= text.len() {
                                        map_at(
                                            text,
                                            next,
                                            inserted(entries, key, Value::Mapping(inner)),
                                        )
                                    } else {
                                        None
                                    },
                                },
                            }
                        } else {
                            None
                        }
                    } else {
                        match value_at(text, open) {
                            None => None,
                            Some((value, next)) => if at < next <= text.len() {
                                map_at(text, next, inserted(entries, key, value))
                            } else {
                                None
                            },
                        }
                    }
                },
            },
        }
    }
}

proof fn lemma_ascii_step(text: Seq<u8>, at: int)
    requires
        valid_utf8(text),
        is_char_boundary(text, at),
        0 <= at < text.len(),
        text[at] < 0x80,
    ensures
        is_char_boundary(text, at + 1),
{
    lemma_ascii_text(text, at, at + 1);
    encode_utf8_valid_utf8(ascii_text(text, at, at + 1));
    lemma_boundary_after(text, at, text.subrange(at, at + 1));
}

proof fn lemma_past(text: Seq<u8>, at: int, s: Seq<char>)
    requires
        valid_utf8(text),
        is_char_boundary(text, at),
        goes_on_with(text, at, s),
    ensures
        is_char_boundary(text, past(at, s)),
{
    encode_utf8_valid_utf8(s);
    lemma_boundary_after(text, at, encode_utf8(s));
}

/// A text that is not empty takes at least one byte.
proof fn lemma_past_grows(at: int, s: Seq<char>)
    requires
        s.len() > 0,
    ensures
        at < past(at, s),
{
    encode_utf8_first_scalar(s);
}

/// Tells whether `bytes` go on with `wanted` at the position `at`.
fn bytes_go_on_with(bytes: &[u8], at: usize, wanted: &[u8]) -> (res: bool)
    requires
        at <= bytes@.len(),
    ensures
        res == (at + wanted@.len() <= bytes@.len() && bytes@.subrange(
            at as int,
            at + wanted@.len(),
        ) == wanted@),
{
    let len = bytes.len();
    if len - at < wanted.len() {
        return false;
    }
    let ghost window = bytes@.subrange(at as int, at + wanted@.len());
    let mut i: usize = 0;
    while i < wanted.len()
        invariant
            len == bytes@.len(),
            at + wanted@.len() <= len,
            i <= wanted@.len(),
            window == bytes@.subrange(at as int, at + wanted@.len()),
            forall|j: int| 0 <= j < i ==> window[j] == wanted@[j],
        decreases wanted@.len() - i,
    {
        if bytes[at + i] != wanted[i] {
            assert(window[i as int] != wanted@[i as int]);
            return false;
        }
        i += 1;
    }
    assert(window =~= wanted@);
    true
}

impl<'s> ModelParser<'s> {
    /// The bytes of the text.
    pub open spec fn bytes(&self) -> Seq<u8> {
        encode_utf8(self.input@)
    }

    /// The parser stands at the start of a character, or at the end of the text.
    pub open spec fn wf(&self) -> bool {
        is_char_boundary(self.bytes(), self.at as int)
    }

    /// Makes a parser that stands at the start of a text.
    pub fn new(input: &'s str) -> (res: ModelParser<'s>)
        ensures
            res.wf(),
            res.input == input,
            res.at == 0,
    {
        proof {
            encode_utf8_valid_utf8(input@);
        }
        ModelParser { input, at: 0 }
    }

    /// Skips white space.
    pub fn skip_space(&mut self)
        requires
            old(self).wf(),
        ensures
            final(self).wf(),
            final(self).input == old(self).input,
            final(self).at == past_space(old(self).bytes(), old(self).at as int),
    {
        proof {
            encode_utf8_valid_utf8(self.input@);
            lemma_boundary_range(self.bytes(), self.at as int);
        }
        let bytes = self.input.as_bytes();
        while self.at < bytes.len() && (bytes[self.at] == 0x20 || bytes[self.at] == 0x0d
            || bytes[self.at] == 0x0a || bytes[self.at] == 0x09)
            invariant
                bytes@ == self.bytes(),
                valid_utf8(bytes@),
                self.wf(),
                self.at <= bytes@.len(),
                self.input == old(self).input,
                past_space(bytes@, old(self).at as int) == past_space(bytes@, self.at as int),
            decreases bytes@.len() - self.at,
        {
            proof {
                lemma_ascii_step(bytes@, self.at as int);
            }
            self.at += 1;
        }
    }

    /// Tells whether the text goes on with `s` after white space.
    pub fn looking_at(&mut self, s: &str) -> (res: bool)
        requires
            old(self).wf(),
        ensures
            final(self).wf(),
            final(self).input == old(self).input,
            final(self).at == past_space(old(self).bytes(), old(self).at as int),
            res == goes_on_with(old(self).bytes(), final(self).at as int, s@),
    {
        self.skip_space();
        proof {
            encode_utf8_valid_utf8(self.input@);
            lemma_boundary_range(self.bytes(), self.at as int);
        }
        bytes_go_on_with(self.input.as_bytes(), self.at, s.as_bytes())
    }

    /// Skips `s`, and white space before it, if that is how the text goes on.
    pub fn looking_at_then_consume(&mut self, s: &str) -> (res: bool)
        requires
            old(self).wf(),
        ensures
            final(self).wf(),
            final(self).input == old(self).input,
            res == goes_on_with(
                old(self).bytes(),
                past_space(old(self).bytes(), old(self).at as int),
                s@,
            ),
            final(self).at == (if res {
                past(past_space(old(self).bytes(), old(self).at as int), s@)
            } else {
                past_space(old(self).bytes(), old(self).at as int)
            }),
    {
        if self.looking_at(s) {
            proof {
                encode_utf8_valid_utf8(self.input@);
                lemma_past(self.bytes(), self.at as int, s@);
            }
            let end = self.input.as_bytes().len();
            assert(past(self.at as int, s@) <= end);
            self.at += s.as_bytes().len();
            true
        } else {
            false
        }
    }

    /// Skips `s`, and white space before it, or says that the text does not go on like that.
    /// Gives nothing where that cannot be said, as the quoted text ends within a character.
    pub fn try_expect(&mut self, s: &str) -> (res: Option<Result<(), ModelParseError>>)
        requires
            old(self).wf(),
        ensures
            final(self).wf(),
            final(self).input == old(self).input,
            expected_at(old(self).bytes(), old(self).at as int, s@) == match res {
                Some(Ok(())) => Some((Ok(()), final(self).at as int)),
                Some(Err(error)) => Some((Err(error@), final(self).at as int)),
                None => None,
            },
    {
        if self.looking_at_then_consume(s) {
            return Some(Ok(()));
        }
        let ghost text = self.bytes();
        proof {
            encode_utf8_valid_utf8(self.input@);
            lemma_boundary_range(text, self.at as int);
            is_char_boundary_start_end_of_seq(text);
        }
        let len = self.input.as_bytes().len();
        let end = if len - self.at >= 80 {
            self.at + 80
        } else {
            len
        };
        if !self.input.is_char_boundary(end) {
            return None;
        }
        let quoted = slice(self.input, self.at, end);
        proof {
            encode_utf8_decode_utf8(quoted@);
        }
        let mut message = "expected `".to_string();
        message.append(s);
        message.append("` (at `");
        message.append(quoted);
        message.append("...`)");
        Some(Err(ModelParseError(message)))
    }

    /// Skips `s`, and white space before it, or says that the text does not go on like that.
    pub fn expect(&mut self, s: &str) -> (res: Result<(), ModelParseError>)
        requires
            old(self).wf(),
            expected_at(old(self).bytes(), old(self).at as int, s@) is Some,
        ensures
            final(self).wf(),
            final(self).input == old(self).input,
            expected_at(old(self).bytes(), old(self).at as int, s@) == Some(
                match res {
                    Ok(()) => (Ok(()), final(self).at as int),
                    Err(error) => (Err(error@), final(self).at as int),
                },
            ),
    {
        self.try_expect(s).unwrap()
    }

    /// Reads the literal at which the parser stands. Gives nothing where the literal leaves ASCII.
    fn try_parse_literal(&mut self) -> (res: Option<ModelValue>)
        requires
            old(self).wf(),
        ensures
            final(self).input == old(self).input,
            res is Some ==> final(self).wf(),
            literal_at(old(self).bytes(), old(self).at as int) == match res {
                Some(value) => Some((value@, final(self).at as int)),
                None => None,
            },
    {
        let bytes = self.input.as_bytes();
        let start = self.at;
        proof {
            encode_utf8_valid_utf8(self.input@);
            lemma_boundary_range(bytes@, start as int);
        }
        while self.at < bytes.len() && !(bytes[self.at] == 0x20 || bytes[self.at] == 0x0d
            || bytes[self.at] == 0x0a || bytes[self.at] == 0x09 || bytes[self.at] == 0x29)
            invariant
                bytes@ == self.bytes(),
                valid_utf8(bytes@),
                self.wf(),
                start <= self.at <= bytes@.len(),
                start == old(self).at,
                self.input == old(self).input,
                literal_end(bytes@, start as int) == literal_end(bytes@, self.at as int),
                forall|i: int| start <= i < self.at ==> #[trigger] bytes@[i] < 0x80,
            decreases bytes@.len() - self.at,
        {
            if bytes[self.at] >= 0x80 {
                proof {
                    lemma_literal_end(bytes@, self.at as int + 1);
                    assert(start <= self.at < literal_end(bytes@, start as int));
                    assert(!(bytes@[self.at as int] < 0x80));
                }
                return None;
            }
            proof {
                lemma_ascii_step(bytes@, self.at as int);
            }
            self.at += 1;
        }
        let text = slice(self.input, start, self.at);
        proof {
            lemma_ascii_text(bytes@, start as int, self.at as int);
            lemma_same_bytes(text@, ascii_text(bytes@, start as int, self.at as int));
        }
        Some(ModelValue::Literal(text.to_string()))
    }

    /// Reads a value. Gives nothing where no value ends.
    pub fn try_parse_value(&mut self) -> (res: Option<ModelValue>)
        requires
            old(self).wf(),
        ensures
            final(self).input == old(self).input,
            res is Some ==> final(self).wf(),
            value_at(old(self).bytes(), old(self).at as int) == match res {
                Some(value) => Some((value@, final(self).at as int)),
                None => None,
            },
        decreases old(self).bytes().len() - old(self).at,
    {
        let ghost text = self.bytes();
        let ghost at = self.at as int;
        proof {
            reveal_strlit("(");
            reveal_strlit(")");
            encode_utf8_valid_utf8(self.input@);
            lemma_past_space(text, at);
            lemma_past_grows(past_space(text, at), "("@);
        }
        if self.looking_at_then_consume("(") {
            let mut items: Vec<ModelValue> = Vec::new();
            assert(values_of(items@) =~= Seq::<Value>::empty());
            loop
                invariant
                    text == self.bytes(),
                    self.input == old(self).input,
                    self.wf(),
                    valid_utf8(text),
                    at == old(self).at,
                    at < self.at <= text.len(),
                    value_at(text, at) == items_at(text, self.at as int, values_of(items@)),
                decreases text.len() - self.at,
            {
                proof {
                    lemma_past_space(text, self.at as int);
                }
                if self.looking_at_then_consume(")") {
                    proof {
                        lemma_list_view(items);
                    }
                    return Some(ModelValue::List(items));
                }
                let start = self.at;
                match self.try_parse_value() {
                    Some(item) => {
                        proof {
                            lemma_boundary_range(text, self.at as int);
                            assert(values_of(items@.push(item)) =~= values_of(items@).push(item@));
                        }
                        items.push(item);
                    },
                    None => {
                        return None;
                    },
                }
                if self.at <= start {
                    return None;
                }
            }
        } else {
            self.try_parse_literal()
        }
    }

    /// Reads a value.
    pub fn parse_value(&mut self) -> (res: Result<ModelValue, ModelParseError>)
        requires
            old(self).wf(),
            value_at(old(self).bytes(), old(self).at as int) is Some,
        ensures
            final(self).wf(),
            final(self).input == old(self).input,
            res is Ok,
            value_at(old(self).bytes(), old(self).at as int) == Some(
                (res->Ok_0@, final(self).at as int),
            ),
    {
        Ok(self.try_parse_value().unwrap())
    }

    /// Reads a key, up to the arrow. Gives nothing where the components of the key do not get
    /// there.
    pub fn try_parse_key(&mut self) -> (res: Option<Result<ModelValue, ModelParseError>>)
        requires
            old(self).wf(),
        ensures
            final(self).input == old(self).input,
            res is Some ==> final(self).wf(),
            key_at(old(self).bytes(), old(self).at as int, Seq::empty()) == match res {
                Some(Ok(key)) => Some((Ok(key@), final(self).at as int)),
                Some(Err(error)) => Some((Err(error@), final(self).at as int)),
                None => None,
            },
    {
        let ghost text = self.bytes();
        let ghost at = self.at as int;
        let mut components: Vec<ModelValue> = Vec::new();
        assert(values_of(components@) =~= Seq::<Value>::empty());
        proof {
            encode_utf8_valid_utf8(self.input@);
        }
        loop
            invariant
                text == self.bytes(),
                self.input == old(self).input,
                self.wf(),
                valid_utf8(text),
                at == old(self).at,
                key_at(text, at, Seq::empty()) == key_at(
                    text,
                    self.at as int,
                    values_of(components@),
                ),
            decreases text.len() - self.at,
        {
            proof {
                lemma_boundary_range(text, self.at as int);
                lemma_past_space(text, self.at as int);
            }
            if self.looking_at("->") {
                if components.len() == 0 {
                    return Some(
                        Err(ModelParseError::new("expected at least one component of a key")),
                    );
                } else if components.len() == 1 {
                    return Some(Ok(components.pop().unwrap()));
                } else {
                    proof {
                        lemma_list_view(components);
                    }
                    return Some(Ok(ModelValue::List(components)));
                }
            }
            let start = self.at;
            match self.try_parse_value() {
                Some(component) => {
                    proof {
                        lemma_boundary_range(text, self.at as int);
                        assert(values_of(components@.push(component)) =~= values_of(
                            components@,
                        ).push(component@));
                    }
                    components.push(component);
                },
                None => {
                    return None;
                },
            }
            if self.at <= start {
                return None;
            }
        }
    }

    /// Reads a key, up to the arrow.
    pub fn parse_key(&mut self) -> (res: Result<ModelValue, ModelParseError>)
        requires
            old(self).wf(),
            key_at(old(self).bytes(), old(self).at as int, Seq::empty()) is Some,
        ensures
            final(self).wf(),
            final(self).input == old(self).input,
            key_at(old(self).bytes(), old(self).at as int, Seq::empty()) == Some(
                match res {
                    Ok(key) => (Ok(key@), final(self).at as int),
                    Err(error) => (Err(error@), final(self).at as int),
                },
            ),
    {
        self.try_parse_key().unwrap()
    }

    /// Reads the entries of a mapping, up to a closing brace or the end marker. Gives nothing where
    /// the entries do not get there.
    pub fn try_parse_map(&mut self) -> (res: Option<Result<ModelValue, ModelParseError>>)
        requires
            old(self).wf(),
        ensures
            final(self).input == old(self).input,
            res is Some ==> final(self).wf(),
            match map_at(old(self).bytes(), old(self).at as int, Seq::empty()) {
                Some((Ok(entries), next)) => {
                    &&& res matches Some(Ok(ModelValue::Mapping(m)))
                    &&& m@ == entries
                    &&& final(self).at == next
                },
                Some((Err(message), next)) => {
                    &&& res matches Some(Err(error))
                    &&& error@ == message
                    &&& final(self).at == next
                },
                None => res is None,
            },
        decreases old(self).bytes().len() - old(self).at,
    {
        let ghost text = self.bytes();
        let ghost at = self.at as int;
        let mut map = ValueMap::new();
        proof {
            encode_utf8_valid_utf8(self.input@);
            lemma_boundary_range(text, at);
        }
        loop
            invariant
                text == self.bytes(),
                self.input == old(self).input,
                self.wf(),
                valid_utf8(text),
                at == old(self).at,
                at <= self.at <= text.len(),
                map_at(text, at, Seq::empty()) == map_at(text, self.at as int, map@),
            decreases text.len() - self.at,
        {
            let ghost begin = self.at as int;
            proof {
                lemma_past_space(text, begin);
                lemma_past_space_twice(text, begin);
                lemma_key_grows(text, past_space(text, begin), Seq::empty());
            }
            if self.looking_at("}") {
                return Some(Ok(ModelValue::Mapping(map)));
            }
            if self.looking_at(MODEL_END_MARKER) {
                return Some(Ok(ModelValue::Mapping(map)));
            }
            let key = match self.try_parse_key() {
                Some(Ok(key)) => key,
                Some(Err(error)) => {
                    return Some(Err(error));
                },
                None => {
                    return None;
                },
            };
            let ghost arrow = self.at as int;
            match self.try_expect("->") {
                Some(Ok(())) => {},
                Some(Err(error)) => {
                    return Some(Err(error));
                },
                None => {
                    return None;
                },
            }
            proof {
                lemma_past_space(text, arrow);
                reveal_strlit("->");
                lemma_past_grows(past_space(text, arrow), "->"@);
                lemma_past_space(text, self.at as int);
            }
            let value = if self.looking_at_then_consume("{") {
                proof {
                    lemma_boundary_range(text, self.at as int);
                    lemma_map_grows(text, self.at as int, Seq::empty());
                }
                let inner = match self.try_parse_map() {
                    Some(Ok(inner)) => inner,
                    Some(Err(error)) => {
                        return Some(Err(error));
                    },
                    None => {
                        return None;
                    },
                };
                proof {
                    lemma_past_space(text, self.at as int);
                }
                match self.try_expect("}") {
                    Some(Ok(())) => {},
                    Some(Err(error)) => {
                        return Some(Err(error));
                    },
                    None => {
                        return None;
                    },
                }
                proof {
                    lemma_mapping_view(inner->Mapping_0);
                }
                inner
            } else {
                let ghost open = self.at as int;
                proof {
                    lemma_past_space_twice(text, open);
                    lemma_value_grows(text, open);
                }
                match self.try_parse_value() {
                    Some(value) => value,
                    None => {
                        return None;
                    },
                }
            };
            proof {
                lemma_boundary_range(text, self.at as int);
            }
            map.insert(key, value);
        }
    }

    /// Reads the entries of a mapping, up to a closing brace or the end marker.
    pub fn parse_map(&mut self) -> (res: Result<ModelValue, ModelParseError>)
        requires
            old(self).wf(),
            map_at(old(self).bytes(), old(self).at as int, Seq::empty()) is Some,
        ensures
            final(self).wf(),
            final(self).input == old(self).input,
            match map_at(old(self).bytes(), old(self).at as int, Seq::empty())->0 {
                (Ok(entries), next) => {
                    &&& res matches Ok(ModelValue::Mapping(m))
                    &&& m@ == entries
                    &&& final(self).at == next
                },
                (Err(message), next) => {
                    &&& res matches Err(error)
                    &&& error@ == message
                    &&& final(self).at == next
                },
            },
    {
        self.try_parse_map().unwrap()
    }
}

/// Where white space has been skipped, there is no more to skip.
proof fn lemma_past_space_twice(text: Seq<u8>, at: int)
    ensures
        past_space(text, past_space(text, at)) == past_space(text, at),
    decreases text.len() - at,
{
    if 0 <= at < text.len() && is_space(text[at]) {
        lemma_past_space_twice(text, at + 1);
    }
}

proof fn lemma_literal_end(text: Seq<u8>, at: int)
    ensures
        at <= literal_end(text, at),
        at <= text.len() ==> literal_end(text, at) <= text.len(),
    decreases text.len() - at,
{
    if 0 <= at < text.len() && !ends_literal(text[at]) {
        lemma_literal_end(text, at + 1);
    }
}

/// Tells whether the mappings in a value, at any depth, have increasing keys.
pub open spec fn ordered(v: Value) -> bool
    decreases v,
{
    match v {
        Value::Literal(_) => true,
        Value::List(items) => forall|i: int|
            0 <= i < items.len() ==> ordered(#[trigger] items[i]),
        Value::Mapping(entries) => sorted(entries) && forall|i: int|
            0 <= i < entries.len() ==> ordered((#[trigger] entries[i]).0) && ordered(entries[i].1),
    }
}

proof fn lemma_value_ordered(text: Seq<u8>, at: int)
    ensures
        value_at(text, at) matches Some((v, _)) ==> ordered(v),
    decreases text.len() - at, 0nat,
{
    let start = past_space(text, at);
    if goes_on_with(text, start, "("@) {
        let inside = past(start, "("@);
        if at < inside {
            lemma_items_ordered(text, inside, Seq::empty());
        }
    }
}

proof fn lemma_items_ordered(text: Seq<u8>, at: int, items: Seq<Value>)
    requires
        forall|i: int| 0 <= i < items.len() ==> ordered(#[trigger] items[i]),
    ensures
        items_at(text, at, items) matches Some((v, _)) ==> ordered(v),
    decreases text.len() - at, 1nat,
{
    let start = past_space(text, at);
    lemma_past_space(text, at);
    if !goes_on_with(text, start, ")"@) {
        lemma_value_ordered(text, start);
        if let Some((item, next)) = value_at(text, start) {
            if start < next <= text.len() {
                lemma_items_ordered(text, next, items.push(item));
            }
        }
    }
}

proof fn lemma_key_ordered(text: Seq<u8>, at: int, components: Seq<Value>)
    requires
        forall|i: int| 0 <= i < components.len() ==> ordered(#[trigger] components[i]),
    ensures
        key_at(text, at, components) matches Some((Ok(key), _)) ==> ordered(key),
    decreases text.len() - at,
{
    let start = past_space(text, at);
    lemma_past_space(text, at);
    if !goes_on_with(text, start, "->"@) {
        lemma_value_ordered(text, start);
        if let Some((component, next)) = value_at(text, start) {
            if start < next <= text.len() {
                lemma_key_ordered(text, next, components.push(component));
            }
        }
    }
}

proof fn lemma_inserted_ordered(entries: Seq<(Value, Value)>, key: Value, value: Value)
    requires
        ordered(Value::Mapping(entries)),
        ordered(key),
        ordered(value),
    ensures
        ordered(Value::Mapping(inserted(entries, key, value))),
{
    lemma_inserted_sorted(entries, key, value);
    let after = inserted(entries, key, value);
    assert forall|i: int| 0 <= i < after.len() implies ordered((#[trigger] after[i]).0) && ordered(
        after[i].1,
    ) by {
        lemma_inserted_entry(entries, key, value, i);
    }
}

proof fn lemma_entries_ordered(text: Seq<u8>, at: int, entries: Seq<(Value, Value)>)
    requires
        ordered(Value::Mapping(entries)),
    ensures
        map_at(text, at, entries) matches Some((Ok(all), _)) ==> ordered(Value::Mapping(all)),
    decreases text.len() - at,
{
    let start = past_space(text, at);
    if !(goes_on_with(text, start, "}"@) || goes_on_with(text, start, MODEL_END_MARKER@)) {
        lemma_key_ordered(text, start, Seq::empty());
        if let Some((Ok(key), next)) = key_at(text, start, Seq::empty()) {
            if let Some((Ok(()), next)) = expected_at(text, next, "->"@) {
                let open = past_space(text, next);
                if goes_on_with(text, open, "{"@) {
                    let inside = past(open, "{"@);
                    if at < inside <= text.len() {
                        assert(ordered(Value::Mapping(Seq::empty())));
                        lemma_entries_ordered(text, inside, Seq::empty());
                        if let Some((Ok(inner), next)) = map_at(text, inside, Seq::empty()) {
                            if let Some((Ok(()), next)) = expected_at(text, next, "}"@) {
                                if at < next <= text.len() {
                                    lemma_inserted_ordered(entries, key, Value::Mapping(inner));
                                    lemma_entries_ordered(
                                        text,
                                        next,
                                        inserted(entries, key, Value::Mapping(inner)),
                                    );
                                }
                            }
                        }
                    }
                } else {
                    lemma_value_ordered(text, open);
                    if let Some((value, next)) = value_at(text, open) {
                        if at < next <= text.len() {
                            lemma_inserted_ordered(entries, key, value);
                            lemma_entries_ordered(text, next, inserted(entries, key, value));
                        }
                    }
                }
            }
        }
    }
}

/// In whatever the parser reads as a mapping, each key stands once, and by increasing order; that
/// holds of the mappings inside of it too.
pub proof fn lemma_parsed_ordered(text: Seq<u8>, at: int)
    ensures
        map_at(text, at, Seq::empty()) matches Some((Ok(entries), _)) ==> ordered(
            Value::Mapping(entries),
        ),
{
    assert(ordered(Value::Mapping(Seq::empty())));
    lemma_entries_ordered(text, at, Seq::empty());
}

proof fn lemma_value_grows(text: Seq<u8>, at: int)
    ensures
        value_at(text, at) matches Some((_, next)) ==> at <= next,
    decreases text.len() - at, 0nat,
{
    let start = past_space(text, at);
    lemma_past_space(text, at);
    lemma_literal_end(text, start);
    if goes_on_with(text, start, "("@) {
        let inside = past(start, "("@);
        if at < inside {
            lemma_items_grow(text, inside, Seq::empty());
        }
    }
}

proof fn lemma_items_grow(text: Seq<u8>, at: int, items: Seq<Value>)
    ensures
        items_at(text, at, items) matches Some((_, next)) ==> at <= next,
    decreases text.len() - at, 1nat,
{
    let start = past_space(text, at);
    lemma_past_space(text, at);
    if !goes_on_with(text, start, ")"@) {
        if let Some((item, next)) = value_at(text, start) {
            if start < next <= text.len() {
                lemma_items_grow(text, next, items.push(item));
            }
        }
    }
}

proof fn lemma_key_grows(text: Seq<u8>, at: int, components: Seq<Value>)
    ensures
        key_at(text, at, components) matches Some((_, next)) ==> at <= next,
    decreases text.len() - at,
{
    let start = past_space(text, at);
    lemma_past_space(text, at);
    if !goes_on_with(text, start, "->"@) {
        if let Some((component, next)) = value_at(text, start) {
            if start < next <= text.len() {
                lemma_key_grows(text, next, components.push(component));
            }
        }
    }
}

/// White space makes no difference in front of a value, of the components of a key, of the entries
/// of a mapping, or of an expected text.
pub proof fn lemma_space_ignored(
    text: Seq<u8>,
    at: int,
    components: Seq<Value>,
    entries: Seq<(Value, Value)>,
    s: Seq<char>,
)
    ensures
        value_at(text, past_space(text, at)) == value_at(text, at),
        key_at(text, past_space(text, at), components) == key_at(text, at, components),
        map_at(text, past_space(text, at), entries) == map_at(text, at, entries),
        expected_at(text, past_space(text, at), s) == expected_at(text, at, s),
{
    let start = past_space(text, at);
    lemma_past_space(text, at);
    lemma_past_space_twice(text, at);
    reveal_strlit("(");
    lemma_past_grows(start, "("@);
    lemma_key_grows(text, start, Seq::empty());
    if let Some((Ok(key), next)) = key_at(text, start, Seq::empty()) {
        if let Some((Ok(()), behind)) = expected_at(text, next, "->"@) {
            lemma_past_space(text, next);
            reveal_strlit("->");
            lemma_past_grows(past_space(text, next), "->"@);
            lemma_past_space(text, behind);
            lemma_value_grows(text, past_space(text, behind));
            lemma_map_grows(text, past(past_space(text, behind), "{"@), Seq::empty());
            let inside = past(past_space(text, behind), "{"@);
            if let Some((Ok(inner), close)) = map_at(text, inside, Seq::empty()) {
                lemma_past_space(text, close);
            }
        }
    }
}

proof fn lemma_map_grows(text: Seq<u8>, at: int, entries: Seq<(Value, Value)>)
    ensures
        map_at(text, at, entries) matches Some((Ok(_), next)) ==> at <= next,
    decreases text.len() - at,
{
    let start = past_space(text, at);
    lemma_past_space(text, at);
    if !(goes_on_with(text, start, "}"@) || goes_on_with(text, start, MODEL_END_MARKER@)) {
        if let Some((Ok(key), next)) = key_at(text, start, Seq::empty()) {
            if let Some((Ok(()), next)) = expected_at(text, next, "->"@) {
                let open = past_space(text, next);
                if goes_on_with(text, open, "{"@) {
                    let inside = past(open, "{"@);
                    if at < inside <= text.len() {
                        if let Some((Ok(inner), next)) = map_at(text, inside, Seq::empty()) {
                            if let Some((Ok(()), next)) = expected_at(text, next, "}"@) {
                                if at < next <= text.len() {
                                    lemma_map_grows(
                                        text,
                                        next,
                                        inserted(entries, key, Value::Mapping(inner)),
                                    );
                                }
                            }
                        }
                    }
                } else {
                    if let Some((value, next)) = value_at(text, open) {
                        if at < next <= text.len() {
                            lemma_map_grows(text, next, inserted(entries, key, value));
                        }
                    }
                }
            }
        }
    }
}

proof fn lemma_literal_extent(text: Seq<u8>, at: int)
    requires
        0 <= at,
    ensures
        forall|i: int| at <= i < literal_end(text, at) ==> !ends_literal(#[trigger] text[i]),
        literal_end(text, at) < text.len() ==> ends_literal(text[literal_end(text, at)]),
    decreases text.len() - at,
{
    if at < text.len() && !ends_literal(text[at]) {
        lemma_literal_extent(text, at + 1);
    }
}

/// A literal takes everything until the next white space or closing parenthesis.
pub proof fn lemma_literal(text: Seq<u8>, at: int)
    requires
        0 <= at <= text.len(),
    ensures
        value_at(text, at) matches Some((Value::Literal(s), end)) ==> {
            let start = past_space(text, at);
            &&& start <= end <= text.len()
            &&& encode_utf8(s) == text.subrange(start, end)
            &&& forall|i: int| start <= i < end ==> !ends_literal(#[trigger] text[i])
            &&& end < text.len() ==> ends_literal(text[end])
        },
{
    let start = past_space(text, at);
    lemma_past_space(text, at);
    lemma_literal_end(text, start);
    lemma_literal_extent(text, start);
    if goes_on_with(text, start, "("@) {
        let inside = past(start, "("@);
        lemma_items_are_list(text, inside, Seq::empty());
    } else if literal_at(text, start) is Some {
        lemma_ascii_text(text, start, literal_end(text, start));
    }
}

proof fn lemma_items_are_list(text: Seq<u8>, at: int, items: Seq<Value>)
    ensures
        items_at(text, at, items) matches Some((v, _)) ==> v is List,
    decreases text.len() - at,
{
    let start = past_space(text, at);
    lemma_past_space(text, at);
    if !goes_on_with(text, start, ")"@) {
        if let Some((item, next)) = value_at(text, start) {
            if start < next <= text.len() {
                lemma_items_are_list(text, next, items.push(item));
            }
        }
    }
}

/// The text of a value: a literal as it is, and a list as its items between parentheses, with a
/// blank between each two of them. Of a mapping there is no text.
pub open spec fn written(v: Value) -> Seq<char>
    decreases v,
{
    match v {
        Value::Literal(s) => s,
        Value::List(items) => "("@ + joined(written_items(items), " "@) + ")"@,
        Value::Mapping(_) => Seq::empty(),
    }
}

/// The texts of the items of a list.
pub open spec fn written_items(items: Seq<Value>) -> Seq<Seq<char>>
    decreases items,
{
    Seq::new(
        items.len(),
        |i: int|
            if 0 <= i < items.len() {
                written(items[i])
            } else {
                arbitrary()
            },
    )
}

/// Tells whether a character may stand in a literal: it is in ASCII, and neither white space nor a
/// closing parenthesis.
pub open spec fn in_literal(c: char) -> bool {
    c <= '\u{7f}' && c != ' ' && c != '\r' && c != '\n' && c != '\t' && c != ')'
}

/// Tells whether a value is made of lists, and of literals that are not empty and do not begin with
/// an opening parenthesis.
pub open spec fn writable(v: Value) -> bool
    decreases v,
{
    match v {
        Value::Literal(s) => s.len() > 0 && s[0] != '(' && forall|i: int|
            0 <= i < s.len() ==> in_literal(#[trigger] s[i]),
        Value::List(items) => forall|i: int|
            0 <= i < items.len() ==> writable(#[trigger] items[i]),
        Value::Mapping(_) => false,
    }
}

/// The text of the items from `i` on of a list, each behind a blank but for the first of the list,
/// and of the closing parenthesis.
spec fn tail_text(texts: Seq<Seq<char>>, i: int) -> Seq<char>
    decreases texts.len() - i,
{
    if 0 <= i < texts.len() {
        (if i > 0 {
            " "@
        } else {
            Seq::empty()
        }) + texts[i] + tail_text(texts, i + 1)
    } else {
        ")"@
    }
}

proof fn lemma_tail_text(texts: Seq<Seq<char>>, i: int)
    requires
        0 <= i <= texts.len(),
    ensures
        joined(texts, " "@) + ")"@ == joined(texts.take(i), " "@) + tail_text(texts, i),
    decreases texts.len() - i,
{
    if i < texts.len() {
        lemma_tail_text(texts, i + 1);
        let front = texts.take(i + 1);
        assert(front.drop_last() =~= texts.take(i));
        assert(front.last() == texts[i]);
        let head = joined(texts.take(i), " "@);
        let rest = tail_text(texts, i + 1);
        if i > 0 {
            assert(joined(front, " "@) + rest =~= head + (" "@ + texts[i] + rest));
        } else {
            assert(texts.take(0) =~= Seq::<Seq<char>>::empty());
            assert(joined(front, " "@) == texts[0]);
            assert(texts[0] + rest =~= head + (Seq::<char>::empty() + texts[0] + rest));
        }
    } else {
        assert(texts.take(i) =~= texts);
    }
}

/// No character comes before the first one.
pub proof fn lemma_char_start(c: char)
    ensures
        '\0' <= c,
{
}

proof fn lemma_ascii(s: Seq<char>)
    requires
        forall|i: int| 0 <= i < s.len() ==> #[trigger] s[i] <= '\u{7f}',
    ensures
        is_ascii_chars(s),
{
    assert forall|i: int| 0 <= i < s.len() implies '\0' <= #[trigger] s[i] <= '\u{7f}' by {
        lemma_char_start(s[i]);
    }
}

/// One ASCII character takes one byte.
pub proof fn lemma_one_byte(s: Seq<char>)
    requires
        s.len() == 1,
        s[0] <= '\u{7f}',
    ensures
        encode_utf8(s) == seq![s[0] as u8],
{
    lemma_ascii(s);
    is_ascii_chars_encode_utf8(s);
    assert(encode_utf8(s) =~= seq![s[0] as u8]);
}

/// Tells whether a text has the bytes of another at the position `at`.
pub open spec fn bytes_at(text: Seq<u8>, at: int, s: Seq<char>) -> bool {
    0 <= at && past(at, s) <= text.len() && text.subrange(at, past(at, s)) == encode_utf8(s)
}

/// Two texts behind each other stand behind each other in the bytes.
pub proof fn lemma_bytes_split(text: Seq<u8>, at: int, a: Seq<char>, b: Seq<char>)
    requires
        bytes_at(text, at, a + b),
    ensures
        bytes_at(text, at, a),
        bytes_at(text, past(at, a), b),
        past(at, a + b) == past(past(at, a), b),
{
    lemma_encode_concat(a, b);
    let whole = text.subrange(at, past(at, a + b));
    assert(text.subrange(at, past(at, a)) =~= whole.subrange(0, encode_utf8(a).len() as int));
    assert(encode_utf8(a) =~= (encode_utf8(a) + encode_utf8(b)).subrange(
        0,
        encode_utf8(a).len() as int,
    ));
    assert(text.subrange(past(at, a), past(at, a + b)) =~= whole.subrange(
        encode_utf8(a).len() as int,
        whole.len() as int,
    ));
    assert(encode_utf8(b) =~= (encode_utf8(a) + encode_utf8(b)).subrange(
        encode_utf8(a).len() as int,
        whole.len() as int,
    ));
}

/// The bytes of a literal stand one by one in the text.
pub proof fn lemma_literal_bytes(text: Seq<u8>, at: int, s: Seq<char>)
    requires
        writable(Value::Literal(s)),
        bytes_at(text, at, s),
    ensures
        past(at, s) == at + s.len(),
        forall|i: int|
            at <= i < past(at, s) ==> #[trigger] text[i] < 0x80 && !ends_literal(text[i]),
        text[at] != 0x28,
{
    assert forall|i: int| 0 <= i < s.len() implies #[trigger] s[i] <= '\u{7f}' by {
        assert(in_literal(s[i]));
    }
    lemma_ascii(s);
    is_ascii_chars_encode_utf8(s);
    let part = text.subrange(at, past(at, s));
    assert forall|i: int| at <= i < past(at, s) implies #[trigger] text[i] < 0x80 && !ends_literal(
        text[i],
    ) by {
        assert(part[i - at] == text[i]);
        assert(s[i - at] as u8 == encode_utf8(s)[i - at]);
        assert(in_literal(s[i - at]));
    }
    assert(part[0] == text[at]);
    assert(s[0] as u8 == encode_utf8(s)[0]);
    assert(in_literal(s[0]));
}

/// A literal goes up to the first byte that ends it.
pub proof fn lemma_literal_ends(text: Seq<u8>, at: int, end: int)
    requires
        0 <= at <= end <= text.len(),
        forall|i: int| at <= i < end ==> !ends_literal(#[trigger] text[i]),
        end == text.len() || ends_literal(text[end]),
    ensures
        literal_end(text, at) == end,
    decreases end - at,
{
    if at < end {
        assert(!ends_literal(text[at]));
        lemma_literal_ends(text, at + 1, end);
    }
}

/// What the text of a value begins with: neither white space nor a closing parenthesis.
pub proof fn lemma_written_start(text: Seq<u8>, at: int, v: Value)
    requires
        writable(v),
        bytes_at(text, at, written(v)),
    ensures
        at < past(at, written(v)),
        !ends_literal(text[at]),
{
    match v {
        Value::Literal(s) => {
            lemma_literal_bytes(text, at, s);
        },
        Value::List(items) => {
            lemma_open(text, at, items);
        },
        Value::Mapping(_) => {},
    }
}

/// The text of a list begins with an opening parenthesis, and goes on with its items.
proof fn lemma_open(text: Seq<u8>, at: int, items: Seq<Value>)
    requires
        bytes_at(text, at, written(Value::List(items))),
    ensures
        text[at] == 0x28,
        goes_on_with(text, at, "("@),
        past(at, "("@) == at + 1,
        bytes_at(text, at + 1, tail_text(written_items(items), 0)),
        past(at, written(Value::List(items))) == past(at + 1, tail_text(written_items(items), 0)),
{
    let texts = written_items(items);
    lemma_tail_text(texts, 0);
    assert(texts.take(0) =~= Seq::<Seq<char>>::empty());
    assert(joined(texts.take(0), " "@) + tail_text(texts, 0) =~= tail_text(texts, 0));
    assert(written(Value::List(items)) =~= "("@ + (joined(texts, " "@) + ")"@));
    reveal_strlit("(");
    lemma_one_byte("("@);
    lemma_bytes_split(text, at, "("@, tail_text(texts, 0));
    assert(text.subrange(at, past(at, "("@))[0] == text[at]);
}

/// Where a text has the bytes of a written value that is followed by what ends a literal, or by
/// nothing, that value is read there.
pub proof fn lemma_value_read(text: Seq<u8>, at: int, v: Value)
    requires
        writable(v),
        bytes_at(text, at, written(v)),
        past(at, written(v)) == text.len() || ends_literal(text[past(at, written(v))]),
    ensures
        value_at(text, at) == Some((v, past(at, written(v)))),
    decreases v, 0int,
{
    lemma_written_start(text, at, v);
    let end = past(at, written(v));
    assert(past_space(text, at) == at);
    match v {
        Value::Literal(s) => {
            lemma_literal_bytes(text, at, s);
            reveal_strlit("(");
            lemma_one_byte("("@);
            if goes_on_with(text, at, "("@) {
                assert(text.subrange(at, past(at, "("@))[0] == text[at]);
            }
            lemma_literal_ends(text, at, end);
            lemma_ascii_text(text, at, end);
            lemma_same_bytes(ascii_text(text, at, end), s);
        },
        Value::List(items) => {
            lemma_open(text, at, items);
            assert(items.take(0) =~= Seq::<Value>::empty());
            lemma_items_read(text, at + 1, items, 0);
        },
        Value::Mapping(_) => {},
    }
}

proof fn lemma_items_read(text: Seq<u8>, at: int, items: Seq<Value>, i: int)
    requires
        0 <= i <= items.len(),
        forall|j: int| 0 <= j < items.len() ==> writable(#[trigger] items[j]),
        bytes_at(text, at, tail_text(written_items(items), i)),
    ensures
        items_at(text, at, items.take(i)) == Some(
            (Value::List(items), past(at, tail_text(written_items(items), i))),
        ),
    decreases items, items.len() - i,
{
    let texts = written_items(items);
    reveal_strlit(")");
    lemma_one_byte(")"@);
    if i < items.len() {
        let item = items[i];
        let rest = tail_text(texts, i + 1);
        let gap = if i > 0 {
            " "@
        } else {
            Seq::empty()
        };
        assert(texts[i] == written(item));
        assert(tail_text(texts, i) =~= gap + (written(item) + rest));
        reveal_strlit(" ");
        lemma_one_byte(" "@);
        lemma_bytes_split(text, at, gap, written(item) + rest);
        let start = past(at, gap);
        lemma_bytes_split(text, start, written(item), rest);
        let next = past(start, written(item));
        lemma_written_start(text, start, item);
        if i > 0 {
            assert(text.subrange(at, past(at, " "@))[0] == text[at]);
            assert(past_space(text, at + 1) == at + 1);
        } else {
            assert(encode_utf8(gap).len() == 0);
        }
        assert(past_space(text, at) == start);
        if goes_on_with(text, start, ")"@) {
            assert(text.subrange(start, past(start, ")"@))[0] == text[start]);
        }
        lemma_tail_start(text, next, texts, i + 1);
        lemma_value_read(text, start, item);
        assert(items.take(i + 1) =~= items.take(i).push(item));
        lemma_items_read(text, next, items, i + 1);
    } else {
        assert(items.take(i) =~= items);
        assert(text.subrange(at, past(at, ")"@))[0] == text[at]);
        assert(past_space(text, at) == at);
    }
}

/// Behind an item of a list comes what ends a literal.
proof fn lemma_tail_start(text: Seq<u8>, at: int, texts: Seq<Seq<char>>, i: int)
    requires
        0 < i <= texts.len(),
        bytes_at(text, at, tail_text(texts, i)),
    ensures
        at < text.len(),
        ends_literal(text[at]),
{
    if i < texts.len() {
        assert(tail_text(texts, i) =~= " "@ + (texts[i] + tail_text(texts, i + 1)));
        lemma_bytes_split(text, at, " "@, texts[i] + tail_text(texts, i + 1));
        reveal_strlit(" ");
        lemma_one_byte(" "@);
        assert(text.subrange(at, past(at, " "@))[0] == text[at]);
    } else {
        reveal_strlit(")");
        lemma_one_byte(")"@);
        assert(text.subrange(at, past(at, ")"@))[0] == text[at]);
    }
}

/// A value that is written is read back as it was, up to the end of the text.
pub proof fn lemma_written_read_back(v: Value)
    requires
        writable(v),
    ensures
        value_at(encode_utf8(written(v)), 0) == Some(
            (v, encode_utf8(written(v)).len() as int),
        ),
{
    let text = encode_utf8(written(v));
    assert(text.subrange(0, text.len() as int) =~= text);
    lemma_value_read(text, 0, v);
}

} // verus!
