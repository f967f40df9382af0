//! The order of model values, and mappings that are kept in it.
use vstd::prelude::*;
use vstd::utf8::*;

use crate::value::{ModelValue, Value, ValueMap, lemma_list_view, lemma_mapping_view, values_of};

verus! {

/// How one value stands to another.
#[derive(Debug, Clone, Copy, PartialEq, Eq, Structural)]
pub enum Rank {
    Less,
    Equal,
    Greater,
}

/// The rank of `b` to `a` where `r` is that of `a` to `b`.
pub open spec fn flip(r: Rank) -> Rank {
    match r {
        Rank::Less => Rank::Greater,
        Rank::Equal => Rank::Equal,
        Rank::Greater => Rank::Less,
    }
}

/// The rank of two integers.
pub open spec fn int_rank(a: int, b: int) -> Rank {
    if a < b {
        Rank::Less
    } else if a == b {
        Rank::Equal
    } else {
        Rank::Greater
    }
}

/// The rank of two byte strings from position `i` on: that of the first bytes that differ, and
/// a string ranks below those that it begins.
pub open spec fn bytes_rank(a: Seq<u8>, b: Seq<u8>, i: int) -> Rank
    decreases a.len() - i,
{
    if 0 <= i < a.len() && i < b.len() && a[i] == b[i] {
        bytes_rank(a, b, i + 1)
    } else if 0 <= i < a.len() && i < b.len() {
        int_rank(a[i] as int, b[i] as int)
    } else {
        int_rank(a.len() as int, b.len() as int)
    }
}

/// Literals rank below lists, and lists below mappings.
pub open spec fn class(v: Value) -> int {
    match v {
        Value::Literal(_) => 0,
        Value::List(_) => 1,
        Value::Mapping(_) => 2,
    }
}

/// The rank of two values. Literals are compared by their UTF-8 bytes, lists item by item,
/// mappings entry by entry.
pub open spec fn rank(a: Value, b: Value) -> Rank
    decreases a, 0int,
{
    match (a, b) {
        (Value::Literal(x), Value::Literal(y)) => bytes_rank(encode_utf8(x), encode_utf8(y), 0),
        (Value::List(x), Value::List(y)) => list_rank(x, y, 0),
        (Value::Mapping(x), Value::Mapping(y)) => entries_rank(x, y, 0),
        _ => int_rank(class(a), class(b)),
    }
}

/// The rank of two lists from item `i` on.
pub open spec fn list_rank(a: Seq<Value>, b: Seq<Value>, i: int) -> Rank
    decreases a, a.len() - i,
{
    if 0 <= i < a.len() && i < b.len() {
        match rank(a[i], b[i]) {
            Rank::Equal => list_rank(a, b, i + 1),
            r => r,
        }
    } else {
        int_rank(a.len() as int, b.len() as int)
    }
}

/// The rank of two sequences of entries from entry `i` on.
pub open spec fn entries_rank(a: Seq<(Value, Value)>, b: Seq<(Value, Value)>, i: int) -> Rank
    decreases a, a.len() - i,
{
    if 0 <= i < a.len() && i < b.len() {
        match rank(a[i].0, b[i].0) {
            Rank::Equal => match rank(a[i].1, b[i].1) {
                Rank::Equal => entries_rank(a, b, i + 1),
                r => r,
            },
            r => r,
        }
    } else {
        int_rank(a.len() as int, b.len() as int)
    }
}

proof fn lemma_bytes_equal(a: Seq<u8>, b: Seq<u8>, i: int)
    requires
        0 <= i <= a.len(),
        i <= b.len(),
        forall|j: int| 0 <= j < i ==> a[j] == b[j],
    ensures
        bytes_rank(a, b, i) == Rank::Equal <==> a == b,
    decreases a.len() - i,
{
    if i < a.len() && i < b.len() && a[i] == b[i] {
        lemma_bytes_equal(a, b, i + 1);
    } else if a.len() == b.len() && i == a.len() {
        assert(a =~= b);
    }
}

proof fn lemma_bytes_flip(a: Seq<u8>, b: Seq<u8>, i: int)
    requires
        0 <= i,
    ensures
        bytes_rank(b, a, i) == flip(bytes_rank(a, b, i)),
    decreases a.len() - i,
{
    if i < a.len() && i < b.len() && a[i] == b[i] {
        lemma_bytes_flip(a, b, i + 1);
    }
}

proof fn lemma_bytes_chain(a: Seq<u8>, b: Seq<u8>, c: Seq<u8>, i: int)
    requires
        0 <= i <= a.len(),
        i <= b.len(),
        i <= c.len(),
        bytes_rank(a, b, i) == Rank::Less,
        bytes_rank(b, c, i) == Rank::Less,
    ensures
        bytes_rank(a, c, i) == Rank::Less,
    decreases a.len() - i,
{
    if i < a.len() && i < b.len() && i < c.len() && a[i] == b[i] && b[i] == c[i] {
        lemma_bytes_chain(a, b, c, i + 1);
    }
}

/// Two values rank equal exactly when they are the same value.
pub proof fn lemma_rank_equal(a: Value, b: Value)
    ensures
        rank(a, b) == Rank::Equal <==> a == b,
    decreases a, 0int,
{
    match (a, b) {
        (Value::Literal(x), Value::Literal(y)) => {
            lemma_bytes_equal(encode_utf8(x), encode_utf8(y), 0);
            encode_utf8_decode_utf8(x);
            encode_utf8_decode_utf8(y);
        },
        (Value::List(x), Value::List(y)) => {
            lemma_list_equal(x, y, 0);
        },
        (Value::Mapping(x), Value::Mapping(y)) => {
            lemma_entries_equal(x, y, 0);
        },
        _ => {},
    }
}

proof fn lemma_list_equal(a: Seq<Value>, b: Seq<Value>, i: int)
    requires
        0 <= i <= a.len(),
        i <= b.len(),
        forall|j: int| 0 <= j < i ==> a[j] == b[j],
    ensures
        list_rank(a, b, i) == Rank::Equal <==> a == b,
    decreases a, a.len() - i,
{
    if i < a.len() && i < b.len() {
        lemma_rank_equal(a[i], b[i]);
        if rank(a[i], b[i]) == Rank::Equal {
            lemma_list_equal(a, b, i + 1);
        }
    } else if a.len() == b.len() {
        assert(a =~= b);
    }
}

proof fn lemma_entries_equal(a: Seq<(Value, Value)>, b: Seq<(Value, Value)>, i: int)
    requires
        0 <= i <= a.len(),
        i <= b.len(),
        forall|j: int| 0 <= j < i ==> a[j] == b[j],
    ensures
        entries_rank(a, b, i) == Rank::Equal <==> a == b,
    decreases a, a.len() - i,
{
    if i < a.len() && i < b.len() {
        lemma_rank_equal(a[i].0, b[i].0);
        lemma_rank_equal(a[i].1, b[i].1);
        if rank(a[i].0, b[i].0) == Rank::Equal && rank(a[i].1, b[i].1) == Rank::Equal {
            lemma_entries_equal(a, b, i + 1);
        }
    } else if a.len() == b.len() {
        assert(a =~= b);
    }
}

/// The rank of `b` to `a` is the opposite of that of `a` to `b`.
pub proof fn lemma_rank_flip(a: Value, b: Value)
    ensures
        rank(b, a) == flip(rank(a, b)),
    decreases a, 0int,
{
    match (a, b) {
        (Value::Literal(x), Value::Literal(y)) => {
            lemma_bytes_flip(encode_utf8(x), encode_utf8(y), 0);
        },
        (Value::List(x), Value::List(y)) => {
            lemma_list_flip(x, y, 0);
        },
        (Value::Mapping(x), Value::Mapping(y)) => {
            lemma_entries_flip(x, y, 0);
        },
        _ => {},
    }
}

proof fn lemma_list_flip(a: Seq<Value>, b: Seq<Value>, i: int)
    requires
        0 <= i,
    ensures
        list_rank(b, a, i) == flip(list_rank(a, b, i)),
    decreases a, a.len() - i,
{
    if i < a.len() && i < b.len() {
        lemma_rank_flip(a[i], b[i]);
        lemma_list_flip(a, b, i + 1);
    }
}

proof fn lemma_entries_flip(a: Seq<(Value, Value)>, b: Seq<(Value, Value)>, i: int)
    requires
        0 <= i,
    ensures
        entries_rank(b, a, i) == flip(entries_rank(a, b, i)),
    decreases a, a.len() - i,
{
    if i < a.len() && i < b.len() {
        lemma_rank_flip(a[i].0, b[i].0);
        lemma_rank_flip(a[i].1, b[i].1);
        lemma_entries_flip(a, b, i + 1);
    }
}

/// A value that ranks below another ranks below all that the other ranks below.
pub proof fn lemma_rank_chain(a: Value, b: Value, c: Value)
    requires
        rank(a, b) == Rank::Less,
        rank(b, c) == Rank::Less,
    ensures
        rank(a, c) == Rank::Less,
    decreases a, 0int,
{
    match (a, b, c) {
        (Value::Literal(x), Value::Literal(y), Value::Literal(z)) => {
            lemma_bytes_chain(encode_utf8(x), encode_utf8(y), encode_utf8(z), 0);
        },
        (Value::List(x), Value::List(y), Value::List(z)) => {
            lemma_list_chain(x, y, z, 0);
        },
        (Value::Mapping(x), Value::Mapping(y), Value::Mapping(z)) => {
            lemma_entries_chain(x, y, z, 0);
        },
        _ => {},
    }
}

proof fn lemma_list_chain(a: Seq<Value>, b: Seq<Value>, c: Seq<Value>, i: int)
    requires
        0 <= i <= a.len(),
        i <= b.len(),
        i <= c.len(),
        list_rank(a, b, i) == Rank::Less,
        list_rank(b, c, i) == Rank::Less,
    ensures
        list_rank(a, c, i) == Rank::Less,
    decreases a, a.len() - i,
{
    if i < a.len() && i < b.len() && i < c.len() {
        lemma_rank_equal(a[i], b[i]);
        lemma_rank_equal(b[i], c[i]);
        lemma_rank_equal(a[i], c[i]);
        if a[i] == b[i] && b[i] == c[i] {
            lemma_list_chain(a, b, c, i + 1);
        } else if a[i] != b[i] && b[i] != c[i] {
            lemma_rank_chain(a[i], b[i], c[i]);
        }
    }
}

proof fn lemma_entries_chain(
    a: Seq<(Value, Value)>,
    b: Seq<(Value, Value)>,
    c: Seq<(Value, Value)>,
    i: int,
)
    requires
        0 <= i <= a.len(),
        i <= b.len(),
        i <= c.len(),
        entries_rank(a, b, i) == Rank::Less,
        entries_rank(b, c, i) == Rank::Less,
    ensures
        entries_rank(a, c, i) == Rank::Less,
    decreases a, a.len() - i,
{
    if i < a.len() && i < b.len() && i < c.len() {
        lemma_rank_equal(a[i].0, b[i].0);
        lemma_rank_equal(b[i].0, c[i].0);
        lemma_rank_equal(a[i].0, c[i].0);
        if a[i].0 == b[i].0 && b[i].0 == c[i].0 {
            lemma_rank_equal(a[i].1, b[i].1);
            lemma_rank_equal(b[i].1, c[i].1);
            lemma_rank_equal(a[i].1, c[i].1);
            if a[i].1 == b[i].1 && b[i].1 == c[i].1 {
                lemma_entries_chain(a, b, c, i + 1);
            } else if a[i].1 != b[i].1 && b[i].1 != c[i].1 {
                lemma_rank_chain(a[i].1, b[i].1, c[i].1);
            }
        } else if a[i].0 != b[i].0 && b[i].0 != c[i].0 {
            lemma_rank_chain(a[i].0, b[i].0, c[i].0);
        }
    }
}

/// Compares two strings by their UTF-8 bytes.
pub fn compare_str(a: &str, b: &str) -> (res: Rank)
    ensures
        res == bytes_rank(encode_utf8(a@), encode_utf8(b@), 0),
{
    let x = a.as_bytes();
    let y = b.as_bytes();
    let mut i: usize = 0;
    while i < x.len() && i < y.len() && x[i] == y[i]
        invariant
            i <= x@.len(),
            i <= y@.len(),
            bytes_rank(x@, y@, 0) == bytes_rank(x@, y@, i as int),
        decreases x@.len() - i,
    {
        i += 1;
    }
    if i < x.len() && i < y.len() {
        if x[i] < y[i] {
            Rank::Less
        } else {
            Rank::Greater
        }
    } else if x.len() < y.len() {
        Rank::Less
    } else if x.len() == y.len() {
        Rank::Equal
    } else {
        Rank::Greater
    }
}

/// Tells whether two strings are equal.
pub fn same_str(a: &str, b: &str) -> (res: bool)
    ensures
        res == (a@ == b@),
{
    proof {
        lemma_bytes_equal(encode_utf8(a@), encode_utf8(b@), 0);
        encode_utf8_decode_utf8(a@);
        encode_utf8_decode_utf8(b@);
    }
    match compare_str(a, b) {
        Rank::Equal => true,
        _ => false,
    }
}

fn compare_len(a: usize, b: usize) -> (res: Rank)
    ensures
        res == int_rank(a as int, b as int),
{
    if a < b {
        Rank::Less
    } else if a == b {
        Rank::Equal
    } else {
        Rank::Greater
    }
}

impl ModelValue {
    fn class(&self) -> (res: usize)
        ensures
            res == class(self@),
    {
        match self {
            ModelValue::Literal(_) => 0,
            ModelValue::List(_) => 1,
            ModelValue::Mapping(_) => 2,
        }
    }

    /// Compares two values.
    pub fn compare(&self, other: &ModelValue) -> (res: Rank)
        ensures
            res == rank(self@, other@),
        decreases self,
    {
        broadcast use {lemma_list_view, lemma_mapping_view};

        match (self, other) {
            (ModelValue::Literal(x), ModelValue::Literal(y)) => compare_str(x.as_str(), y.as_str()),
            (ModelValue::List(x), ModelValue::List(y)) => {
                let mut i: usize = 0;
                while i < x.len() && i < y.len()
                    invariant
                        i <= x@.len(),
                        i <= y@.len(),
                        *self == ModelValue::List(*x),
                        *other == ModelValue::List(*y),
                        self@ == Value::List(values_of(x@)),
                        other@ == Value::List(values_of(y@)),
                        list_rank(values_of(x@), values_of(y@), 0) == list_rank(
                            values_of(x@),
                            values_of(y@),
                            i as int,
                        ),
                    decreases x@.len() - i,
                {
                    assert(decreases_to!(*self => self->List_0@[i as int]));
                    let r = x[i].compare(&y[i]);
                    match r {
                        Rank::Equal => {},
                        _ => {
                            return r;
                        },
                    }
                    i += 1;
                }
                compare_len(x.len(), y.len())
            },
            (ModelValue::Mapping(x), ModelValue::Mapping(y)) => {
                let mut i: usize = 0;
                while i < x.entries.len() && i < y.entries.len()
                    invariant
                        i <= x.entries@.len(),
                        i <= y.entries@.len(),
                        *self == ModelValue::Mapping(*x),
                        *other == ModelValue::Mapping(*y),
                        self@ == Value::Mapping(x@),
                        other@ == Value::Mapping(y@),
                        entries_rank(x@, y@, 0) == entries_rank(x@, y@, i as int),
                    decreases x.entries@.len() - i,
                {
                    assert(decreases_to!(*self => self->Mapping_0.entries@[i as int].0));
                    assert(decreases_to!(*self => self->Mapping_0.entries@[i as int].1));
                    let r = x.entries[i].0.compare(&y.entries[i].0);
                    match r {
                        Rank::Equal => {},
                        _ => {
                            return r;
                        },
                    }
                    let r = x.entries[i].1.compare(&y.entries[i].1);
                    match r {
                        Rank::Equal => {},
                        _ => {
                            return r;
                        },
                    }
                    i += 1;
                }
                compare_len(x.entries.len(), y.entries.len())
            },
            _ => compare_len(self.class(), other.class()),
        }
    }
}

/// The first position from `i` on at which the key is not below `key`.
pub open spec fn position(entries: Seq<(Value, Value)>, key: Value, i: int) -> int
    decreases entries.len() - i,
{
    if 0 <= i < entries.len() && rank(entries[i].0, key) == Rank::Less {
        position(entries, key, i + 1)
    } else {
        i
    }
}

/// The entries of a mapping once `key` is mapped to `value`.
pub open spec fn inserted(entries: Seq<(Value, Value)>, key: Value, value: Value) -> Seq<
    (Value, Value),
> {
    let i = position(entries, key, 0);
    if i < entries.len() && entries[i].0 == key {
        entries.update(i, (key, value))
    } else {
        entries.insert(i, (key, value))
    }
}

/// What the first entry with the key `key` from `i` on maps it to.
pub open spec fn lookup_from(entries: Seq<(Value, Value)>, key: Value, i: int) -> Option<Value>
    decreases entries.len() - i,
{
    if 0 <= i < entries.len() {
        if entries[i].0 == key {
            Some(entries[i].1)
        } else {
            lookup_from(entries, key, i + 1)
        }
    } else {
        None
    }
}

/// What a mapping maps `key` to.
pub open spec fn lookup(entries: Seq<(Value, Value)>, key: Value) -> Option<Value> {
    lookup_from(entries, key, 0)
}

/// The keys of the entries increase.
pub open spec fn sorted(entries: Seq<(Value, Value)>) -> bool {
    forall|i: int, j: int|
        0 <= i < j < entries.len() ==> rank(#[trigger] entries[i].0, #[trigger] entries[j].0)
            == Rank::Less
}

proof fn lemma_position(entries: Seq<(Value, Value)>, key: Value, i: int)
    requires
        0 <= i <= entries.len(),
    ensures
        i <= position(entries, key, i) <= entries.len(),
        forall|j: int|
            i <= j < position(entries, key, i) ==> rank(#[trigger] entries[j].0, key)
                == Rank::Less,
        position(entries, key, i) < entries.len() ==> rank(
            entries[position(entries, key, i)].0,
            key,
        ) != Rank::Less,
    decreases entries.len() - i,
{
    if i < entries.len() && rank(entries[i].0, key) == Rank::Less {
        lemma_position(entries, key, i + 1);
    }
}

/// What is found for a key stands in an entry with that key; where nothing is found, there is no
/// such entry.
pub proof fn lemma_lookup_from(entries: Seq<(Value, Value)>, key: Value, i: int)
    requires
        0 <= i <= entries.len(),
    ensures
        match lookup_from(entries, key, i) {
            Some(value) => exists|j: int|
                i <= j < entries.len() && #[trigger] entries[j] == (key, value),
            None => forall|j: int| i <= j < entries.len() ==> (#[trigger] entries[j]).0 != key,
        },
    decreases entries.len() - i,
{
    if i < entries.len() && entries[i].0 != key {
        lemma_lookup_from(entries, key, i + 1);
    }
}

/// In a mapping whose keys increase, `lookup` finds the value of an entry.
proof fn lemma_lookup_at(entries: Seq<(Value, Value)>, j: int)
    requires
        sorted(entries),
        0 <= j < entries.len(),
    ensures
        lookup(entries, entries[j].0) == Some(entries[j].1),
{
    let key = entries[j].0;
    lemma_lookup_from(entries, key, 0);
    lemma_rank_equal(key, key);
    let value = lookup(entries, key)->0;
    let k = choose|k: int| 0 <= k < entries.len() && #[trigger] entries[k] == (key, value);
    assert(rank(entries[k].0, entries[j].0) == Rank::Equal);
}

proof fn lemma_inserted_pair(
    entries: Seq<(Value, Value)>,
    key: Value,
    value: Value,
    j: int,
    k: int,
)
    requires
        sorted(entries),
        0 <= j < k < inserted(entries, key, value).len(),
    ensures
        rank(inserted(entries, key, value)[j].0, inserted(entries, key, value)[k].0) == Rank::Less,
{
    let i = position(entries, key, 0);
    lemma_position(entries, key, 0);
    if i < entries.len() && entries[i].0 == key {
        assert(rank(entries[j].0, entries[k].0) == Rank::Less);
    } else if k == i {
        assert(rank(entries[j].0, key) == Rank::Less);
    } else if j == i {
        lemma_rank_equal(entries[i].0, key);
        lemma_rank_flip(entries[i].0, key);
        if k - 1 > i {
            assert(rank(entries[i].0, entries[k - 1].0) == Rank::Less);
            lemma_rank_chain(key, entries[i].0, entries[k - 1].0);
        }
    } else {
        let j0 = if j < i {
            j
        } else {
            j - 1
        };
        let k0 = if k < i {
            k
        } else {
            k - 1
        };
        assert(rank(entries[j0].0, entries[k0].0) == Rank::Less);
    }
}

/// Inserting keeps the keys of a mapping increasing.
pub proof fn lemma_inserted_sorted(entries: Seq<(Value, Value)>, key: Value, value: Value)
    requires
        sorted(entries),
    ensures
        sorted(inserted(entries, key, value)),
{
    let after = inserted(entries, key, value);
    assert forall|j: int, k: int| 0 <= j < k < after.len() implies rank(
        #[trigger] after[j].0,
        #[trigger] after[k].0,
    ) == Rank::Less by {
        lemma_inserted_pair(entries, key, value, j, k);
    }
}

/// An entry of a mapping in which a key has been mapped to a value is that one, or was there
/// before.
pub proof fn lemma_inserted_entry(
    entries: Seq<(Value, Value)>,
    key: Value,
    value: Value,
    i: int,
)
    requires
        0 <= i < inserted(entries, key, value).len(),
    ensures
        inserted(entries, key, value)[i] == (key, value) || entries.contains(
            inserted(entries, key, value)[i],
        ),
{
    lemma_position(entries, key, 0);
    let p = position(entries, key, 0);
    if p < entries.len() && entries[p].0 == key {
        assert(i == p || inserted(entries, key, value)[i] == entries[i]);
    } else if i < p {
        assert(inserted(entries, key, value)[i] == entries[i]);
    } else if i > p {
        assert(inserted(entries, key, value)[i] == entries[i - 1]);
    }
}

/// After an insert the key is mapped to the new value, and every other key to what it was mapped
/// to before.
pub proof fn lemma_inserted_lookup(
    entries: Seq<(Value, Value)>,
    key: Value,
    value: Value,
    other: Value,
)
    requires
        sorted(entries),
    ensures
        lookup(inserted(entries, key, value), other) == (if other == key {
            Some(value)
        } else {
            lookup(entries, other)
        }),
{
    let i = position(entries, key, 0);
    let after = inserted(entries, key, value);
    lemma_position(entries, key, 0);
    lemma_inserted_sorted(entries, key, value);
    assert(after[i] == (key, value));
    if other == key {
        lemma_lookup_at(after, i);
    } else {
        lemma_lookup_from(entries, other, 0);
        lemma_lookup_from(after, other, 0);
        if let Some(v) = lookup(entries, other) {
            let j = choose|j: int| 0 <= j < entries.len() && #[trigger] entries[j] == (other, v);
            let j1 = if j < i || (i < entries.len() && entries[i].0 == key) { j } else { j + 1 };
            assert(after[j1] == (other, v));
            lemma_lookup_at(after, j1);
        } else if let Some(v) = lookup(after, other) {
            let j = choose|j: int| 0 <= j < after.len() && #[trigger] after[j] == (other, v);
            let j0 = if j < i || (i < entries.len() && entries[i].0 == key) { j } else { j - 1 };
            assert(entries[j0] == (other, v));
        }
    }
}

impl ValueMap {
    /// The keys increase.
    pub open spec fn wf(&self) -> bool {
        sorted(self@)
    }

    /// Makes an empty mapping.
    pub fn new() -> (res: ValueMap)
        ensures
            res.wf(),
            res@ == Seq::<(Value, Value)>::empty(),
    {
        let res = ValueMap { entries: Vec::new() };
        assert(res@ =~= Seq::<(Value, Value)>::empty());
        res
    }

    /// Maps `key` to `value`.
    pub fn insert(&mut self, key: ModelValue, value: ModelValue)
        ensures
            final(self)@ == inserted(old(self)@, key@, value@),
            old(self).wf() ==> final(self).wf(),
    {
        let ghost before = self@;
        let mut i: usize = 0;
        while i < self.entries.len()
            invariant
                i <= self.entries@.len(),
                self@ == before,
                position(before, key@, 0) == position(before, key@, i as int),
            ensures
                self@ == before,
                i <= self.entries@.len(),
                position(before, key@, 0) == i,
            decreases self.entries@.len() - i,
        {
            match self.entries[i].0.compare(&key) {
                Rank::Less => {},
                _ => {
                    break;
                },
            }
            i += 1;
        }
        let mut found = false;
        if i < self.entries.len() {
            proof {
                lemma_rank_equal(self.entries@[i as int].0@, key@);
            }
            match self.entries[i].0.compare(&key) {
                Rank::Equal => {
                    found = true;
                },
                _ => {},
            }
        }
        if found {
            self.entries[i] = (key, value);
        } else {
            self.entries.insert(i, (key, value));
        }
        assert(self@ =~= inserted(before, key@, value@));
        proof {
            if sorted(before) {
                lemma_inserted_sorted(before, key@, value@);
            }
        }
    }

    /// Finds what `key` is mapped to.
    pub fn get(&self, key: &ModelValue) -> (res: Option<&ModelValue>)
        ensures
            match res {
                Some(value) => lookup(self@, key@) == Some(value@),
                None => lookup(self@, key@) is None,
            },
    {
        let mut i: usize = 0;
        while i < self.entries.len()
            invariant
                i <= self.entries@.len(),
                lookup(self@, key@) == lookup_from(self@, key@, i as int),
            decreases self.entries@.len() - i,
        {
            proof {
                lemma_rank_equal(self.entries@[i as int].0@, key@);
            }
            match self.entries[i].0.compare(key) {
                Rank::Equal => {
                    return Some(&self.entries[i].1);
                },
                _ => {},
            }
            i += 1;
        }
        None
    }
}

} // verus!