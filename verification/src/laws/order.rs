//! Promises about the order of values, mappings, tables, and taking values apart.
use vstd::prelude::*;
use vstd::utf8::*;

use crate::env::{found, found_from};
use crate::extract::{args_of, entries_of, error_value, literal_of, number_of, primitive_of};
use crate::order::{
    bytes_rank, entries_rank, lemma_lookup_from, lemma_rank_equal, list_rank, lookup, lookup_from,
    Rank, rank,
};
use crate::text::number;
use crate::value::Value;

verus! {

/// Literals rank below lists, and lists below mappings.
pub proof fn law_classes(s: Seq<char>, items: Seq<Value>, entries: Seq<(Value, Value)>)
    ensures
        rank(Value::Literal(s), Value::List(items)) == Rank::Less,
        rank(Value::List(items), Value::Mapping(entries)) == Rank::Less,
        rank(Value::Literal(s), Value::Mapping(entries)) == Rank::Less,
{
}

proof fn lemma_bytes_prefix(a: Seq<u8>, b: Seq<u8>, i: int, k: int)
    requires
        0 <= i <= k <= a.len(),
        k <= b.len(),
        forall|j: int| 0 <= j < k ==> a[j] == b[j],
    ensures
        bytes_rank(a, b, i) == bytes_rank(a, b, k),
    decreases k - i,
{
    if i < k {
        lemma_bytes_prefix(a, b, i + 1, k);
    }
}

/// Of two literals that agree in their first `k` bytes, the one that ends there ranks first, and
/// otherwise the one with the smaller next byte.
pub proof fn law_literals_ranked(s: Seq<char>, t: Seq<char>, k: int)
    requires
        0 <= k <= encode_utf8(s).len(),
        k < encode_utf8(t).len(),
        forall|j: int| 0 <= j < k ==> encode_utf8(s)[j] == encode_utf8(t)[j],
        k == encode_utf8(s).len() || encode_utf8(s)[k] < encode_utf8(t)[k],
    ensures
        rank(Value::Literal(s), Value::Literal(t)) == Rank::Less,
{
    lemma_bytes_prefix(encode_utf8(s), encode_utf8(t), 0, k);
}

proof fn lemma_list_prefix(a: Seq<Value>, b: Seq<Value>, i: int, k: int)
    requires
        0 <= i <= k <= a.len(),
        k <= b.len(),
        forall|j: int| 0 <= j < k ==> a[j] == b[j],
    ensures
        list_rank(a, b, i) == list_rank(a, b, k),
    decreases k - i,
{
    if i < k {
        lemma_rank_equal(a[i], b[i]);
        lemma_list_prefix(a, b, i + 1, k);
    }
}

/// Of two lists that agree in their first `k` items, the one that ends there ranks first, and
/// otherwise the one whose next item ranks first.
pub proof fn law_lists_ranked(a: Seq<Value>, b: Seq<Value>, k: int)
    requires
        0 <= k <= a.len(),
        k < b.len(),
        forall|j: int| 0 <= j < k ==> a[j] == b[j],
        k == a.len() || rank(a[k], b[k]) == Rank::Less,
    ensures
        rank(Value::List(a), Value::List(b)) == Rank::Less,
{
    lemma_list_prefix(a, b, 0, k);
}

proof fn lemma_entries_prefix(a: Seq<(Value, Value)>, b: Seq<(Value, Value)>, i: int, k: int)
    requires
        0 <= i <= k <= a.len(),
        k <= b.len(),
        forall|j: int| 0 <= j < k ==> a[j] == b[j],
    ensures
        entries_rank(a, b, i) == entries_rank(a, b, k),
    decreases k - i,
{
    if i < k {
        lemma_rank_equal(a[i].0, b[i].0);
        lemma_rank_equal(a[i].1, b[i].1);
        lemma_entries_prefix(a, b, i + 1, k);
    }
}

/// Of two mappings that agree in their first `k` entries, the one that ends there ranks first, and
/// otherwise the one whose next key ranks first, or whose next value does for the same key.
pub proof fn law_mappings_ranked(a: Seq<(Value, Value)>, b: Seq<(Value, Value)>, k: int)
    requires
        0 <= k <= a.len(),
        k < b.len(),
        forall|j: int| 0 <= j < k ==> a[j] == b[j],
        k == a.len() || rank(a[k].0, b[k].0) == Rank::Less || (a[k].0 == b[k].0 && rank(
            a[k].1,
            b[k].1,
        ) == Rank::Less),
    ensures
        rank(Value::Mapping(a), Value::Mapping(b)) == Rank::Less,
{
    lemma_entries_prefix(a, b, 0, k);
    if k < a.len() {
        lemma_rank_equal(a[k].0, b[k].0);
    }
}

proof fn lemma_lookup_first(entries: Seq<(Value, Value)>, i: int, j: int)
    requires
        0 <= j <= i < entries.len(),
        forall|k: int| 0 <= k < i ==> (#[trigger] entries[k]).0 != entries[i].0,
    ensures
        lookup_from(entries, entries[i].0, j) == Some(entries[i].1),
    decreases i - j,
{
    if j < i {
        assert(entries[j].0 != entries[i].0);
        lemma_lookup_first(entries, i, j + 1);
    }
}

/// Looking a key up gives the value of the first entry with that key, and nothing exactly if there
/// is no such entry.
pub proof fn law_lookup(entries: Seq<(Value, Value)>, key: Value, i: int)
    ensures
        0 <= i < entries.len() && entries[i].0 == key && (forall|k: int|
            0 <= k < i ==> (#[trigger] entries[k]).0 != key) ==> lookup(entries, key) == Some(
            entries[i].1,
        ),
        lookup(entries, key) is None <==> forall|k: int|
            0 <= k < entries.len() ==> (#[trigger] entries[k]).0 != key,
{
    lemma_lookup_from(entries, key, 0);
    if 0 <= i < entries.len() && entries[i].0 == key && (forall|k: int|
        0 <= k < i ==> (#[trigger] entries[k]).0 != key) {
        lemma_lookup_first(entries, i, 0);
    }
}

proof fn lemma_found_first<K, V>(table: Seq<(K, V)>, i: int, j: int)
    requires
        0 <= j <= i < table.len(),
        forall|k: int| 0 <= k < i ==> (#[trigger] table[k]).0 != table[i].0,
    ensures
        found_from(table, table[i].0, j) == Some(table[i].1),
    decreases i - j,
{
    if j < i {
        assert(table[j].0 != table[i].0);
        lemma_found_first(table, i, j + 1);
    }
}

proof fn lemma_found_none<K, V>(table: Seq<(K, V)>, key: K, j: int)
    requires
        0 <= j <= table.len(),
        forall|k: int| j <= k < table.len() ==> (#[trigger] table[k]).0 != key,
    ensures
        found_from(table, key, j) is None,
    decreases table.len() - j,
{
    if j < table.len() {
        assert(table[j].0 != key);
        lemma_found_none(table, key, j + 1);
    }
}

/// A table gives what its first pair with a key holds, and nothing if there is no such pair.
pub proof fn law_found<K, V>(table: Seq<(K, V)>, key: K, i: int)
    ensures
        0 <= i < table.len() && table[i].0 == key && (forall|k: int|
            0 <= k < i ==> (#[trigger] table[k]).0 != key) ==> found(table, key) == Some(
            table[i].1,
        ),
        (forall|k: int| 0 <= k < table.len() ==> (#[trigger] table[k]).0 != key) ==> found(
            table,
            key,
        ) is None,
{
    if 0 <= i < table.len() && table[i].0 == key && (forall|k: int|
        0 <= k < i ==> (#[trigger] table[k]).0 != key) {
        lemma_found_first(table, i, 0);
    }
    if forall|k: int| 0 <= k < table.len() ==> (#[trigger] table[k]).0 != key {
        lemma_found_none(table, key, 0);
    }
}

/// A list whose first item is the literal `ctor` has the others as its arguments; any other value
/// has none.
pub proof fn law_arguments(v: Value, ctor: Seq<char>, args: Seq<Value>)
    ensures
        args_of(Value::List(seq![Value::Literal(ctor)] + args), ctor) == Some(args),
        (forall|rest: Seq<Value>| v != Value::List(#[trigger] (seq![Value::Literal(ctor)] + rest)))
            ==> args_of(v, ctor) is None,
{
    assert((seq![Value::Literal(ctor)] + args).drop_first() =~= args);
    if let Value::List(items) = v {
        if items.len() > 0 && items[0] == Value::Literal(ctor) {
            assert(items =~= seq![Value::Literal(ctor)] + items.drop_first());
        }
    }
}

/// A primitive is a list of a constructor and one literal.
pub proof fn law_primitive(v: Value, ctor: Seq<char>, s: Seq<char>)
    ensures
        primitive_of(v, ctor) == Some(s) <==> v == Value::List(
            seq![Value::Literal(ctor), Value::Literal(s)],
        ),
{
    let items = seq![Value::Literal(ctor), Value::Literal(s)];
    assert(items.drop_first() =~= seq![Value::Literal(s)]);
    if primitive_of(v, ctor) == Some(s) {
        assert(v->List_0 =~= items);
    }
}

/// Only literals have a text or stand for a number, and only mappings have entries.
pub proof fn law_parts(
    v: Value,
    s: Seq<char>,
    n: nat,
    entries: Seq<(Value, Value)>,
)
    ensures
        literal_of(v) == Some(s) <==> v == Value::Literal(s),
        entries_of(v) == Some(entries) <==> v == Value::Mapping(entries),
        number_of(v) == Some(n) <==> v is Literal && number(v->Literal_0) == Some(n) && n
            <= usize::MAX,
        error_value() == Value::List(seq![Value::Literal("Error"@)]),
{
}

} // verus!
