//! Promises about how values are shown.
use vstd::prelude::*;

use crate::display::{
    big_number, binding_tree, body_tree, debug_text, entry_texts, field_trees, field_value,
    hexadecimal, item_texts, local_name, local_tree, quoted, spaced_digits, struct_tree,
    value_or_raw_tree, value_tree, value_trees, vector_tree,
};
use crate::doc::{
    append_tree, DocTree, group_tree, intersperse_tree, line_or_nil_tree, line_tree, nest_tree,
};
use crate::env::{FunctionEnv, PrimitiveType, StructType, Type};
use crate::extract::{args_of, error_value, number_of, primitive_of};
use crate::laws::order::{law_arguments, law_primitive};
use crate::laws::text::{digit_char, law_prefix};
use crate::model::{LocalDescriptor, table, vector_values};
use crate::order::lookup;
use crate::text::{all_digits, decimal, is_digit, joined, lemma_decimal_digits, number};
use crate::value::Value;

verus! {

/// The text of a document that is laid out on a single line.
pub open spec fn one_line(tree: DocTree) -> Seq<char>
    decreases tree,
{
    match tree {
        DocTree::Text(s) => s,
        DocTree::Line => seq!['\n'],
        DocTree::Append(a, b) => one_line(*a) + one_line(*b),
        DocTree::Group(a) => one_line(*a),
        DocTree::FlatAlt(_, b) => one_line(*b),
        DocTree::Nest(_, a) => one_line(*a),
        _ => Seq::empty(),
    }
}

/// That many blanks.
pub open spec fn blanks(n: int) -> Seq<char> {
    Seq::new(n as nat, |i: int| ' ')
}

/// The text of a document of which all groups are broken into lines.
pub open spec fn many_lines(tree: DocTree, indent: int) -> Seq<char>
    decreases tree,
{
    match tree {
        DocTree::Text(s) => s,
        DocTree::Line => seq!['\n'] + blanks(indent),
        DocTree::Append(a, b) => many_lines(*a, indent) + many_lines(*b, indent),
        DocTree::Group(a) => many_lines(*a, indent),
        DocTree::FlatAlt(a, _) => many_lines(*a, indent),
        DocTree::Nest(offset, a) => many_lines(*a, indent + offset),
        _ => Seq::empty(),
    }
}

/// The texts of documents that are each laid out on a single line.
pub open spec fn one_line_each(trees: Seq<DocTree>) -> Seq<Seq<char>> {
    Seq::new(trees.len(), |i: int| one_line(trees[i]))
}

/// The texts of documents that are each broken into lines.
pub open spec fn many_lines_each(trees: Seq<DocTree>, indent: int) -> Seq<Seq<char>> {
    Seq::new(trees.len(), |i: int| many_lines(trees[i], indent))
}

/// The lines of one document after another stand one after the other.
pub proof fn lemma_append_lines(a: DocTree, b: DocTree, indent: int)
    ensures
        one_line(append_tree(a, b)) == one_line(a) + one_line(b),
        many_lines(append_tree(a, b), indent) == many_lines(a, indent) + many_lines(b, indent),
{
    assert(one_line(a) + one_line(DocTree::Nil) =~= one_line(a));
    assert(one_line(DocTree::Nil) + one_line(b) =~= one_line(b));
    assert(many_lines(a, indent) + many_lines(DocTree::Nil, indent) =~= many_lines(a, indent));
    assert(many_lines(DocTree::Nil, indent) + many_lines(b, indent) =~= many_lines(b, indent));
}

/// The lines of documents with a separator between them stand in order.
pub proof fn lemma_intersperse_lines(trees: Seq<DocTree>, separator: DocTree, indent: int)
    ensures
        one_line(intersperse_tree(trees, separator)) == joined(
            one_line_each(trees),
            one_line(separator),
        ),
        many_lines(intersperse_tree(trees, separator), indent) == joined(
            many_lines_each(trees, indent),
            many_lines(separator, indent),
        ),
    decreases trees.len(),
{
    if trees.len() > 1 {
        let front = trees.drop_last();
        lemma_intersperse_lines(front, separator, indent);
        assert(one_line_each(trees).drop_last() =~= one_line_each(front));
        assert(many_lines_each(trees, indent).drop_last() =~= many_lines_each(front, indent));
        let head = intersperse_tree(front, separator);
        lemma_append_lines(head, separator, indent);
        lemma_append_lines(append_tree(head, separator), trees.last(), indent);
    }
}

/// The entries of a body stand in braces: on a single line with a comma and a blank between each
/// two of them, or else each on a line of its own, two further to the right, with a comma behind
/// all but the last.
pub proof fn law_body(entries: Seq<DocTree>, indent: int)
    ensures
        one_line(body_tree(entries)) == seq!['{'] + joined(one_line_each(entries), seq![',', ' '])
            + seq!['}'],
        many_lines(body_tree(entries), indent) == seq!['{'] + (seq!['\n'] + blanks(indent + 2)
            + joined(many_lines_each(entries, indent + 2), seq![',', '\n'] + blanks(indent + 2)))
            + seq!['}'],
{
    reveal_with_fuel(one_line, 4);
    reveal_with_fuel(many_lines, 4);
    reveal_strlit("{");
    reveal_strlit("}");
    reveal_strlit(",");
    reveal_strlit(" ");
    assert("{"@ =~= seq!['{']);
    assert("}"@ =~= seq!['}']);
    let comma = DocTree::Text(","@);
    let separator = append_tree(comma, line_tree());
    let list = intersperse_tree(entries, separator);
    let lines = append_tree(line_or_nil_tree(), list);
    lemma_append_lines(comma, line_tree(), indent + 2);
    lemma_intersperse_lines(entries, separator, indent + 2);
    lemma_append_lines(line_or_nil_tree(), list, indent + 2);
    assert(one_line(separator) =~= seq![',', ' ']);
    assert(many_lines(separator, indent + 2) =~= seq![',', '\n'] + blanks(indent + 2));
    let body = group_tree(nest_tree(lines, 2));
    lemma_append_lines(DocTree::Text("{"@), body, indent);
    lemma_append_lines(append_tree(DocTree::Text("{"@), body), DocTree::Text("}"@), indent);
    assert(one_line(lines) =~= joined(one_line_each(entries), seq![',', ' ']));
    assert(one_line(body_tree(entries)) =~= seq!['{'] + joined(
        one_line_each(entries),
        seq![',', ' '],
    ) + seq!['}']);
}

/// What is bound stands behind its name: on the same line behind a blank, or else on the next line,
/// two further to the right.
pub proof fn law_binding(head: DocTree, value: DocTree, indent: int)
    ensures
        one_line(binding_tree(head, value)) == one_line(head) + (seq![' '] + one_line(value)),
        many_lines(binding_tree(head, value), indent) == many_lines(head, indent) + (seq!['\n']
            + blanks(indent + 2) + many_lines(value, indent + 2)),
{
    reveal_with_fuel(one_line, 4);
    reveal_with_fuel(many_lines, 4);
    reveal_strlit(" ");
    assert(" "@ =~= seq![' ']);
    let inner = append_tree(line_tree(), value);
    lemma_append_lines(line_tree(), value, indent + 2);
    lemma_append_lines(head, group_tree(nest_tree(inner, 2)), indent);
}

/// All that stands in braces, and what is bound to a name, is laid out on a single line if
/// possible.
pub proof fn law_grouped(entries: Seq<DocTree>, head: Seq<char>, value: DocTree)
    ensures
        ({
            &&& body_tree(entries) matches DocTree::Append(front, close)
            &&& *close == DocTree::Text(seq!['}'])
            &&& *front matches DocTree::Append(open, body)
            &&& *open == DocTree::Text(seq!['{'])
            &&& *body matches DocTree::Group(lines)
            &&& *lines is Nest
        }),
        ({
            &&& binding_tree(DocTree::Text(head), value) matches DocTree::Append(name, bound)
            &&& *name == DocTree::Text(head)
            &&& *bound matches DocTree::Group(lines)
            &&& *lines is Nest
        }),
{
    reveal_strlit("{");
    reveal_strlit("}");
    assert("{"@ =~= seq!['{']);
    assert("}"@ =~= seq!['}']);
}

/// A value whose constructor is `Error` is shown as undefined, whatever its type.
pub proof fn law_undefined(vars: Seq<(Value, Value)>, args: Seq<Value>, ty: Type)
    ensures
        value_tree(vars, Value::List(seq![Value::Literal("Error"@)] + args), ty) == Some(
            DocTree::Text("<undef>"@),
        ),
{
    law_arguments(error_value(), "Error"@, args);
}

/// The value that a constructor makes of a literal.
pub open spec fn made(ctor: Seq<char>, s: Seq<char>) -> Value {
    Value::List(seq![Value::Literal(ctor), Value::Literal(s)])
}

proof fn lemma_no_error(ctor: Seq<char>, s: Seq<char>)
    requires
        ctor != "Error"@,
    ensures
        args_of(made(ctor, s), "Error"@) is None,
{
    assert(made(ctor, s)->List_0[0] == Value::Literal(ctor));
}

/// Integers are shown with the suffix of their type, and booleans as they are.
pub proof fn law_integers_and_booleans(vars: Seq<(Value, Value)>, s: Seq<char>)
    ensures
        value_tree(vars, made("Integer"@, s), Type::Primitive(PrimitiveType::U8)) == Some(
            DocTree::Text(s + seq!['u', '8']),
        ),
        value_tree(vars, made("Integer"@, s), Type::Primitive(PrimitiveType::U64)) == Some(
            DocTree::Text(s),
        ),
        value_tree(vars, made("Integer"@, s), Type::Primitive(PrimitiveType::U128)) == Some(
            DocTree::Text(s + seq!['u', '1', '2', '8']),
        ),
        value_tree(vars, made("Integer"@, s), Type::Primitive(PrimitiveType::Num)) == Some(
            DocTree::Text(s + seq!['u', '1', '2', '8']),
        ),
        value_tree(vars, made("Boolean"@, s), Type::Primitive(PrimitiveType::Bool)) == Some(
            DocTree::Text(s),
        ),
{
    reveal_strlit("Integer");
    reveal_strlit("Boolean");
    reveal_strlit("Error");
    reveal_strlit("u8");
    reveal_strlit("u128");
    assert("Integer"@.len() != "Error"@.len());
    assert("Boolean"@.len() != "Error"@.len());
    assert("u8"@ =~= seq!['u', '8']);
    assert("u128"@ =~= seq!['u', '1', '2', '8']);
    lemma_no_error("Integer"@, s);
    lemma_no_error("Boolean"@, s);
    law_primitive(made("Integer"@, s), "Integer"@, s);
    law_primitive(made("Boolean"@, s), "Boolean"@, s);
}

/// The constructor of the values of a primitive type.
pub open spec fn ctor_of(ty: PrimitiveType) -> Seq<char> {
    match ty {
        PrimitiveType::Bool => "Boolean"@,
        PrimitiveType::Address => "Address"@,
        PrimitiveType::ByteArray => "ByteArray"@,
        _ => "Integer"@,
    }
}

/// A value that is neither undefined nor made by the constructor of a primitive type is not shown
/// by that type. By other types no value is shown.
pub proof fn law_other_values(vars: Seq<(Value, Value)>, v: Value, ty: PrimitiveType)
    requires
        args_of(v, "Error"@) is None,
    ensures
        (forall|s: Seq<char>| v != #[trigger] made(ctor_of(ty), s)) ==> value_tree(
            vars,
            v,
            Type::Primitive(ty),
        ) is None,
        value_tree(vars, v, Type::Primitive(PrimitiveType::Other)) is None,
        value_tree(vars, v, Type::Other) is None,
{
    if forall|s: Seq<char>| v != #[trigger] made(ctor_of(ty), s) {
        if let Some(s) = primitive_of(v, ctor_of(ty)) {
            law_primitive(v, ctor_of(ty), s);
            assert(v == made(ctor_of(ty), s));
        }
    }
}

/// The character of a hexadecimal digit, in lower case.
pub open spec fn hex_char(d: nat) -> char {
    if d < 10 {
        (0x30 + d) as char
    } else {
        (0x61 + (d - 10)) as char
    }
}

/// The hexadecimal digits of a number end with its last one; a negative number has a minus sign in
/// front.
pub proof fn law_hexadecimal(n: nat, d: nat)
    requires
        d < 16,
    ensures
        hexadecimal((16 * n + d) as int) == if n == 0 {
            seq![hex_char(d)]
        } else {
            hexadecimal(n as int).push(hex_char(d))
        },
        n > 0 ==> hexadecimal(-n) == seq!['-'] + hexadecimal(n as int),
{
    assert((16 * n + d) / 16 == n);
    assert((16 * n + d) % 16 == d);
}

proof fn lemma_filter_digits(s: Seq<char>)
    requires
        all_digits(s),
    ensures
        s.filter(|c: char| c != '_') == s,
    decreases s.len(),
{
    reveal(Seq::filter);
    let pred = |c: char| c != '_';
    if s.len() > 0 {
        let front = s.drop_last();
        assert(all_digits(front)) by {
            assert forall|i: int| 0 <= i < front.len() implies is_digit(#[trigger] front[i]) by {
                assert(is_digit(s[i]));
            }
        }
        lemma_filter_digits(front);
        assert(is_digit(s[s.len() - 1]));
        assert(pred(s.last()));
        assert(s.filter(pred) =~= s);
    } else {
        assert(s.filter(pred) =~= s);
    }
}

/// An address is read as a decimal number of any size and shown in hexadecimal digits behind `0x`;
/// where it is no number, it is not shown.
pub proof fn law_address(vars: Seq<(Value, Value)>, s: Seq<char>, n: nat)
    ensures
        value_tree(vars, made("Address"@, s), Type::Primitive(PrimitiveType::Address))
            == match big_number(s) {
            Some(k) => Some(DocTree::Text(seq!['0', 'x'] + hexadecimal(k))),
            None => None,
        },
        big_number(decimal(n)) == Some(n as int),
        big_number(seq!['-'] + decimal(n)) == Some(-(n as int)),
        big_number(seq!['+'] + decimal(n)) == Some(n as int),
{
    reveal_strlit("Address");
    reveal_strlit("Error");
    reveal_strlit("0x");
    assert("Address"@.len() != "Error"@.len());
    assert("0x"@ =~= seq!['0', 'x']);
    lemma_no_error("Address"@, s);
    law_primitive(made("Address"@, s), "Address"@, s);
    let d = decimal(n);
    lemma_decimal_digits(n);
    lemma_filter_digits(d);
    assert(is_digit(d[0]));
    assert(spaced_digits(d)) by {
        assert forall|i: int| 0 <= i < d.len() implies is_digit(#[trigger] d[i]) || d[i] == '_' by {
            assert(is_digit(d[i]));
        }
    }
    assert((seq!['-'] + d).drop_first() =~= d);
    assert((seq!['+'] + d).drop_first() =~= d);
}

/// Underscores behind a digit make no difference to a decimal number, and a digit behind it counts
/// as in any number. Nothing else may stand in it.
pub proof fn law_big_number(s: Seq<char>, n: int, d: nat, c: char)
    requires
        big_number(s) == Some(n),
        d < 10,
    ensures
        big_number(s.push('_')) == Some(n),
        big_number(s.push(digit_char(d))) == Some(
            if s[0] == '-' {
                10 * n - d
            } else {
                10 * n + d
            },
        ),
        c != '_' && !(0x30 <= c as int <= 0x39) ==> big_number(s.push(c)) is None,
{
    reveal(Seq::filter);
    let signed = s[0] == '-' || s[0] == '+';
    let digits = if signed {
        s.drop_first()
    } else {
        s
    };
    let pred = |x: char| x != '_';
    assert forall|x: char| (if signed {
        #[trigger] s.push(x).drop_first()
    } else {
        s.push(x)
    }) == digits.push(x) by {
        assert(s.push(x).drop_first() =~= s.drop_first().push(x) || !signed);
    }
    let a = digits.push('_');
    assert(s.push('_').drop_first() =~= s.drop_first().push('_') || !signed);
    assert(a.drop_last() =~= digits);
    assert(a.filter(pred) =~= digits.filter(pred));
    assert(spaced_digits(a));
    let b = digits.push(digit_char(d));
    assert(s.push(digit_char(d)).drop_first() =~= s.drop_first().push(digit_char(d)) || !signed);
    assert(b.drop_last() =~= digits);
    assert(b.filter(pred) =~= digits.filter(pred).push(digit_char(d)));
    assert(b.filter(pred).drop_last() =~= digits.filter(pred));
    assert(spaced_digits(b));
    if c != '_' && !(0x30 <= c as int <= 0x39) {
        let e = digits.push(c);
        assert(s.push(c).drop_first() =~= s.drop_first().push(c) || !signed);
        assert(e[e.len() - 1] == c);
        assert(!is_digit(c));
        assert(!spaced_digits(e));
    }
}

/// A byte array is shown by the number of its instance, or else by what stands for it.
pub proof fn law_byte_array(vars: Seq<(Value, Value)>, s: Seq<char>)
    ensures
        value_tree(
            vars,
            made("ByteArray"@, "T@ByteArray!val!"@ + s),
            Type::Primitive(PrimitiveType::ByteArray),
        ) == Some(DocTree::Text("<bytearray "@ + s + seq!['>'])),
        (forall|b: Seq<char>| s != #[trigger] ("T@ByteArray!val!"@ + b)) ==> value_tree(
            vars,
            made("ByteArray"@, s),
            Type::Primitive(PrimitiveType::ByteArray),
        ) == Some(DocTree::Text("<bytearray "@ + s + seq!['>'])),
{
    reveal_strlit("ByteArray");
    reveal_strlit("Error");
    reveal_strlit(">");
    assert("ByteArray"@.len() != "Error"@.len());
    assert(">"@ =~= seq!['>']);
    let t = "T@ByteArray!val!"@ + s;
    lemma_no_error("ByteArray"@, s);
    lemma_no_error("ByteArray"@, t);
    law_primitive(made("ByteArray"@, s), "ByteArray"@, s);
    law_primitive(made("ByteArray"@, t), "ByteArray"@, t);
    law_prefix("T@ByteArray!val!"@, s);
}

/// A value that can be shown by a type can be shown by a reference to that type, mutable or not, as
/// an ampersand followed by how it is shown by that type; and no other values can.
pub proof fn law_reference(vars: Seq<(Value, Value)>, v: Value, mutable: bool, target: Type)
    requires
        args_of(v, "Error"@) is None,
    ensures
        value_tree(vars, v, Type::Reference(mutable, Box::new(target))) is Some <==> value_tree(
            vars,
            v,
            target,
        ) is Some,
        value_tree(vars, v, target) matches Some(tree) ==> {
            &&& value_tree(vars, v, Type::Reference(mutable, Box::new(target))) == Some(
                append_tree(DocTree::Text(seq!['&']), tree),
            )
            &&& one_line(append_tree(DocTree::Text(seq!['&']), tree)) == seq!['&'] + one_line(tree)
        },
{
    reveal_strlit("&");
    assert("&"@ =~= seq!['&']);
    if let Some(tree) = value_tree(vars, v, target) {
        lemma_append_lines(DocTree::Text(seq!['&']), tree, 0);
    }
}

/// A value of a generic type is shown as generic.
pub proof fn law_generic(vars: Seq<(Value, Value)>, v: Value, index: u16)
    requires
        args_of(v, "Error"@) is None,
    ensures
        value_tree(vars, v, Type::TypeParameter(index)) == Some(DocTree::Text("<generic>"@)),
{
}

/// The value of a vector or struct with the given key and size.
pub open spec fn vector_of(map_key: Value, size: Seq<char>) -> Value {
    Value::List(
        seq![
            Value::Literal("Vector"@),
            Value::List(seq![Value::Literal("ValueArray"@), map_key, Value::Literal(size)]),
        ],
    )
}

/// The values of a vector are those that the model holds for its key and the indices below its
/// size; those that it leaves open are error values. Nothing else is a vector.
pub proof fn law_vector_values(
    vars: Seq<(Value, Value)>,
    map_key: Value,
    size: Seq<char>,
    n: nat,
    values: Seq<(Value, Value)>,
    v: Value,
)
    requires
        number(size) == Some(n),
        n <= usize::MAX,
        lookup(vars, Value::Literal("Select_[$int]Value"@)) == Some(Value::Mapping(values)),
    ensures
        vector_values(vars, vector_of(map_key, size)) matches Some(all) && all.len() == n && forall|
            i: int,
        |
            0 <= i < n ==> #[trigger] all[i] == match lookup(
                values,
                Value::List(seq![map_key, Value::Literal(decimal(i as nat))]),
            ) {
                Some(value) => value,
                None => Value::List(seq![Value::Literal("Error"@)]),
            },
        (forall|k: Value, t: Seq<char>| v != #[trigger] vector_of(k, t)) ==> vector_values(
            vars,
            v,
        ) is None,
{
    let array = Value::List(seq![Value::Literal("ValueArray"@), map_key, Value::Literal(size)]);
    assert(vector_of(map_key, size)->List_0.drop_first() =~= seq![array]);
    assert(array->List_0.drop_first() =~= seq![map_key, Value::Literal(size)]);
    assert(number_of(Value::Literal(size)) == Some(n));
    assert(table(vars, "Select_[$int]Value"@) == Some(values));
    if let Some(all) = vector_values(vars, v) {
        let inner = v->List_0[1];
        assert(v->List_0 =~= seq![Value::Literal("Vector"@), inner]);
        assert(args_of(v, "Vector"@)->0[0] == inner);
        let k = inner->List_0[1];
        let t = inner->List_0[2];
        assert(args_of(inner, "ValueArray"@)->0[0] == k);
        assert(args_of(inner, "ValueArray"@)->0[1] == t);
        assert(number_of(t) is Some);
        assert(inner->List_0 =~= seq![Value::Literal("ValueArray"@), k, t]);
        assert(v == vector_of(k, t->Literal_0));
    }
}

/// A vector is shown with how each of its values is shown, in order.
pub proof fn law_vector_shown(vars: Seq<(Value, Value)>, v: Value, param: Type)
    requires
        args_of(v, "Error"@) is None,
    ensures
        value_tree(vars, v, Type::Vector(Box::new(param))) is Some <==> vector_values(
            vars,
            v,
        ) is Some,
        vector_values(vars, v) matches Some(all) ==> one_line(
            value_tree(vars, v, Type::Vector(Box::new(param)))->0,
        ) == "Vector{"@ + joined(
            Seq::new(all.len(), |i: int| one_line(value_or_raw_tree(vars, all[i], param))),
            seq![',', ' '],
        ) + seq!['}'],
{
    assert(value_tree(vars, v, Type::Vector(Box::new(param))) == vector_tree(vars, v, param));
    if let Some(all) = vector_values(vars, v) {
        let entries = value_trees(vars, all, param);
        law_body(entries, 0);
        lemma_append_lines(DocTree::Text("Vector"@), body_tree(entries), 0);
        let texts = Seq::new(
            all.len(),
            |i: int| one_line(value_or_raw_tree(vars, all[i], param)),
        );
        assert(one_line_each(entries) =~= texts);
        reveal_strlit("Vector{");
        reveal_strlit("Vector");
        assert("Vector"@ + (seq!['{'] + joined(texts, seq![',', ' ']) + seq!['}']) =~= "Vector{"@
            + joined(texts, seq![',', ' ']) + seq!['}']);
    }
}

/// A struct is shown by its module and its name, with each of its fields, in order: the name of the
/// field, and how its value is shown. Values that are not there are undefined.
pub proof fn law_struct_shown(vars: Seq<(Value, Value)>, v: Value, struct_type: StructType)
    requires
        args_of(v, "Error"@) is None,
    ensures
        value_tree(vars, v, Type::Struct(struct_type)) is Some <==> vector_values(vars, v) is Some,
        vector_values(vars, v) matches Some(all) ==> one_line(
            value_tree(vars, v, Type::Struct(struct_type))->0,
        ) == struct_type.module_name@ + seq!['.'] + struct_type.name@ + seq!['{'] + joined(
            Seq::new(
                struct_type.fields@.len(),
                |i: int|
                    struct_type.fields@[i].name@ + seq![' ', '=', ' '] + one_line(
                        value_or_raw_tree(
                            vars,
                            if i < all.len() {
                                all[i]
                            } else {
                                Value::List(seq![Value::Literal("Error"@)])
                            },
                            struct_type.fields@[i].ty,
                        ),
                    ),
            ),
            seq![',', ' '],
        ) + seq!['}'],
{
    assert(value_tree(vars, v, Type::Struct(struct_type)) == struct_tree(vars, v, struct_type));
    if let Some(all) = vector_values(vars, v) {
        let entries = field_trees(vars, all, struct_type);
        let name = struct_type.module_name@ + "."@ + struct_type.name@;
        law_body(entries, 0);
        lemma_append_lines(DocTree::Text(name), body_tree(entries), 0);
        reveal_strlit(".");
        reveal_strlit(" =");
        assert("."@ =~= seq!['.']);
        let texts = Seq::new(
            struct_type.fields@.len(),
            |i: int|
                struct_type.fields@[i].name@ + seq![' ', '=', ' '] + one_line(
                    value_or_raw_tree(
                        vars,
                        if i < all.len() {
                            all[i]
                        } else {
                            Value::List(seq![Value::Literal("Error"@)])
                        },
                        struct_type.fields@[i].ty,
                    ),
                ),
        );
        assert forall|i: int| 0 <= i < entries.len() implies #[trigger] one_line_each(entries)[i]
            == texts[i] by {
            let field = struct_type.fields@[i];
            let head = append_tree(DocTree::Text(field.name@), DocTree::Text(" ="@));
            let shown = value_or_raw_tree(vars, field_value(all, i), field.ty);
            lemma_append_lines(DocTree::Text(field.name@), DocTree::Text(" ="@), 0);
            law_binding(head, shown, 0);
            assert(one_line(head) + (seq![' '] + one_line(shown)) =~= field.name@ + seq![
                ' ',
                '=',
                ' ',
            ] + one_line(shown));
        }
        assert(one_line_each(entries) =~= texts);
        let list = joined(texts, seq![',', ' ']);
        assert(name + (seq!['{'] + list + seq!['}']) =~= struct_type.module_name@ + seq!['.']
            + struct_type.name@ + seq!['{'] + list + seq!['}']);
    }
}

/// A vector is a name with a body of how its values are shown, and a struct one with a body of its
/// fields, of which each is bound to its name.
pub proof fn law_vector_and_struct_bodies(
    vars: Seq<(Value, Value)>,
    v: Value,
    param: Type,
    struct_type: StructType,
)
    requires
        args_of(v, "Error"@) is None,
    ensures
        vector_values(vars, v) matches Some(all) ==> {
            &&& value_tree(vars, v, Type::Vector(Box::new(param))) == Some(
                append_tree(
                    DocTree::Text("Vector"@),
                    body_tree(Seq::new(all.len(), |i: int| value_or_raw_tree(vars, all[i], param))),
                ),
            )
            &&& value_tree(vars, v, Type::Struct(struct_type)) == Some(
                append_tree(
                    DocTree::Text(struct_type.module_name@ + seq!['.'] + struct_type.name@),
                    body_tree(
                        Seq::new(
                            struct_type.fields@.len(),
                            |i: int|
                                binding_tree(
                                    append_tree(
                                        DocTree::Text(struct_type.fields@[i].name@),
                                        DocTree::Text(seq![' ', '=']),
                                    ),
                                    value_or_raw_tree(
                                        vars,
                                        if i < all.len() {
                                            all[i]
                                        } else {
                                            Value::List(seq![Value::Literal("Error"@)])
                                        },
                                        struct_type.fields@[i].ty,
                                    ),
                                ),
                        ),
                    ),
                ),
            )
        },
{
    assert(value_tree(vars, v, Type::Vector(Box::new(param))) == vector_tree(vars, v, param));
    assert(value_tree(vars, v, Type::Struct(struct_type)) == struct_tree(vars, v, struct_type));
    if let Some(all) = vector_values(vars, v) {
        let entries = value_trees(vars, all, param);
        assert(entries =~= Seq::new(
            all.len(),
            |i: int| value_or_raw_tree(vars, all[i], param),
        ));
        reveal_strlit(".");
        reveal_strlit(" =");
        assert("."@ =~= seq!['.']);
        assert(" ="@ =~= seq![' ', '=']);
        let fields = field_trees(vars, all, struct_type);
        assert(fields =~= Seq::new(
            struct_type.fields@.len(),
            |i: int|
                binding_tree(
                    append_tree(
                        DocTree::Text(struct_type.fields@[i].name@),
                        DocTree::Text(seq![' ', '=']),
                    ),
                    value_or_raw_tree(
                        vars,
                        if i < all.len() {
                            all[i]
                        } else {
                            Value::List(seq![Value::Literal("Error"@)])
                        },
                        struct_type.fields@[i].ty,
                    ),
                ),
        ));
    }
}

/// There are no values of a vector whose size is no number of the machine, or where the model holds
/// no values.
pub proof fn law_no_vector_values(
    vars: Seq<(Value, Value)>,
    map_key: Value,
    size: Seq<char>,
)
    requires
        ({
            let held = lookup(vars, Value::Literal("Select_[$int]Value"@));
            ||| number(size) is None
            ||| number(size)->0 > usize::MAX
            ||| held is None
            ||| !(held->0 is Mapping)
        }),
    ensures
        vector_values(vars, vector_of(map_key, size)) is None,
{
    let array = Value::List(seq![Value::Literal("ValueArray"@), map_key, Value::Literal(size)]);
    assert(vector_of(map_key, size)->List_0.drop_first() =~= seq![array]);
    assert(array->List_0.drop_first() =~= seq![map_key, Value::Literal(size)]);
}

/// A value is shown by its type if it can be, and otherwise as its structure is.
pub proof fn law_fallback(vars: Seq<(Value, Value)>, v: Value, ty: Type)
    ensures
        value_tree(vars, v, ty) matches Some(tree) ==> value_or_raw_tree(vars, v, ty) == tree,
        value_tree(vars, v, ty) is None ==> value_or_raw_tree(vars, v, ty) == DocTree::Text(
            seq!['<', '?', ' '] + debug_text(v) + seq!['>'],
        ),
{
    reveal_strlit("<? ");
    reveal_strlit(">");
    assert("<? "@ =~= seq!['<', '?', ' ']);
    assert(">"@ =~= seq!['>']);
}

/// The structure of a value shows its literals quoted, its items in order in square brackets, and
/// its entries in order in braces, with all of them between commas.
pub proof fn law_structure(s: Seq<char>, items: Seq<Value>, entries: Seq<(Value, Value)>)
    ensures
        debug_text(Value::Literal(s)) == "Literal("@ + quoted(s) + seq![')'],
        debug_text(Value::List(items)) == "List(["@ + joined(
            Seq::new(items.len(), |i: int| debug_text(items[i])),
            seq![',', ' '],
        ) + seq![']', ')'],
        debug_text(Value::Mapping(entries)) == "Map({"@ + joined(
            Seq::new(
                entries.len(),
                |i: int| debug_text(entries[i].0) + seq![':', ' '] + debug_text(entries[i].1),
            ),
            seq![',', ' '],
        ) + seq!['}', ')'],
{
    reveal_strlit(")");
    reveal_strlit("])");
    reveal_strlit("})");
    reveal_strlit(", ");
    reveal_strlit(": ");
    assert(")"@ =~= seq![')']);
    assert("])"@ =~= seq![']', ')']);
    assert("})"@ =~= seq!['}', ')']);
    assert(", "@ =~= seq![',', ' ']);
    assert(": "@ =~= seq![':', ' ']);
    assert(item_texts(items) =~= Seq::new(items.len(), |i: int| debug_text(items[i])));
    assert(entry_texts(entries) =~= Seq::new(
        entries.len(),
        |i: int| debug_text(entries[i].0) + seq![':', ' '] + debug_text(entries[i].1),
    ));
}

/// A local is shown as its name, an equals sign and its value. Results are numbered where there are
/// several.
pub proof fn law_local_shown(
    vars: Seq<(Value, Value)>,
    func: FunctionEnv,
    local: LocalDescriptor,
    ty: Type,
    v: Value,
)
    ensures
        local_tree(vars, func, local, ty, v) == binding_tree(
            append_tree(
                append_tree(
                    DocTree::Text(local_name(func, local.var_idx as nat)),
                    DocTree::Text(seq![' ']),
                ),
                DocTree::Text(seq!['=']),
            ),
            value_or_raw_tree(vars, v, ty),
        ),
        one_line(local_tree(vars, func, local, ty, v)) == local_name(func, local.var_idx as nat)
            + seq![' ', '=', ' '] + one_line(value_or_raw_tree(vars, v, ty)),
        local.var_idx < func.locals@.len() ==> local_name(func, local.var_idx as nat)
            == func.locals@[local.var_idx as int].name@,
        local.var_idx >= func.locals@.len() && func.return_types@.len() <= 1 ==> local_name(
            func,
            local.var_idx as nat,
        ) == seq!['R', 'E', 'T'],
        local.var_idx >= func.locals@.len() && func.return_types@.len() > 1 ==> local_name(
            func,
            local.var_idx as nat,
        ) == seq!['R', 'E', 'T', '('] + decimal((local.var_idx - func.locals@.len()) as nat) + seq![
            ')',
        ],
{
    let name = DocTree::Text(local_name(func, local.var_idx as nat));
    let blank = DocTree::Text(" "@);
    let sign = DocTree::Text("="@);
    let shown = value_or_raw_tree(vars, v, ty);
    let head = append_tree(append_tree(name, blank), sign);
    lemma_append_lines(name, blank, 0);
    lemma_append_lines(append_tree(name, blank), sign, 0);
    law_binding(head, shown, 0);
    reveal_strlit(" ");
    reveal_strlit("=");
    reveal_strlit("RET");
    reveal_strlit("RET(");
    reveal_strlit(")");
    assert(" "@ =~= seq![' ']);
    assert("="@ =~= seq!['=']);
    assert("RET"@ =~= seq!['R', 'E', 'T']);
    assert("RET("@ =~= seq!['R', 'E', 'T', '(']);
    assert(")"@ =~= seq![')']);
    assert(one_line(head) + (seq![' '] + one_line(shown)) =~= local_name(
        func,
        local.var_idx as nat,
    ) + seq![' ', '=', ' '] + one_line(shown));
}

} // verus!
