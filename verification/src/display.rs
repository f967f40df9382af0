//! Pretty printing of model values by their types.
use vstd::prelude::*;

use crate::doc::{
    append, append_tree, doc_tree, DocTree, group, group_tree, intersperse, intersperse_tree, line,
    lemma_renderable_intersperse, lemma_renderable_parts, line_or_nil, line_or_nil_tree, line_tree,
    nest, nest_tree, PrettyDoc, renderable, space, text, trees,
};
use crate::env::{FunctionEnv, PrimitiveType, StructType, Type};
use crate::extract::{args_of, error_value, primitive_of};
use crate::model::{LocalDescriptor, Model, vector_values};
use crate::text::{
    combine, combine3, decimal, decimal_text, digits_value, is_digit, join, joined, strip_prefix,
    texts_of, without_prefix,
};
use crate::value::{ModelValue, Value, lemma_list_view, lemma_mapping_view, values_of};

verus! {

/// The text that std's `Debug` gives for a string: quoted, with what does not print escaped.
pub uninterp spec fn quoted(s: Seq<char>) -> Seq<char>;

/// Wraps `format!` with the `Debug` of `str`, which quotes a string and escapes it. Which
/// characters are escaped, and how, is left to std.
#[verifier::external_body]
fn quote(s: &str) -> (res: String)
    ensures
        res@ == quoted(s@),
{
    format!("{:?}", s)
}

/// Tells whether all characters are decimal digits or underscores.
pub open spec fn spaced_digits(s: Seq<char>) -> bool {
    forall|i: int| 0 <= i < s.len() ==> is_digit(#[trigger] s[i]) || s[i] == '_'
}

/// The integer that a text stands for: decimal digits, perhaps after a sign, and with underscores
/// anywhere behind the first digit.
pub open spec fn big_number(s: Seq<char>) -> Option<int> {
    let signed = s.len() > 0 && (s[0] == '-' || s[0] == '+');
    let digits = if signed {
        s.drop_first()
    } else {
        s
    };
    if digits.len() > 0 && digits[0] != '_' && spaced_digits(digits) {
        let n = digits_value(digits.filter(|c: char| c != '_')) as int;
        Some(
            if signed && s[0] == '-' {
                -n
            } else {
                n
            },
        )
    } else {
        None
    }
}

/// The hexadecimal digit of a number below sixteen, in lower case.
pub open spec fn hex_digit(n: nat) -> char {
    if n < 10 {
        ('0' as u8 + n) as char
    } else {
        ('a' as u8 + (n - 10)) as char
    }
}

/// The hexadecimal digits of `n`.
pub open spec fn hex_digits(n: nat) -> Seq<char>
    decreases n,
{
    if n < 16 {
        seq![hex_digit(n)]
    } else {
        hex_digits(n / 16).push(hex_digit(n % 16))
    }
}

/// An integer in hexadecimal digits, behind a minus sign where it is negative.
pub open spec fn hexadecimal(n: int) -> Seq<char> {
    if n < 0 {
        seq!['-'] + hex_digits((-n) as nat)
    } else {
        hex_digits(n as nat)
    }
}

/// Wraps `num::BigInt::parse_bytes`, with the radix 10, and `num::BigInt::to_str_radix`, with the
/// radix 16. The first reads an integer of any size, or nothing where the text is not one; the
/// second writes it in lower case and without leading zeros.
#[verifier::external_body]
fn decimal_to_hexadecimal(s: &str) -> (res: Option<String>)
    ensures
        match res {
            Some(hex) => big_number(s@) is Some && hex@ == hexadecimal(big_number(s@)->0),
            None => big_number(s@) is None,
        },
{
    num::BigInt::parse_bytes(s.as_bytes(), 10).map(|n| n.to_str_radix(16))
}

/// A value as its structure shows it: `Literal("text")`, `List([item, ...])` or
/// `Map({key: value, ...})`.
pub open spec fn debug_text(v: Value) -> Seq<char>
    decreases v,
{
    match v {
        Value::Literal(s) => "Literal("@ + quoted(s) + ")"@,
        Value::List(items) => "List(["@ + joined(item_texts(items), ", "@) + "])"@,
        Value::Mapping(entries) => "Map({"@ + joined(entry_texts(entries), ", "@) + "})"@,
    }
}

/// The items of a list as their structure shows them.
pub open spec fn item_texts(items: Seq<Value>) -> Seq<Seq<char>>
    decreases items,
{
    Seq::new(
        items.len(),
        |i: int|
            if 0 <= i < items.len() {
                debug_text(items[i])
            } else {
                arbitrary()
            },
    )
}

/// The entries of a mapping as their structure shows them.
pub open spec fn entry_texts(entries: Seq<(Value, Value)>) -> Seq<Seq<char>>
    decreases entries,
{
    Seq::new(
        entries.len(),
        |i: int|
            if 0 <= i < entries.len() {
                debug_text(entries[i].0) + ": "@ + debug_text(entries[i].1)
            } else {
                arbitrary()
            },
    )
}

/// The text for a value that cannot be shown by its type.
pub open spec fn raw_text(v: Value) -> Seq<char> {
    "<? "@ + debug_text(v) + ">"@
}

/// The text of a primitive value.
pub open spec fn primitive_text(v: Value, ty: PrimitiveType) -> Option<Seq<char>> {
    match ty {
        PrimitiveType::U8 => match primitive_of(v, "Integer"@) {
            Some(s) => Some(s + "u8"@),
            None => None,
        },
        PrimitiveType::U64 => primitive_of(v, "Integer"@),
        PrimitiveType::U128 | PrimitiveType::Num => match primitive_of(v, "Integer"@) {
            Some(s) => Some(s + "u128"@),
            None => None,
        },
        PrimitiveType::Bool => primitive_of(v, "Boolean"@),
        PrimitiveType::Address => match primitive_of(v, "Address"@) {
            Some(s) => match big_number(s) {
                Some(n) => Some("0x"@ + hexadecimal(n)),
                None => None,
            },
            None => None,
        },
        PrimitiveType::ByteArray => match primitive_of(v, "ByteArray"@) {
            Some(s) => Some("<bytearray "@ + without_prefix(s, "T@ByteArray!val!"@) + ">"@),
            None => None,
        },
        PrimitiveType::Other => None,
    }
}

/// The body of a struct or vector, enclosed in braces: its entries on a single line if possible,
/// or each on a line of its own.
pub open spec fn body_tree(entries: Seq<DocTree>) -> DocTree {
    append_tree(
        append_tree(
            DocTree::Text("{"@),
            group_tree(
                nest_tree(
                    append_tree(
                        line_or_nil_tree(),
                        intersperse_tree(entries, append_tree(DocTree::Text(","@), line_tree())),
                    ),
                    2,
                ),
            ),
        ),
        DocTree::Text("}"@),
    )
}

/// A value behind what is set before it: on the same line if possible, or indented on the next.
pub open spec fn binding_tree(head: DocTree, value: DocTree) -> DocTree {
    append_tree(head, group_tree(nest_tree(append_tree(line_tree(), value), 2)))
}

/// How a value of the given type is shown, if it can be.
pub open spec fn value_tree(vars: Seq<(Value, Value)>, v: Value, ty: Type) -> Option<DocTree>
    decreases ty, 0int,
{
    if args_of(v, "Error"@) is Some {
        Some(DocTree::Text("<undef>"@))
    } else {
        match ty {
            Type::Primitive(primitive) => match primitive_text(v, primitive) {
                Some(s) => Some(DocTree::Text(s)),
                None => None,
            },
            Type::Vector(param) => vector_tree(vars, v, *param),
            Type::Struct(struct_type) => struct_tree(vars, v, struct_type),
            Type::Reference(_, target) => match value_tree(vars, v, *target) {
                Some(tree) => Some(append_tree(DocTree::Text("&"@), tree)),
                None => None,
            },
            Type::TypeParameter(_) => Some(DocTree::Text("<generic>"@)),
            Type::Other => None,
        }
    }
}

/// How a value is shown: by its type if possible, or as its structure shows it.
pub open spec fn value_or_raw_tree(vars: Seq<(Value, Value)>, v: Value, ty: Type) -> DocTree
    decreases ty, 1int,
{
    match value_tree(vars, v, ty) {
        Some(tree) => tree,
        None => DocTree::Text(raw_text(v)),
    }
}

/// How values of the type `ty` are shown.
pub open spec fn value_trees(vars: Seq<(Value, Value)>, values: Seq<Value>, ty: Type) -> Seq<
    DocTree,
>
    decreases ty, 2int,
{
    Seq::new(values.len(), |i: int| value_or_raw_tree(vars, values[i], ty))
}

/// How a vector is shown, whose values have the type `param`.
pub open spec fn vector_tree(vars: Seq<(Value, Value)>, v: Value, param: Type) -> Option<DocTree>
    decreases param, 3int,
{
    match vector_values(vars, v) {
        Some(values) => Some(
            append_tree(DocTree::Text("Vector"@), body_tree(value_trees(vars, values, param))),
        ),
        None => None,
    }
}

/// The value of the field `i` of a struct: values that are not there are error values.
pub open spec fn field_value(values: Seq<Value>, i: int) -> Value {
    if i < values.len() {
        values[i]
    } else {
        error_value()
    }
}

/// How the fields of a struct are shown: each value behind the name of the field.
pub open spec fn field_trees(
    vars: Seq<(Value, Value)>,
    values: Seq<Value>,
    struct_type: StructType,
) -> Seq<DocTree>
    decreases struct_type, 0int,
{
    Seq::new(
        struct_type.fields@.len(),
        |i: int|
            if 0 <= i < struct_type.fields@.len() {
                binding_tree(
                    append_tree(
                        DocTree::Text(struct_type.fields@[i].name@),
                        DocTree::Text(" ="@),
                    ),
                    value_or_raw_tree(vars, field_value(values, i), struct_type.fields@[i].ty),
                )
            } else {
                arbitrary()
            },
    )
}

/// How a struct is shown.
pub open spec fn struct_tree(
    vars: Seq<(Value, Value)>,
    v: Value,
    struct_type: StructType,
) -> Option<DocTree>
    decreases struct_type, 1int,
{
    match vector_values(vars, v) {
        Some(values) => Some(
            append_tree(
                DocTree::Text(struct_type.module_name@ + "."@ + struct_type.name@),
                body_tree(field_trees(vars, values, struct_type)),
            ),
        ),
        None => None,
    }
}

impl ModelValue {
    /// Writes the value as its structure shows it.
    pub fn debug_text(&self) -> (res: String)
        ensures
            res@ == debug_text(self@),
        decreases self,
    {
        match self {
            ModelValue::Literal(s) => combine3("Literal(", quote(s.as_str()).as_str(), ")"),
            ModelValue::List(items) => {
                proof {
                    lemma_list_view(*items);
                }
                let mut texts: Vec<String> = Vec::new();
                let mut i: usize = 0;
                while i < items.len()
                    invariant
                        *self == ModelValue::List(*items),
                        i <= items@.len(),
                        texts@.len() == i,
                        forall|j: int|
                            0 <= j < i ==> (#[trigger] texts@[j])@ == debug_text(items@[j]@),
                    decreases items@.len() - i,
                {
                    assert(decreases_to!(*self => self->List_0@[i as int]));
                    texts.push(items[i].debug_text());
                    i += 1;
                }
                let res = combine3("List([", join(&texts, ", ").as_str(), "])");
                assert(texts_of(texts@) =~= item_texts(values_of(items@)));
                res
            },
            ModelValue::Mapping(m) => {
                proof {
                    lemma_mapping_view(*m);
                }
                let mut texts: Vec<String> = Vec::new();
                let mut i: usize = 0;
                while i < m.entries.len()
                    invariant
                        *self == ModelValue::Mapping(*m),
                        i <= m.entries@.len(),
                        texts@.len() == i,
                        forall|j: int|
                            0 <= j < i ==> (#[trigger] texts@[j])@ == debug_text(m@[j].0) + ": "@
                                + debug_text(m@[j].1),
                    decreases m.entries@.len() - i,
                {
                    assert(decreases_to!(*self => self->Mapping_0.entries@[i as int].0));
                    assert(decreases_to!(*self => self->Mapping_0.entries@[i as int].1));
                    let key = m.entries[i].0.debug_text();
                    let value = m.entries[i].1.debug_text();
                    texts.push(combine3(key.as_str(), ": ", value.as_str()));
                    i += 1;
                }
                let res = combine3("Map({", join(&texts, ", ").as_str(), "})");
                assert(texts_of(texts@) =~= entry_texts(m@));
                res
            },
        }
    }

    /// Pretty prints the given model value which has given type. If printing fails, falls
    /// back to print the debug value.
    pub fn pretty_or_raw(&self, model: &Model, ty: &Type) -> (res: PrettyDoc)
        ensures
            doc_tree(res) == value_or_raw_tree(model@.vars, self@, *ty),
        decreases *ty, 1int,
    {
        match self.pretty(model, ty) {
            Some(doc) => doc,
            None => {
                // Print the raw debug value.
                text(combine3("<? ", self.debug_text().as_str(), ">"))
            },
        }
    }

    /// Writes the value of a primitive type.
    fn primitive_text(&self, ty: PrimitiveType) -> (res: Option<String>)
        ensures
            primitive_text(self@, ty) == match res {
                Some(s) => Some(s@),
                None => None,
            },
    {
        match ty {
            PrimitiveType::U8 => match self.extract_primitive("Integer") {
                Some(s) => Some(combine(s.as_str(), "u8")),
                None => None,
            },
            PrimitiveType::U64 => match self.extract_primitive("Integer") {
                Some(s) => Some(s.clone()),
                None => None,
            },
            PrimitiveType::U128 | PrimitiveType::Num => match self.extract_primitive("Integer") {
                Some(s) => Some(combine(s.as_str(), "u128")),
                None => None,
            },
            PrimitiveType::Bool => match self.extract_primitive("Boolean") {
                Some(s) => Some(s.clone()),
                None => None,
            },
            PrimitiveType::Address => match self.extract_primitive("Address") {
                Some(s) => match decimal_to_hexadecimal(s.as_str()) {
                    Some(hex) => Some(combine("0x", hex.as_str())),
                    None => None,
                },
                None => None,
            },
            PrimitiveType::ByteArray => {
                // Right now byte arrays are abstract in boogie, so we can only distinguish
                // instances.
                match self.extract_primitive("ByteArray") {
                    Some(s) => {
                        let display = strip_prefix(s.as_str(), "T@ByteArray!val!");
                        Some(combine3("<bytearray ", display, ">"))
                    },
                    None => None,
                }
            },
            PrimitiveType::Other => None,
        }
    }

    /// Pretty prints the given model value which has given type.
    pub fn pretty(&self, model: &Model, ty: &Type) -> (res: Option<PrettyDoc>)
        ensures
            value_tree(model@.vars, self@, *ty) == match res {
                Some(doc) => Some(doc_tree(doc)),
                None => None,
            },
        decreases *ty, 0int,
    {
        if self.extract_list("Error").is_some() {
            // This is an undefined value
            return Some(text("<undef>".to_string()));
        }
        match ty {
            Type::Primitive(primitive) => match self.primitive_text(*primitive) {
                Some(s) => Some(text(s)),
                None => None,
            },
            Type::Vector(param) => self.pretty_vector(model, param),
            Type::Struct(struct_type) => self.pretty_struct(model, struct_type),
            Type::Reference(_, target) => match self.pretty(model, target) {
                Some(doc) => Some(append(text("&".to_string()), doc)),
                None => None,
            },
            Type::TypeParameter(_) => {
                // The value of a generic cannot be easily displayed because we do not know the
                // actual type unless we parse it out from the model (via the type value parameter)
                // and convert into a Type. However, since the value is parametric and cannot
                // effect the verification outcome, we may not have much need for seeing it.
                Some(text("<generic>".to_string()))
            },
            Type::Other => None,
        }
    }

    /// Pretty prints the body of a struct or vector, enclosed in braces.
    pub fn pretty_vec_or_struct_body(entries: Vec<PrettyDoc>) -> (res: PrettyDoc)
        ensures
            doc_tree(res) == body_tree(trees(entries@)),
    {
        let separator = append(text(",".to_string()), line());
        let lines = append(line_or_nil(), intersperse(entries, separator));
        append(append(text("{".to_string()), group(nest(lines, 2))), text("}".to_string()))
    }

    /// Pretty prints a vector.
    pub fn pretty_vector(&self, model: &Model, param: &Type) -> (res: Option<PrettyDoc>)
        ensures
            vector_tree(model@.vars, self@, *param) == match res {
                Some(doc) => Some(doc_tree(doc)),
                None => None,
            },
        decreases *param, 2int,
    {
        let values = match self.extract_vector(model) {
            Some(values) => values,
            None => {
                return None;
            },
        };
        let mut entries: Vec<PrettyDoc> = Vec::new();
        let mut i: usize = 0;
        while i < values.len()
            invariant
                i <= values@.len(),
                entries@.len() == i,
                forall|j: int|
                    0 <= j < i ==> doc_tree(#[trigger] entries@[j]) == value_or_raw_tree(
                        model@.vars,
                        values@[j]@,
                        *param,
                    ),
            decreases values@.len() - i,
        {
            entries.push(values[i].pretty_or_raw(model, param));
            i += 1;
        }
        assert(trees(entries@) =~= value_trees(model@.vars, values_of(values@), *param));
        Some(append(text("Vector".to_string()), Self::pretty_vec_or_struct_body(entries)))
    }

    /// Pretty prints a struct.
    pub fn pretty_struct(&self, model: &Model, struct_type: &StructType) -> (res: Option<PrettyDoc>)
        ensures
            struct_tree(model@.vars, self@, *struct_type) == match res {
                Some(doc) => Some(doc_tree(doc)),
                None => None,
            },
        decreases *struct_type, 0int,
    {
        let error = ModelValue::error();
        let values = match self.extract_vector(model) {
            Some(values) => values,
            None => {
                return None;
            },
        };
        let ghost vars = model@.vars;
        let ghost vs = values_of(values@);
        let mut entries: Vec<PrettyDoc> = Vec::new();
        let mut i: usize = 0;
        while i < struct_type.fields.len()
            invariant
                vars == model@.vars,
                vs == values_of(values@),
                error@ == error_value(),
                i <= struct_type.fields@.len(),
                entries@.len() == i,
                forall|j: int|
                    0 <= j < i ==> doc_tree(#[trigger] entries@[j]) == binding_tree(
                        append_tree(
                            DocTree::Text(struct_type.fields@[j].name@),
                            DocTree::Text(" ="@),
                        ),
                        value_or_raw_tree(vars, field_value(vs, j), struct_type.fields@[j].ty),
                    ),
            decreases struct_type.fields@.len() - i,
        {
            let field = &struct_type.fields[i];
            let v = if i < values.len() {
                &values[i]
            } else {
                &error
            };
            assert(decreases_to!(*struct_type => struct_type.fields@[i as int].ty));
            let vp = v.pretty_or_raw(model, &field.ty);
            let head = append(text(field.name.clone()), text(" =".to_string()));
            entries.push(append(head, group(nest(append(line(), vp), 2))));
            i += 1;
        }
        assert(trees(entries@) =~= field_trees(vars, vs, *struct_type));
        let name = combine3(struct_type.module_name.as_str(), ".", struct_type.name.as_str());
        Some(append(text(name), Self::pretty_vec_or_struct_body(entries)))
    }
}

/// The name of a local of a function, or of one of its results, which are counted behind the
/// locals.
pub open spec fn local_name(func: FunctionEnv, index: nat) -> Seq<char> {
    let n = func.locals@.len();
    if index < n {
        func.locals@[index as int].name@
    } else if func.return_types@.len() > 1 {
        "RET("@ + decimal((index - n) as nat) + ")"@
    } else {
        "RET"@
    }
}

/// How a local is shown with its value.
pub open spec fn local_tree(
    vars: Seq<(Value, Value)>,
    func: FunctionEnv,
    local: LocalDescriptor,
    ty: Type,
    v: Value,
) -> DocTree {
    binding_tree(
        append_tree(
            append_tree(DocTree::Text(local_name(func, local.var_idx as nat)), DocTree::Text(" "@)),
            DocTree::Text("="@),
        ),
        value_or_raw_tree(vars, v, ty),
    )
}

impl LocalDescriptor {
    /// Pretty prints a tracked locals.
    pub fn pretty(
        &self,
        func_env: &FunctionEnv,
        model: &Model,
        ty: &Type,
        resolved_value: &ModelValue,
    ) -> (res: PrettyDoc)
        ensures
            doc_tree(res) == local_tree(model@.vars, *func_env, *self, *ty, resolved_value@),
    {
        let n = func_env.get_local_count();
        let var_name = if self.var_idx >= n {
            if func_env.get_return_count() > 1 {
                combine3("RET(", decimal_text(self.var_idx - n).as_str(), ")")
            } else {
                "RET".to_string()
            }
        } else {
            func_env.locals[self.var_idx].name.clone()
        };
        let head = append(append(text(var_name), space()), text("=".to_string()));
        append(head, group(nest(append(line(), resolved_value.pretty_or_raw(model, ty)), 2)))
    }
}

/// What can be laid out can be laid out in braces.
pub proof fn lemma_body_renderable(entries: Seq<DocTree>)
    requires
        forall|i: int| 0 <= i < entries.len() ==> renderable(#[trigger] entries[i]),
    ensures
        renderable(body_tree(entries)),
{
    let comma = DocTree::Text(","@);
    let separator = append_tree(comma, line_tree());
    lemma_renderable_parts(comma, comma, 0);
    lemma_renderable_parts(comma, line_tree(), 0);
    lemma_renderable_intersperse(entries, separator);
    let inner = intersperse_tree(entries, separator);
    lemma_renderable_parts(line_or_nil_tree(), inner, 0);
    let lines = append_tree(line_or_nil_tree(), inner);
    lemma_renderable_parts(lines, lines, 2);
    lemma_renderable_parts(nest_tree(lines, 2), lines, 0);
    let body = group_tree(nest_tree(lines, 2));
    lemma_renderable_parts(DocTree::Text("{"@), body, 0);
    lemma_renderable_parts(append_tree(DocTree::Text("{"@), body), DocTree::Text("}"@), 0);
}

proof fn lemma_binding_renderable(head: DocTree, value: DocTree)
    requires
        renderable(head),
        renderable(value),
    ensures
        renderable(binding_tree(head, value)),
{
    lemma_renderable_parts(head, value, 0);
    lemma_renderable_parts(line_tree(), value, 0);
    let inner = append_tree(line_tree(), value);
    lemma_renderable_parts(inner, inner, 2);
    lemma_renderable_parts(nest_tree(inner, 2), inner, 0);
    lemma_renderable_parts(head, group_tree(nest_tree(inner, 2)), 0);
}

/// Every value can be laid out, whatever its type.
pub proof fn lemma_value_renderable(vars: Seq<(Value, Value)>, v: Value, ty: Type)
    ensures
        renderable(value_or_raw_tree(vars, v, ty)),
    decreases ty,
{
    if args_of(v, "Error"@) is None {
        match ty {
            Type::Vector(param) => {
                if let Some(values) = vector_values(vars, v) {
                    let entries = value_trees(vars, values, *param);
                    assert forall|i: int| 0 <= i < entries.len() implies renderable(
                        #[trigger] entries[i],
                    ) by {
                        lemma_value_renderable(vars, values[i], *param);
                    }
                    lemma_body_renderable(entries);
                    lemma_renderable_parts(DocTree::Text("Vector"@), body_tree(entries), 0);
                }
            },
            Type::Struct(struct_type) => {
                if let Some(values) = vector_values(vars, v) {
                    let entries = field_trees(vars, values, struct_type);
                    assert forall|i: int| 0 <= i < entries.len() implies renderable(
                        #[trigger] entries[i],
                    ) by {
                        let field = struct_type.fields@[i];
                        lemma_value_renderable(vars, field_value(values, i), field.ty);
                        let name = DocTree::Text(field.name@);
                        let sign = DocTree::Text(" ="@);
                        lemma_renderable_parts(name, sign, 0);
                        lemma_binding_renderable(
                            append_tree(name, sign),
                            value_or_raw_tree(vars, field_value(values, i), field.ty),
                        );
                    }
                    lemma_body_renderable(entries);
                    lemma_renderable_parts(
                        DocTree::Text(struct_type.module_name@ + "."@ + struct_type.name@),
                        body_tree(entries),
                        0,
                    );
                }
            },
            Type::Reference(_, target) => {
                lemma_value_renderable(vars, v, *target);
                if let Some(tree) = value_tree(vars, v, *target) {
                    lemma_renderable_parts(DocTree::Text("&"@), tree, 0);
                }
            },
            _ => {},
        }
    }
}

/// Every local can be laid out with its value.
pub proof fn lemma_local_renderable(
    vars: Seq<(Value, Value)>,
    func: FunctionEnv,
    local: LocalDescriptor,
    ty: Type,
    v: Value,
)
    ensures
        renderable(local_tree(vars, func, local, ty, v)),
{
    lemma_value_renderable(vars, v, ty);
    let name = DocTree::Text(local_name(func, local.var_idx as nat));
    let space = DocTree::Text(" "@);
    let sign = DocTree::Text("="@);
    lemma_renderable_parts(name, space, 0);
    lemma_renderable_parts(append_tree(name, space), sign, 0);
    lemma_binding_renderable(
        append_tree(append_tree(name, space), sign),
        value_or_raw_tree(vars, v, ty),
    );
}

/// A value that the model leaves open is shown as undefined, whatever its type.
pub proof fn lemma_error_undefined(vars: Seq<(Value, Value)>, ty: Type)
    ensures
        value_tree(vars, error_value(), ty) == Some(DocTree::Text("<undef>"@)),
{
    assert(error_value()->List_0[0] == Value::Literal("Error"@));
}

/// A field for which a struct has no value is shown as undefined.
pub proof fn lemma_missing_field(
    vars: Seq<(Value, Value)>,
    values: Seq<Value>,
    struct_type: StructType,
    i: int,
)
    requires
        values.len() <= i < struct_type.fields@.len(),
    ensures
        field_trees(vars, values, struct_type)[i] == binding_tree(
            append_tree(DocTree::Text(struct_type.fields@[i].name@), DocTree::Text(" ="@)),
            DocTree::Text("<undef>"@),
        ),
{
    lemma_error_undefined(vars, struct_type.fields@[i].ty);
}

} // verus!
