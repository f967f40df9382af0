use boogie_wrapper::doc::PrettyDoc;
use boogie_wrapper::env::{
    Field, FunctionEnv, Loc, Local, PrimitiveType, Span, StructType, Type,
};
use boogie_wrapper::model::{LocalDescriptor, Model};
use boogie_wrapper::value::{ModelValue, ValueMap};

fn lit(s: &str) -> ModelValue {
    ModelValue::literal(s)
}

fn list(items: Vec<ModelValue>) -> ModelValue {
    ModelValue::List(items)
}

fn primitive(ctor: &str, s: &str) -> ModelValue {
    list(vec![lit(ctor), lit(s)])
}

fn vector(key: &str, size: &str) -> ModelValue {
    list(vec![lit("Vector"), list(vec![lit("ValueArray"), lit(key), lit(size)])])
}

fn model() -> Model {
    let mut table = ValueMap::new();
    for i in 0..3 {
        let key = list(vec![lit("k"), lit(&i.to_string())]);
        table.insert(key, primitive("Integer", &(i * 10).to_string()));
    }
    table.insert(list(vec![lit("s"), lit("0")]), primitive("Boolean", "true"));
    table.insert(list(vec![lit("s"), lit("1")]), vector("k", "2"));
    let mut vars = ValueMap::new();
    vars.insert(lit("Select_[$int]Value"), ModelValue::Mapping(table));
    Model { vars, tracked_locals: vec![], tracked_aborts: vec![] }
}

fn prim(ty: PrimitiveType) -> Type {
    Type::Primitive(ty)
}

fn show(doc: &PrettyDoc, width: usize) -> String {
    doc.pretty(width).to_string()
}

fn shown(value: &ModelValue, ty: &Type) -> Option<String> {
    value.pretty(&model(), ty).map(|doc| show(&doc, 70))
}

#[test]
fn primitives() {
    let n = primitive("Integer", "5");
    assert_eq!(shown(&n, &prim(PrimitiveType::U8)), Some("5u8".to_string()));
    assert_eq!(shown(&n, &prim(PrimitiveType::U64)), Some("5".to_string()));
    assert_eq!(shown(&n, &prim(PrimitiveType::U128)), Some("5u128".to_string()));
    assert_eq!(shown(&n, &prim(PrimitiveType::Num)), Some("5u128".to_string()));
    assert_eq!(shown(&n, &prim(PrimitiveType::Bool)), None);
    assert_eq!(shown(&n, &prim(PrimitiveType::Other)), None);
    assert_eq!(shown(&n, &Type::Other), None);
    let b = primitive("Boolean", "true");
    assert_eq!(shown(&b, &prim(PrimitiveType::Bool)), Some("true".to_string()));
    assert_eq!(shown(&b, &prim(PrimitiveType::U8)), None);
    assert_eq!(shown(&b, &prim(PrimitiveType::U64)), None);
    assert_eq!(shown(&b, &prim(PrimitiveType::U128)), None);
}

#[test]
fn addresses_are_hexadecimal() {
    let address = |s: &str| shown(&primitive("Address", s), &prim(PrimitiveType::Address));
    assert_eq!(address("0"), Some("0x0".to_string()));
    assert_eq!(address("173345816"), Some("0xa550c18".to_string()));
    assert_eq!(address("0000255"), Some("0xff".to_string()));
    assert_eq!(
        address("340282366920938463463374607431768211456"),
        Some("0x100000000000000000000000000000000".to_string())
    );
    assert_eq!(address("-255"), Some("0x-ff".to_string()));
    assert_eq!(address("-0"), Some("0x0".to_string()));
    assert_eq!(address("+16"), Some("0x10".to_string()));
    assert_eq!(address("1_6_"), Some("0x10".to_string()));
    assert_eq!(address("_16"), None);
    assert_eq!(address("-+16"), None);
    assert_eq!(address("++16"), None);
    assert_eq!(address("-"), None);
    assert_eq!(address(""), None);
    assert_eq!(address("ff"), None);
    assert_eq!(shown(&primitive("Integer", "1"), &prim(PrimitiveType::Address)), None);
}

#[test]
fn byte_arrays_lose_their_prefix() {
    let ty = prim(PrimitiveType::ByteArray);
    assert_eq!(
        shown(&primitive("ByteArray", "T@ByteArray!val!2"), &ty),
        Some("<bytearray 2>".to_string())
    );
    assert_eq!(
        shown(&primitive("ByteArray", "bytes"), &ty),
        Some("<bytearray bytes>".to_string())
    );
    assert_eq!(shown(&primitive("Integer", "2"), &ty), None);
}

#[test]
fn error_values_are_undefined_whatever_their_type() {
    let error = ModelValue::error();
    let undef = Some("<undef>".to_string());
    assert_eq!(shown(&error, &prim(PrimitiveType::U8)), undef);
    assert_eq!(shown(&error, &Type::Vector(Box::new(Type::Other))), undef);
    assert_eq!(shown(&error, &Type::Other), undef);
    assert_eq!(shown(&error, &Type::TypeParameter(0)), undef);
}

#[test]
fn references_and_generics() {
    let n = primitive("Integer", "5");
    let reference = Type::Reference(true, Box::new(prim(PrimitiveType::U64)));
    assert_eq!(shown(&n, &reference), Some("&5".to_string()));
    let wrong = Type::Reference(false, Box::new(prim(PrimitiveType::Bool)));
    assert_eq!(shown(&n, &wrong), None);
    assert_eq!(shown(&n, &Type::TypeParameter(3)), Some("<generic>".to_string()));
}

#[test]
fn vectors() {
    let ty = Type::Vector(Box::new(prim(PrimitiveType::U64)));
    assert_eq!(shown(&vector("k", "3"), &ty), Some("Vector{0, 10, 20}".to_string()));
    assert_eq!(shown(&vector("k", "4"), &ty), Some("Vector{0, 10, 20, <undef>}".to_string()));
    assert_eq!(shown(&vector("k", "0"), &ty), Some("Vector{}".to_string()));
    assert_eq!(shown(&primitive("Integer", "1"), &ty), None);
}

#[test]
fn long_vectors_are_broken_into_lines() {
    let ty = Type::Vector(Box::new(prim(PrimitiveType::U64)));
    let doc = vector("k", "3").pretty_or_raw(&model(), &ty);
    assert_eq!(show(&doc, 10), "Vector{\n  0,\n  10,\n  20}");
}

fn struct_type() -> StructType {
    StructType {
        module_name: "M".to_string(),
        name: "S".to_string(),
        fields: vec![
            Field { name: "b".to_string(), ty: prim(PrimitiveType::Bool) },
            Field {
                name: "v".to_string(),
                ty: Type::Vector(Box::new(prim(PrimitiveType::U64))),
            },
            Field { name: "c".to_string(), ty: prim(PrimitiveType::U8) },
        ],
    }
}

#[test]
fn structs_name_their_fields() {
    let expected = "M.S{b = true, v = Vector{0, 10}, c = <undef>}";
    let ty = Type::Struct(struct_type());
    assert_eq!(shown(&vector("s", "2"), &ty), Some(expected.to_string()));
    let doc = vector("s", "2").pretty_struct(&model(), &struct_type()).unwrap();
    assert_eq!(show(&doc, 70), expected);
    assert!(lit("x").pretty_struct(&model(), &struct_type()).is_none());
}

#[test]
fn narrow_structs_are_broken_into_lines() {
    let doc = vector("s", "2").pretty_struct(&model(), &struct_type()).unwrap();
    assert_eq!(
        show(&doc, 20),
        "M.S{\n  b = true,\n  v = Vector{0, 10},\n  c = <undef>}"
    );
}

#[test]
fn raw_values_show_their_structure() {
    let mut inner = ValueMap::new();
    inner.insert(lit("b"), lit("2"));
    inner.insert(lit("a"), list(vec![]));
    let value = list(vec![lit("x\"y"), ModelValue::Mapping(inner)]);
    let expected = "List([Literal(\"x\\\"y\"), Map({Literal(\"a\"): List([]), \
                    Literal(\"b\"): Literal(\"2\")})])";
    assert_eq!(value.debug_text(), expected);
    let doc = value.pretty_or_raw(&model(), &prim(PrimitiveType::U64));
    assert_eq!(show(&doc, 200), format!("<? {}>", expected));
}

#[test]
fn bodies() {
    let entries = vec![PrettyDoc::text("a"), PrettyDoc::text("b")];
    assert_eq!(show(&ModelValue::pretty_vec_or_struct_body(entries), 70), "{a, b}");
    assert_eq!(show(&ModelValue::pretty_vec_or_struct_body(vec![]), 70), "{}");
}

fn function(returns: usize) -> FunctionEnv {
    FunctionEnv {
        module_id: 0,
        name: "f".to_string(),
        loc: Loc { file_id: 0, span: Span { start: 0, end: 9 } },
        locals: vec![Local { name: "x".to_string(), ty: prim(PrimitiveType::U64) }],
        return_types: (0..returns).map(|_| prim(PrimitiveType::U64)).collect(),
    }
}

fn local(var_idx: usize, returns: usize) -> String {
    let descriptor = LocalDescriptor { module_id: 0, func_id: 0, var_idx };
    let doc = descriptor.pretty(
        &function(returns),
        &model(),
        &prim(PrimitiveType::U64),
        &primitive("Integer", "5"),
    );
    show(&doc, 70)
}

#[test]
fn locals_and_results() {
    assert_eq!(local(0, 1), "x = 5");
    assert_eq!(local(1, 1), "RET = 5");
    assert_eq!(local(1, 2), "RET(0) = 5");
    assert_eq!(local(2, 2), "RET(1) = 5");
}
