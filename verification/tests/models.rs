use boogie_wrapper::env::{
    FunctionEnv, GlobalEnv, Loc, Local, ModuleEnv, PrimitiveType, Span, Type,
};
use boogie_wrapper::model::{AbortDescriptor, CodeIndex, LocalDescriptor, Model, ShownLocals};
use boogie_wrapper::parser::ModelParseError;
use boogie_wrapper::value::{ModelValue, ValueMap};

fn lit(s: &str) -> ModelValue {
    ModelValue::literal(s)
}

fn list(items: Vec<ModelValue>) -> ModelValue {
    ModelValue::List(items)
}

fn integer(s: &str) -> ModelValue {
    list(vec![lit("Integer"), lit(s)])
}

fn loc(start: u32, end: u32) -> Loc {
    Loc { file_id: 0, span: Span { start, end } }
}

fn function(module_id: usize, name: &str, start: u32, end: u32) -> FunctionEnv {
    FunctionEnv {
        module_id,
        name: name.to_string(),
        loc: loc(start, end),
        locals: vec![
            Local { name: "x".to_string(), ty: Type::Primitive(PrimitiveType::U64) },
            Local { name: "y".to_string(), ty: Type::Primitive(PrimitiveType::Bool) },
        ],
        return_types: vec![Type::Primitive(PrimitiveType::U64)],
    }
}

fn env() -> GlobalEnv {
    GlobalEnv {
        modules: vec![
            ModuleEnv {
                functions: vec![function(0, "f", 10, 50)],
                positions: vec![],
                enclosing_functions: vec![],
            },
            ModuleEnv {
                functions: vec![function(1, "g", 0, 20), function(1, "h", 20, 40)],
                positions: vec![],
                enclosing_functions: vec![],
            },
        ],
        internal_loc: loc(0, 0),
        enclosing_modules: vec![],
    }
}

fn text(locals: &str, aborts: &str) -> String {
    format!(
        "\n$DebugTrackAbort -> {{\n{}\n}}\n$DebugTrackLocal -> {{\n{}\n}}\n*** END_MODEL",
        aborts, locals
    )
}

fn message(input: &str) -> String {
    Model::parse(&env(), input).unwrap_err().0
}

#[test]
fn model_with_locals_and_aborts() {
    let input = text(
        "1 1 2 30 (Integer 7) -> true\n0 0 0 20 (Integer 5) -> true\n\
         0 0 1 12 (Boolean true) -> true\nelse -> true",
        "0 0 44 -> true\nelse -> false",
    );
    let model = Model::parse(&env(), &input).unwrap();
    assert_eq!(model.tracked_locals.len(), 3);
    let order: Vec<(usize, u32)> =
        model.tracked_locals.iter().map(|t| (t.index.module_id, t.index.byte)).collect();
    assert_eq!(order, vec![(0, 12), (0, 20), (1, 30)]);
    assert_eq!(
        model.tracked_locals[1].local,
        LocalDescriptor { module_id: 0, func_id: 0, var_idx: 0 }
    );
    assert_eq!(model.tracked_locals[1].value, integer("5"));
    assert_eq!(
        model.tracked_locals[2].local,
        LocalDescriptor { module_id: 1, func_id: 1, var_idx: 2 }
    );
    assert_eq!(
        model.tracked_aborts,
        vec![(
            CodeIndex { module_id: 0, byte: 44 },
            AbortDescriptor { module_id: 0, func_id: 0 }
        )]
    );
    assert!(model.aborts_at(CodeIndex { module_id: 0, byte: 44 }));
    assert!(!model.aborts_at(CodeIndex { module_id: 0, byte: 45 }));
    assert!(!model.aborts_at(CodeIndex { module_id: 1, byte: 44 }));
}

#[test]
fn locals_at_one_place_keep_the_order_of_their_keys() {
    let input = text("0 0 1 20 b -> true\n0 0 0 20 a -> true", "else -> true");
    let model = Model::parse(&env(), &input).unwrap();
    let vars: Vec<usize> = model.tracked_locals.iter().map(|t| t.local.var_idx).collect();
    assert_eq!(vars, vec![0, 1]);
}

#[test]
fn code_locations_have_thirty_two_bits() {
    let input = text("0 0 0 4294967301 a -> true", "else -> true");
    let model = Model::parse(&env(), &input).unwrap();
    assert_eq!(model.tracked_locals[0].index.byte, 5);
}

#[test]
fn tables_are_needed() {
    assert_eq!(message("*** END_MODEL"), "invalid debug track info");
    assert_eq!(message("$DebugTrackLocal -> { } *** END_MODEL"), "invalid debug track info");
    assert_eq!(
        message("$DebugTrackLocal -> a $DebugTrackAbort -> { } *** END_MODEL"),
        "invalid debug track info"
    );
}

#[test]
fn track_info_is_validated() {
    assert_eq!(message(&text("0 0 0 a -> true", "else -> true")), "invalid debug track info");
    assert_eq!(message(&text("x -> true", "else -> true")), "invalid debug track info");
    assert_eq!(message(&text("x 0 0 20 a -> true", "else -> true")), "invalid debug track info");
    assert_eq!(message(&text("0 0 0 x a -> true", "else -> true")), "invalid debug track info");
    assert_eq!(
        message(&text("2 0 0 20 a -> true", "else -> true")),
        "invalid debug track info: index out of range (upper bound 2, got 2)"
    );
    assert_eq!(
        message(&text("0 1 0 20 a -> true", "else -> true")),
        "invalid debug track info: index out of range (upper bound 1, got 1)"
    );
    assert_eq!(
        message(&text("0 0 3 20 a -> true", "else -> true")),
        "invalid debug track info: index out of range (upper bound 3, got 3)"
    );
    assert_eq!(message(&text("else -> true", "0 0 -> true")), "invalid debug track info");
    assert_eq!(
        message(&text("else -> true", "0 7 20 -> true")),
        "invalid debug track info: index out of range (upper bound 1, got 7)"
    );
}

#[test]
fn models_need_the_end_marker() {
    assert_eq!(message("a -> b } rest"), "expected `*** END_MODEL` (at `} rest...`)");
    assert!(Model::try_parse(&env(), "a -> b").is_none());
}

#[test]
fn range_check() {
    assert_eq!(Model::index_range_check(3, 2), Ok(2));
    assert_eq!(
        Model::index_range_check(3, 3),
        Err(ModelParseError(
            "invalid debug track info: index out of range (upper bound 3, got 3)".to_string()
        ))
    );
    assert_eq!(Model::invalid_track_info().0, "invalid debug track info");
}

#[test]
fn relevant_locals_are_shown_once() {
    let input = text(
        "0 0 0 9 (Integer 1) -> true\n0 0 0 10 (Integer 2) -> true\n\
         0 0 1 20 (Boolean true) -> true\n0 0 0 30 (Integer 3) -> true\n\
         1 0 0 15 (Integer 4) -> true",
        "else -> true",
    );
    let env = env();
    let model = Model::parse(&env, &input).unwrap();
    let func = &env.modules[0].functions[0];
    let mut shown = ShownLocals::new();
    let first = model.relevant_tracked_locals(func, loc(25, 30), &mut shown);
    let values: Vec<ModelValue> = first.iter().map(|b| b.1.clone()).collect();
    assert_eq!(values, vec![integer("2"), list(vec![lit("Boolean"), lit("true")])]);
    assert!(model.relevant_tracked_locals(func, loc(25, 30), &mut shown).is_empty());
    assert!(model.relevant_tracked_locals(func, loc(12, 20), &mut shown).is_empty());
    let second = model.relevant_tracked_locals(func, loc(30, 31), &mut shown);
    assert_eq!(second.len(), 1);
    assert_eq!(second[0].1, integer("3"));
    assert!(model.relevant_tracked_locals(func, loc(25, 30), &mut shown).is_empty());
    assert_eq!(shown.items.len(), 3);
}

#[test]
fn shown_locals_are_a_set() {
    let mut shown = ShownLocals::new();
    let index = CodeIndex { module_id: 0, byte: 1 };
    let local = LocalDescriptor { module_id: 0, func_id: 0, var_idx: 0 };
    assert!(shown.insert(index, local));
    assert!(!shown.insert(index, local));
    assert!(shown.insert(CodeIndex { module_id: 0, byte: 2 }, local));
}

fn model_with(name: &str, table: ValueMap) -> Model {
    let mut vars = ValueMap::new();
    vars.insert(lit(name), ModelValue::Mapping(table));
    Model { vars, tracked_locals: vec![], tracked_aborts: vec![] }
}

#[test]
fn value_arrays_follow_the_model() {
    let mut table = ValueMap::new();
    table.insert(list(vec![lit("k"), lit("0")]), integer("1"));
    table.insert(list(vec![lit("k"), lit("2")]), integer("3"));
    table.insert(list(vec![lit("other"), lit("1")]), integer("9"));
    let model = model_with("Select_[$int]Value", table);
    let array = list(vec![lit("ValueArray"), lit("k"), lit("3")]);
    assert_eq!(
        array.extract_value_array(&model),
        Some(vec![integer("1"), ModelValue::error(), integer("3")])
    );
    let vector = list(vec![lit("Vector"), array]);
    assert_eq!(
        vector.extract_vector(&model),
        Some(vec![integer("1"), ModelValue::error(), integer("3")])
    );
    let empty = list(vec![lit("ValueArray"), lit("k"), lit("0")]);
    assert_eq!(empty.extract_value_array(&model), Some(vec![]));
}

#[test]
fn value_arrays_of_another_form() {
    let model = model_with("Select_[$int]Value", ValueMap::new());
    let short = list(vec![lit("ValueArray"), lit("k")]);
    assert_eq!(short.extract_value_array(&model), None);
    let wrong = list(vec![lit("ValueArray"), lit("k"), lit("x")]);
    assert_eq!(wrong.extract_value_array(&model), None);
    assert_eq!(list(vec![lit("Vector")]).extract_vector(&model), None);
    let array = list(vec![lit("ValueArray"), lit("k"), lit("1")]);
    let other = model_with("Select", ValueMap::new());
    assert_eq!(array.extract_value_array(&other), None);
}

#[test]
fn the_abort_of_the_greatest_key_counts() {
    let input = text("else -> true", "1 1 15 -> true\n1 0 15 -> true\n1 0 7 -> true");
    let model = Model::parse(&env(), &input).unwrap();
    let place = CodeIndex { module_id: 1, byte: 15 };
    let last = model.tracked_aborts.iter().filter(|abort| abort.0 == place).last().unwrap();
    assert_eq!(last.1, AbortDescriptor { module_id: 1, func_id: 1 });
    assert!(model.aborts_at(place));
    assert!(model.aborts_at(CodeIndex { module_id: 1, byte: 7 }));
    assert!(!model.aborts_at(CodeIndex { module_id: 1, byte: 8 }));
}
