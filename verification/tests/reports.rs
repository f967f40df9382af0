use boogie_wrapper::doc::PrettyDoc;
use boogie_wrapper::env::{
    CodeWriter, FunctionEnv, GlobalEnv, Loc, Local, Location, ModuleEnv, Options, PrimitiveType,
    SourceLoc, Span, Type,
};
use boogie_wrapper::errors::{BoogieError, BoogieErrorKind, BoogieWrapper, TraceKind};
use boogie_wrapper::model::{
    AbortDescriptor, CodeIndex, LocalDescriptor, Model, ShownLocals, TrackedLocal,
};
use boogie_wrapper::report::{Diagnostic, Severity};
use boogie_wrapper::value::{ModelValue, ValueMap};

const FILE: u32 = 1;
const INTERNAL: Loc = Loc { file_id: 7, span: Span { start: 0, end: 0 } };

fn at(line: u32, column: u32) -> Location {
    Location { line, column }
}

fn span(start: u32, end: u32) -> Span {
    Span { start, end }
}

fn loc(start: u32, end: u32) -> Loc {
    Loc { file_id: FILE, span: span(start, end) }
}

fn source(start: u32, end: u32) -> SourceLoc {
    SourceLoc { loc: loc(start, end), start: loc(start, start + 1), end: loc(end - 1, end) }
}

fn integer(s: &str) -> ModelValue {
    ModelValue::List(vec![ModelValue::literal("Integer"), ModelValue::literal(s)])
}

/// Lines 1 to 5 of the generated program come from the function `f`, line 6 is internal, line 7
/// lies outside of the modules, and line 8 has no position in the source.
fn writer() -> CodeWriter {
    let internal = SourceLoc { loc: INTERNAL, start: INTERNAL, end: INTERNAL };
    CodeWriter {
        byte_indices: (1..9).map(|line| (at(line, 0), line * 10)).collect(),
        source_locations: vec![
            (10, source(10, 50)),
            (20, source(12, 15)),
            (30, source(12, 15)),
            (40, source(20, 25)),
            (50, source(30, 35)),
            (60, internal),
            (70, source(90, 95)),
            (80, source(40, 45)),
        ],
    }
}

fn env() -> GlobalEnv {
    let u64_type = || Type::Primitive(PrimitiveType::U64);
    let position = |start, end, line| (span(start, end), ("m.move".to_string(), at(line, 4)));
    GlobalEnv {
        modules: vec![ModuleEnv {
            functions: vec![FunctionEnv {
                module_id: 0,
                name: "f".to_string(),
                loc: loc(10, 50),
                locals: vec![
                    Local { name: "x".to_string(), ty: u64_type() },
                    Local { name: "y".to_string(), ty: u64_type() },
                ],
                return_types: vec![u64_type()],
            }],
            positions: vec![
                position(10, 50, 1),
                position(12, 15, 2),
                position(20, 25, 3),
                position(30, 35, 4),
            ],
            enclosing_functions: vec![
                (span(10, 50), 0),
                (span(10, 11), 0),
                (span(49, 50), 0),
                (span(12, 15), 0),
                (span(20, 25), 0),
            ],
        }],
        internal_loc: INTERNAL,
        enclosing_modules: vec![
            (loc(10, 50), 0),
            (loc(12, 15), 0),
            (loc(20, 25), 0),
            (loc(30, 35), 0),
            (loc(40, 45), 0),
        ],
    }
}

fn options(minimize_execution_trace: bool) -> Options {
    Options { minimize_execution_trace, output_path: "output.bpl".to_string() }
}

fn local(byte: u32, var_idx: usize, value: &str) -> TrackedLocal {
    TrackedLocal {
        index: CodeIndex { module_id: 0, byte },
        local: LocalDescriptor { module_id: 0, func_id: 0, var_idx },
        value: integer(value),
    }
}

fn model(tracked_locals: Vec<TrackedLocal>, aborts: Vec<u32>) -> Model {
    Model {
        vars: ValueMap::new(),
        tracked_locals,
        tracked_aborts: aborts
            .into_iter()
            .map(|byte| {
                (
                    CodeIndex { module_id: 0, byte },
                    AbortDescriptor { module_id: 0, func_id: 0 },
                )
            })
            .collect(),
    }
}

fn error(
    kind: BoogieErrorKind,
    position: Location,
    trace: Vec<(u32, TraceKind)>,
    model: Option<Model>,
) -> BoogieError {
    BoogieError {
        kind,
        position,
        message: "message".to_string(),
        execution_trace: trace
            .into_iter()
            .map(|(line, kind)| (at(line, 0), kind, format!("entry {}", line)))
            .collect(),
        model,
    }
}

fn report_with(minimize: bool, error: &BoogieError) -> Option<Diagnostic> {
    let (env, writer, options) = (env(), writer(), options(minimize));
    let wrapper =
        BoogieWrapper { env: &env, writer: &writer, options: &options, boogie_file_id: 3 };
    if !wrapper.can_report(error) {
        return None;
    }
    let mut diagnostics = vec![];
    wrapper.add_error(error, &mut diagnostics);
    assert_eq!(diagnostics.len(), 1);
    diagnostics.pop()
}

fn report(error: &BoogieError) -> Option<Diagnostic> {
    report_with(true, error)
}

#[test]
fn errors_are_reported_on_the_source() {
    let diagnostic =
        report(&error(BoogieErrorKind::Assertion, at(2, 0), vec![], None)).unwrap();
    assert_eq!(
        diagnostic,
        Diagnostic {
            severity: Severity::Error,
            message: "message".to_string(),
            file_id: FILE,
            span: span(12, 15),
            notes: vec![],
        }
    );
}

#[test]
fn errors_without_a_source_are_bugs() {
    let diagnostic =
        report(&error(BoogieErrorKind::Postcondition, at(6, 0), vec![], None)).unwrap();
    assert_eq!(diagnostic.severity, Severity::Bug);
    assert_eq!(diagnostic.file_id, 3);
    assert_eq!(diagnostic.span, span(60, 60));
    let unknown =
        report(&error(BoogieErrorKind::Postcondition, at(77, 1), vec![], None)).unwrap();
    assert_eq!(unknown.severity, Severity::Bug);
    assert_eq!(unknown.span, span(0, 0));
}

#[test]
fn compilation_errors_are_bugs_without_notes() {
    let trace = vec![(2, TraceKind::Regular)];
    let diagnostic =
        report(&error(BoogieErrorKind::Compilation, at(2, 0), trace, None)).unwrap();
    assert_eq!(diagnostic.severity, Severity::Bug);
    assert_eq!(diagnostic.file_id, 3);
    assert_eq!(diagnostic.span, span(20, 20));
    assert_eq!(diagnostic.notes.len(), 0);
}

#[test]
fn notes_show_functions_and_locals() {
    let trace = vec![
        (1, TraceKind::EnterFunction),
        (2, TraceKind::Regular),
        (4, TraceKind::Regular),
        (1, TraceKind::ExitFunction),
    ];
    let model = model(
        vec![local(11, 0, "1"), local(13, 1, "2"), local(22, 0, "3"), local(40, 2, "4")],
        vec![],
    );
    let error = error(BoogieErrorKind::Assertion, at(2, 0), trace, Some(model));
    assert_eq!(
        report(&error).unwrap().notes,
        vec![
            "    at m.move:2:5: f (entry)".to_string(),
            "    at m.move:3:5: f\n        x = 1,\n        y = 2".to_string(),
            "    at m.move:4:5: f\n        x = 3".to_string(),
            "    at m.move:2:5: f (exit)\n        RET = 4".to_string(),
        ]
    );
}

#[test]
fn repetitions_are_removed_on_demand() {
    let trace = || {
        vec![
            (2, TraceKind::Regular),
            (3, TraceKind::Regular),
            (2, TraceKind::Pack),
            (3, TraceKind::Regular),
            (4, TraceKind::Regular),
        ]
    };
    let minimized =
        report_with(true, &error(BoogieErrorKind::Assertion, at(2, 0), trace(), None)).unwrap();
    assert_eq!(
        minimized.notes,
        vec![
            "    at m.move:3:5: f".to_string(),
            "    at m.move:3:5: f (pack)".to_string(),
            "    at m.move:4:5: f".to_string(),
        ]
    );
    let full =
        report_with(false, &error(BoogieErrorKind::Assertion, at(2, 0), trace(), None)).unwrap();
    assert_eq!(full.notes.len(), 5);
}

#[test]
fn traces_end_where_the_program_aborts() {
    let trace = vec![
        (2, TraceKind::Regular),
        (4, TraceKind::UpdateInvariant),
        (5, TraceKind::Regular),
    ];
    let error =
        error(BoogieErrorKind::Assertion, at(2, 0), trace, Some(model(vec![], vec![20])));
    assert_eq!(
        report(&error).unwrap().notes,
        vec!["    at m.move:3:5: f".to_string(), "    at m.move:4:5: f (ABORTED)".to_string()]
    );
}

#[test]
fn entries_without_a_source_are_skipped() {
    let trace = vec![
        (6, TraceKind::Regular),
        (7, TraceKind::Regular),
        (8, TraceKind::Regular),
        (5, TraceKind::UpdateInvariant),
    ];
    let error = error(BoogieErrorKind::Assertion, at(2, 0), trace, None);
    assert_eq!(
        report(&error).unwrap().notes,
        vec!["    at m.move:5:5: <unknown function> (invariant)".to_string()]
    );
}

#[test]
fn notes_on_the_generated_program() {
    let trace = vec![(2, TraceKind::Regular), (4, TraceKind::Pack)];
    let error = error(BoogieErrorKind::Assertion, at(6, 0), trace, None);
    let diagnostic = report(&error).unwrap();
    assert_eq!(diagnostic.severity, Severity::Bug);
    assert_eq!(
        diagnostic.notes,
        vec![
            "    at output.bpl:3:1: <boogie>: entry 2".to_string(),
            "    at output.bpl:5:1: <boogie>: entry 4".to_string(),
        ]
    );
}

#[test]
fn locals_that_the_function_lacks_are_not_reported() {
    let trace = || vec![(2, TraceKind::Regular)];
    let unfit = model(vec![local(13, 3, "2")], vec![]);
    let error = error(BoogieErrorKind::Assertion, at(2, 0), trace(), Some(unfit));
    assert!(report(&error).is_none());
}

#[test]
fn all_errors_or_none_are_added() {
    let (env, writer, options) = (env(), writer(), options(true));
    let wrapper =
        BoogieWrapper { env: &env, writer: &writer, options: &options, boogie_file_id: 3 };
    let good = || error(BoogieErrorKind::Assertion, at(2, 0), vec![], None);
    let bad = || {
        let trace = vec![(2, TraceKind::Regular)];
        let unfit = model(vec![local(13, 3, "2")], vec![]);
        error(BoogieErrorKind::Assertion, at(2, 0), trace, Some(unfit))
    };
    let mut diagnostics = vec![];
    assert!(wrapper.add_errors(&vec![good(), good()], &mut diagnostics));
    assert_eq!(diagnostics.len(), 2);
    assert!(!wrapper.add_errors(&vec![good(), bad()], &mut diagnostics));
    assert_eq!(diagnostics.len(), 2);
    assert!(wrapper.add_errors(&vec![], &mut diagnostics));
    assert_eq!(diagnostics.len(), 2);
}

#[test]
fn locations() {
    let (env, writer, options) = (env(), writer(), options(true));
    let wrapper =
        BoogieWrapper { env: &env, writer: &writer, options: &options, boogie_file_id: 3 };
    assert_eq!(wrapper.get_locations(at(2, 0)), (20, Some(source(12, 15))));
    assert_eq!(wrapper.get_locations(at(2, 1)), (0, None));
    let internal = wrapper.get_locations(at(6, 0)).1;
    assert!(internal.is_some());
    assert_eq!(wrapper.to_proper_source_location(internal), None);
    assert_eq!(wrapper.to_proper_source_location(None), None);
    assert_eq!(
        wrapper.to_proper_source_location(Some(source(12, 15))),
        Some(source(12, 15))
    );
}

#[test]
fn types_of_locals_and_results() {
    let (env, writer, options) = (env(), writer(), options(true));
    let wrapper =
        BoogieWrapper { env: &env, writer: &writer, options: &options, boogie_file_id: 3 };
    let func = &env.modules[0].functions[0];
    assert_eq!(*wrapper.get_type_of_local_or_return(func, 1), func.locals[1].ty);
    assert_eq!(*wrapper.get_type_of_local_or_return(func, 2), func.return_types[0]);
}

#[test]
fn notes_indent_further_lines() {
    let (env, writer, options) = (env(), writer(), options(true));
    let wrapper =
        BoogieWrapper { env: &env, writer: &writer, options: &options, boogie_file_id: 3 };
    let plain = wrapper.render_trace_info("a".to_string(), at(0, 0), PrettyDoc::text("t"));
    assert_eq!(plain, "    at a:1:1: t");
    let lines = PrettyDoc::text("t").append(PrettyDoc::hardline()).append(PrettyDoc::text("u"));
    assert_eq!(
        wrapper.render_trace_info("a".to_string(), at(1, 9), lines),
        "    at a:2:10: t\n        u"
    );
}

#[test]
fn the_last_entry_shows_all_locals() {
    let (env, writer, options) = (env(), writer(), options(true));
    let wrapper =
        BoogieWrapper { env: &env, writer: &writer, options: &options, boogie_file_id: 3 };
    let model = model(vec![local(11, 0, "1"), local(49, 1, "2")], vec![]);
    let module = &env.modules[0];
    let show = |kind, is_last| {
        let mut shown = ShownLocals::new();
        let doc = wrapper.pretty_trace_info(
            module,
            source(12, 15),
            Some(&model),
            &mut shown,
            kind,
            is_last,
            "",
        );
        (doc.pretty(70).to_string(), shown.items.len())
    };
    assert_eq!(show(TraceKind::Regular, false), ("f\nx = 1".to_string(), 1));
    assert_eq!(show(TraceKind::Aborted, true), ("f (ABORTED)\nx = 1,\ny = 2".to_string(), 2));
}

#[test]
fn programs_name_existing_modules_and_functions() {
    assert!(env().is_well_formed());
    let mut broken = env();
    broken.modules[0].enclosing_functions.push((span(0, 1), 1));
    assert!(!broken.is_well_formed());
    let mut broken = env();
    broken.enclosing_modules.push((loc(0, 1), 1));
    assert!(!broken.is_well_formed());
    let mut broken = env();
    broken.modules[0].functions[0].module_id = 1;
    assert!(broken.modules[0].is_well_formed());
    assert!(broken.modules[0].has_id(1));
    assert!(!broken.is_well_formed());
}
