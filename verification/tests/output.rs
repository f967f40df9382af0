use boogie_wrapper::env::{
    CodeWriter, FunctionEnv, GlobalEnv, Loc, Local, Location, ModuleEnv, Options, PrimitiveType,
    Span, Type,
};
use boogie_wrapper::errors::{
    compilation_error, make_position, trace_entry, trace_goes_on, try_make_position,
    verification_error, BoogieError, BoogieErrorKind, BoogieWrapper, TraceKind,
};

fn at(line: u32, column: u32) -> Location {
    Location { line, column }
}

fn env() -> GlobalEnv {
    let loc = Loc { file_id: 0, span: Span { start: 0, end: 100 } };
    GlobalEnv {
        modules: vec![ModuleEnv {
            functions: vec![FunctionEnv {
                module_id: 0,
                name: "f".to_string(),
                loc,
                locals: vec![Local {
                    name: "x".to_string(),
                    ty: Type::Primitive(PrimitiveType::U64),
                }],
                return_types: vec![],
            }],
            positions: vec![],
            enclosing_functions: vec![],
        }],
        internal_loc: Loc { file_id: 9, span: Span { start: 0, end: 0 } },
        enclosing_modules: vec![],
    }
}

fn options() -> Options {
    Options { minimize_execution_trace: true, output_path: "output.bpl".to_string() }
}

fn writer() -> CodeWriter {
    CodeWriter { byte_indices: vec![], source_locations: vec![] }
}

fn extract(out: &str) -> Option<Vec<BoogieError>> {
    let (env, writer, options) = (env(), writer(), options());
    let wrapper =
        BoogieWrapper { env: &env, writer: &writer, options: &options, boogie_file_id: 3 };
    let result = wrapper.try_extract_verification_errors(out);
    if let Some(errors) = &result {
        assert_eq!(wrapper.extract_verification_errors(out).len(), errors.len());
    }
    result
}

fn extract_compilation(out: &str) -> Option<Vec<BoogieError>> {
    let (env, writer, options) = (env(), writer(), options());
    let wrapper =
        BoogieWrapper { env: &env, writer: &writer, options: &options, boogie_file_id: 3 };
    let result = wrapper.try_extract_compilation_errors(out);
    if let Some(errors) = &result {
        assert_eq!(wrapper.extract_compilation_errors(out).len(), errors.len());
    }
    result
}

const MODEL: &str = "*** MODEL\n\
    $DebugTrackAbort -> {\n  else -> true\n}\n\
    $DebugTrackLocal -> {\n  0 0 0 5 (Integer 7) -> true\n  else -> true\n}\n\
    *** END_MODEL\n";

const REPORT: &str = "(0,0): Error BP5003: A postcondition might not hold on this return path.\n\
    output.bpl(2964,1): Related location: This is the postcondition that might not hold.\n\
    Execution trace:\n    \
    output.bpl(3068,5): anon0\n    \
    output.bpl(2960,23): inline$LibraAccount_pay$0$Entry\n    \
    output.bpl(2989,5): inline$LibraAccount_pay$0$Return\n";

#[test]
fn postcondition_with_model_and_trace() {
    let out = format!("{}{}", MODEL, REPORT);
    let errors = extract(&out).unwrap();
    assert_eq!(errors.len(), 1);
    let error = &errors[0];
    assert_eq!(error.kind, BoogieErrorKind::Postcondition);
    assert_eq!(error.position, at(2963, 1));
    assert_eq!(error.message, " A postcondition might not hold on this return path.");
    assert_eq!(
        error.execution_trace,
        vec![
            (at(3067, 5), TraceKind::Regular, "anon0".to_string()),
            (at(2959, 23), TraceKind::EnterFunction, "inline$LibraAccount_pay$0$Entry".to_string()),
            (at(2988, 5), TraceKind::ExitFunction, "inline$LibraAccount_pay$0$Return".to_string()),
        ]
    );
    let model = error.model.as_ref().unwrap();
    assert_eq!(model.tracked_locals.len(), 1);
    assert_eq!(model.tracked_locals[0].index.byte, 5);
}

#[test]
fn assertion_without_related_location_or_trace() {
    let errors = extract("out.bpl(7,3): Error BP5001: This assertion might not hold.").unwrap();
    assert_eq!(errors.len(), 1);
    assert_eq!(errors[0].kind, BoogieErrorKind::Assertion);
    assert_eq!(errors[0].position, at(6, 3));
    assert_eq!(errors[0].message, " This assertion might not hold.");
    assert!(errors[0].execution_trace.is_empty());
    assert!(errors[0].model.is_none());
}

#[test]
fn several_errors_keep_their_traces_apart() {
    let out = "a.bpl(1,1): Error BP5001: first\n\
               Execution trace:\n    a.bpl(2,2): one\nrest\n\
               a.bpl(3,3): Error BP5001: second\n\
               Execution trace:\n    a.bpl(4,4): two\r\n    a.bpl(5,5): three\n";
    let errors = extract(out).unwrap();
    assert_eq!(errors.len(), 2);
    assert_eq!(errors[0].message, " first");
    assert_eq!(errors[0].execution_trace.len(), 1);
    assert_eq!(errors[0].execution_trace[0].2, "one");
    assert_eq!(errors[1].position, at(2, 3));
    assert_eq!(errors[1].execution_trace.len(), 2);
    assert_eq!(errors[1].execution_trace[0].2, "two\r");
    assert_eq!(errors[1].execution_trace[1].2, "three");
}

#[test]
fn a_model_that_does_not_parse_counts_as_none() {
    let out = format!("*** MODEL\na -> b\n*** END_MODEL\n{}", REPORT);
    let errors = extract(&out).unwrap();
    assert_eq!(errors.len(), 1);
    assert!(errors[0].model.is_none());
}

#[test]
fn a_model_that_does_not_end_is_not_analyzed() {
    let out = format!("*** MODEL\na -> (b\n*** END_MODEL\n{}", REPORT);
    assert!(extract(&out).is_none());
}

#[test]
fn positions_have_to_fit() {
    assert!(extract("a.bpl(4294967296,1): Error BP5001: x").is_none());
    assert!(extract("a.bpl(\u{661},1): Error BP5001: x").is_none());
    let errors = extract("a.bpl(4294967295,4294967295): Error BP5001: x").unwrap();
    assert_eq!(errors[0].position, at(4294967294, 4294967295));
    let out = "a.bpl(1,1): Error BP5001: x\nExecution trace:\n    a.bpl(4294967296,1): y";
    assert!(extract(out).is_none());
    assert!(extract_compilation("a.bpl(1,4294967296): error: x").is_none());
}

#[test]
fn output_without_errors() {
    assert_eq!(extract("Boogie program verifier finished").unwrap().len(), 0);
    assert_eq!(extract("").unwrap().len(), 0);
    assert_eq!(extract_compilation("").unwrap().len(), 0);
}

#[test]
fn compilation_errors_keep_their_line() {
    let out = "intro\n\
               a.bpl(12,7): Error: undeclared identifier: x\n\
               a.bpl(13,0): syntax error: y\n\
               a.bpl(14,1): warning\n";
    let errors = extract_compilation(out).unwrap();
    assert_eq!(errors.len(), 2);
    assert_eq!(errors[0].kind, BoogieErrorKind::Compilation);
    assert_eq!(errors[0].position, at(11, 7));
    assert_eq!(errors[0].message, "a.bpl(12,7): Error: undeclared identifier: x");
    assert!(errors[0].execution_trace.is_empty());
    assert!(errors[0].model.is_none());
    assert_eq!(errors[1].position, at(12, 0));
    assert_eq!(errors[1].message, "a.bpl(13,0): syntax error: y");
}

#[test]
fn analysis_puts_verification_errors_first() {
    let (env, writer, options) = (env(), writer(), options());
    let wrapper =
        BoogieWrapper { env: &env, writer: &writer, options: &options, boogie_file_id: 3 };
    let out = format!("a.bpl(12,7): error: bad\n{}", REPORT);
    let output = wrapper.analyze_output(out.clone()).unwrap();
    assert_eq!(output.all_output, out);
    let kinds: Vec<BoogieErrorKind> = output.errors.iter().map(|e| e.kind).collect();
    assert_eq!(kinds, vec![BoogieErrorKind::Postcondition, BoogieErrorKind::Compilation]);
    assert!(wrapper.analyze_output("a.bpl(1,4294967296): error: x".to_string()).is_none());
    assert!(wrapper.analyze_output("a.bpl(1,4294967296): Error BP5: x".to_string()).is_none());
}

#[test]
fn verification_kinds() {
    assert!(BoogieErrorKind::Assertion.is_from_verification());
    assert!(BoogieErrorKind::Postcondition.is_from_verification());
    assert!(!BoogieErrorKind::Compilation.is_from_verification());
    assert_eq!(
        BoogieErrorKind::from_message("This assertion might not hold."),
        BoogieErrorKind::Assertion
    );
    assert_eq!(BoogieErrorKind::from_message("assertion"), BoogieErrorKind::Postcondition);
}

#[test]
fn trace_kinds() {
    assert_eq!(TraceKind::from_message("a$Entry"), TraceKind::EnterFunction);
    assert_eq!(TraceKind::from_message("a$Return"), TraceKind::ExitFunction);
    assert_eq!(TraceKind::from_message("a_update_inv$0"), TraceKind::UpdateInvariant);
    assert_eq!(TraceKind::from_message("a_update_inv$0$Entry"), TraceKind::EnterFunction);
    assert_eq!(TraceKind::from_message("inline$Pack_S$0"), TraceKind::Pack);
    assert_eq!(TraceKind::from_message("a$Entry0"), TraceKind::Regular);
    assert_eq!(TraceKind::from_message(""), TraceKind::Regular);
}

#[test]
fn positions() {
    assert_eq!(make_position("10", "4"), at(9, 4));
    assert_eq!(make_position("0", "0"), at(0, 0));
    assert_eq!(make_position("1", "1"), at(0, 1));
    assert_eq!(try_make_position("4294967296", "1"), None);
    assert_eq!(try_make_position("1", "x"), None);
    assert_eq!(try_make_position("", "1"), None);
}

#[test]
fn trace_entries_go_on_with_an_indent() {
    assert!(trace_goes_on("\n  x"));
    assert!(trace_goes_on("\r\n  x"));
    assert!(!trace_goes_on("\n x"));
    assert!(!trace_goes_on("  x"));
    assert!(!trace_goes_on(""));
}

#[test]
fn parts_of_errors() {
    let entry = trace_entry("5", "2", "p$Entry").unwrap();
    assert_eq!(entry, (at(4, 2), TraceKind::EnterFunction, "p$Entry".to_string()));
    assert_eq!(trace_entry("x", "2", "p"), None);
    let error = verification_error(("1", "2", "m"), Some(("7", "8")), vec![entry], None).unwrap();
    assert_eq!(error.position, at(6, 8));
    assert_eq!(error.message, "m");
    assert_eq!(error.execution_trace.len(), 1);
    let error = verification_error(("1", "2", "m"), None, vec![], None).unwrap();
    assert_eq!(error.position, at(0, 2));
    assert!(verification_error(("x", "2", "m"), None, vec![], None).is_none());
    assert!(verification_error(("x", "2", "m"), Some(("1", "1")), vec![], None).is_some());
    let error = compilation_error("3", "4", "line").unwrap();
    assert_eq!(error.position, at(2, 4));
    assert_eq!(error.kind, BoogieErrorKind::Compilation);
    assert!(compilation_error("3", "", "line").is_none());
}

fn rejected(out: &str) -> Option<Vec<String>> {
    let (env, writer, options) = (env(), writer(), options());
    let wrapper =
        BoogieWrapper { env: &env, writer: &writer, options: &options, boogie_file_id: 3 };
    wrapper.rejected_models(out)
}

#[test]
fn rejected_models_are_told_in_order() {
    let bare = "*** MODEL\na -> b\n*** END_MODEL\n";
    let unfit = "*** MODEL\n$DebugTrackLocal -> {\n  5 0 0 5 x -> true\n}\n*** END_MODEL\n";
    let out = format!("{}{}{}{}", bare, REPORT, unfit, REPORT);
    assert_eq!(
        rejected(&out),
        Some(vec![
            "invalid debug track info".to_string(),
            "invalid debug track info: index out of range (upper bound 1, got 5)".to_string(),
        ])
    );
    let errors = extract(&out).unwrap();
    assert_eq!(errors.len(), 2);
    assert!(errors.iter().all(|error| error.model.is_none()));
}

#[test]
fn models_without_an_error_behind_them_are_told_too() {
    assert_eq!(
        rejected("*** MODEL\n-> b\n*** END_MODEL\n"),
        Some(vec!["expected at least one component of a key".to_string()])
    );
}

#[test]
fn nothing_is_told_of_models_that_parse() {
    assert_eq!(rejected(&format!("{}{}", MODEL, REPORT)), Some(vec![]));
    assert_eq!(rejected(""), Some(vec![]));
    assert_eq!(rejected("a.bpl(4294967296,1): Error BP5001: x"), None);
}

#[test]
fn runs_are_evaluated_by_their_status() {
    let (env, writer, options) = (env(), writer(), options());
    let wrapper =
        BoogieWrapper { env: &env, writer: &writer, options: &options, boogie_file_id: 3 };
    let output =
        wrapper.evaluate_run(true, Some(0), REPORT.to_string()).unwrap().unwrap();
    assert_eq!(output.errors.len(), 1);
    assert_eq!(output.all_output, REPORT);
    let message = |code| wrapper.evaluate_run(false, code, REPORT.to_string()).unwrap_err();
    assert_eq!(message(Some(1)), "boogie exited with status Some(1)");
    assert_eq!(message(Some(0)), "boogie exited with status Some(0)");
    assert_eq!(message(Some(-11)), "boogie exited with status Some(-11)");
    assert_eq!(
        message(Some(i32::MIN)),
        format!("boogie exited with status {:?}", Some(i32::MIN))
    );
    assert_eq!(message(None), "boogie exited with status None");
    let unfit = "a.bpl(1,4294967296): error: x".to_string();
    assert!(wrapper.evaluate_run(true, Some(0), unfit).unwrap().is_none());
}

#[test]
fn compilation_messages_stand_in_the_output_in_order() {
    let out = "a(1,1): error: x\na(1,1): error: x\nb\nc(2,2) Error: y";
    let errors = extract_compilation(out).unwrap();
    assert_eq!(errors.len(), 3);
    let mut at = 0;
    for error in &errors {
        at += out[at..].find(&error.message).unwrap() + error.message.len();
    }
    assert_eq!(at, out.len());
}
