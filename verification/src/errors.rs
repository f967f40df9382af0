//! Extraction of errors from the output of the Boogie verifier.
use vstd::prelude::*;

use crate::env::{CodeWriter, GlobalEnv, Location, Options};
use crate::model::{Model, ModelView, parsed_model};
use crate::pattern::{
    after, all_matches, Captured, captured, captured_all, captures, captures_all, consumed,
    DIAG_COMPILATION, DIAG_RELATED, DIAG_START, DIAG_TRACE, DIAG_TRACE_ENTRY, first_match, group,
    has_groups, lie_in_order, MODEL_REGION, skip_match, whole,
};
use crate::text::{
    begins_with, combine3, contains_text, ends_with, finishes_with, has_at, holds, number_up_to,
    read_number, signed_decimal, signed_text, starts_with, texts_of,
};

verus! {

/// Represents the boogie wrapper.
pub struct BoogieWrapper<'env> {
    pub env: &'env GlobalEnv,
    pub writer: &'env CodeWriter,
    pub options: &'env Options,
    pub boogie_file_id: u32,
}

/// Output of a boogie run.
#[derive(Debug)]
pub struct BoogieOutput {
    /// All errors which could be parsed from the output.
    pub errors: Vec<BoogieError>,
    /// Full output as a string.
    pub all_output: String,
}

/// Kind of boogie error.
#[derive(Debug, Clone, Copy, PartialEq, Eq, Structural)]
pub enum BoogieErrorKind {
    Compilation,
    Postcondition,
    Assertion,
}

/// A boogie error.
#[derive(Debug)]
pub struct BoogieError {
    pub kind: BoogieErrorKind,
    pub position: Location,
    pub message: String,
    pub execution_trace: Vec<(Location, TraceKind, String)>,
    pub model: Option<Model>,
}

/// The type of a trace.
#[derive(Debug, Clone, Copy, PartialEq, Eq, Structural)]
pub enum TraceKind {
    Regular,
    EnterFunction,
    ExitFunction,
    Aborted,
    UpdateInvariant,
    Pack,
}

/// What an entry of an execution trace stands for.
pub struct EntryView {
    pub position: Location,
    pub kind: TraceKind,
    pub message: Seq<char>,
}

/// What a boogie error stands for.
pub struct ErrorView {
    pub kind: BoogieErrorKind,
    pub position: Location,
    pub message: Seq<char>,
    pub trace: Seq<EntryView>,
    pub model: Option<ModelView>,
}

/// What an entry of an execution trace stands for.
pub open spec fn entry_of(entry: (Location, TraceKind, String)) -> EntryView {
    EntryView { position: entry.0, kind: entry.1, message: entry.2@ }
}

/// What the entries of an execution trace stand for.
pub open spec fn trace_of(trace: Seq<(Location, TraceKind, String)>) -> Seq<EntryView> {
    Seq::new(trace.len(), |i: int| entry_of(trace[i]))
}

impl View for BoogieError {
    type V = ErrorView;

    open spec fn view(&self) -> ErrorView {
        ErrorView {
            kind: self.kind,
            position: self.position,
            message: self.message@,
            trace: trace_of(self.execution_trace@),
            model: model_view(self.model),
        }
    }
}

/// What a model stands for, where there is one.
pub open spec fn model_view(model: Option<Model>) -> Option<ModelView> {
    match model {
        Some(m) => Some(m@),
        None => None,
    }
}

/// What errors stand for.
pub open spec fn errors_of(errors: Seq<BoogieError>) -> Seq<ErrorView> {
    Seq::new(errors.len(), |i: int| errors[i]@)
}

impl BoogieErrorKind {
    /// Tells whether an error comes from the verification of a program, and not from reading it.
    pub fn is_from_verification(self) -> (res: bool)
        ensures
            res == (self is Assertion || self is Postcondition),
    {
        self == BoogieErrorKind::Assertion || self == BoogieErrorKind::Postcondition
    }

    /// The kind of a verification error with the message `msg`.
    pub open spec fn of_message(msg: Seq<char>) -> BoogieErrorKind {
        if contains_text(msg, "assertion might not hold"@) {
            BoogieErrorKind::Assertion
        } else {
            BoogieErrorKind::Postcondition
        }
    }

    /// Finds the kind of a verification error by its message.
    pub fn from_message(msg: &str) -> (res: BoogieErrorKind)
        ensures
            res == Self::of_message(msg@),
    {
        if holds(msg, "assertion might not hold") {
            BoogieErrorKind::Assertion
        } else {
            BoogieErrorKind::Postcondition
        }
    }
}

impl TraceKind {
    /// The kind of a trace entry with the message `msg`.
    pub open spec fn of_message(msg: Seq<char>) -> TraceKind {
        if ends_with(msg, "$Entry"@) {
            TraceKind::EnterFunction
        } else if ends_with(msg, "$Return"@) {
            TraceKind::ExitFunction
        } else if contains_text(msg, "_update_inv$"@) {
            TraceKind::UpdateInvariant
        } else if contains_text(msg, "$Pack_"@) {
            TraceKind::Pack
        } else {
            TraceKind::Regular
        }
    }

    /// Finds the kind of a trace entry by its message.
    pub fn from_message(msg: &str) -> (res: TraceKind)
        ensures
            res == Self::of_message(msg@),
    {
        if finishes_with(msg, "$Entry") {
            TraceKind::EnterFunction
        } else if finishes_with(msg, "$Return") {
            TraceKind::ExitFunction
        } else if holds(msg, "_update_inv$") {
            TraceKind::UpdateInvariant
        } else if holds(msg, "$Pack_") {
            TraceKind::Pack
        } else {
            TraceKind::Regular
        }
    }
}

/// The position for a line and a column: lines are counted from one, but a line zero stays. There
/// is none where they are not numbers of 32 bits.
pub open spec fn position_of(line: Seq<char>, col: Seq<char>) -> Option<Location> {
    match (number_up_to(line, u32::MAX as int), number_up_to(col, u32::MAX as int)) {
        (Some(l), Some(c)) => Some(
            Location {
                line: (if l > 0 {
                    l - 1
                } else {
                    0
                }) as u32,
                column: c as u32,
            },
        ),
        _ => None,
    }
}

/// Creates a position (line/column pair) from strings, if they are numbers that fit.
pub fn try_make_position(line_str: &str, col_str: &str) -> (res: Option<Location>)
    ensures
        res == position_of(line_str@, col_str@),
{
    match (read_number(line_str, u32::MAX as usize), read_number(col_str, u32::MAX as usize)) {
        (Some(line), Some(col)) => {
            let line: u32 = line as u32;
            let column: u32 = col as u32;
            Some(
                Location {
                    line: if line > 0 {
                        line - 1
                    } else {
                        line
                    },
                    column,
                },
            )
        },
        _ => None,
    }
}

/// Creates a position (line/column pair) from strings which are known to consist only of digits.
pub fn make_position(line_str: &str, col_str: &str) -> (res: Location)
    requires
        position_of(line_str@, col_str@) is Some,
    ensures
        position_of(line_str@, col_str@) == Some(res),
{
    try_make_position(line_str, col_str).unwrap()
}

/// Tells whether the text behind a trace entry goes on with an indented line, as all trace entries
/// are.
pub open spec fn goes_on(rest: Seq<char>) -> bool {
    begins_with(rest, "\n  "@) || begins_with(rest, "\r\n  "@)
}

/// Tells whether the text behind a trace entry goes on with an indented line, as all trace entries
/// are.
pub fn trace_goes_on(rest: &str) -> (res: bool)
    ensures
        res == goes_on(rest@),
{
    starts_with(rest, "\n  ") || starts_with(rest, "\r\n  ")
}

/// The trace entry for a line, a column and a message.
pub open spec fn entry_for(line: Seq<char>, col: Seq<char>, msg: Seq<char>) -> Option<EntryView> {
    match position_of(line, col) {
        Some(position) => Some(
            EntryView { position, kind: TraceKind::of_message(msg), message: msg },
        ),
        None => None,
    }
}

/// Makes a trace entry from a line, a column and a message, if they are numbers that fit.
pub fn trace_entry(line: &str, col: &str, msg: &str) -> (res: Option<
    (Location, TraceKind, String),
>)
    ensures
        entry_for(line@, col@, msg@) == match res {
            Some(entry) => Some(entry_of(entry)),
            None => None,
        },
{
    match try_make_position(line, col) {
        Some(position) => Some((position, TraceKind::from_message(msg), msg.to_string())),
        None => None,
    }
}

/// The verification error for the line, column and message of its report. Where it is related to
/// another line and column, that is its position.
pub open spec fn error_for(
    start: (Seq<char>, Seq<char>, Seq<char>),
    related: Option<(Seq<char>, Seq<char>)>,
    trace: Seq<EntryView>,
    model: Option<ModelView>,
) -> Option<ErrorView> {
    let (line, col) = match related {
        Some(place) => place,
        None => (start.0, start.1),
    };
    match position_of(line, col) {
        Some(position) => Some(
            ErrorView {
                kind: BoogieErrorKind::of_message(start.2),
                position,
                message: start.2,
                trace,
                model,
            },
        ),
        None => None,
    }
}

/// Makes a verification error from the line, column and message of its report, and the related
/// line and column, if they are numbers that fit.
pub fn verification_error(
    start: (&str, &str, &str),
    related: Option<(&str, &str)>,
    execution_trace: Vec<(Location, TraceKind, String)>,
    model: Option<Model>,
) -> (res: Option<BoogieError>)
    ensures
        error_for(
            (start.0@, start.1@, start.2@),
            match related {
                Some(place) => Some((place.0@, place.1@)),
                None => None,
            },
            trace_of(execution_trace@),
            model_view(model),
        ) == match res {
            Some(error) => Some(error@),
            None => None,
        },
{
    let (line, col) = match related {
        Some(place) => place,
        None => (start.0, start.1),
    };
    match try_make_position(line, col) {
        Some(position) => Some(
            BoogieError {
                kind: BoogieErrorKind::from_message(start.2),
                position,
                message: start.2.to_string(),
                execution_trace,
                model,
            },
        ),
        None => None,
    }
}

/// The compilation error for a line, a column and a message.
pub open spec fn compilation_error_for(
    line: Seq<char>,
    col: Seq<char>,
    msg: Seq<char>,
) -> Option<ErrorView> {
    match position_of(line, col) {
        Some(position) => Some(
            ErrorView {
                kind: BoogieErrorKind::Compilation,
                position,
                message: msg,
                trace: Seq::empty(),
                model: None,
            },
        ),
        None => None,
    }
}

/// Makes a compilation error from a line, a column and a message, if they are numbers that fit.
pub fn compilation_error(line: &str, col: &str, msg: &str) -> (res: Option<BoogieError>)
    ensures
        compilation_error_for(line@, col@, msg@) == match res {
            Some(error) => Some(error@),
            None => None,
        },
{
    match try_make_position(line, col) {
        Some(position) => {
            let error = BoogieError {
                kind: BoogieErrorKind::Compilation,
                position,
                message: msg.to_string(),
                execution_trace: Vec::new(),
                model: None,
            };
            assert(error@.trace =~= Seq::<EntryView>::empty());
            Some(error)
        },
        None => None,
    }
}

/// The entries of the execution trace that a text goes on with, and the text behind them. Nothing
/// is given where a position does not fit.
pub open spec fn trace_from(text: Seq<char>) -> Option<(Seq<EntryView>, Seq<char>)>
    decreases text.len(),
{
    match first_match(DIAG_TRACE_ENTRY@, text) {
        None => Some((Seq::empty(), text)),
        Some(m) => {
            let rest = after(text, m);
            match entry_for(m.groups["line"@], m.groups["col"@], m.groups["msg"@]) {
                None => None,
                Some(entry) => if goes_on(rest) && rest.len() < text.len() {
                    match trace_from(rest) {
                        None => None,
                        Some((more, end)) => Some((seq![entry] + more, end)),
                    }
                } else {
                    Some((seq![entry], rest))
                },
            }
        },
    }
}

/// The model that comes next in a text, and the text behind it. What looks like a model and is
/// none counts as none. Nothing is given where the entries of the model do not get to an end.
pub open spec fn model_from(env: GlobalEnv, text: Seq<char>) -> Option<
    (Option<ModelView>, Seq<char>),
> {
    match first_match(MODEL_REGION@, text) {
        None => Some((None, text)),
        Some(m) => match parsed_model(env, m.groups["mod"@]) {
            None => None,
            Some(Ok(model)) => Some((Some(model), after(text, m))),
            Some(Err(_)) => Some((None, after(text, m))),
        },
    }
}

/// The line and the column that a text next relates an error to, and the text behind that.
pub open spec fn related_from(text: Seq<char>) -> (Option<(Seq<char>, Seq<char>)>, Seq<char>) {
    match first_match(DIAG_RELATED@, text) {
        None => (None, text),
        Some(m) => (Some((m.groups["line"@], m.groups["col"@])), after(text, m)),
    }
}

/// The execution trace that comes next in a text, and the text behind it.
pub open spec fn next_trace(text: Seq<char>) -> Option<(Seq<EntryView>, Seq<char>)> {
    match first_match(DIAG_TRACE@, text) {
        None => Some((Seq::empty(), text)),
        Some(m) => trace_from(after(text, m)),
    }
}

/// The error that the match `m` in a text reports, and the text behind it.
pub open spec fn error_from(text: Seq<char>, m: Captured, model: Option<ModelView>) -> Option<
    (ErrorView, Seq<char>),
> {
    let (related, rest) = related_from(after(text, m));
    match next_trace(rest) {
        None => None,
        Some((trace, end)) => match error_for(
            (m.groups["line"@], m.groups["col"@], m.groups["msg"@]),
            related,
            trace,
            model,
        ) {
            None => None,
            Some(error) => Some((error, end)),
        },
    }
}

/// The verification errors in an output. Nothing is given where a position does not fit, or where
/// the entries of a model do not get to an end.
pub open spec fn verification_errors(env: GlobalEnv, text: Seq<char>) -> Option<Seq<ErrorView>>
    decreases text.len(),
{
    match model_from(env, text) {
        None => None,
        Some((model, rest)) => match first_match(DIAG_START@, rest) {
            None => Some(Seq::empty()),
            Some(m) => match error_from(rest, m, model) {
                None => None,
                Some((error, end)) => if end.len() < text.len() {
                    match verification_errors(env, end) {
                        None => None,
                        Some(more) => Some(seq![error] + more),
                    }
                } else {
                    None
                },
            },
        },
    }
}

/// What is wrong with the model that comes next in a text, if there is one and it is rejected.
pub open spec fn rejection_from(env: GlobalEnv, text: Seq<char>) -> Seq<Seq<char>> {
    match first_match(MODEL_REGION@, text) {
        None => Seq::empty(),
        Some(m) => match parsed_model(env, m.groups["mod"@]) {
            Some(Err(message)) => seq![message],
            _ => Seq::empty(),
        },
    }
}

/// What is wrong with the models in an output that are rejected, in order. Nothing is given where
/// `verification_errors` gives nothing.
pub open spec fn model_rejections(env: GlobalEnv, text: Seq<char>) -> Option<Seq<Seq<char>>>
    decreases text.len(),
{
    match model_from(env, text) {
        None => None,
        Some((model, rest)) => match first_match(DIAG_START@, rest) {
            None => Some(rejection_from(env, text)),
            Some(m) => match error_from(rest, m, model) {
                None => None,
                Some((_, end)) => if end.len() < text.len() {
                    match model_rejections(env, end) {
                        None => None,
                        Some(more) => Some(rejection_from(env, text) + more),
                    }
                } else {
                    None
                },
            },
        },
    }
}

/// The compilation errors that the matches from `i` on report.
pub open spec fn compilation_errors_from(matches: Seq<Captured>, i: int) -> Option<Seq<ErrorView>>
    decreases matches.len() - i,
{
    if 0 <= i < matches.len() {
        let m = matches[i];
        match (
            compilation_error_for(m.groups["line"@], m.groups["col"@], m.matched),
            compilation_errors_from(matches, i + 1),
        ) {
            (Some(error), Some(more)) => Some(seq![error] + more),
            _ => None,
        }
    } else {
        Some(Seq::empty())
    }
}

/// The compilation errors in an output. Nothing is given where a position does not fit.
pub open spec fn compilation_errors(text: Seq<char>) -> Option<Seq<ErrorView>> {
    compilation_errors_from(all_matches(DIAG_COMPILATION@, text), 0)
}

/// What entries of a trace and those that follow them come to.
spec fn with_entries(
    trace: Seq<EntryView>,
    more: Option<(Seq<EntryView>, Seq<char>)>,
) -> Option<(Seq<EntryView>, Seq<char>)> {
    match more {
        Some((entries, end)) => Some((trace + entries, end)),
        None => None,
    }
}

/// Reads the entries of the execution trace that a text goes on with.
fn read_trace<'t>(text: &'t str) -> (res: Option<
    (Vec<(Location, TraceKind, String)>, &'t str),
>)
    ensures
        trace_from(text@) == match res {
            Some((trace, rest)) => Some((trace_of(trace@), rest@)),
            None => None,
        },
        res matches Some((_, rest)) ==> rest@.len() <= text@.len(),
{
    let mut trace: Vec<(Location, TraceKind, String)> = Vec::new();
    let mut rest: &'t str = text;
    proof {
        let more = trace_from(rest@);
        if more is Some {
            assert(trace_of(trace@) + (more->0).0 =~= (more->0).0);
        }
    }
    loop
        invariant
            rest@.len() <= text@.len(),
            trace_from(text@) == with_entries(trace_of(trace@), trace_from(rest@)),
        decreases rest@.len(),
    {
        let found = match captures(DIAG_TRACE_ENTRY, rest) {
            Some(found) => found,
            None => {
                assert(trace_of(trace@) + Seq::<EntryView>::empty() =~= trace_of(trace@));
                return Some((trace, rest));
            },
        };
        let line = group(&found, "line").unwrap();
        let col = group(&found, "col").unwrap();
        let msg = group(&found, "msg").unwrap();
        let entry = match trace_entry(line, col, msg) {
            Some(entry) => entry,
            None => {
                return None;
            },
        };
        let next = skip_match(rest, &found);
        let ghost known = trace_of(trace@);
        trace.push(entry);
        assert(trace_of(trace@) =~= known + seq![entry_of(entry)]);
        if !trace_goes_on(next) {
            // Don't read further if this line does not start with an indent,
            // as all trace entries do. Otherwise we would match the trace entry
            // for the next error.
            return Some((trace, next));
        }
        proof {
            if let Some((more, _end)) = trace_from(next@) {
                assert(known + (seq![entry_of(entry)] + more) =~= trace_of(trace@) + more);
            }
        }
        rest = next;
    }
}

/// Reads the execution trace that comes next in a text.
fn read_next_trace<'t>(text: &'t str) -> (res: Option<
    (Vec<(Location, TraceKind, String)>, &'t str),
>)
    ensures
        next_trace(text@) == match res {
            Some((trace, rest)) => Some((trace_of(trace@), rest@)),
            None => None,
        },
        res matches Some((_, rest)) ==> rest@.len() <= text@.len(),
{
    match captures(DIAG_TRACE, text) {
        Some(found) => read_trace(skip_match(text, &found)),
        None => {
            let trace: Vec<(Location, TraceKind, String)> = Vec::new();
            assert(trace_of(trace@) =~= Seq::<EntryView>::empty());
            Some((trace, text))
        },
    }
}

/// What errors and those that follow them come to.
spec fn with_errors(errors: Seq<ErrorView>, more: Option<Seq<ErrorView>>) -> Option<
    Seq<ErrorView>,
> {
    match more {
        Some(rest) => Some(errors + rest),
        None => None,
    }
}

/// What messages and those that follow them come to.
spec fn with_messages(messages: Seq<Seq<char>>, more: Option<Seq<Seq<char>>>) -> Option<
    Seq<Seq<char>>,
> {
    match more {
        Some(rest) => Some(messages + rest),
        None => None,
    }
}

/// What the report of an error that comes next in a text comes to.
spec fn next_error(text: Seq<char>, model: Option<ModelView>) -> Option<
    Option<(ErrorView, Seq<char>)>,
> {
    match first_match(DIAG_START@, text) {
        None => Some(None),
        Some(m) => match error_from(text, m, model) {
            None => None,
            Some(read) => Some(Some(read)),
        },
    }
}

/// How what has been read grows by the next error.
proof fn lemma_error_step(
    env: GlobalEnv,
    text: Seq<char>,
    end: Seq<char>,
    error: ErrorView,
    errors: Seq<ErrorView>,
    messages: Seq<Seq<char>>,
)
    requires
        end.len() < text.len(),
        model_from(env, text) matches Some((model, rest)) && next_error(rest, model) == Some(
            Some((error, end)),
        ),
    ensures
        with_errors(errors, verification_errors(env, text)) == with_errors(
            errors + seq![error],
            verification_errors(env, end),
        ),
        with_messages(messages, model_rejections(env, text)) == with_messages(
            messages + rejection_from(env, text),
            model_rejections(env, end),
        ),
{
    if let Some(more) = verification_errors(env, end) {
        assert(errors + (seq![error] + more) =~= errors + seq![error] + more);
    }
    if let Some(more) = model_rejections(env, end) {
        let rejection = rejection_from(env, text);
        assert(messages + (rejection + more) =~= messages + rejection + more);
    }
}

/// Reads the line and the column that a text next relates an error to.
fn read_related<'t>(text: &'t str) -> (res: (Option<(&'t str, &'t str)>, &'t str))
    ensures
        related_from(text@) == (
            match res.0 {
                Some(place) => Some((place.0@, place.1@)),
                None => None,
            },
            res.1@,
        ),
        res.1@.len() <= text@.len(),
{
    match captures(DIAG_RELATED, text) {
        Some(found) => {
            let line = group(&found, "line").unwrap();
            let col = group(&found, "col").unwrap();
            (Some((line, col)), skip_match(text, &found))
        },
        None => (None, text),
    }
}

/// Reads the report of an error that comes next in a text, if there is one.
fn read_error<'t>(text: &'t str, model: Option<Model>) -> (res: Option<
    Option<(BoogieError, &'t str)>,
>)
    ensures
        next_error(text@, model_view(model)) == match res {
            Some(Some((error, rest))) => Some(Some((error@, rest@))),
            Some(None) => Some(None),
            None => None,
        },
        res matches Some(Some((_, rest))) ==> rest@.len() < text@.len(),
{
    let found = match captures(DIAG_START, text) {
        Some(found) => found,
        None => {
            return Some(None);
        },
    };
    let line = group(&found, "line").unwrap();
    let col = group(&found, "col").unwrap();
    let msg = group(&found, "msg").unwrap();
    // Check whether there is a `Related` message which points to the pre/post condition.
    // If so, this has the real position.
    let (related, behind) = read_related(skip_match(text, &found));
    match read_next_trace(behind) {
        Some((trace, end)) => match verification_error((line, col, msg), related, trace, model) {
            Some(error) => Some(Some((error, end))),
            None => None,
        },
        None => None,
    }
}

impl<'env> BoogieWrapper<'env> {
    /// Reads the model that comes next in a text. Where it is rejected, adds what is wrong to the
    /// messages.
    fn read_model<'t>(&self, text: &'t str, messages: &mut Vec<String>) -> (res: Option<
        (Option<Model>, &'t str),
    >)
        requires
            self.env.wf(),
        ensures
            model_from(*self.env, text@) == match res {
                Some((model, rest)) => Some((model_view(model), rest@)),
                None => None,
            },
            res matches Some((_, rest)) ==> rest@.len() <= text@.len(),
            texts_of(final(messages)@) == texts_of(old(messages)@) + rejection_from(
                *self.env,
                text@,
            ),
    {
        let ghost before = texts_of(messages@);
        assert(before + Seq::<Seq<char>>::empty() =~= before);
        match captures(MODEL_REGION, text) {
            Some(found) => {
                let rest = skip_match(text, &found);
                match Model::try_parse(self.env, group(&found, "mod").unwrap()) {
                    Some(Ok(model)) => Some((Some(model), rest)),
                    Some(Err(error)) => {
                        let ghost message = error@;
                        messages.push(error.0);
                        assert(texts_of(messages@) =~= before + seq![message]);
                        Some((None, rest))
                    },
                    None => None,
                }
            },
            None => Some((None, text)),
        }
    }

    /// Extracts verification errors from Boogie output, and what is wrong with the models in it
    /// that are rejected.
    #[verifier::spinoff_prover]
    fn extract_with_rejections(&self, out: &str) -> (res: Option<(Vec<BoogieError>, Vec<String>)>)
        requires
            self.env.wf(),
        ensures
            verification_errors(*self.env, out@) == match res {
                Some((errors, _)) => Some(errors_of(errors@)),
                None => None,
            },
            model_rejections(*self.env, out@) == match res {
                Some((_, messages)) => Some(texts_of(messages@)),
                None => None,
            },
    {
        let mut errors: Vec<BoogieError> = Vec::new();
        let mut messages: Vec<String> = Vec::new();
        let mut at: &str = out;
        proof {
            if let Some(more) = verification_errors(*self.env, at@) {
                assert(errors_of(errors@) + more =~= more);
            }
            if let Some(more) = model_rejections(*self.env, at@) {
                assert(texts_of(messages@) + more =~= more);
            }
        }
        loop
            invariant
                self.env.wf(),
                verification_errors(*self.env, out@) == with_errors(
                    errors_of(errors@),
                    verification_errors(*self.env, at@),
                ),
                model_rejections(*self.env, out@) == with_messages(
                    texts_of(messages@),
                    model_rejections(*self.env, at@),
                ),
            decreases at@.len(),
        {
            let ghost told = texts_of(messages@);
            let (model, rest) = match self.read_model(at, &mut messages) {
                Some(read) => read,
                None => {
                    return None;
                },
            };
            let (error, end) = match read_error(rest, model) {
                Some(Some(read)) => read,
                Some(None) => {
                    assert(errors_of(errors@) + Seq::<ErrorView>::empty() =~= errors_of(errors@));
                    return Some((errors, messages));
                },
                None => {
                    return None;
                },
            };
            let ghost known = errors_of(errors@);
            let ghost seen = error@;
            proof {
                lemma_error_step(*self.env, at@, end@, seen, known, told);
            }
            errors.push(error);
            assert(errors_of(errors@) =~= known + seq![seen]);
            at = end;
        }
    }

    /// Extracts verification errors from Boogie output. Gives nothing where a position does not
    /// fit, or where the entries of a model do not get to an end.
    pub fn try_extract_verification_errors(&self, out: &str) -> (res: Option<Vec<BoogieError>>)
        requires
            self.env.wf(),
        ensures
            verification_errors(*self.env, out@) == match res {
                Some(errors) => Some(errors_of(errors@)),
                None => None,
            },
    {
        match self.extract_with_rejections(out) {
            Some((errors, _)) => Some(errors),
            None => None,
        }
    }

    /// Tells what is wrong with the models in Boogie output that are rejected, in order. Gives
    /// nothing where a position does not fit, or where the entries of a model do not get to an end.
    pub fn rejected_models(&self, out: &str) -> (res: Option<Vec<String>>)
        requires
            self.env.wf(),
        ensures
            model_rejections(*self.env, out@) == match res {
                Some(messages) => Some(texts_of(messages@)),
                None => None,
            },
    {
        match self.extract_with_rejections(out) {
            Some((_, messages)) => Some(messages),
            None => None,
        }
    }

    /// Extracts verification errors from Boogie output.
    ///
    /// This parses the output for errors of the form:
    ///
    /// ```ignore
    /// *** MODEL
    /// ...
    /// *** END_MODEL
    /// (0,0): Error BP5003: A postcondition might not hold on this return path.
    /// output.bpl(2964,1): Related location: This is the postcondition that might not hold.
    /// Execution trace:
    ///     output.bpl(3068,5): anon0
    ///     output.bpl(2960,23): inline$LibraAccount_pay_from_sender_with_metadata$0$Entry
    ///     output.bpl(2989,5): inline$LibraAccount_pay_from_sender_with_metadata$0$anon0
    ///     ...
    /// ```
    pub fn extract_verification_errors(&self, out: &str) -> (res: Vec<BoogieError>)
        requires
            self.env.wf(),
            verification_errors(*self.env, out@) is Some,
        ensures
            verification_errors(*self.env, out@) == Some(errors_of(res@)),
    {
        self.try_extract_verification_errors(out).unwrap()
    }

    /// Extracts compilation errors. Gives nothing where a position does not fit.
    pub fn try_extract_compilation_errors(&self, out: &str) -> (res: Option<Vec<BoogieError>>)
        ensures
            compilation_errors(out@) == match res {
                Some(errors) => Some(errors_of(errors@)),
                None => None,
            },
            res matches Some(errors) ==> messages_stand_in(out@, errors_of(errors@)),
    {
        let found = captures_all(DIAG_COMPILATION, out);
        let ghost matches = captured_all(found@);
        proof {
            lemma_compilation_messages(out@);
        }
        let mut errors: Vec<BoogieError> = Vec::new();
        proof {
            let more = compilation_errors_from(matches, 0);
            if more is Some {
                assert(errors_of(errors@) + more->0 =~= more->0);
            }
        }
        let mut i: usize = 0;
        while i < found.len()
            invariant
                i <= found@.len(),
                matches == captured_all(found@),
                matches == all_matches(DIAG_COMPILATION@, out@),
                forall|j: int|
                    0 <= j < found@.len() ==> has_groups(
                        DIAG_COMPILATION@,
                        captured(#[trigger] found@[j]),
                    ),
                compilation_errors(out@) == with_errors(
                    errors_of(errors@),
                    compilation_errors_from(matches, i as int),
                ),
            decreases found@.len() - i,
        {
            let m = &found[i];
            assert(matches[i as int] == captured(found@[i as int]));
            let line = group(m, "line").unwrap();
            let col = group(m, "col").unwrap();
            let error = match compilation_error(line, col, whole(m)) {
                Some(error) => error,
                None => {
                    return None;
                },
            };
            let ghost known = errors_of(errors@);
            let ghost seen = error@;
            errors.push(error);
            assert(errors_of(errors@) =~= known + seq![seen]);
            proof {
                if let Some(more) = compilation_errors_from(matches, i + 1) {
                    assert(known + (seq![seen] + more) =~= errors_of(errors@) + more);
                }
            }
            i += 1;
        }
        assert(errors_of(errors@) + Seq::<ErrorView>::empty() =~= errors_of(errors@));
        Some(errors)
    }

    /// Extracts compilation errors. This captures any kind of errors different than the
    /// verification errors (as seen so far).
    pub fn extract_compilation_errors(&self, out: &str) -> (res: Vec<BoogieError>)
        requires
            compilation_errors(out@) is Some,
        ensures
            compilation_errors(out@) == Some(errors_of(res@)),
            messages_stand_in(out@, errors_of(res@)),
    {
        self.try_extract_compilation_errors(out).unwrap()
    }

    /// Analyzes the output of boogie: the verification errors in it, and then the compilation
    /// errors. Gives nothing where a position in the output does not fit, or where the entries of a
    /// model in it do not get to an end.
    pub fn analyze_output(&self, out: String) -> (res: Option<BoogieOutput>)
        requires
            self.env.wf(),
        ensures
            is_analysis(*self.env, out@, res),
    {
        if self.try_extract_verification_errors(out.as_str()).is_none() {
            return None;
        }
        if self.try_extract_compilation_errors(out.as_str()).is_none() {
            return None;
        }
        let mut errors = self.extract_verification_errors(out.as_str());
        let mut others = self.extract_compilation_errors(out.as_str());
        let ghost first = errors@;
        let ghost second = others@;
        errors.append(&mut others);
        assert(errors_of(errors@) =~= errors_of(first) + errors_of(second));
        Some(BoogieOutput { errors, all_output: out })
    }

    /// Evaluates a run of boogie by its exit status, its exit code and its output. On success,
    /// gives the analyzed output; any other status is an error that tells the code.
    pub fn evaluate_run(&self, success: bool, code: Option<i32>, out: String) -> (res: Result<
        Option<BoogieOutput>,
        String,
    >)
        requires
            self.env.wf(),
        ensures
            match res {
                Ok(output) => success && is_analysis(*self.env, out@, output),
                Err(message) => !success && message@ == exit_message(code),
            },
    {
        if !success {
            let mut message = "boogie exited with status ".to_string();
            message.append(code_text(code).as_str());
            Err(message)
        } else {
            Ok(self.analyze_output(out))
        }
    }
}

/// Tells whether `output` is what the analysis of a text gives: the verification errors in it, and
/// then the compilation errors. There is no such output where a position in the text does not fit,
/// or where the entries of a model in it do not get to an end.
pub open spec fn is_analysis(
    env: GlobalEnv,
    text: Seq<char>,
    output: Option<BoogieOutput>,
) -> bool {
    match (verification_errors(env, text), compilation_errors(text)) {
        (Some(verification), Some(compilation)) => {
            &&& output matches Some(o)
            &&& errors_of(o.errors@) == verification + compilation
            &&& o.all_output@ == text
        },
        _ => output is None,
    }
}

/// How an exit code is shown. There is none where a signal ended the run.
pub open spec fn shown_code(code: Option<i32>) -> Seq<char> {
    match code {
        Some(n) => "Some("@ + signed_decimal(n as int) + ")"@,
        None => "None"@,
    }
}

/// The message about a run that did not succeed.
pub open spec fn exit_message(code: Option<i32>) -> Seq<char> {
    "boogie exited with status "@ + shown_code(code)
}

/// Writes an exit code.
fn code_text(code: Option<i32>) -> (res: String)
    ensures
        res@ == shown_code(code),
{
    match code {
        Some(n) => combine3("Some(", signed_text(n).as_str(), ")"),
        None => "None".to_string(),
    }
}

/// What is wrong with the rejected models is told for exactly the outputs whose verification errors
/// are given.
pub proof fn lemma_rejections_given(env: GlobalEnv, text: Seq<char>)
    ensures
        model_rejections(env, text) is Some <==> verification_errors(env, text) is Some,
    decreases text.len(),
{
    if let Some((model, rest)) = model_from(env, text) {
        if let Some(m) = first_match(DIAG_START@, rest) {
            if let Some((_, end)) = error_from(rest, m, model) {
                if end.len() < text.len() {
                    lemma_rejections_given(env, end);
                }
            }
        }
    }
}

/// The verification errors in an output are assertions and postconditions.
pub proof fn lemma_verification_kinds(env: GlobalEnv, text: Seq<char>)
    ensures
        verification_errors(env, text) matches Some(errors) ==> forall|i: int|
            0 <= i < errors.len() ==> !((#[trigger] errors[i]).kind is Compilation),
    decreases text.len(),
{
    if let Some((model, rest)) = model_from(env, text) {
        if let Some(m) = first_match(DIAG_START@, rest) {
            if let Some((error, end)) = error_from(rest, m, model) {
                if end.len() < text.len() {
                    lemma_verification_kinds(env, end);
                    if let Some(more) = verification_errors(env, end) {
                        let errors = seq![error] + more;
                        assert forall|i: int| 0 <= i < errors.len() implies !((
                        #[trigger] errors[i]).kind is Compilation) by {
                            if i > 0 {
                                assert(errors[i] == more[i - 1]);
                            }
                        }
                    }
                }
            }
        }
    }
}

proof fn lemma_compilation_from(matches: Seq<Captured>, i: int)
    requires
        0 <= i <= matches.len(),
    ensures
        compilation_errors_from(matches, i) matches Some(errors) ==> {
            &&& errors.len() == matches.len() - i
            &&& forall|j: int|
                0 <= j < errors.len() ==> {
                    &&& (#[trigger] errors[j]).kind is Compilation
                    &&& errors[j].message == matches[i + j].matched
                    &&& errors[j].trace.len() == 0
                    &&& errors[j].model is None
                }
        },
    decreases matches.len() - i,
{
    if i < matches.len() {
        lemma_compilation_from(matches, i + 1);
        if let Some(more) = compilation_errors_from(matches, i + 1) {
            let m = matches[i];
            if let Some(error) = compilation_error_for(
                m.groups["line"@],
                m.groups["col"@],
                m.matched,
            ) {
                let errors = seq![error] + more;
                assert forall|j: int| 0 <= j < errors.len() implies {
                    &&& (#[trigger] errors[j]).kind is Compilation
                    &&& errors[j].message == matches[i + j].matched
                    &&& errors[j].trace.len() == 0
                    &&& errors[j].model is None
                } by {
                    if j > 0 {
                        assert(errors[j] == more[j - 1]);
                    }
                }
            }
        }
    }
}

/// Each line that reports a compilation error gives one, with that line as its message and without
/// a trace or a model.
pub proof fn lemma_compilation_kinds(text: Seq<char>)
    ensures
        compilation_errors(text) matches Some(errors) ==> {
            let matches = all_matches(DIAG_COMPILATION@, text);
            &&& errors.len() == matches.len()
            &&& forall|j: int|
                0 <= j < errors.len() ==> {
                    &&& (#[trigger] errors[j]).kind is Compilation
                    &&& errors[j].message == matches[j].matched
                    &&& errors[j].trace.len() == 0
                    &&& errors[j].model is None
                }
        },
{
    lemma_compilation_from(all_matches(DIAG_COMPILATION@, text), 0);
}

/// Tells whether the messages of errors stand at the given places in a text, one behind the other
/// and without overlap.
pub open spec fn stand_at(text: Seq<char>, errors: Seq<ErrorView>, places: Seq<int>) -> bool {
    &&& places.len() == errors.len()
    &&& forall|i: int|
        0 <= i < errors.len() ==> has_at(text, places[i], (#[trigger] errors[i]).message)
    &&& forall|i: int, j: int|
        0 <= i < j < errors.len() ==> #[trigger] places[i] + errors[i].message.len()
            <= #[trigger] places[j]
}

/// Tells whether the messages of errors stand in a text, in order and without overlap.
pub open spec fn messages_stand_in(text: Seq<char>, errors: Seq<ErrorView>) -> bool {
    exists|places: Seq<int>| stand_at(text, errors, places)
}

/// Where the lines that report compilation errors lie in a text in order and without overlap, so do
/// the messages of these errors.
pub proof fn lemma_compilation_messages(text: Seq<char>)
    requires
        lie_in_order(text, all_matches(DIAG_COMPILATION@, text)),
    ensures
        compilation_errors(text) matches Some(errors) ==> messages_stand_in(text, errors),
{
    if let Some(errors) = compilation_errors(text) {
        let matches = all_matches(DIAG_COMPILATION@, text);
        lemma_compilation_kinds(text);
        let places = Seq::new(matches.len(), |i: int| matches[i].before.len() as int);
        assert forall|i: int| 0 <= i < errors.len() implies has_at(
            text,
            places[i],
            (#[trigger] errors[i]).message,
        ) by {
            let m = matches[i];
            let head = consumed(m);
            assert(begins_with(text, head));
            assert(errors[i].message == m.matched);
            assert(text.subrange(places[i], places[i] + m.matched.len()) =~= text.take(
                head.len() as int,
            ).subrange(places[i], head.len() as int));
            assert(head.subrange(places[i], head.len() as int) =~= m.matched);
        }
        assert forall|i: int, j: int| 0 <= i < j < errors.len() implies #[trigger] places[i]
            + errors[i].message.len() <= #[trigger] places[j] by {
            assert(consumed(matches[i]).len() <= matches[j].before.len());
            assert(errors[i].message == matches[i].matched);
        }
        assert(stand_at(text, errors, places));
    }
}

/// No entry that is read from a trace is marked as aborted.
pub proof fn lemma_trace_kinds(text: Seq<char>)
    ensures
        trace_from(text) matches Some((trace, _)) ==> forall|i: int|
            0 <= i < trace.len() ==> !((#[trigger] trace[i]).kind is Aborted),
    decreases text.len(),
{
    if let Some(m) = first_match(DIAG_TRACE_ENTRY@, text) {
        let rest = after(text, m);
        if goes_on(rest) && rest.len() < text.len() {
            lemma_trace_kinds(rest);
            if let Some((more, _)) = trace_from(rest) {
                if let Some(entry) = entry_for(
                    m.groups["line"@],
                    m.groups["col"@],
                    m.groups["msg"@],
                ) {
                    let trace = seq![entry] + more;
                    assert forall|i: int| 0 <= i < trace.len() implies !((
                    #[trigger] trace[i]).kind is Aborted) by {
                        if i > 0 {
                            assert(trace[i] == more[i - 1]);
                        }
                    }
                }
            }
        }
    }
}

} // verus!
