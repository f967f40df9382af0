//! Promises about the errors that are extracted from an output.
use vstd::prelude::*;

use crate::env::{GlobalEnv, Location};
use crate::errors::{
    BoogieErrorKind, BoogieOutput, compilation_error_for, compilation_errors,
    compilation_errors_from, entry_for, EntryView, error_for, error_from, errors_of, ErrorView,
    exit_message, goes_on, is_analysis, lemma_compilation_kinds, model_from, model_rejections,
    position_of, trace_from, TraceKind, verification_errors,
};
use crate::laws::text::law_searches;
use crate::model::{ModelView, parsed_model};
use crate::pattern::{
    after, all_matches, Captured, DIAG_COMPILATION, DIAG_RELATED, DIAG_START, DIAG_TRACE,
    DIAG_TRACE_ENTRY, first_match, MODEL_REGION,
};
use crate::text::{begins_with, number, signed_decimal};

verus! {

/// A line and a column make a position exactly if both are numbers of 32 bits. Lines are counted
/// from one in the output and from zero in positions, but a line zero stays; columns stay as they
/// are.
pub proof fn law_position(line: Seq<char>, col: Seq<char>, position: Location)
    ensures
        position_of(line, col) == Some(position) <==> {
            &&& number(line) matches Some(l)
            &&& number(col) matches Some(c)
            &&& l <= u32::MAX
            &&& c <= u32::MAX
            &&& position.column == c
            &&& position.line == if l == 0 {
                0
            } else {
                l - 1
            }
        },
{
}

/// The kind of a trace entry follows from its message: it ends with `$Entry` where a function is
/// entered and with `$Return` where one is left; otherwise it contains `_update_inv$` for an
/// invariant or `$Pack_` for a pack. All others are regular.
pub proof fn law_trace_kind(msg: Seq<char>)
    ensures
        ({
            let enters = exists|a: Seq<char>| msg == #[trigger] (a + "$Entry"@);
            let exits = exists|a: Seq<char>| msg == #[trigger] (a + "$Return"@);
            let updates = exists|a: Seq<char>, b: Seq<char>|
                msg == #[trigger] (a + "_update_inv$"@ + b);
            let packs = exists|a: Seq<char>, b: Seq<char>| msg == #[trigger] (a + "$Pack_"@ + b);
            let kind = TraceKind::of_message(msg);
            &&& kind is EnterFunction <==> enters
            &&& kind is ExitFunction <==> !enters && exits
            &&& kind is UpdateInvariant <==> !enters && !exits && updates
            &&& kind is Pack <==> !enters && !exits && !updates && packs
            &&& kind is Regular <==> !enters && !exits && !updates && !packs
        }),
{
    law_searches(msg, "$Entry"@);
    law_searches(msg, "$Return"@);
    law_searches(msg, "_update_inv$"@);
    law_searches(msg, "$Pack_"@);
}

/// A verification error is about an assertion exactly if its message says that one might not hold,
/// and about a postcondition otherwise.
pub proof fn law_error_kind(msg: Seq<char>)
    ensures
        ({
            let asserts = exists|a: Seq<char>, b: Seq<char>|
                msg == #[trigger] (a + "assertion might not hold"@ + b);
            let kind = BoogieErrorKind::of_message(msg);
            &&& kind is Assertion <==> asserts
            &&& kind is Postcondition <==> !asserts
        }),
{
    law_searches(msg, "assertion might not hold"@);
}

/// A trace entry is made exactly if its line and column make a position. It keeps its message,
/// which tells its kind.
pub proof fn law_entry_made(
    line: Seq<char>,
    col: Seq<char>,
    msg: Seq<char>,
    entry: EntryView,
)
    ensures
        entry_for(line, col, msg) == Some(entry) <==> {
            &&& position_of(line, col) == Some(entry.position)
            &&& entry.kind == TraceKind::of_message(msg)
            &&& entry.message == msg
        },
{
}

/// A verification error of any kind is made exactly if its place is a position: the related line
/// and column, where there are such, and those of its report otherwise. It keeps its message, the
/// whole trace and the model.
pub proof fn law_error_made(
    start: (Seq<char>, Seq<char>, Seq<char>),
    related: Option<(Seq<char>, Seq<char>)>,
    trace: Seq<EntryView>,
    model: Option<ModelView>,
    error: ErrorView,
)
    ensures
        error_for(start, related, trace, model) == Some(error) <==> {
            &&& related matches Some(place) ==> position_of(place.0, place.1) == Some(
                error.position,
            )
            &&& related is None ==> position_of(start.0, start.1) == Some(error.position)
            &&& error.kind == BoogieErrorKind::of_message(start.2)
            &&& error.message == start.2
            &&& error.trace == trace
            &&& error.model == model
        },
{
}

/// A compilation error is made exactly if its line and column make a position. It keeps its
/// message, and has neither a trace nor a model.
pub proof fn law_compilation_error_made(
    line: Seq<char>,
    col: Seq<char>,
    msg: Seq<char>,
    error: ErrorView,
)
    ensures
        compilation_error_for(line, col, msg) == Some(error) <==> {
            &&& position_of(line, col) == Some(error.position)
            &&& error.kind is Compilation
            &&& error.message == msg
            &&& error.trace == Seq::<EntryView>::empty()
            &&& error.model is None
        },
{
}

/// The regular expressions that the output is read by.
pub proof fn law_patterns()
    ensures
        MODEL_REGION@ == r"(?m)^\*\*\* MODEL$(?P<mod>(?s:.)*?^\*\*\* END_MODEL$)"@,
        DIAG_START@ == r"(?m)^.*\((?P<line>\d+),(?P<col>\d+)\): Error BP\d+:(?P<msg>.*)$"@,
        DIAG_RELATED@ == r"(?m)^.+\((?P<line>\d+),(?P<col>\d+)\): Related.*$"@,
        DIAG_TRACE@ == r"(?m)^Execution trace:$"@,
        DIAG_TRACE_ENTRY@ == r"(?m)^    .*\((?P<line>\d+),(?P<col>\d+)\): (?P<msg>.*)$"@,
        DIAG_COMPILATION@ == r"(?m)^.*\((?P<line>\d+),(?P<col>\d+)\).*(Error:|error:).*$"@,
{
}

/// The text behind a match.
pub open spec fn behind(text: Seq<char>, m: Captured) -> Seq<char> {
    text.skip((m.before.len() + m.matched.len()) as int)
}

/// The text behind a match, where there is one.
pub open spec fn behind_any(text: Seq<char>, m: Option<Captured>) -> Seq<char> {
    match m {
        Some(c) => behind(text, c),
        None => text,
    }
}

/// Tells whether a text goes on with a new line that is indented by two blanks.
pub open spec fn indented(text: Seq<char>) -> bool {
    ||| text.len() >= 3 && text[0] == '\n' && text[1] == ' ' && text[2] == ' '
    ||| text.len() >= 4 && text[0] == '\r' && text[1] == '\n' && text[2] == ' ' && text[3] == ' '
}

/// Tells whether `entries` are the successive matches of trace entries in a text, as far as each is
/// followed by an indented line, and `end` is the text behind them.
pub open spec fn are_entries(text: Seq<char>, entries: Seq<Captured>, end: Seq<char>) -> bool
    decreases entries.len(),
{
    if entries.len() == 0 {
        first_match(DIAG_TRACE_ENTRY@, text) is None && end == text
    } else {
        let rest = behind(text, entries[0]);
        &&& first_match(DIAG_TRACE_ENTRY@, text) == Some(entries[0])
        &&& if indented(rest) && rest.len() < text.len() {
            are_entries(rest, entries.drop_first(), end)
        } else {
            entries.len() == 1 && end == rest
        }
    }
}

/// What stands in an output for one error: perhaps a model, the report, perhaps the related
/// location, perhaps the start of a trace, and the entries of the trace. The output goes on with
/// `end`.
pub struct Reading {
    pub model: Option<Captured>,
    pub report: Captured,
    pub related: Option<Captured>,
    pub trace: Option<Captured>,
    pub entries: Seq<Captured>,
    pub end: Seq<char>,
}

/// Tells whether a reading is that of the first error in a text.
pub open spec fn is_reading(text: Seq<char>, r: Reading) -> bool {
    let behind_model = behind_any(text, r.model);
    let behind_report = behind(behind_model, r.report);
    let behind_related = behind_any(behind_report, r.related);
    &&& first_match(MODEL_REGION@, text) == r.model
    &&& first_match(DIAG_START@, behind_model) == Some(r.report)
    &&& first_match(DIAG_RELATED@, behind_report) == r.related
    &&& first_match(DIAG_TRACE@, behind_related) == r.trace
    &&& match r.trace {
        Some(m) => are_entries(behind(behind_related, m), r.entries, r.end),
        None => r.entries.len() == 0 && r.end == behind_related,
    }
}

/// The position that a match tells of.
pub open spec fn told_position(m: Captured) -> Option<Location> {
    position_of(m.groups["line"@], m.groups["col"@])
}

/// The position that a reading tells of: that of the related location if there is one, and that of
/// the report otherwise.
pub open spec fn read_position(r: Reading) -> Option<Location> {
    match r.related {
        Some(m) => told_position(m),
        None => told_position(r.report),
    }
}

/// Tells whether all positions of a reading are such, and its model gets to an end.
pub open spec fn is_complete(env: GlobalEnv, r: Reading) -> bool {
    &&& r.model matches Some(m) ==> parsed_model(env, m.groups["mod"@]) is Some
    &&& read_position(r) is Some
    &&& forall|k: int| 0 <= k < r.entries.len() ==> told_position(#[trigger] r.entries[k]) is Some
}

/// Tells whether a trace has one entry for each match, with its position and its message.
pub open spec fn tells_entries(trace: Seq<EntryView>, entries: Seq<Captured>) -> bool {
    &&& trace.len() == entries.len()
    &&& forall|k: int|
        0 <= k < trace.len() ==> {
            &&& told_position(entries[k]) == Some((#[trigger] trace[k]).position)
            &&& trace[k].message == entries[k].groups["msg"@]
            &&& trace[k].kind == TraceKind::of_message(entries[k].groups["msg"@])
        }
}

/// Tells whether an error is what a reading tells of: its message is that of the report, its trace
/// has all the entries, and its model is the one that stands in front of the report, if that is
/// accepted.
pub open spec fn tells(env: GlobalEnv, r: Reading, error: ErrorView) -> bool {
    &&& error.message == r.report.groups["msg"@]
    &&& error.kind == BoogieErrorKind::of_message(r.report.groups["msg"@])
    &&& read_position(r) == Some(error.position)
    &&& tells_entries(error.trace, r.entries)
    &&& error.model == match r.model {
        Some(m) => match parsed_model(env, m.groups["mod"@]) {
            Some(Ok(model)) => Some(model),
            _ => None,
        },
        None => None,
    }
}

proof fn lemma_indented(rest: Seq<char>)
    ensures
        goes_on(rest) <==> indented(rest),
{
    reveal_strlit("\n  ");
    reveal_strlit("\r\n  ");
    if begins_with(rest, "\n  "@) {
        assert(rest.take(3)[0] == rest[0]);
        assert(rest.take(3)[1] == rest[1]);
        assert(rest.take(3)[2] == rest[2]);
    }
    if begins_with(rest, "\r\n  "@) {
        assert(rest.take(4)[0] == rest[0]);
        assert(rest.take(4)[1] == rest[1]);
        assert(rest.take(4)[2] == rest[2]);
        assert(rest.take(4)[3] == rest[3]);
    }
    if rest.len() >= 3 && rest[0] == '\n' && rest[1] == ' ' && rest[2] == ' ' {
        assert(rest.take(3) =~= "\n  "@);
    }
    if rest.len() >= 4 && rest[0] == '\r' && rest[1] == '\n' && rest[2] == ' ' && rest[3] == ' ' {
        assert(rest.take(4) =~= "\r\n  "@);
    }
}

/// The entries of the trace in a text, and what comes behind them.
proof fn lemma_entries(text: Seq<char>) -> (read: (Seq<Captured>, Seq<char>))
    ensures
        are_entries(text, read.0, read.1),
        trace_from(text) is Some <==> forall|k: int|
            0 <= k < read.0.len() ==> told_position(#[trigger] read.0[k]) is Some,
        trace_from(text) matches Some((trace, end)) ==> end == read.1 && tells_entries(
            trace,
            read.0,
        ),
    decreases text.len(),
{
    match first_match(DIAG_TRACE_ENTRY@, text) {
        None => { (Seq::empty(), text) },
        Some(m) => {
            let rest = behind(text, m);
            assert(after(text, m) == rest);
            lemma_indented(rest);
            if indented(rest) && rest.len() < text.len() {
                let (more, end) = lemma_entries(rest);
                let all = seq![m] + more;
                assert(all.drop_first() =~= more);
                assert(all[0] == m);
                assert forall|k: int| 0 <= k < more.len() implies #[trigger] more[k] == all[k
                    + 1] by {}
                if trace_from(text) is Some {
                    let tail = (trace_from(rest)->0).0;
                    let trace = (trace_from(text)->0).0;
                    assert forall|k: int| 0 <= k < all.len() implies told_position(
                        #[trigger] all[k],
                    ) is Some by {
                        if k > 0 {
                            assert(all[k] == more[k - 1]);
                        }
                    }
                    assert forall|k: int| 0 <= k < trace.len() implies {
                        &&& told_position(all[k]) == Some((#[trigger] trace[k]).position)
                        &&& trace[k].message == all[k].groups["msg"@]
                        &&& trace[k].kind == TraceKind::of_message(all[k].groups["msg"@])
                    } by {
                        if k > 0 {
                            assert(trace[k] == tail[k - 1]);
                            assert(all[k] == more[k - 1]);
                        }
                    }
                } else if forall|k: int|
                    0 <= k < all.len() ==> told_position(#[trigger] all[k]) is Some {
                    assert(told_position(all[0]) is Some);
                    assert forall|k: int| 0 <= k < more.len() implies told_position(
                        #[trigger] more[k],
                    ) is Some by {
                        assert(told_position(all[k + 1]) is Some);
                    }
                }
                (all, end)
            } else {
                let all = seq![m];
                assert(told_position(all[0]) == told_position(m));
                (all, rest)
            }
        },
    }
}

/// The reading of the first error in a text with a report.
proof fn lemma_reading(env: GlobalEnv, text: Seq<char>) -> (r: Reading)
    requires
        first_match(DIAG_START@, behind_any(text, first_match(MODEL_REGION@, text))) is Some,
    ensures
        is_reading(text, r),
        ({
            let model = match r.model {
                Some(m) => match parsed_model(env, m.groups["mod"@]) {
                    Some(Ok(v)) => Some(v),
                    _ => None,
                },
                None => None,
            };
            let rest = behind_any(text, r.model);
            &&& (model_from(env, text) is Some && error_from(rest, r.report, model) is Some)
                <==> is_complete(env, r)
            &&& model_from(env, text) matches Some(read) ==> read == (model, rest)
            &&& error_from(rest, r.report, model) matches Some((error, end)) ==> end == r.end
                && (model_from(env, text) is Some ==> tells(env, r, error))
        }),
{
    let model = first_match(MODEL_REGION@, text);
    let behind_model = behind_any(text, model);
    let report = first_match(DIAG_START@, behind_model)->0;
    let behind_report = behind(behind_model, report);
    let related = first_match(DIAG_RELATED@, behind_report);
    let behind_related = behind_any(behind_report, related);
    let trace = first_match(DIAG_TRACE@, behind_related);
    let (entries, end) = match trace {
        Some(m) => lemma_entries(behind(behind_related, m)),
        None => (Seq::empty(), behind_related),
    };
    if let Some(m) = model {
        assert(after(text, m) == behind(text, m));
    }
    assert(after(behind_model, report) == behind_report);
    if let Some(m) = related {
        assert(after(behind_report, m) == behind(behind_report, m));
    }
    if let Some(m) = trace {
        assert(after(behind_related, m) == behind(behind_related, m));
    }
    Reading { model, report, related, trace, entries, end }
}

/// Where no report of an error follows, there are no errors. All is read then, unless a model does
/// not get to an end.
pub proof fn law_no_report(env: GlobalEnv, text: Seq<char>)
    requires
        first_match(DIAG_START@, behind_any(text, first_match(MODEL_REGION@, text))) is None,
    ensures
        verification_errors(env, text) == match first_match(MODEL_REGION@, text) {
            Some(m) => if parsed_model(env, m.groups["mod"@]) is None {
                None
            } else {
                Some(Seq::<ErrorView>::empty())
            },
            None => Some(Seq::<ErrorView>::empty()),
        },
{
    if let Some(m) = first_match(MODEL_REGION@, text) {
        assert(after(text, m) == behind(text, m));
    }
}

/// Tells whether the errors in a text are the one that a reading tells of and those in the text
/// behind it. They are given exactly if the reading is complete, the text gets shorter, and the
/// other errors are given.
pub open spec fn gives_next(env: GlobalEnv, text: Seq<char>, r: Reading) -> bool {
    match verification_errors(env, text) {
        Some(errors) => {
            &&& is_complete(env, r)
            &&& r.end.len() < text.len()
            &&& errors.len() > 0
            &&& tells(env, r, errors[0])
            &&& verification_errors(env, r.end) == Some(errors.drop_first())
        },
        None => !(is_complete(env, r) && r.end.len() < text.len() && verification_errors(
            env,
            r.end,
        ) is Some),
    }
}

/// The errors in a text with a report, by what is read for the first.
proof fn lemma_errors_step(
    env: GlobalEnv,
    text: Seq<char>,
    model: Option<ModelView>,
    rest: Seq<char>,
    m: Captured,
)
    requires
        first_match(DIAG_START@, rest) == Some(m),
    ensures
        model_from(env, text) is None ==> verification_errors(env, text) is None,
        model_from(env, text) == Some((model, rest)) ==> match error_from(rest, m, model) {
            None => verification_errors(env, text) is None,
            Some((error, end)) => if end.len() < text.len() {
                match verification_errors(env, end) {
                    None => verification_errors(env, text) is None,
                    Some(more) => verification_errors(env, text) == Some(seq![error] + more),
                }
            } else {
                verification_errors(env, text) is None
            },
        },
{
}

/// Where a report of an error follows, it gives the first error: whatever its kind, with the whole
/// trace that is read behind the report, and with the model that stands in front of it, if there is
/// one that is accepted. The other errors are those in the text behind it. Errors are given exactly
/// if all positions fit, all models get to an end, and the text gets shorter.
#[verifier::spinoff_prover]
pub proof fn law_next_error(env: GlobalEnv, text: Seq<char>)
    requires
        first_match(DIAG_START@, behind_any(text, first_match(MODEL_REGION@, text))) is Some,
    ensures
        exists|r: Reading| #[trigger] is_reading(text, r) && gives_next(env, text, r),
{
    let r = lemma_reading(env, text);
    let model = match r.model {
        Some(m) => match parsed_model(env, m.groups["mod"@]) {
            Some(Ok(v)) => Some(v),
            _ => None,
        },
        None => None,
    };
    let rest = behind_any(text, r.model);
    lemma_errors_step(env, text, model, rest, r.report);
    if let Some((error, end)) = error_from(rest, r.report, model) {
        if let Some(more) = verification_errors(env, end) {
            assert((seq![error] + more).drop_first() =~= more);
        }
    }
    assert(gives_next(env, text, r));
}

/// What is wrong with a model is told exactly if it stands in front of the next error and is
/// rejected; the other messages are those for the text behind that error.
pub proof fn law_next_rejection(env: GlobalEnv, text: Seq<char>)
    ensures
        ({
            let model = first_match(MODEL_REGION@, text);
            let first = match model {
                Some(m) => match parsed_model(env, m.groups["mod"@]) {
                    Some(Err(message)) => seq![message],
                    _ => Seq::empty(),
                },
                None => Seq::empty(),
            };
            if first_match(DIAG_START@, behind_any(text, model)) is None {
                model_rejections(env, text) matches Some(messages) ==> messages == first
            } else {
                exists|r: Reading|
                    {
                        &&& #[trigger] is_reading(text, r)
                        &&& model_rejections(env, text) matches Some(messages) ==> {
                            &&& model_rejections(env, r.end) matches Some(more)
                            &&& messages == first + more
                        }
                    }
            }
        }),
{
    let model = first_match(MODEL_REGION@, text);
    if first_match(DIAG_START@, behind_any(text, model)) is None {
        if let Some(m) = model {
            assert(after(text, m) == behind(text, m));
        }
    } else {
        let r = lemma_reading(env, text);
        assert(is_reading(text, r));
    }
}

proof fn lemma_compilation_positions(matches: Seq<Captured>, i: int)
    requires
        0 <= i <= matches.len(),
    ensures
        compilation_errors_from(matches, i) is Some <==> forall|j: int|
            i <= j < matches.len() ==> told_position(#[trigger] matches[j]) is Some,
        compilation_errors_from(matches, i) matches Some(errors) ==> errors.len() == matches.len()
            - i && forall|j: int|
            0 <= j < errors.len() ==> Some((#[trigger] errors[j]).position) == told_position(
                matches[i + j],
            ),
    decreases matches.len() - i,
{
    if i < matches.len() {
        lemma_compilation_positions(matches, i + 1);
        assert(told_position(matches[i]) == position_of(
            matches[i].groups["line"@],
            matches[i].groups["col"@],
        ));
        if let Some(errors) = compilation_errors_from(matches, i) {
            let more = compilation_errors_from(matches, i + 1)->0;
            assert forall|j: int| 0 <= j < errors.len() implies Some(
                (#[trigger] errors[j]).position,
            ) == told_position(matches[i + j]) by {
                if j > 0 {
                    assert(errors[j] == more[j - 1]);
                }
            }
        }
    }
}

/// Each line that reports a compilation error gives one error at its position, with that line as
/// its message, and without a trace or a model. Errors are given exactly if all positions fit.
pub proof fn law_compilation_errors(text: Seq<char>)
    ensures
        ({
            let matches = all_matches(DIAG_COMPILATION@, text);
            &&& compilation_errors(text) is Some <==> forall|j: int|
                0 <= j < matches.len() ==> told_position(#[trigger] matches[j]) is Some
            &&& compilation_errors(text) matches Some(errors) ==> {
                &&& errors.len() == matches.len()
                &&& forall|j: int|
                    0 <= j < errors.len() ==> {
                        &&& (#[trigger] errors[j]).kind is Compilation
                        &&& Some(errors[j].position) == told_position(matches[j])
                        &&& errors[j].message == matches[j].matched
                        &&& errors[j].trace.len() == 0
                        &&& errors[j].model is None
                    }
            }
        }),
{
    lemma_compilation_positions(all_matches(DIAG_COMPILATION@, text), 0);
    lemma_compilation_kinds(text);
}

/// The analysis of an output gives all verification errors, then all compilation errors, and
/// nothing else, together with the output itself.
pub proof fn law_analysis(env: GlobalEnv, text: Seq<char>, output: Option<BoogieOutput>)
    requires
        is_analysis(env, text, output),
    ensures
        output is Some <==> verification_errors(env, text) is Some && compilation_errors(
            text,
        ) is Some,
        output matches Some(o) ==> {
            let first = verification_errors(env, text)->0;
            let second = compilation_errors(text)->0;
            &&& o.all_output@ == text
            &&& o.errors@.len() == first.len() + second.len()
            &&& forall|i: int| 0 <= i < first.len() ==> o.errors@[i]@ == #[trigger] first[i]
            &&& forall|i: int|
                0 <= i < second.len() ==> o.errors@[first.len() + i]@ == #[trigger] second[i]
        },
{
    if let Some(o) = output {
        let first = verification_errors(env, text)->0;
        let second = compilation_errors(text)->0;
        let all = errors_of(o.errors@);
        assert(all.len() == o.errors@.len());
        assert forall|i: int| 0 <= i < first.len() implies o.errors@[i]@ == #[trigger] first[i] by {
            assert(all[i] == first[i]);
        }
        assert forall|i: int| 0 <= i < second.len() implies o.errors@[first.len() + i]@
            == #[trigger] second[i] by {
            assert(all[first.len() + i] == second[i]);
        }
    }
}

/// The message about a run that did not succeed ends with its code.
pub proof fn law_exit_message(n: i32)
    ensures
        exit_message(Some(n)) == "boogie exited with status Some("@ + signed_decimal(n as int)
            + seq![')'],
        exit_message(None) == "boogie exited with status None"@,
{
    reveal_strlit("boogie exited with status ");
    reveal_strlit("boogie exited with status Some(");
    reveal_strlit("boogie exited with status None");
    reveal_strlit("Some(");
    reveal_strlit("None");
    reveal_strlit(")");
    assert(exit_message(Some(n)) =~= "boogie exited with status Some("@ + signed_decimal(n as int)
        + seq![')']);
    assert(exit_message(None) =~= "boogie exited with status None"@);
}

} // verus!
