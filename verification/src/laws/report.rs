//! Promises about how errors are reported.
use vstd::prelude::*;

use crate::display::local_tree;
use crate::doc::{append_tree, DocTree, intersperse_tree, rendered};
use crate::env::{found, FunctionEnv, GlobalEnv, Location, ModuleEnv, SourceLoc};
use crate::errors::{BoogieWrapper, EntryView, ErrorView, TraceKind};
use crate::laws::display::{
    blanks, lemma_append_lines, lemma_intersperse_lines, many_lines, many_lines_each, one_line,
    one_line_each,
};
use crate::laws::model::{are_shown, law_relevant_locals};
use crate::laws::order::law_found;
use crate::model::{CodeIndex, LocalDescriptor, ModelView};
use crate::report::{
    info_tree, kind_tag, local_trees, locals_at, locals_fit, narrowed, note_tree, Severity,
    shown_up_to, StepView, type_of_local, up_to_abort, without_repetitions,
};
use crate::text::{decimal, joined};

verus! {

/// Tells whether the pair `i` is the first of a table with the given key.
pub open spec fn is_first<K, V>(table: Seq<(K, V)>, key: K, i: int) -> bool {
    &&& 0 <= i < table.len()
    &&& table[i].0 == key
    &&& forall|k: int| 0 <= k < i ==> (#[trigger] table[k]).0 != key
}

/// Tells whether a table has no pair with the given key.
pub open spec fn has_none<K, V>(table: Seq<(K, V)>, key: K) -> bool {
    forall|k: int| 0 <= k < table.len() ==> (#[trigger] table[k]).0 != key
}

/// A position of the generated program stands at the byte that is known for it, and at the start of
/// the program where none is. It comes from the source that is known for that byte.
pub proof fn law_locations(wrapper: BoogieWrapper<'_>, position: Location, i: int, j: int)
    ensures
        ({
            let bytes = wrapper.writer.byte_indices@;
            let sources = wrapper.writer.source_locations@;
            let (byte, source) = wrapper.locations(position);
            &&& is_first(bytes, position, i) ==> byte == bytes[i].1
            &&& has_none(bytes, position) ==> byte == 0
            &&& is_first(sources, byte, j) ==> source == Some(sources[j].1)
            &&& has_none(sources, byte) ==> source is None
        }),
{
    let bytes = wrapper.writer.byte_indices@;
    let sources = wrapper.writer.source_locations@;
    let byte = wrapper.locations(position).0;
    law_found(bytes, position, i);
    law_found(sources, byte, j);
}

/// An entry of a trace is located exactly if its position comes from a source, other than the one
/// that stands for generated code, and that source is in a module. It keeps its position, kind and
/// message, whatever these are.
pub proof fn law_located(wrapper: BoogieWrapper<'_>, entry: EntryView, step: StepView)
    ensures
        wrapper.located(entry) == Some(step) <==> {
            &&& wrapper.locations(entry.position).1 == Some(step.loc)
            &&& step.loc.loc != wrapper.env.internal_loc
            &&& found(wrapper.env.enclosing_modules@, step.loc.loc) == Some(step.module_id)
            &&& step.position == entry.position
            &&& step.kind == entry.kind
            &&& step.message == entry.message
        },
{
}

/// All entries of a trace that can be located are, in order.
pub proof fn law_located_entries(
    wrapper: BoogieWrapper<'_>,
    trace: Seq<EntryView>,
    entry: EntryView,
)
    ensures
        wrapper.located_entries(Seq::empty()).len() == 0,
        wrapper.located_entries(trace.push(entry)) == match wrapper.located(entry) {
            Some(step) => wrapper.located_entries(trace).push(step),
            None => wrapper.located_entries(trace),
        },
{
    assert(trace.push(entry).drop_last() =~= trace);
}

proof fn lemma_last_kept(minimize: bool, steps: Seq<StepView>)
    ensures
        without_repetitions(minimize, steps).len() == 0 <==> steps.len() == 0,
        steps.len() > 0 ==> without_repetitions(minimize, steps).last().loc.loc
            == steps.last().loc.loc,
    decreases steps.len(),
{
    if steps.len() > 0 {
        lemma_last_kept(minimize, steps.drop_last());
    }
}

/// Where traces are minimized, an entry is left out exactly if it is regular and points to the same
/// location as the entry directly before it; all others are kept, in order, though an earlier entry
/// may point there too. Otherwise all are kept.
pub proof fn law_repetitions(minimize: bool, steps: Seq<StepView>, step: StepView)
    ensures
        without_repetitions(minimize, Seq::empty()).len() == 0,
        without_repetitions(minimize, steps.push(step)) == if minimize && steps.len() > 0
            && step.kind is Regular && step.loc.loc == steps.last().loc.loc {
            without_repetitions(minimize, steps)
        } else {
            without_repetitions(minimize, steps).push(step)
        },
{
    assert(steps.push(step).drop_last() =~= steps);
    lemma_last_kept(minimize, steps);
}

/// The test for having a position in the source.
pub open spec fn has_position(env: GlobalEnv) -> spec_fn(StepView) -> bool {
    |step: StepView|
        found(env.modules@[step.module_id as int].positions@, step.loc.loc.span) is Some
}

/// Tells whether the program aborts at an entry that has a position in the source.
pub open spec fn is_abort(env: GlobalEnv, model: Option<ModelView>, step: StepView) -> bool {
    &&& model matches Some(m)
    &&& m.aborts.contains_key(
        CodeIndex { module_id: step.module_id, byte: step.loc.loc.span.start },
    )
    &&& has_position(env)(step)
}

proof fn lemma_filter_front(steps: Seq<StepView>, test: spec_fn(StepView) -> bool, i: int, j: int)
    requires
        0 <= i < j <= steps.len(),
    ensures
        steps.subrange(i, j).filter(test) == if test(steps[i]) {
            seq![steps[i]] + steps.subrange(i + 1, j).filter(test)
        } else {
            steps.subrange(i + 1, j).filter(test)
        },
{
    let first = seq![steps[i]];
    let rest = steps.subrange(i + 1, j);
    assert(steps.subrange(i, j) =~= first + rest);
    Seq::filter_distributes_over_add(first, rest, test);
    reveal(Seq::filter);
    assert(first.drop_last() =~= Seq::<StepView>::empty());
    assert(first.drop_last().filter(test) =~= Seq::<StepView>::empty());
    assert(first.filter(test) =~= if test(steps[i]) {
        first
    } else {
        Seq::empty()
    });
    assert(Seq::<StepView>::empty() + rest.filter(test) =~= rest.filter(test));
}

proof fn lemma_shown_part(
    env: GlobalEnv,
    model: Option<ModelView>,
    steps: Seq<StepView>,
    i: int,
    j: int,
)
    requires
        0 <= i <= j <= steps.len(),
        forall|k: int| i <= k < j ==> !is_abort(env, model, #[trigger] steps[k]),
        j < steps.len() ==> is_abort(env, model, steps[j]),
    ensures
        up_to_abort(env, model, steps, i) == if j < steps.len() {
            steps.subrange(i, j).filter(has_position(env)).push(
                StepView { kind: TraceKind::Aborted, ..steps[j] },
            )
        } else {
            steps.subrange(i, j).filter(has_position(env))
        },
    decreases j - i,
{
    let test = has_position(env);
    if i < j {
        lemma_shown_part(env, model, steps, i + 1, j);
        lemma_filter_front(steps, test, i, j);
        assert(!is_abort(env, model, steps[i]));
        assert(up_to_abort(env, model, steps, i) =~= if test(steps[i]) {
            seq![steps[i]] + up_to_abort(env, model, steps, i + 1)
        } else {
            up_to_abort(env, model, steps, i + 1)
        });
        let rest = steps.subrange(i + 1, j).filter(test);
        if test(steps[i]) && j < steps.len() {
            let last = StepView { kind: TraceKind::Aborted, ..steps[j] };
            assert(seq![steps[i]] + rest.push(last) =~= (seq![steps[i]] + rest).push(last));
        }
    } else {
        assert(steps.subrange(i, j) =~= Seq::<StepView>::empty());
        reveal(Seq::filter);
        assert(steps.subrange(i, j).filter(test) =~= Seq::<StepView>::empty());
        if j < steps.len() {
            assert(up_to_abort(env, model, steps, i) =~= Seq::<StepView>::empty().push(
                StepView { kind: TraceKind::Aborted, ..steps[j] },
            ));
        }
    }
}

/// The trace that is shown holds all located entries, without repetitions, that have a position in
/// the source, in order and as they are. Where the program aborts at one of them, the first such is
/// the last that is shown, and is marked.
pub proof fn law_shown_trace(wrapper: BoogieWrapper<'_>, error: ErrorView, j: int)
    ensures
        ({
            let steps = without_repetitions(
                wrapper.options.minimize_execution_trace,
                wrapper.located_entries(error.trace),
            );
            let env = *wrapper.env;
            &&& (forall|k: int|
                0 <= k < steps.len() ==> !is_abort(env, error.model, #[trigger] steps[k]))
                ==> wrapper.cleaned_trace(error) == steps.filter(has_position(env))
            &&& 0 <= j < steps.len() && is_abort(env, error.model, steps[j]) && (forall|k: int|
                0 <= k < j ==> !is_abort(env, error.model, #[trigger] steps[k]))
                ==> wrapper.cleaned_trace(error) == steps.take(j).filter(has_position(env)).push(
                StepView { kind: TraceKind::Aborted, ..steps[j] },
            )
        }),
{
    let steps = without_repetitions(
        wrapper.options.minimize_execution_trace,
        wrapper.located_entries(error.trace),
    );
    let env = *wrapper.env;
    if forall|k: int| 0 <= k < steps.len() ==> !is_abort(env, error.model, #[trigger] steps[k]) {
        lemma_shown_part(env, error.model, steps, 0, steps.len() as int);
        assert(steps.subrange(0, steps.len() as int) =~= steps);
    }
    if 0 <= j < steps.len() && is_abort(env, error.model, steps[j]) && (forall|k: int|
        0 <= k < j ==> !is_abort(env, error.model, #[trigger] steps[k])) {
        lemma_shown_part(env, error.model, steps, 0, j);
        assert(steps.subrange(0, j) =~= steps.take(j));
    }
}

/// The function that an entry is in: that which encloses the start of a function that is entered,
/// the end of one that is left, and the location of any other entry.
pub open spec fn function_at(module: ModuleEnv, loc: SourceLoc, kind: TraceKind) -> Option<
    FunctionEnv,
> {
    let span = if kind is EnterFunction {
        loc.start.span
    } else if kind is ExitFunction {
        loc.end.span
    } else {
        loc.loc.span
    };
    match found(module.enclosing_functions@, span) {
        Some(f) => Some(module.functions@[f as int]),
        None => None,
    }
}

/// The byte in front of which locals are shown at an entry: the end of what it points to, or for
/// the last entry the end of the function.
pub open spec fn shown_end(
    func: FunctionEnv,
    loc: SourceLoc,
    kind: TraceKind,
    is_last: bool,
) -> u32 {
    if is_last {
        if func.loc.span.end == 0 {
            1
        } else {
            func.loc.span.end
        }
    } else if kind is EnterFunction {
        loc.start.span.end
    } else if kind is ExitFunction {
        loc.end.span.end
    } else {
        loc.loc.span.end
    }
}

/// At an entry in a function, all locals are shown that are due up to its end, and are shown then.
/// No locals are shown without a function or a model.
pub proof fn law_locals_at(
    module: ModuleEnv,
    loc: SourceLoc,
    model: Option<ModelView>,
    shown: Set<(CodeIndex, LocalDescriptor)>,
    kind: TraceKind,
    is_last: bool,
)
    ensures
        ({
            let (bindings, all) = locals_at(module, loc, model, shown, kind, is_last);
            match (function_at(module, loc, kind), model) {
                (Some(func), Some(m)) => are_shown(
                    m.locals,
                    func,
                    shown_end(func, loc, kind, is_last),
                    shown,
                    bindings,
                    all,
                ),
                _ => bindings.len() == 0 && all == shown,
            }
        }),
{
    if let (Some(func), Some(m)) = (function_at(module, loc, kind), model) {
        law_relevant_locals(
            m,
            func,
            shown_up_to(func, narrowed(loc, kind), is_last),
            shown,
        );
    }
}

/// The locals at an entry can be shown exactly if the range of code does not end before the
/// function starts, and the function has all the locals that are found there.
pub proof fn law_locals_fit(
    module: ModuleEnv,
    loc: SourceLoc,
    model: Option<ModelView>,
    shown: Set<(CodeIndex, LocalDescriptor)>,
    kind: TraceKind,
    is_last: bool,
)
    ensures
        ({
            let bindings = locals_at(module, loc, model, shown, kind, is_last).0;
            locals_fit(module, loc, model, shown, kind, is_last) <==> (function_at(
                module,
                loc,
                kind,
            ) matches Some(func) ==> model is Some ==> {
                &&& func.loc.span.start <= shown_end(func, loc, kind, is_last)
                &&& forall|i: int|
                    0 <= i < bindings.len() ==> (#[trigger] bindings[i]).0.var_idx
                        < func.locals@.len() + func.return_types@.len()
            })
        }),
{
}

/// The results of a function are counted behind its locals.
pub proof fn law_type_of_local(func: FunctionEnv, index: nat)
    ensures
        index < func.locals@.len() ==> type_of_local(func, index) == func.locals@[index as int].ty,
        type_of_local(func, func.locals@.len() + index) == func.return_types@[index as int],
{
}

/// The words behind the name of a function.
pub proof fn law_kind_tag()
    ensures
        kind_tag(TraceKind::Regular).len() == 0,
        kind_tag(TraceKind::EnterFunction) == " (entry)"@,
        kind_tag(TraceKind::ExitFunction) == " (exit)"@,
        kind_tag(TraceKind::Aborted) == " (ABORTED)"@,
        kind_tag(TraceKind::UpdateInvariant) == " (invariant)"@,
        kind_tag(TraceKind::Pack) == " (pack)"@,
{
    reveal_strlit("");
}

/// An entry is shown as the name of its function and the words for its kind. Behind that come the
/// locals that are shown at it, all of them, each on a line of its own and shown by its type, with
/// commas between them.
pub proof fn law_info(
    module: ModuleEnv,
    loc: SourceLoc,
    model: Option<ModelView>,
    shown: Set<(CodeIndex, LocalDescriptor)>,
    kind: TraceKind,
    is_last: bool,
    indent: int,
)
    ensures
        ({
            let info = info_tree(module, loc, model, shown, kind, is_last);
            let bindings = locals_at(module, loc, model, shown, kind, is_last).0;
            match function_at(module, loc, kind) {
                None => info == DocTree::Text("<unknown function>"@ + kind_tag(kind)),
                Some(func) => if bindings.len() == 0 {
                    info == DocTree::Text(func.name@ + kind_tag(kind))
                } else {
                    let locals = Seq::new(
                        bindings.len(),
                        |i: int|
                            local_tree(
                                (model->0).vars,
                                func,
                                bindings[i].0,
                                type_of_local(func, bindings[i].0.var_idx as nat),
                                bindings[i].1,
                            ),
                    );
                    &&& model is Some
                    &&& one_line(info) == func.name@ + kind_tag(kind) + seq!['\n'] + joined(
                        one_line_each(locals),
                        seq![',', '\n'],
                    )
                    &&& many_lines(info, indent) == func.name@ + kind_tag(kind) + (seq!['\n']
                        + blanks(indent)) + joined(
                        many_lines_each(locals, indent),
                        seq![',', '\n'] + blanks(indent),
                    )
                },
            }
        }),
{
    let info = info_tree(module, loc, model, shown, kind, is_last);
    let bindings = locals_at(module, loc, model, shown, kind, is_last).0;
    if let Some(func) = function_at(module, loc, kind) {
        if bindings.len() > 0 {
            let locals = local_trees((model->0).vars, func, bindings);
            let name = func.name@ + kind_tag(kind);
            let head = DocTree::Text(name);
            let comma = DocTree::Text(","@);
            let separator = append_tree(comma, DocTree::Line);
            let rest = intersperse_tree(locals, separator);
            reveal_strlit(",");
            assert(","@ =~= seq![',']);
            assert(info == append_tree(append_tree(head, DocTree::Line), rest));
            lemma_append_lines(comma, DocTree::Line, indent);
            lemma_append_lines(head, DocTree::Line, indent);
            lemma_append_lines(
                append_tree(head, DocTree::Line),
                rest,
                indent,
            );
            lemma_intersperse_lines(locals, separator, indent);
            assert(one_line(separator) =~= seq![',', '\n']);
            assert(many_lines(separator, indent) =~= seq![',', '\n'] + blanks(indent));
        }
    }
}

/// The locals that have been shown at the first `k` entries.
pub open spec fn shown_before(
    env: GlobalEnv,
    steps: Seq<StepView>,
    model: Option<ModelView>,
    k: int,
) -> Set<(CodeIndex, LocalDescriptor)>
    decreases k,
{
    if k <= 0 {
        Set::empty()
    } else {
        let step = steps[k - 1];
        locals_at(
            env.modules@[step.module_id as int],
            step.loc,
            model,
            shown_before(env, steps, model, k - 1),
            step.kind,
            k == steps.len(),
        ).1
    }
}

/// The note that tells a position, counted from one, and what is shown there.
pub open spec fn written_note(file: Seq<char>, pos: Location, info: DocTree) -> Seq<char> {
    let head = "    at "@ + file + ":"@ + decimal((pos.line + 1) as nat) + ":"@ + decimal(
        (pos.column + 1) as nat,
    ) + ": "@;
    rendered(
        DocTree::Append(
            Box::new(DocTree::Text(head)),
            Box::new(DocTree::Nest(8, Box::new(info))),
        ),
        70,
    )
}

/// The words of a note stand behind its position, and its further lines are indented by eight.
pub proof fn law_note(file: Seq<char>, pos: Location, info: DocTree)
    ensures
        !(info is Nil) ==> rendered(note_tree(file, pos, info), 70) == written_note(
            file,
            pos,
            info,
        ),
        info is Nil ==> note_tree(file, pos, info) == DocTree::Text(
            "    at "@ + file + ":"@ + decimal((pos.line + 1) as nat) + ":"@ + decimal(
                (pos.column + 1) as nat,
            ) + ": "@,
        ),
{
}

/// The note for the entry `k` of a trace.
pub open spec fn note_at(
    wrapper: BoogieWrapper<'_>,
    steps: Seq<StepView>,
    on_source: bool,
    model: Option<ModelView>,
    k: int,
) -> Seq<char> {
    let step = steps[k];
    let module = wrapper.env.modules@[step.module_id as int];
    if on_source {
        let (file, pos) = found(module.positions@, step.loc.loc.span)->0;
        let shown = shown_before(*wrapper.env, steps, model, k);
        let is_last = k == steps.len() - 1;
        written_note(
            file@,
            pos,
            info_tree(module, step.loc, model, shown, step.kind, is_last),
        )
    } else {
        written_note(
            wrapper.options.output_path@,
            step.position,
            DocTree::Text("<boogie>: "@ + step.message),
        )
    }
}

/// Tells whether the note for the entry `k` of a trace can be written.
pub open spec fn can_be_noted(
    wrapper: BoogieWrapper<'_>,
    steps: Seq<StepView>,
    on_source: bool,
    model: Option<ModelView>,
    k: int,
) -> bool {
    let step = steps[k];
    let module = wrapper.env.modules@[step.module_id as int];
    if on_source {
        let pos = (found(module.positions@, step.loc.loc.span)->0).1;
        let shown = shown_before(*wrapper.env, steps, model, k);
        &&& pos.line < u32::MAX
        &&& pos.column < u32::MAX
        &&& locals_fit(module, step.loc, model, shown, step.kind, k == steps.len() - 1)
    } else {
        step.position.line < u32::MAX && step.position.column < u32::MAX
    }
}

/// Tells whether `notes` are those for the entries of a trace, one for each, in order.
pub open spec fn are_notes(
    wrapper: BoogieWrapper<'_>,
    steps: Seq<StepView>,
    on_source: bool,
    model: Option<ModelView>,
    notes: Seq<Seq<char>>,
) -> bool {
    &&& notes.len() == steps.len()
    &&& forall|k: int|
        0 <= k < steps.len() ==> notes[k] == #[trigger] note_at(wrapper, steps, on_source, model, k)
}

/// Tells whether the notes for all entries of a trace can be written.
pub open spec fn all_can_be_noted(
    wrapper: BoogieWrapper<'_>,
    steps: Seq<StepView>,
    on_source: bool,
    model: Option<ModelView>,
) -> bool {
    forall|k: int|
        0 <= k < steps.len() ==> #[trigger] can_be_noted(wrapper, steps, on_source, model, k)
}

#[verifier::spinoff_prover]
proof fn lemma_notes(
    wrapper: BoogieWrapper<'_>,
    steps: Seq<StepView>,
    i: int,
    on_source: bool,
    model: Option<ModelView>,
    shown: Set<(CodeIndex, LocalDescriptor)>,
)
    requires
        0 <= i <= steps.len(),
        on_source ==> shown == shown_before(*wrapper.env, steps, model, i),
    ensures
        ({
            let notes = wrapper.notes_from(steps, i, on_source, model, shown);
            &&& notes.len() == steps.len() - i
            &&& forall|k: int|
                i <= k < steps.len() ==> notes[k - i] == #[trigger] note_at(
                    wrapper,
                    steps,
                    on_source,
                    model,
                    k,
                )
            &&& wrapper.steps_fit(steps, i, on_source, model, shown) <==> forall|k: int|
                i <= k < steps.len() ==> #[trigger] can_be_noted(
                    wrapper,
                    steps,
                    on_source,
                    model,
                    k,
                )
        }),
    decreases steps.len() - i,
{
    if i < steps.len() {
        let step = steps[i];
        let is_last = i == steps.len() - 1;
        let module = wrapper.env.modules@[step.module_id as int];
        let notes = wrapper.notes_from(steps, i, on_source, model, shown);
        let more = if on_source {
            locals_at(module, step.loc, model, shown, step.kind, is_last).1
        } else {
            shown
        };
        assert(on_source ==> more == shown_before(*wrapper.env, steps, model, i + 1));
        lemma_notes(wrapper, steps, i + 1, on_source, model, more);
        let rest = wrapper.notes_from(steps, i + 1, on_source, model, more);
        assert(notes.len() == rest.len() + 1);
        assert(notes[0] == note_at(wrapper, steps, on_source, model, i));
        assert forall|k: int| i <= k < steps.len() implies notes[k - i] == #[trigger] note_at(
            wrapper,
            steps,
            on_source,
            model,
            k,
        ) by {
            if k > i {
                assert(notes[k - i] == rest[k - (i + 1)]);
            }
        }
        assert(wrapper.steps_fit(steps, i, on_source, model, shown) <==> can_be_noted(
            wrapper,
            steps,
            on_source,
            model,
            i,
        ) && wrapper.steps_fit(steps, i + 1, on_source, model, more));
    }
}

proof fn lemma_all_notes(
    wrapper: BoogieWrapper<'_>,
    steps: Seq<StepView>,
    on_source: bool,
    model: Option<ModelView>,
)
    ensures
        are_notes(
            wrapper,
            steps,
            on_source,
            model,
            wrapper.notes_from(steps, 0, on_source, model, Set::empty()),
        ),
        wrapper.steps_fit(steps, 0, on_source, model, Set::empty()) <==> all_can_be_noted(
            wrapper,
            steps,
            on_source,
            model,
        ),
{
    lemma_notes(wrapper, steps, 0, on_source, model, Set::empty());
    let notes = wrapper.notes_from(steps, 0, on_source, model, Set::empty());
    assert forall|k: int| 0 <= k < steps.len() implies notes[k] == #[trigger] note_at(
        wrapper,
        steps,
        on_source,
        model,
        k,
    ) by {
        assert(notes[k - 0] == note_at(wrapper, steps, on_source, model, k));
    }
}

/// A verification error is reported at its source, as an error, or else at its place in the
/// generated program, as a bug, like any other error. Its message is kept. It has one note for each
/// entry of the trace that is shown, in order, and other errors have none. An error can be reported
/// exactly if all its notes can be written.
pub proof fn law_diagnostic(wrapper: BoogieWrapper<'_>, error: ErrorView)
    ensures
        ({
            let d = wrapper.diagnostic_for(error);
            let (byte, source) = wrapper.locations(error.position);
            let on_source = !(error.kind is Compilation) && source is Some && (source->0).loc
                != wrapper.env.internal_loc;
            let steps = wrapper.cleaned_trace(error);
            &&& d.message == error.message
            &&& on_source ==> d.severity == Severity::Error && d.file_id == (source->0).loc.file_id
                && d.span == (source->0).loc.span
            &&& !on_source ==> d.severity == Severity::Bug && d.file_id == wrapper.boogie_file_id
                && d.span.start == byte && d.span.end == byte
            &&& error.kind is Compilation ==> d.notes.len() == 0 && wrapper.reportable(error)
            &&& !(error.kind is Compilation) ==> {
                &&& are_notes(wrapper, steps, on_source, error.model, d.notes)
                &&& wrapper.reportable(error) <==> all_can_be_noted(
                    wrapper,
                    steps,
                    on_source,
                    error.model,
                )
            }
        }),
{
    let source = wrapper.locations(error.position).1;
    let on_source = !(error.kind is Compilation) && source is Some && (source->0).loc
        != wrapper.env.internal_loc;
    assert(on_source == (wrapper.error_location(error) is Some));
    lemma_all_notes(wrapper, wrapper.cleaned_trace(error), on_source, error.model);
}

/// Each error gives one diagnostic, in order.
pub proof fn law_diagnostics(wrapper: BoogieWrapper<'_>, errors: Seq<ErrorView>, i: int)
    requires
        0 <= i < errors.len(),
    ensures
        wrapper.diagnostics_for(errors).len() == errors.len(),
        wrapper.diagnostics_for(errors)[i] == wrapper.diagnostic_for(errors[i]),
{
}

} // verus!
