//! Reporting of errors on the source of the verified program.
use vstd::prelude::*;

use crate::display::{lemma_local_renderable, local_tree};
use crate::doc::{
    append, append_tree, doc_tree, DocTree, hardline, intersperse, intersperse_tree,
    lemma_renderable_intersperse, lemma_renderable_parts, nest, nest_tree, plain_text, PrettyDoc,
    render, renderable, rendered, text, trees,
};
use crate::env::{
    found, FunctionEnv, GlobalEnv, Loc, Location, ModuleEnv, ModuleId, SourceLoc, Span, Type,
};
use crate::errors::{
    BoogieError, BoogieWrapper, entry_of, EntryView, errors_of, ErrorView, TraceKind, trace_of,
};
use crate::model::{
    bindings_of, CodeIndex, in_range, lemma_relevant_locals, LocalDescriptor, Model, ModelView,
    relevant_locals, ShownLocals,
};
use crate::text::{begins_with, combine, combine3, decimal, decimal_text, texts_of};
use crate::value::{ModelValue, Value};

verus! {

/// How grave a diagnostic is.
#[derive(Debug, Clone, Copy, PartialEq, Eq, Structural)]
pub enum Severity {
    /// An unexpected bug.
    Bug,
    /// An error.
    Error,
}

/// A message about a range of bytes in a file, with notes.
#[derive(Debug, PartialEq, Eq)]
pub struct Diagnostic {
    pub severity: Severity,
    pub message: String,
    pub file_id: u32,
    pub span: Span,
    pub notes: Vec<String>,
}

/// What a diagnostic stands for.
pub struct DiagnosticView {
    pub severity: Severity,
    pub message: Seq<char>,
    pub file_id: u32,
    pub span: Span,
    pub notes: Seq<Seq<char>>,
}

impl View for Diagnostic {
    type V = DiagnosticView;

    open spec fn view(&self) -> DiagnosticView {
        DiagnosticView {
            severity: self.severity,
            message: self.message@,
            file_id: self.file_id,
            span: self.span,
            notes: texts_of(self.notes@),
        }
    }
}

/// What diagnostics stand for.
pub open spec fn diagnostics_of(diagnostics: Seq<Diagnostic>) -> Seq<DiagnosticView> {
    Seq::new(diagnostics.len(), |i: int| diagnostics[i]@)
}

/// An entry of an execution trace that has a source: its position in the generated program, the
/// module and the location that it comes from, its kind and its message.
#[derive(Debug)]
pub struct TraceStep {
    pub position: Location,
    pub module_id: ModuleId,
    pub loc: SourceLoc,
    pub kind: TraceKind,
    pub message: String,
}

/// What an entry of an execution trace that has a source stands for.
pub struct StepView {
    pub position: Location,
    pub module_id: ModuleId,
    pub loc: SourceLoc,
    pub kind: TraceKind,
    pub message: Seq<char>,
}

impl View for TraceStep {
    type V = StepView;

    open spec fn view(&self) -> StepView {
        StepView {
            position: self.position,
            module_id: self.module_id,
            loc: self.loc,
            kind: self.kind,
            message: self.message@,
        }
    }
}

/// What entries of an execution trace stand for.
pub open spec fn steps_of(steps: Seq<TraceStep>) -> Seq<StepView> {
    Seq::new(steps.len(), |i: int| steps[i]@)
}

/// A source location, unless it stands for generated code without a source.
pub open spec fn proper_location(env: GlobalEnv, location: Option<SourceLoc>) -> Option<
    SourceLoc,
> {
    match location {
        Some(loc) => if loc.loc == env.internal_loc {
            None
        } else {
            Some(loc)
        },
        None => None,
    }
}

/// Tells whether an entry repeats the one before it, where repetitions are removed: it is regular
/// and points to the same location.
pub open spec fn repeats(minimize: bool, last: StepView, next: StepView) -> bool {
    minimize && last.loc.loc == next.loc.loc && next.kind is Regular
}

/// Entries without those that repeat the one kept before them.
pub open spec fn without_repetitions(minimize: bool, steps: Seq<StepView>) -> Seq<StepView>
    decreases steps.len(),
{
    if steps.len() == 0 {
        Seq::empty()
    } else {
        let kept = without_repetitions(minimize, steps.drop_last());
        if kept.len() > 0 && repeats(minimize, kept.last(), steps.last()) {
            kept
        } else {
            kept.push(steps.last())
        }
    }
}

/// Tells whether a model tracks an abort where an entry points to.
pub open spec fn aborts_here(model: Option<ModelView>, step: StepView) -> bool {
    match model {
        Some(m) => m.aborts.dom().contains(
            CodeIndex { module_id: step.module_id, byte: step.loc.loc.span.start },
        ),
        None => false,
    }
}

/// The position of the source that an entry points to.
pub open spec fn source_position(env: GlobalEnv, step: StepView) -> Option<(String, Location)> {
    found(env.modules@[step.module_id as int].positions@, step.loc.loc.span)
}

/// The entries from `i` on that have a position in the source, up to the first at which the program
/// aborts, which is marked.
pub open spec fn up_to_abort(
    env: GlobalEnv,
    model: Option<ModelView>,
    steps: Seq<StepView>,
    i: int,
) -> Seq<StepView>
    decreases steps.len() - i,
{
    if 0 <= i < steps.len() {
        if source_position(env, steps[i]) is None {
            up_to_abort(env, model, steps, i + 1)
        } else if aborts_here(model, steps[i]) {
            seq![StepView { kind: TraceKind::Aborted, ..steps[i] }]
        } else {
            seq![steps[i]] + up_to_abort(env, model, steps, i + 1)
        }
    } else {
        Seq::empty()
    }
}

impl<'env> BoogieWrapper<'env> {
    /// The byte at which a position stands, zero where it is unknown, and the source it comes from.
    pub open spec fn locations(&self, position: Location) -> (u32, Option<SourceLoc>) {
        let index = match found(self.writer.byte_indices@, position) {
            Some(index) => index,
            None => 0,
        };
        (index, found(self.writer.source_locations@, index))
    }

    /// The source of an entry of an execution trace, if it has one and that is in a module.
    pub open spec fn located(&self, entry: EntryView) -> Option<StepView> {
        match proper_location(*self.env, self.locations(entry.position).1) {
            Some(loc) => match found(self.env.enclosing_modules@, loc.loc) {
                Some(module_id) => Some(
                    StepView {
                        position: entry.position,
                        module_id,
                        loc,
                        kind: entry.kind,
                        message: entry.message,
                    },
                ),
                None => None,
            },
            None => None,
        }
    }

    /// The entries of an execution trace that have a source.
    pub open spec fn located_entries(&self, trace: Seq<EntryView>) -> Seq<StepView>
        decreases trace.len(),
    {
        if trace.len() == 0 {
            Seq::empty()
        } else {
            let steps = self.located_entries(trace.drop_last());
            match self.located(trace.last()) {
                Some(step) => steps.push(step),
                None => steps,
            }
        }
    }

    /// The entries of an execution trace to show.
    pub open spec fn cleaned_trace(&self, error: ErrorView) -> Seq<StepView> {
        up_to_abort(
            *self.env,
            error.model,
            without_repetitions(
                self.options.minimize_execution_trace,
                self.located_entries(error.trace),
            ),
            0,
        )
    }

    /// Gets the code byte index and source location (if available) from a target line/column
    /// position.
    pub fn get_locations(&self, pos: Location) -> (res: (u32, Option<SourceLoc>))
        ensures
            res == self.locations(pos),
    {
        let index: u32 = match self.writer.get_output_byte_index(pos) {
            Some(index) => index,
            None => 0,
        };
        (index, self.writer.get_source_location(index))
    }

    /// Transform a source location into a proper one, filtering out internal location.
    pub fn to_proper_source_location(&self, location: Option<SourceLoc>) -> (res: Option<SourceLoc>)
        ensures
            res == proper_location(*self.env, location),
    {
        match location {
            Some(loc) => if loc.loc == self.env.internal_loc {
                None
            } else {
                Some(loc)
            },
            None => None,
        }
    }

    /// Finds the source of an entry of an execution trace.
    fn locate(&self, entry: &(Location, TraceKind, String)) -> (res: Option<TraceStep>)
        requires
            self.env.wf(),
        ensures
            self.located(entry_of(*entry)) == match res {
                Some(step) => Some(step@),
                None => None,
            },
            res matches Some(step) ==> step.module_id < self.env.modules@.len(),
    {
        // If trace entry has no source location or is from prelude, skip
        let loc = match self.to_proper_source_location(self.get_locations(entry.0).1) {
            Some(loc) => loc,
            None => {
                return None;
            },
        };
        // If trace info is not about function code, skip.
        match self.env.get_enclosing_module(loc.loc) {
            Some(module_id) => Some(
                TraceStep {
                    position: entry.0,
                    module_id,
                    loc,
                    kind: entry.1,
                    message: entry.2.clone(),
                },
            ),
            None => None,
        }
    }

    /// Finds the entries of an execution trace that have a source, without repetitions.
    fn locate_entries(&self, trace: &Vec<(Location, TraceKind, String)>) -> (res: Vec<TraceStep>)
        requires
            self.env.wf(),
        ensures
            steps_of(res@) == without_repetitions(
                self.options.minimize_execution_trace,
                self.located_entries(trace_of(trace@)),
            ),
            forall|i: int|
                0 <= i < res@.len() ==> (#[trigger] res@[i]).module_id < self.env.modules@.len(),
    {
        let ghost entries = trace_of(trace@);
        let minimize = self.options.minimize_execution_trace;
        let mut steps: Vec<TraceStep> = Vec::new();
        let mut i: usize = 0;
        proof {
            assert(entries.take(0) =~= Seq::empty());
            assert(steps_of(steps@) =~= Seq::<StepView>::empty());
        }
        while i < trace.len()
            invariant
                self.env.wf(),
                i <= trace@.len(),
                entries == trace_of(trace@),
                minimize == self.options.minimize_execution_trace,
                steps_of(steps@) == without_repetitions(
                    minimize,
                    self.located_entries(entries.take(i as int)),
                ),
                forall|j: int|
                    0 <= j < steps@.len() ==> (#[trigger] steps@[j]).module_id
                        < self.env.modules@.len(),
            decreases trace@.len() - i,
        {
            let ghost known = self.located_entries(entries.take(i as int));
            proof {
                assert(entries.take(i + 1).drop_last() =~= entries.take(i as int));
                assert(entries.take(i + 1).last() == entry_of(trace@[i as int]));
            }
            if let Some(step) = self.locate(&trace[i]) {
                let ghost view = step@;
                assert(known.push(view).drop_last() =~= known);
                let ghost before = steps_of(steps@);
                // Removes consecutive entries which point to the same location if trace
                // minimization is active. Only dedup regular trace infos.
                let n = steps.len();
                let repeated = n > 0 && minimize && steps[n - 1].loc.loc == step.loc.loc
                    && step.kind == TraceKind::Regular;
                if !repeated {
                    steps.push(step);
                    assert(steps_of(steps@) =~= before.push(view));
                }
            }
            i += 1;
        }
        assert(entries.take(i as int) =~= entries);
        steps
    }

    /// Cleans the execution trace of an error for showing it.
    pub fn clean_trace(&self, error: &BoogieError) -> (res: Vec<TraceStep>)
        requires
            self.env.wf(),
        ensures
            steps_of(res@) == self.cleaned_trace(error@),
            forall|i: int|
                0 <= i < res@.len() ==> (#[trigger] res@[i]).module_id < self.env.modules@.len(),
            forall|i: int|
                0 <= i < res@.len() ==> source_position(*self.env, (#[trigger] res@[i])@) is Some,
    {
        let located = self.locate_entries(&error.execution_trace);
        let ghost all = steps_of(located@);
        let ghost model = error@.model;
        let mut steps: Vec<TraceStep> = Vec::new();
        let mut i: usize = 0;
        assert(steps_of(steps@) + self.cleaned_trace(error@) =~= self.cleaned_trace(error@));
        while i < located.len()
            invariant
                i <= located@.len(),
                all == steps_of(located@),
                model == error@.model,
                self.cleaned_trace(error@) == steps_of(steps@) + up_to_abort(
                    *self.env,
                    model,
                    all,
                    i as int,
                ),
                forall|j: int|
                    0 <= j < located@.len() ==> (#[trigger] located@[j]).module_id
                        < self.env.modules@.len(),
                forall|j: int|
                    0 <= j < steps@.len() ==> (#[trigger] steps@[j]).module_id
                        < self.env.modules@.len(),
                forall|j: int|
                    0 <= j < steps@.len() ==> source_position(
                        *self.env,
                        (#[trigger] steps@[j])@,
                    ) is Some,
            decreases located@.len() - i,
        {
            let step = &located[i];
            assert(all[i as int] == step@);
            let ghost before = steps_of(steps@);
            // filter out if no position
            if self.env.modules[step.module_id].get_position(step.loc.loc.span).is_some() {
                let index = CodeIndex { module_id: step.module_id, byte: step.loc.loc.span.start };
                let aborted = match &error.model {
                    Some(model) => model.aborts_at(index),
                    None => false,
                };
                let kind = if aborted {
                    TraceKind::Aborted
                } else {
                    step.kind
                };
                let kept = TraceStep {
                    position: step.position,
                    module_id: step.module_id,
                    loc: step.loc,
                    kind,
                    message: step.message.clone(),
                };
                let ghost view = kept@;
                steps.push(kept);
                assert(steps_of(steps@) =~= before + seq![view]);
                if aborted {
                    // Cut the trace after abort -- the remaining only propagates the abort up
                    // the call stack and isn't useful.
                    return steps;
                }
                assert(self.cleaned_trace(error@) =~= steps_of(steps@) + up_to_abort(
                    *self.env,
                    model,
                    all,
                    i + 1,
                ));
            }
            i += 1;
        }
        assert(self.cleaned_trace(error@) =~= steps_of(steps@));
        steps
    }
}

/// The words that tell the kind of an entry.
pub open spec fn kind_tag(kind: TraceKind) -> Seq<char> {
    match kind {
        TraceKind::EnterFunction => " (entry)"@,
        TraceKind::ExitFunction => " (exit)"@,
        TraceKind::Aborted => " (ABORTED)"@,
        TraceKind::UpdateInvariant => " (invariant)"@,
        TraceKind::Pack => " (pack)"@,
        TraceKind::Regular => ""@,
    }
}

/// The location of an entry: the start of a function that is entered, the end of one that is left.
pub open spec fn narrowed(loc: SourceLoc, kind: TraceKind) -> Loc {
    match kind {
        TraceKind::EnterFunction => loc.start,
        TraceKind::ExitFunction => loc.end,
        _ => loc.loc,
    }
}

/// The location up to which locals are shown: that of the entry, or the last byte of the function
/// for the last entry, so that all locals which haven't yet been shown will be.
pub open spec fn shown_up_to(func: FunctionEnv, loc: Loc, is_last: bool) -> Loc {
    if is_last {
        let end = func.loc.span.end;
        let last = if end > 0 {
            end - 1
        } else {
            0
        };
        Loc {
            file_id: loc.file_id,
            span: Span { start: last as u32, end: (last + 1) as u32 },
        }
    } else {
        loc
    }
}

/// The function that encloses a range of bytes in the file of a module.
pub open spec fn enclosing_function(module: ModuleEnv, span: Span) -> Option<FunctionEnv> {
    match found(module.enclosing_functions@, span) {
        Some(f) => Some(module.functions@[f as int]),
        None => None,
    }
}

/// The type of a local of a function, or of one of its results, which are counted behind the
/// locals.
pub open spec fn type_of_local(func: FunctionEnv, index: nat) -> Type {
    let n = func.locals@.len();
    if index < n {
        func.locals@[index as int].ty
    } else {
        func.return_types@[index - n]
    }
}

/// How locals are shown with their values.
pub open spec fn local_trees(
    vars: Seq<(Value, Value)>,
    func: FunctionEnv,
    bindings: Seq<(LocalDescriptor, Value)>,
) -> Seq<DocTree> {
    Seq::new(
        bindings.len(),
        |i: int|
            local_tree(
                vars,
                func,
                bindings[i].0,
                type_of_local(func, bindings[i].0.var_idx as nat),
                bindings[i].1,
            ),
    )
}

/// The locals to show at an entry, and all that have been shown then.
pub open spec fn locals_at(
    module: ModuleEnv,
    loc: SourceLoc,
    model: Option<ModelView>,
    shown: Set<(CodeIndex, LocalDescriptor)>,
    kind: TraceKind,
    is_last: bool,
) -> (Seq<(LocalDescriptor, Value)>, Set<(CodeIndex, LocalDescriptor)>) {
    let place = narrowed(loc, kind);
    match (enclosing_function(module, place.span), model) {
        (Some(func), Some(m)) => relevant_locals(m, func, shown_up_to(func, place, is_last), shown),
        _ => (Seq::empty(), shown),
    }
}

/// How an entry is shown: the name of its function with the kind of the entry, and the locals that
/// have not been shown.
pub open spec fn info_tree(
    module: ModuleEnv,
    loc: SourceLoc,
    model: Option<ModelView>,
    shown: Set<(CodeIndex, LocalDescriptor)>,
    kind: TraceKind,
    is_last: bool,
) -> DocTree {
    match enclosing_function(module, narrowed(loc, kind).span) {
        Some(func) => {
            let head = DocTree::Text(func.name@ + kind_tag(kind));
            let bindings = locals_at(module, loc, model, shown, kind, is_last).0;
            if model is Some && bindings.len() > 0 {
                append_tree(
                    append_tree(head, DocTree::Line),
                    intersperse_tree(
                        local_trees((model->0).vars, func, bindings),
                        append_tree(DocTree::Text(","@), DocTree::Line),
                    ),
                )
            } else {
                head
            }
        },
        None => DocTree::Text("<unknown function>"@ + kind_tag(kind)),
    }
}

/// Tells whether the locals at an entry can be shown: the range of code to look at does not end
/// before it starts, and the function has all the locals that are found there.
pub open spec fn locals_fit(
    module: ModuleEnv,
    loc: SourceLoc,
    model: Option<ModelView>,
    shown: Set<(CodeIndex, LocalDescriptor)>,
    kind: TraceKind,
    is_last: bool,
) -> bool {
    let place = narrowed(loc, kind);
    match (enclosing_function(module, place.span), model) {
        (Some(func), Some(_)) => {
            &&& func.loc.span.start <= shown_up_to(func, place, is_last).span.end
            &&& have_types(func, locals_at(module, loc, model, shown, kind, is_last).0)
        },
        _ => true,
    }
}

/// The words that a note begins with: a position, counted from one.
pub open spec fn note_head(file: Seq<char>, pos: Location) -> Seq<char> {
    "    at "@ + file + ":"@ + decimal((pos.line + 1) as nat) + ":"@ + decimal(
        (pos.column + 1) as nat,
    ) + ": "@
}

/// What a note holds.
pub open spec fn note_tree(file: Seq<char>, pos: Location, info: DocTree) -> DocTree {
    append_tree(DocTree::Text(note_head(file, pos)), nest_tree(info, 8))
}

/// Tells whether a position can be counted from one.
pub open spec fn countable(pos: Location) -> bool {
    pos.line < u32::MAX && pos.column < u32::MAX
}

proof fn lemma_note_head(file: Seq<char>, pos: Location)
    ensures
        forall|s: Seq<char>| #[trigger]
            begins_with(s, note_head(file, pos)) ==> begins_with(s, "    at "@),
{
    let head = note_head(file, pos);
    let start = "    at "@;
    assert(head.take(start.len() as int) =~= start);
    assert forall|s: Seq<char>| #[trigger] begins_with(s, head) implies begins_with(s, start) by {
        assert(s.take(start.len() as int) =~= s.take(head.len() as int).take(start.len() as int));
    }
}

impl<'env> BoogieWrapper<'env> {
    /// Returns the type of either a local or a return parameter.
    pub fn get_type_of_local_or_return<'f>(&self, func_env: &'f FunctionEnv, idx: usize) -> (res:
        &'f Type)
        requires
            idx < func_env.locals@.len() + func_env.return_types@.len(),
        ensures
            *res == type_of_local(*func_env, idx as nat),
    {
        let n = func_env.get_local_count();
        if idx < n {
            &func_env.locals[idx].ty
        } else {
            &func_env.return_types[idx - n]
        }
    }

    /// Renders trace information.
    pub fn render_trace_info(&self, file: String, pos: Location, info: PrettyDoc) -> (res: String)
        requires
            countable(pos),
            renderable(doc_tree(info)),
        ensures
            res@ == rendered(note_tree(file@, pos, doc_tree(info)), 70),
            begins_with(res@, note_head(file@, pos)),
            plain_text(doc_tree(info)) matches Some(s) ==> res@ == note_head(file@, pos) + s,
    {
        let mut head = combine3("    at ", file.as_str(), ":");
        head.append(decimal_text((pos.line + 1) as usize).as_str());
        head.append(":");
        head.append(decimal_text((pos.column + 1) as usize).as_str());
        head.append(": ");
        assert(head@ =~= note_head(file@, pos));
        proof {
            lemma_renderable_parts(doc_tree(info), doc_tree(info), 8);
            lemma_renderable_parts(DocTree::Text(head@), nest_tree(doc_tree(info), 8), 0);
            assert(head@.take(head@.len() as int) =~= head@);
            assert(head@ + Seq::<char>::empty() =~= head@);
            reveal_with_fuel(plain_text, 3);
        }
        render(&append(text(head), nest(info, 8)), 70)
    }

    /// Shows locals with their values.
    fn pretty_locals(
        &self,
        func_env: &FunctionEnv,
        model: &Model,
        bindings: &Vec<(LocalDescriptor, ModelValue)>,
    ) -> (res: Vec<PrettyDoc>)
        requires
            forall|i: int|
                0 <= i < bindings@.len() ==> (#[trigger] bindings@[i]).0.var_idx
                    < func_env.locals@.len() + func_env.return_types@.len(),
        ensures
            trees(res@) == local_trees(model@.vars, *func_env, bindings_of(bindings@)),
    {
        let mut docs: Vec<PrettyDoc> = Vec::new();
        let ghost all = local_trees(model@.vars, *func_env, bindings_of(bindings@));
        let mut i: usize = 0;
        while i < bindings.len()
            invariant
                i <= bindings@.len(),
                all == local_trees(model@.vars, *func_env, bindings_of(bindings@)),
                docs@.len() == i,
                forall|j: int| 0 <= j < i ==> doc_tree(#[trigger] docs@[j]) == all[j],
                forall|j: int|
                    0 <= j < bindings@.len() ==> (#[trigger] bindings@[j]).0.var_idx
                        < func_env.locals@.len() + func_env.return_types@.len(),
            decreases bindings@.len() - i,
        {
            let binding = &bindings[i];
            assert(bindings@[i as int].0.var_idx < func_env.locals@.len()
                + func_env.return_types@.len());
            let ty = self.get_type_of_local_or_return(func_env, binding.0.var_idx);
            docs.push(binding.0.pretty(func_env, model, ty, &binding.1));
            i += 1;
        }
        assert(trees(docs@) =~= all);
        docs
    }

    /// Pretty print trace information, injecting function name and variable bindings if available.
    pub fn pretty_trace_info(
        &self,
        module_env: &ModuleEnv,
        loc: SourceLoc,
        model_opt: Option<&Model>,
        locals_shown: &mut ShownLocals,
        kind: TraceKind,
        is_last: bool,
        _boogie_msg: &str,
    ) -> (res: PrettyDoc)
        requires
            module_env.wf(),
            locals_fit(
                *module_env,
                loc,
                model_at(model_opt),
                old(locals_shown)@,
                kind,
                is_last,
            ),
        ensures
            doc_tree(res) == info_tree(
                *module_env,
                loc,
                model_at(model_opt),
                old(locals_shown)@,
                kind,
                is_last,
            ),
            renderable(doc_tree(res)),
            final(locals_shown)@ == locals_at(
                *module_env,
                loc,
                model_at(model_opt),
                old(locals_shown)@,
                kind,
                is_last,
            ).1,
    {
        let (place, kind_tag) = match kind {
            TraceKind::EnterFunction => {
                // Narrow location to the beginning of the function. If this is the last trace
                // entry, it is widened again below, so that variables are shown at this point.
                (loc.start, " (entry)")
            },
            TraceKind::ExitFunction => {
                // Narrow location to the end of the function.
                (loc.end, " (exit)")
            },
            TraceKind::Aborted => (loc.loc, " (ABORTED)"),
            TraceKind::UpdateInvariant => (loc.loc, " (invariant)"),
            TraceKind::Pack => (loc.loc, " (pack)"),
            TraceKind::Regular => (loc.loc, ""),
        };
        let func_env = match module_env.get_enclosing_function(place.span) {
            Some(func_env) => func_env,
            None => {
                return text(combine("<unknown function>", kind_tag));
            },
        };
        let func_display = combine(func_env.name.as_str(), kind_tag);
        let up_to = if is_last {
            // If this is the last trace entry, set the location to the end of the function.
            // This ensures that all variables which haven't yet will be printed
            let mut end = func_env.loc.span.end;
            if end > 0 {
                end -= 1;
            }
            Loc { file_id: place.file_id, span: Span { start: end, end: end + 1 } }
        } else {
            place
        };
        let model = match model_opt {
            Some(model) => model,
            None => {
                return text(func_display);
            },
        };
        let bindings = model.relevant_tracked_locals(func_env, up_to, locals_shown);
        proof {
            let found = locals_at(
                *module_env,
                loc,
                model_at(model_opt),
                old(locals_shown)@,
                kind,
                is_last,
            ).0;
            assert forall|i: int| 0 <= i < bindings@.len() implies (
            #[trigger] bindings@[i]).0.var_idx < func_env.locals@.len()
                + func_env.return_types@.len() by {
                assert(found[i].0 == bindings@[i].0);
            }
        }
        if bindings.len() == 0 {
            return text(func_display);
        }
        let ghost head = DocTree::Text(func_display@);
        let displayed_info = self.pretty_locals(func_env, model, &bindings);
        let ghost shown = trees(displayed_info@);
        let separator = append(text(",".to_string()), hardline());
        proof {
            let comma = DocTree::Text(","@);
            lemma_renderable_parts(comma, DocTree::Line, 0);
            assert forall|i: int| 0 <= i < shown.len() implies renderable(#[trigger] shown[i]) by {
                lemma_local_renderable(
                    model@.vars,
                    *func_env,
                    bindings@[i].0,
                    type_of_local(*func_env, bindings@[i].0.var_idx as nat),
                    bindings@[i].1@,
                );
            }
            lemma_renderable_intersperse(shown, doc_tree(separator));
            lemma_renderable_parts(head, DocTree::Line, 0);
            lemma_renderable_parts(
                append_tree(head, DocTree::Line),
                intersperse_tree(shown, doc_tree(separator)),
                0,
            );
        }
        let model_info = intersperse(displayed_info, separator);
        append(append(text(func_display), hardline()), model_info)
    }
}

/// What a model stands for, where there is one.
pub open spec fn model_at(model: Option<&Model>) -> Option<ModelView> {
    match model {
        Some(m) => Some(m@),
        None => None,
    }
}

/// Tells whether a function has all the given locals.
pub open spec fn have_types(func: FunctionEnv, bindings: Seq<(LocalDescriptor, Value)>) -> bool {
    forall|i: int|
        0 <= i < bindings.len() ==> (#[trigger] bindings[i]).0.var_idx < func.locals@.len()
            + func.return_types@.len()
}

/// Tells whether a function has all the given locals.
fn all_have_types(func_env: &FunctionEnv, bindings: &Vec<(LocalDescriptor, ModelValue)>) -> (res:
    bool)
    requires
        func_env.wf(),
    ensures
        res == have_types(*func_env, bindings_of(bindings@)),
{
    let ghost all = bindings_of(bindings@);
    let n = func_env.get_local_count();
    let m = func_env.get_return_count();
    let mut i: usize = 0;
    while i < bindings.len()
        invariant
            i <= bindings@.len(),
            all == bindings_of(bindings@),
            n == func_env.locals@.len(),
            m == func_env.return_types@.len(),
            func_env.wf(),
            forall|j: int| 0 <= j < i ==> (#[trigger] all[j]).0.var_idx < n + m,
        decreases bindings@.len() - i,
    {
        assert(all[i as int].0 == bindings@[i as int].0);
        if bindings[i].0.var_idx >= n + m {
            return false;
        }
        i += 1;
    }
    true
}

impl<'env> BoogieWrapper<'env> {
    /// The source location that an error is reported on. There is none where it does not come from
    /// verification.
    pub open spec fn error_location(&self, error: ErrorView) -> Option<SourceLoc> {
        if error.kind is Compilation {
            None
        } else {
            proper_location(*self.env, self.locations(error.position).1)
        }
    }

    /// Tells whether the entries from `i` on can be shown.
    pub open spec fn steps_fit(
        &self,
        steps: Seq<StepView>,
        i: int,
        on_source: bool,
        model: Option<ModelView>,
        shown: Set<(CodeIndex, LocalDescriptor)>,
    ) -> bool
        decreases steps.len() - i,
    {
        if 0 <= i < steps.len() {
            let step = steps[i];
            let is_last = i == steps.len() - 1;
            if on_source {
                let module = self.env.modules@[step.module_id as int];
                &&& countable((source_position(*self.env, step)->0).1)
                &&& locals_fit(module, step.loc, model, shown, step.kind, is_last)
                &&& self.steps_fit(
                    steps,
                    i + 1,
                    on_source,
                    model,
                    locals_at(module, step.loc, model, shown, step.kind, is_last).1,
                )
            } else {
                countable(step.position) && self.steps_fit(steps, i + 1, on_source, model, shown)
            }
        } else {
            true
        }
    }

    /// The notes for the entries from `i` on: on the source with the locals, or else on the
    /// generated program with the message.
    pub open spec fn notes_from(
        &self,
        steps: Seq<StepView>,
        i: int,
        on_source: bool,
        model: Option<ModelView>,
        shown: Set<(CodeIndex, LocalDescriptor)>,
    ) -> Seq<Seq<char>>
        decreases steps.len() - i,
    {
        if 0 <= i < steps.len() {
            let step = steps[i];
            let is_last = i == steps.len() - 1;
            if on_source {
                let module = self.env.modules@[step.module_id as int];
                let (file, pos) = source_position(*self.env, step)->0;
                let info = info_tree(module, step.loc, model, shown, step.kind, is_last);
                seq![rendered(note_tree(file@, pos, info), 70)] + self.notes_from(
                    steps,
                    i + 1,
                    on_source,
                    model,
                    locals_at(module, step.loc, model, shown, step.kind, is_last).1,
                )
            } else {
                let info = DocTree::Text("<boogie>: "@ + step.message);
                seq![
                    rendered(note_tree(self.options.output_path@, step.position, info), 70),
                ] + self.notes_from(steps, i + 1, on_source, model, shown)
            }
        } else {
            Seq::empty()
        }
    }

    /// Tells whether an error can be reported: the entries of its trace can be shown.
    pub open spec fn reportable(&self, error: ErrorView) -> bool {
        error.kind is Compilation || self.steps_fit(
            self.cleaned_trace(error),
            0,
            self.error_location(error) is Some,
            error.model,
            Set::empty(),
        )
    }

    /// The diagnostic that reports an error.
    pub open spec fn diagnostic_for(&self, error: ErrorView) -> DiagnosticView {
        let location = self.error_location(error);
        let index = self.locations(error.position).0;
        DiagnosticView {
            severity: if location is Some {
                Severity::Error
            } else {
                Severity::Bug
            },
            message: error.message,
            file_id: match location {
                Some(loc) => loc.loc.file_id,
                None => self.boogie_file_id,
            },
            span: match location {
                Some(loc) => loc.loc.span,
                None => Span { start: index, end: index },
            },
            notes: if error.kind is Compilation {
                Seq::empty()
            } else {
                self.notes_from(
                    self.cleaned_trace(error),
                    0,
                    location is Some,
                    error.model,
                    Set::empty(),
                )
            },
        }
    }

    /// Finds the source location that an error is reported on.
    fn locate_error(&self, error: &BoogieError) -> (res: Option<SourceLoc>)
        ensures
            res == self.error_location(error@),
    {
        if error.kind.is_from_verification() {
            self.to_proper_source_location(self.get_locations(error.position).1)
        } else {
            None
        }
    }

    /// Writes the note for an entry.
    fn write_note(
        &self,
        step: &TraceStep,
        on_source: bool,
        model: Option<&Model>,
        locals_shown: &mut ShownLocals,
        is_last: bool,
    ) -> (res: String)
        requires
            self.env.wf(),
            step.module_id < self.env.modules@.len(),
            source_position(*self.env, step@) is Some,
            on_source ==> countable((source_position(*self.env, step@)->0).1),
            on_source ==> locals_fit(
                self.env.modules@[step.module_id as int],
                step.loc,
                model_at(model),
                old(locals_shown)@,
                step.kind,
                is_last,
            ),
            !on_source ==> countable(step.position),
        ensures
            on_source ==> {
                let module = self.env.modules@[step.module_id as int];
                let (file, pos) = source_position(*self.env, step@)->0;
                let shown = old(locals_shown)@;
                &&& res@ == rendered(
                    note_tree(
                        file@,
                        pos,
                        info_tree(module, step.loc, model_at(model), shown, step.kind, is_last),
                    ),
                    70,
                )
                &&& final(locals_shown)@ == locals_at(
                    module,
                    step.loc,
                    model_at(model),
                    shown,
                    step.kind,
                    is_last,
                ).1
            },
            !on_source ==> res@ == rendered(
                note_tree(
                    self.options.output_path@,
                    step.position,
                    DocTree::Text("<boogie>: "@ + step.message@),
                ),
                70,
            ) && final(locals_shown)@ == old(locals_shown)@,
            begins_with(res@, "    at "@),
    {
        if on_source {
            // Reporting on source.
            let module_env = &self.env.modules[step.module_id];
            let position = module_env.get_position(step.loc.loc.span).unwrap();
            let file = position.0.clone();
            let pos = position.1;
            proof {
                lemma_note_head(file@, pos);
            }
            let info = self.pretty_trace_info(
                module_env,
                step.loc,
                model,
                locals_shown,
                step.kind,
                is_last,
                step.message.as_str(),
            );
            self.render_trace_info(file, pos, info)
        } else {
            proof {
                lemma_note_head(self.options.output_path@, step.position);
            }
            self.render_trace_info(
                self.options.output_path.clone(),
                step.position,
                text(combine("<boogie>: ", step.message.as_str())),
            )
        }
    }

    /// Writes the notes for the execution trace of an error.
    fn write_notes(&self, error: &BoogieError, on_source: bool) -> (res: Vec<String>)
        requires
            self.env.wf(),
            self.steps_fit(
                self.cleaned_trace(error@),
                0,
                on_source,
                error@.model,
                Set::empty(),
            ),
        ensures
            texts_of(res@) == self.notes_from(
                self.cleaned_trace(error@),
                0,
                on_source,
                error@.model,
                Set::empty(),
            ),
            forall|i: int|
                0 <= i < res@.len() ==> begins_with((#[trigger] res@[i])@, "    at "@),
    {
        let steps = self.clean_trace(error);
        let ghost views = steps_of(steps@);
        let model: Option<&Model> = match &error.model {
            Some(model) => Some(model),
            None => None,
        };
        let n = steps.len();
        let mut locals_shown = ShownLocals::new();
        let mut notes: Vec<String> = Vec::new();
        let ghost all = self.notes_from(views, 0, on_source, error@.model, Set::empty());
        assert(texts_of(notes@) + all =~= all);
        let mut i: usize = 0;
        while i < n
            invariant
                self.env.wf(),
                i <= n == steps@.len(),
                views == steps_of(steps@),
                model_at(model) == error@.model,
                forall|j: int|
                    0 <= j < steps@.len() ==> (#[trigger] steps@[j]).module_id
                        < self.env.modules@.len(),
                forall|j: int|
                    0 <= j < steps@.len() ==> source_position(
                        *self.env,
                        (#[trigger] steps@[j])@,
                    ) is Some,
                self.steps_fit(views, i as int, on_source, error@.model, locals_shown@),
                forall|j: int|
                    0 <= j < notes@.len() ==> begins_with((#[trigger] notes@[j])@, "    at "@),
                all == texts_of(notes@) + self.notes_from(
                    views,
                    i as int,
                    on_source,
                    error@.model,
                    locals_shown@,
                ),
            decreases n - i,
        {
            let step = &steps[i];
            assert(views[i as int] == step@);
            let ghost before = texts_of(notes@);
            let note = self.write_note(step, on_source, model, &mut locals_shown, i == n - 1);
            let ghost written = note@;
            notes.push(note);
            assert(texts_of(notes@) =~= before.push(written));
            assert(all =~= texts_of(notes@) + self.notes_from(
                views,
                i + 1,
                on_source,
                error@.model,
                locals_shown@,
            ));
            i += 1;
        }
        assert(all =~= texts_of(notes@));
        notes
    }

    /// Helper to add a boogie error as a diagnostic.
    pub fn add_error(&self, error: &BoogieError, diagnostics: &mut Vec<Diagnostic>)
        requires
            self.env.wf(),
            self.reportable(error@),
        ensures
            diagnostics_of(final(diagnostics)@) == diagnostics_of(old(diagnostics)@).push(
                self.diagnostic_for(error@),
            ),
            forall|i: int|
                0 <= i < final(diagnostics)@.last().notes@.len() ==> begins_with(
                    (#[trigger] final(diagnostics)@.last().notes@[i])@,
                    "    at "@,
                ),
    {
        let index = self.get_locations(error.position).0;
        // Create label (position information) for main error.
        let loc_opt = self.locate_error(error);
        let (severity, file_id, span) = match loc_opt {
            Some(loc) => (Severity::Error, loc.loc.file_id, loc.loc.span),
            // Consider diags on boogie source as bugs
            None => (Severity::Bug, self.boogie_file_id, Span { start: index, end: index }),
        };
        // Now add trace diagnostics.
        let notes: Vec<String> = if error.kind.is_from_verification() {
            self.write_notes(error, loc_opt.is_some())
        } else {
            Vec::new()
        };
        assert(error.kind is Compilation ==> texts_of(notes@) =~= Seq::<Seq<char>>::empty());
        let diagnostic = Diagnostic {
            severity,
            message: error.message.clone(),
            file_id,
            span,
            notes,
        };
        let ghost before = diagnostics_of(diagnostics@);
        let ghost view = diagnostic@;
        diagnostics.push(diagnostic);
        assert(diagnostics_of(diagnostics@) =~= before.push(view));
    }

    /// Tells whether the locals at an entry can be shown, and if so marks them as shown.
    fn check_locals(
        &self,
        module_env: &ModuleEnv,
        step: &TraceStep,
        model_opt: Option<&Model>,
        locals_shown: &mut ShownLocals,
        is_last: bool,
    ) -> (res: bool)
        requires
            module_env.wf(),
        ensures
            res == locals_fit(
                *module_env,
                step.loc,
                model_at(model_opt),
                old(locals_shown)@,
                step.kind,
                is_last,
            ),
            res ==> final(locals_shown)@ == locals_at(
                *module_env,
                step.loc,
                model_at(model_opt),
                old(locals_shown)@,
                step.kind,
                is_last,
            ).1,
    {
        let place = match step.kind {
            TraceKind::EnterFunction => step.loc.start,
            TraceKind::ExitFunction => step.loc.end,
            _ => step.loc.loc,
        };
        let (func_env, model) = match (module_env.get_enclosing_function(place.span), model_opt) {
            (Some(func_env), Some(model)) => (func_env, model),
            _ => {
                return true;
            },
        };
        let up_to = if is_last {
            let mut end = func_env.loc.span.end;
            if end > 0 {
                end -= 1;
            }
            Loc { file_id: place.file_id, span: Span { start: end, end: end + 1 } }
        } else {
            place
        };
        if func_env.loc.span.start > up_to.span.end {
            return false;
        }
        let bindings = model.relevant_tracked_locals(func_env, up_to, locals_shown);
        all_have_types(func_env, &bindings)
    }

    /// Tells whether an error can be reported.
    pub fn can_report(&self, error: &BoogieError) -> (res: bool)
        requires
            self.env.wf(),
        ensures
            res == self.reportable(error@),
    {
        if !error.kind.is_from_verification() {
            return true;
        }
        let on_source = self.locate_error(error).is_some();
        let steps = self.clean_trace(error);
        let ghost views = steps_of(steps@);
        let model: Option<&Model> = match &error.model {
            Some(model) => Some(model),
            None => None,
        };
        let n = steps.len();
        let mut locals_shown = ShownLocals::new();
        let mut i: usize = 0;
        while i < n
            invariant
                self.env.wf(),
                !(error@.kind is Compilation),
                on_source == (self.error_location(error@) is Some),
                i <= n == steps@.len(),
                views == steps_of(steps@),
                views == self.cleaned_trace(error@),
                model_at(model) == error@.model,
                forall|j: int|
                    0 <= j < steps@.len() ==> (#[trigger] steps@[j]).module_id
                        < self.env.modules@.len(),
                forall|j: int|
                    0 <= j < steps@.len() ==> source_position(
                        *self.env,
                        (#[trigger] steps@[j])@,
                    ) is Some,
                self.reportable(error@) == self.steps_fit(
                    views,
                    i as int,
                    on_source,
                    error@.model,
                    locals_shown@,
                ),
            decreases n - i,
        {
            let step = &steps[i];
            assert(views[i as int] == step@);
            let module_env = &self.env.modules[step.module_id];
            let pos = if on_source {
                module_env.get_position(step.loc.loc.span).unwrap().1
            } else {
                step.position
            };
            if pos.line == u32::MAX || pos.column == u32::MAX {
                return false;
            }
            if on_source && !self.check_locals(
                module_env,
                step,
                model,
                &mut locals_shown,
                i == n - 1,
            ) {
                return false;
            }
            i += 1;
        }
        true
    }

    /// Adds boogie errors as diagnostics, if all of them can be reported.
    pub fn add_errors(&self, errors: &Vec<BoogieError>, diagnostics: &mut Vec<Diagnostic>) -> (res:
        bool)
        requires
            self.env.wf(),
        ensures
            res == forall|i: int|
                0 <= i < errors@.len() ==> self.reportable((#[trigger] errors@[i])@),
            res ==> diagnostics_of(final(diagnostics)@) == diagnostics_of(old(diagnostics)@)
                + self.diagnostics_for(errors_of(errors@)),
            !res ==> *final(diagnostics) == *old(diagnostics),
    {
        let mut i: usize = 0;
        while i < errors.len()
            invariant
                self.env.wf(),
                *diagnostics == *old(diagnostics),
                i <= errors@.len(),
                forall|j: int| 0 <= j < i ==> self.reportable((#[trigger] errors@[j])@),
            decreases errors@.len() - i,
        {
            if !self.can_report(&errors[i]) {
                return false;
            }
            i += 1;
        }
        let ghost before = diagnostics_of(diagnostics@);
        let ghost all = self.diagnostics_for(errors_of(errors@));
        assert(before + all.take(0) =~= before);
        let mut i: usize = 0;
        while i < errors.len()
            invariant
                self.env.wf(),
                i <= errors@.len(),
                all == self.diagnostics_for(errors_of(errors@)),
                forall|j: int|
                    0 <= j < errors@.len() ==> self.reportable((#[trigger] errors@[j])@),
                diagnostics_of(diagnostics@) == before + all.take(i as int),
            decreases errors@.len() - i,
        {
            self.add_error(&errors[i], diagnostics);
            assert(before + all.take(i + 1) =~= (before + all.take(i as int)).push(
                all[i as int],
            ));
            i += 1;
        }
        assert(all.take(i as int) =~= all);
        true
    }

    /// The diagnostics that report errors.
    pub open spec fn diagnostics_for(&self, errors: Seq<ErrorView>) -> Seq<DiagnosticView> {
        Seq::new(errors.len(), |i: int| self.diagnostic_for(errors[i]))
    }
}

/// Where repetitions are removed, no regular entry is left that points to the same location as the
/// one before it.
pub proof fn lemma_no_repetitions(steps: Seq<StepView>)
    ensures
        forall|i: int, j: int|
            0 <= i < j < without_repetitions(true, steps).len() && j == i + 1 ==> !repeats(
                true,
                #[trigger] without_repetitions(true, steps)[i],
                #[trigger] without_repetitions(true, steps)[j],
            ),
    decreases steps.len(),
{
    if steps.len() > 0 {
        lemma_no_repetitions(steps.drop_last());
        let kept = without_repetitions(true, steps.drop_last());
        let all = without_repetitions(true, steps);
        assert forall|i: int, j: int| 0 <= i < j < all.len() && j == i + 1 implies !repeats(
            true,
            #[trigger] all[i],
            #[trigger] all[j],
        ) by {
            assert(all[i] == kept[i]);
            if j < kept.len() {
                assert(all[j] == kept[j]);
            }
        }
    }
}

/// Where repetitions are not removed, all entries are kept.
pub proof fn lemma_repetitions_kept(steps: Seq<StepView>)
    ensures
        without_repetitions(false, steps) == steps,
    decreases steps.len(),
{
    if steps.len() > 0 {
        lemma_repetitions_kept(steps.drop_last());
    }
    assert(without_repetitions(false, steps) =~= steps);
}

proof fn lemma_up_to_abort(
    env: GlobalEnv,
    model: Option<ModelView>,
    steps: Seq<StepView>,
    i: int,
)
    requires
        0 <= i,
    ensures
        ({
            let shown = up_to_abort(env, model, steps, i);
            forall|k: int|
                0 <= k < shown.len() ==> {
                    &&& source_position(env, #[trigger] shown[k]) is Some
                    &&& aborts_here(model, shown[k]) ==> k == shown.len() - 1
                        && shown[k].kind is Aborted
                }
        }),
    decreases steps.len() - i,
{
    if i < steps.len() {
        lemma_up_to_abort(env, model, steps, i + 1);
        let shown = up_to_abort(env, model, steps, i);
        let rest = up_to_abort(env, model, steps, i + 1);
        if source_position(env, steps[i]) is Some && !aborts_here(model, steps[i]) {
            assert forall|k: int| 0 <= k < shown.len() implies {
                &&& source_position(env, #[trigger] shown[k]) is Some
                &&& aborts_here(model, shown[k]) ==> k == shown.len() - 1
                    && shown[k].kind is Aborted
            } by {
                if k > 0 {
                    assert(shown[k] == rest[k - 1]);
                }
            }
        }
    }
}

/// The trace of an error that is shown ends where the program aborts, and says so there. All
/// entries that are shown have a position in the source.
pub proof fn lemma_trace_ends_at_abort(wrapper: BoogieWrapper<'_>, error: ErrorView)
    ensures
        ({
            let shown = wrapper.cleaned_trace(error);
            forall|k: int|
                0 <= k < shown.len() ==> {
                    &&& source_position(*wrapper.env, #[trigger] shown[k]) is Some
                    &&& aborts_here(error.model, shown[k]) ==> k == shown.len() - 1
                        && shown[k].kind is Aborted
                }
        }),
{
    lemma_up_to_abort(
        *wrapper.env,
        error.model,
        without_repetitions(
            wrapper.options.minimize_execution_trace,
            wrapper.located_entries(error.trace),
        ),
        0,
    );
}

proof fn lemma_notes_len(
    wrapper: BoogieWrapper<'_>,
    steps: Seq<StepView>,
    i: int,
    on_source: bool,
    model: Option<ModelView>,
    shown: Set<(CodeIndex, LocalDescriptor)>,
)
    requires
        0 <= i <= steps.len(),
    ensures
        wrapper.notes_from(steps, i, on_source, model, shown).len() == steps.len() - i,
    decreases steps.len() - i,
{
    if i < steps.len() {
        let step = steps[i];
        let is_last = i == steps.len() - 1;
        if on_source {
            let module = wrapper.env.modules@[step.module_id as int];
            lemma_notes_len(
                wrapper,
                steps,
                i + 1,
                on_source,
                model,
                locals_at(module, step.loc, model, shown, step.kind, is_last).1,
            );
        } else {
            lemma_notes_len(wrapper, steps, i + 1, on_source, model, shown);
        }
    }
}

/// A verification error is reported with one note for each entry of its trace that is shown, and
/// any other error without notes.
pub proof fn lemma_one_note_each(wrapper: BoogieWrapper<'_>, error: ErrorView)
    ensures
        wrapper.diagnostic_for(error).notes.len() == if error.kind is Compilation {
            0
        } else {
            wrapper.cleaned_trace(error).len()
        },
{
    lemma_notes_len(
        wrapper,
        wrapper.cleaned_trace(error),
        0,
        wrapper.error_location(error) is Some,
        error.model,
        Set::empty(),
    );
}

/// What is reported on the generated program counts as a bug, and nothing else does: an error is
/// reported on the source exactly if it comes from verification and its position has a source.
pub proof fn lemma_bugs(wrapper: BoogieWrapper<'_>, error: ErrorView)
    ensures
        ({
            let diagnostic = wrapper.diagnostic_for(error);
            let source = proper_location(*wrapper.env, wrapper.locations(error.position).1);
            if !(error.kind is Compilation) && source is Some {
                &&& diagnostic.severity is Error
                &&& diagnostic.file_id == (source->0).loc.file_id
                &&& diagnostic.span == (source->0).loc.span
            } else {
                &&& diagnostic.severity is Bug
                &&& diagnostic.file_id == wrapper.boogie_file_id
                &&& diagnostic.span.start == diagnostic.span.end
            }
        }),
{
}

/// At the last entry of a trace, all locals which have been updated anywhere in the function are
/// shown, unless they have been before.
pub proof fn lemma_last_entry_shows_all(
    module: ModuleEnv,
    loc: SourceLoc,
    model: ModelView,
    shown: Set<(CodeIndex, LocalDescriptor)>,
    kind: TraceKind,
)
    ensures
        enclosing_function(module, narrowed(loc, kind).span) matches Some(func) ==> forall|j: int|
            0 <= j < model.locals.len() && in_range(
                (#[trigger] model.locals[j]).index,
                CodeIndex { module_id: func.module_id, byte: func.loc.span.start },
                CodeIndex { module_id: func.module_id, byte: func.loc.span.end },
            ) ==> locals_at(module, loc, Some(model), shown, kind, true).1.contains(
                (model.locals[j].index, model.locals[j].local),
            ),
{
    if let Some(func) = enclosing_function(module, narrowed(loc, kind).span) {
        lemma_relevant_locals(
            model,
            func,
            shown_up_to(func, narrowed(loc, kind), true),
            shown,
        );
    }
}

} // verus!
