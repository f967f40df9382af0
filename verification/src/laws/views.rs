//! Promises about what values and results stand for.
use vstd::prelude::*;

use crate::env::GlobalEnv;
use crate::errors::{BoogieError, errors_of, trace_of};
use crate::model::{bindings_of, LocalDescriptor, Model, tracked_of};
use crate::report::{Diagnostic, diagnostics_of, steps_of, TraceStep};
use crate::text::texts_of;
use crate::value::{lemma_list_view, lemma_mapping_view, ModelValue, Value, ValueMap};

verus! {

/// A value stands for its literal, for its items one by one, or for its entries one by one.
pub proof fn law_values(s: String, items: Vec<ModelValue>, m: ValueMap)
    ensures
        ModelValue::Literal(s)@ == Value::Literal(s@),
        ({
            &&& ModelValue::List(items)@ matches Value::List(values)
            &&& values.len() == items@.len()
            &&& forall|i: int| 0 <= i < values.len() ==> #[trigger] values[i] == items@[i]@
        }),
        ({
            &&& ModelValue::Mapping(m)@ matches Value::Mapping(entries)
            &&& entries.len() == m.entries@.len()
            &&& forall|i: int|
                0 <= i < entries.len() ==> #[trigger] entries[i] == (
                    m.entries@[i].0@,
                    m.entries@[i].1@,
                )
        }),
{
    lemma_list_view(items);
    lemma_mapping_view(m);
}

/// A model stands for its variables and for its locals one by one.
pub proof fn law_models(model: Model, bindings: Seq<(LocalDescriptor, ModelValue)>)
    ensures
        model@.vars == model.vars@,
        model@.locals == tracked_of(model.tracked_locals@),
        model@.locals.len() == model.tracked_locals@.len(),
        forall|i: int|
            0 <= i < model@.locals.len() ==> {
                &&& (#[trigger] model@.locals[i]).index == model.tracked_locals@[i].index
                &&& model@.locals[i].local == model.tracked_locals@[i].local
                &&& model@.locals[i].value == model.tracked_locals@[i].value@
            },
        bindings_of(bindings).len() == bindings.len(),
        forall|i: int|
            0 <= i < bindings.len() ==> #[trigger] bindings_of(bindings)[i] == (
                bindings[i].0,
                bindings[i].1@,
            ),
{
}

/// An error stands for its kind, its position, its message, the entries of its trace one by one,
/// and its model.
pub proof fn law_errors(error: BoogieError, errors: Seq<BoogieError>)
    ensures
        error@.kind == error.kind,
        error@.position == error.position,
        error@.message == error.message@,
        error@.trace == trace_of(error.execution_trace@),
        error@.trace.len() == error.execution_trace@.len(),
        forall|i: int|
            0 <= i < error@.trace.len() ==> {
                &&& (#[trigger] error@.trace[i]).position == error.execution_trace@[i].0
                &&& error@.trace[i].kind == error.execution_trace@[i].1
                &&& error@.trace[i].message == error.execution_trace@[i].2@
            },
        error.model is None ==> error@.model is None,
        error.model matches Some(model) ==> error@.model == Some(model@),
        errors_of(errors).len() == errors.len(),
        forall|i: int| 0 <= i < errors.len() ==> #[trigger] errors_of(errors)[i] == errors[i]@,
{
}

/// An entry that has been located stands for its fields, and entries stand for each of them.
pub proof fn law_steps(steps: Seq<TraceStep>, i: int)
    requires
        0 <= i < steps.len(),
    ensures
        steps_of(steps).len() == steps.len(),
        steps_of(steps)[i].position == steps[i].position,
        steps_of(steps)[i].module_id == steps[i].module_id,
        steps_of(steps)[i].loc == steps[i].loc,
        steps_of(steps)[i].kind == steps[i].kind,
        steps_of(steps)[i].message == steps[i].message@,
{
}

/// A diagnostic stands for its fields, with its notes one by one.
pub proof fn law_diagnostic_fields(diagnostics: Seq<Diagnostic>, i: int)
    requires
        0 <= i < diagnostics.len(),
    ensures
        diagnostics_of(diagnostics).len() == diagnostics.len(),
        diagnostics_of(diagnostics)[i].severity == diagnostics[i].severity,
        diagnostics_of(diagnostics)[i].message == diagnostics[i].message@,
        diagnostics_of(diagnostics)[i].file_id == diagnostics[i].file_id,
        diagnostics_of(diagnostics)[i].span == diagnostics[i].span,
        diagnostics_of(diagnostics)[i].notes.len() == diagnostics[i].notes@.len(),
        forall|k: int|
            0 <= k < diagnostics[i].notes@.len() ==> diagnostics_of(
                diagnostics,
            )[i].notes[k] == (#[trigger] diagnostics[i].notes@[k])@,
{
}

/// Texts stand for each of them.
pub proof fn law_texts(texts: Seq<String>, i: int)
    requires
        0 <= i < texts.len(),
    ensures
        texts_of(texts).len() == texts.len(),
        texts_of(texts)[i] == texts[i]@,
{
}

/// A program is well-formed exactly if the functions of each module can be numbered in 16 bits and
/// belong to it, the locals and results of each can be counted together, and the functions and
/// modules that are named exist.
pub proof fn law_well_formed(env: GlobalEnv)
    ensures
        env.wf() <==> {
            &&& forall|i: int|
                0 <= i < env.modules@.len() ==> {
                    let module = #[trigger] env.modules@[i];
                    &&& module.functions@.len() <= 0x1_0000
                    &&& forall|f: int|
                        0 <= f < module.functions@.len() ==> {
                            &&& (#[trigger] module.functions@[f]).module_id == i
                            &&& module.functions@[f].locals@.len()
                                + module.functions@[f].return_types@.len() <= usize::MAX
                        }
                    &&& forall|k: int|
                        0 <= k < module.enclosing_functions@.len() ==> (
                        #[trigger] module.enclosing_functions@[k]).1 < module.functions@.len()
                }
            &&& forall|k: int|
                0 <= k < env.enclosing_modules@.len() ==> (#[trigger] env.enclosing_modules@[k]).1
                    < env.modules@.len()
        },
{
}

} // verus!
