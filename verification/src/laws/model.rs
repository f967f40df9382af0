//! Promises about models and the locals that they track.
use vstd::prelude::*;
use vstd::utf8::*;

use crate::env::{FunctionEnv, GlobalEnv, Loc};
use crate::extract::number_of;
use crate::model::{
    abort_marker, AbortDescriptor, aborts_from, aborts_of, before, byte_index, CodeIndex, debug_var,
    index_of, lemma_position_after, LocalDescriptor, locals_from, LocalView, model_of, ModelView,
    parsed_model, position_after, relevant_from, relevant_locals, table, tracking,
};
use crate::order::lookup;
use crate::parser::{expected_at, goes_on_with, map_at, past_space};
use crate::text::decimal;
use crate::value::Value;

verus! {

/// A code location comes before another if its module does, or if it stands at an earlier byte of
/// the same module. Of two that differ, one comes before the other, and not the other way round.
pub proof fn law_code_order(a: CodeIndex, b: CodeIndex, c: CodeIndex)
    ensures
        a.module_id < b.module_id ==> before(a, b),
        a.module_id == b.module_id ==> (before(a, b) <==> a.byte < b.byte),
        before(a, b) ==> !before(b, a),
        a != b ==> before(a, b) || before(b, a),
        before(a, b) && before(b, c) ==> before(a, c),
{
}

/// Tells whether a code location lies in a function, in front of the byte `end`.
pub open spec fn lies_in(index: CodeIndex, func: FunctionEnv, end: u32) -> bool {
    index.module_id == func.module_id && func.loc.span.start <= index.byte < end
}

/// Tells whether two locals are the same variable at the same code location.
pub open spec fn same_update(a: LocalView, b: LocalView) -> bool {
    a.index == b.index && a.local == b.local
}

/// Tells whether the local `j` is to be shown in a function up to the byte `end`: it lies there,
/// has not been shown, and no other local in front of it is the same variable at the same code
/// location.
pub open spec fn is_due(
    locals: Seq<LocalView>,
    func: FunctionEnv,
    end: u32,
    shown: Set<(CodeIndex, LocalDescriptor)>,
    j: int,
) -> bool {
    &&& 0 <= j < locals.len()
    &&& lies_in(locals[j].index, func, end)
    &&& !shown.contains((locals[j].index, locals[j].local))
    &&& forall|i: int| 0 <= i < j ==> !same_update(#[trigger] locals[i], locals[j])
}

/// Tells whether `bindings` are the locals that are due, all of them, each with its value, and in
/// order: `picks` are the places where they stand.
pub open spec fn shows_all_due(
    locals: Seq<LocalView>,
    func: FunctionEnv,
    end: u32,
    shown: Set<(CodeIndex, LocalDescriptor)>,
    bindings: Seq<(LocalDescriptor, Value)>,
    picks: Seq<int>,
) -> bool {
    &&& bindings.len() == picks.len()
    &&& forall|k: int|
        0 <= k < picks.len() ==> is_due(locals, func, end, shown, #[trigger] picks[k])
    &&& forall|k: int|
        0 <= k < picks.len() ==> #[trigger] bindings[k] == (
            locals[picks[k]].local,
            locals[picks[k]].value,
        )
    &&& forall|k: int, l: int|
        0 <= k < l < picks.len() ==> #[trigger] picks[k] < #[trigger] picks[l]
    &&& forall|j: int| #[trigger] is_due(locals, func, end, shown, j) ==> picks.contains(j)
}

/// Tells whether `bindings` are the locals that are due, and `all` are the locals that have been
/// shown then: those that had been before, and those in the function up to the byte `end`.
pub open spec fn are_shown(
    locals: Seq<LocalView>,
    func: FunctionEnv,
    end: u32,
    shown: Set<(CodeIndex, LocalDescriptor)>,
    bindings: Seq<(LocalDescriptor, Value)>,
    all: Set<(CodeIndex, LocalDescriptor)>,
) -> bool {
    &&& exists|picks: Seq<int>| #[trigger]
        shows_all_due(locals, func, end, shown, bindings, picks)
    &&& forall|item: (CodeIndex, LocalDescriptor)| #[trigger]
        all.contains(item) <==> shown.contains(item) || exists|j: int|
            0 <= j < locals.len() && lies_in((#[trigger] locals[j]).index, func, end) && item == (
                locals[j].index,
                locals[j].local,
            )
}

spec fn is_due_from(
    locals: Seq<LocalView>,
    func: FunctionEnv,
    end: u32,
    shown: Set<(CodeIndex, LocalDescriptor)>,
    i: int,
    j: int,
) -> bool {
    &&& i <= j < locals.len()
    &&& lies_in(locals[j].index, func, end)
    &&& !shown.contains((locals[j].index, locals[j].local))
    &&& forall|h: int| i <= h < j ==> !same_update(#[trigger] locals[h], locals[j])
}

/// Tells whether a pair has been shown, or belongs to a local from `i` on that lies in a function.
spec fn is_shown_from(
    locals: Seq<LocalView>,
    func: FunctionEnv,
    end: u32,
    shown: Set<(CodeIndex, LocalDescriptor)>,
    i: int,
    item: (CodeIndex, LocalDescriptor),
) -> bool {
    shown.contains(item) || exists|j: int|
        i <= j < locals.len() && lies_in((#[trigger] locals[j]).index, func, end) && item == (
            locals[j].index,
            locals[j].local,
        )
}

#[verifier::spinoff_prover]
proof fn lemma_picks(
    locals: Seq<LocalView>,
    func: FunctionEnv,
    loc: Loc,
    i: int,
    shown: Set<(CodeIndex, LocalDescriptor)>,
) -> (picks: Seq<int>)
    requires
        0 <= i <= locals.len(),
    ensures
        ({
            let from = CodeIndex { module_id: func.module_id, byte: func.loc.span.start };
            let to = CodeIndex { module_id: func.module_id, byte: loc.span.end };
            let (bindings, all) = relevant_from(locals, from, to, i, shown);
            let end = loc.span.end;
            &&& bindings.len() == picks.len()
            &&& forall|k: int|
                0 <= k < picks.len() ==> is_due_from(
                    locals,
                    func,
                    end,
                    shown,
                    i,
                    #[trigger] picks[k],
                )
            &&& forall|k: int|
                0 <= k < picks.len() ==> #[trigger] bindings[k] == (
                    locals[picks[k]].local,
                    locals[picks[k]].value,
                )
            &&& forall|k: int, l: int|
                0 <= k < l < picks.len() ==> #[trigger] picks[k] < #[trigger] picks[l]
            &&& forall|j: int| #[trigger]
                is_due_from(locals, func, end, shown, i, j) ==> picks.contains(j)
            &&& forall|item: (CodeIndex, LocalDescriptor)| #[trigger]
                all.contains(item) <==> is_shown_from(locals, func, end, shown, i, item)
        }),
    decreases locals.len() - i,
{
    let from = CodeIndex { module_id: func.module_id, byte: func.loc.span.start };
    let to = CodeIndex { module_id: func.module_id, byte: loc.span.end };
    let end = loc.span.end;
    let (bindings, all) = relevant_from(locals, from, to, i, shown);
    if i < locals.len() {
        let item = (locals[i].index, locals[i].local);
        assert(lies_in(locals[i].index, func, end) == !(before(locals[i].index, from) || !before(
            locals[i].index,
            to,
        )));
        if !lies_in(locals[i].index, func, end) || shown.contains(item) {
            let picks = lemma_picks(locals, func, loc, i + 1, shown);
            assert(relevant_from(locals, from, to, i + 1, shown) == (bindings, all));
            assert forall|k: int| 0 <= k < picks.len() implies is_due_from(
                locals,
                func,
                end,
                shown,
                i,
                #[trigger] picks[k],
            ) by {
                assert(is_due_from(locals, func, end, shown, i + 1, picks[k]));
            }
            assert forall|j: int| #[trigger]
                is_due_from(locals, func, end, shown, i, j) implies picks.contains(j) by {
                assert(is_due_from(locals, func, end, shown, i + 1, j));
            }
            assert forall|x: (CodeIndex, LocalDescriptor)| #[trigger]
                all.contains(x) <==> is_shown_from(locals, func, end, shown, i, x) by {
                assert(all.contains(x) <==> is_shown_from(locals, func, end, shown, i + 1, x));
            }
            picks
        } else {
            let more = shown.insert(item);
            let (rest, _) = relevant_from(locals, from, to, i + 1, more);
            let later = lemma_picks(locals, func, loc, i + 1, more);
            assert(bindings == seq![(locals[i].local, locals[i].value)] + rest);
            let picks = seq![i] + later;
            assert forall|k: int| 0 <= k < picks.len() implies is_due_from(
                locals,
                func,
                end,
                shown,
                i,
                #[trigger] picks[k],
            ) by {
                if k > 0 {
                    assert(picks[k] == later[k - 1]);
                    assert(is_due_from(locals, func, end, more, i + 1, later[k - 1]));
                }
            }
            assert forall|k: int| 0 <= k < picks.len() implies #[trigger] bindings[k] == (
                locals[picks[k]].local,
                locals[picks[k]].value,
            ) by {
                if k > 0 {
                    assert(bindings[k] == rest[k - 1]);
                }
            }
            assert forall|k: int, l: int| 0 <= k < l < picks.len() implies #[trigger] picks[k]
                < #[trigger] picks[l] by {
                assert(picks[l] == later[l - 1]);
                assert(is_due_from(locals, func, end, more, i + 1, later[l - 1]));
                if k > 0 {
                    assert(picks[k] == later[k - 1]);
                }
            }
            assert forall|j: int| #[trigger]
                is_due_from(locals, func, end, shown, i, j) implies picks.contains(j) by {
                if j == i {
                    assert(picks[0] == j);
                } else {
                    assert(!same_update(locals[i], locals[j]));
                    assert(is_due_from(locals, func, end, more, i + 1, j));
                    let k = choose|k: int| 0 <= k < later.len() && later[k] == j;
                    assert(picks[k + 1] == j);
                }
            }
            assert forall|x: (CodeIndex, LocalDescriptor)| #[trigger]
                all.contains(x) <==> is_shown_from(locals, func, end, shown, i, x) by {
                assert(all.contains(x) <==> is_shown_from(locals, func, end, more, i + 1, x));
                assert(more.contains(x) <==> shown.contains(x) || x == item);
                if x == item {
                    assert(lies_in(locals[i].index, func, end));
                }
            }
            picks
        }
    } else {
        Seq::empty()
    }
}

/// At a location of a function, all locals are shown that were updated from the start of the
/// function up to the end of the location and have not been shown: each once, with its value,
/// whatever that is, and in order. What has been shown then is what had been before, and those.
pub proof fn law_relevant_locals(
    model: ModelView,
    func: FunctionEnv,
    loc: Loc,
    shown: Set<(CodeIndex, LocalDescriptor)>,
)
    ensures
        ({
            let (bindings, all) = relevant_locals(model, func, loc, shown);
            are_shown(model.locals, func, loc.span.end, shown, bindings, all)
        }),
{
    let locals = model.locals;
    let (bindings, all) = relevant_locals(model, func, loc, shown);
    let end = loc.span.end;
    let picks = lemma_picks(locals, func, loc, 0, shown);
    assert forall|j: int|
        #![trigger is_due_from(locals, func, end, shown, 0, j)]
        #![trigger is_due(locals, func, end, shown, j)]
        is_due_from(locals, func, end, shown, 0, j) == is_due(locals, func, end, shown, j) by {}
    assert(shows_all_due(locals, func, end, shown, bindings, picks));
    assert forall|item: (CodeIndex, LocalDescriptor)| #[trigger]
        all.contains(item) <==> shown.contains(item) || exists|j: int|
            0 <= j < locals.len() && lies_in((#[trigger] locals[j]).index, func, end) && item == (
                locals[j].index,
                locals[j].local,
            ) by {
        assert(all.contains(item) <==> is_shown_from(locals, func, end, shown, 0, item));
    }
}

/// A value is an index below `max` exactly if it is a number below `max`; otherwise the message
/// tells what is wrong.
pub proof fn law_index(v: Value, max: nat, n: nat)
    ensures
        index_of(v, max) == Ok::<nat, Seq<char>>(n) <==> number_of(v) == Some(n) && n < max,
        number_of(v) is None ==> index_of(v, max) == Err::<nat, Seq<char>>(
            "invalid debug track info"@,
        ),
        number_of(v) == Some(n) && n >= max ==> index_of(v, max) == Err::<nat, Seq<char>>(
            "invalid debug track info: index out of range (upper bound "@ + decimal(max) + ", got "@
                + decimal(n) + ")"@,
        ),
{
}

/// A code location is counted in 32 bits.
pub proof fn law_byte(n: nat)
    ensures
        n < 0x1_0000_0000 ==> byte_index(n) == n,
        byte_index(n + 0x1_0000_0000) == byte_index(n),
{
}

/// A key tells of a tracked local exactly if it is a list of five: the indices of a module, of a
/// function in it and of a local or result of that, a code location, and the value, which may be
/// any.
pub proof fn law_debug_var(env: GlobalEnv, key: Value, local: LocalView)
    requires
        env.wf(),
    ensures
        debug_var(env, key) == Ok::<LocalView, Seq<char>>(local) <==> {
            &&& key matches Value::List(args)
            &&& args.len() == 5
            &&& number_of(args[0]) == Some(local.local.module_id as nat)
            &&& number_of(args[1]) == Some(local.local.func_id as nat)
            &&& number_of(args[2]) == Some(local.local.var_idx as nat)
            &&& number_of(args[3]) matches Some(code)
            &&& local.value == args[4]
            &&& local.index.module_id == local.local.module_id
            &&& local.index.byte == code % 0x1_0000_0000
            &&& local.local.module_id < env.modules@.len()
            &&& {
                let functions = env.modules@[local.local.module_id as int].functions@;
                &&& local.local.func_id < functions.len()
                &&& local.local.var_idx < functions[local.local.func_id as int].locals@.len()
                    + functions[local.local.func_id as int].return_types@.len()
            }
        },
{
    if let Value::List(args) = key {
        if args.len() == 5 {
            if let Some(module) = number_of(args[0]) {
                if module < env.modules@.len() {
                    assert(env.modules@[module as int].wf());
                    let functions = env.modules@[module as int].functions@;
                    if let Some(function) = number_of(args[1]) {
                        if function < functions.len() {
                            assert(functions[function as int].wf());
                        }
                    }
                }
            }
        }
    }
}

/// A key that tells of no local is rejected for what is wrong with it first: its length, then its
/// module, function, variable and code location.
pub proof fn law_debug_var_rejected(env: GlobalEnv, key: Value)
    ensures
        !(key is List && key->List_0.len() == 5) ==> debug_var(env, key) == Err::<
            LocalView,
            Seq<char>,
        >("invalid debug track info"@),
        key is List && key->List_0.len() == 5 ==> {
            let args = key->List_0;
            let module = index_of(args[0], env.modules@.len());
            let functions = env.modules@[module->Ok_0 as int].functions@;
            let function = index_of(args[1], functions.len());
            let func = functions[function->Ok_0 as int];
            let var = index_of(args[2], func.locals@.len() + func.return_types@.len());
            &&& module matches Err(message) ==> debug_var(env, key) == Err::<LocalView, Seq<char>>(
                message,
            )
            &&& module is Ok && function is Err ==> debug_var(env, key) == Err::<
                LocalView,
                Seq<char>,
            >(function->Err_0)
            &&& module is Ok && function is Ok && var is Err ==> debug_var(env, key) == Err::<
                LocalView,
                Seq<char>,
            >(var->Err_0)
            &&& module is Ok && function is Ok && var is Ok && number_of(args[3]) is None
                ==> debug_var(env, key) == Err::<LocalView, Seq<char>>(
                "invalid debug track info"@,
            )
        },
{
}

/// A key marks an abort exactly if it is a list of three: the indices of a module and of a function
/// in it, and a code location.
pub proof fn law_abort_marker(
    env: GlobalEnv,
    key: Value,
    index: CodeIndex,
    abort: AbortDescriptor,
)
    requires
        env.wf(),
    ensures
        abort_marker(env, key) == Ok::<(CodeIndex, AbortDescriptor), Seq<char>>((index, abort))
            <==> {
            &&& key matches Value::List(args)
            &&& args.len() == 3
            &&& number_of(args[0]) == Some(abort.module_id as nat)
            &&& number_of(args[1]) == Some(abort.func_id as nat)
            &&& number_of(args[2]) matches Some(code)
            &&& index.module_id == abort.module_id
            &&& index.byte == code % 0x1_0000_0000
            &&& abort.module_id < env.modules@.len()
            &&& abort.func_id < env.modules@[abort.module_id as int].functions@.len()
        },
{
    if let Value::List(args) = key {
        if args.len() == 3 {
            if let Some(module) = number_of(args[0]) {
                if module < env.modules@.len() {
                    assert(env.modules@[module as int].wf());
                }
            }
        }
    }
}

/// A key that marks no abort is rejected for what is wrong with it first: its length, then its
/// module, function and code location.
pub proof fn law_abort_marker_rejected(env: GlobalEnv, key: Value)
    ensures
        !(key is List && key->List_0.len() == 3) ==> abort_marker(env, key) == Err::<
            (CodeIndex, AbortDescriptor),
            Seq<char>,
        >("invalid debug track info"@),
        key is List && key->List_0.len() == 3 ==> {
            let args = key->List_0;
            let module = index_of(args[0], env.modules@.len());
            let function = index_of(
                args[1],
                env.modules@[module->Ok_0 as int].functions@.len(),
            );
            &&& module is Err ==> abort_marker(env, key) == Err::<
                (CodeIndex, AbortDescriptor),
                Seq<char>,
            >(module->Err_0)
            &&& module is Ok && function is Err ==> abort_marker(env, key) == Err::<
                (CodeIndex, AbortDescriptor),
                Seq<char>,
            >(function->Err_0)
            &&& module is Ok && function is Ok && number_of(args[2]) is None ==> abort_marker(
                env,
                key,
            ) == Err::<(CodeIndex, AbortDescriptor), Seq<char>>("invalid debug track info"@)
        },
{
}

/// A table is a variable whose value is a mapping.
pub proof fn law_table(
    vars: Seq<(Value, Value)>,
    name: Seq<char>,
    entries: Seq<(Value, Value)>,
)
    ensures
        table(vars, name) == Some(entries) <==> lookup(vars, Value::Literal(name)) == Some(
            Value::Mapping(entries),
        ),
{
}

/// Aborts by code location: the last one at a code location counts.
pub proof fn law_aborts(aborts: Seq<(CodeIndex, AbortDescriptor)>, index: CodeIndex, i: int)
    ensures
        0 <= i < aborts.len() && aborts[i].0 == index && (forall|k: int|
            i < k < aborts.len() ==> (#[trigger] aborts[k]).0 != index) ==> aborts_of(
            aborts,
        ).contains_key(index) && aborts_of(aborts)[index] == aborts[i].1,
        (forall|k: int| 0 <= k < aborts.len() ==> (#[trigger] aborts[k]).0 != index)
            ==> !aborts_of(aborts).contains_key(index),
    decreases aborts.len(),
{
    if aborts.len() > 0 {
        let front = aborts.drop_last();
        law_aborts(front, index, i);
        assert forall|k: int| 0 <= k < front.len() implies #[trigger] front[k] == aborts[k] by {}
        if 0 <= i < aborts.len() && (forall|k: int|
            i < k < aborts.len() ==> (#[trigger] aborts[k]).0 != index) && i < front.len() {
            assert(aborts[aborts.len() - 1].0 != index);
            assert forall|k: int| i < k < front.len() implies (#[trigger] front[k]).0 != index by {
                assert(aborts[k].0 != index);
            }
        }
        if forall|k: int| 0 <= k < aborts.len() ==> (#[trigger] aborts[k]).0 != index {
            assert(aborts[aborts.len() - 1].0 != index);
            assert forall|k: int| 0 <= k < front.len() implies (#[trigger] front[k]).0
                != index by {
                assert(aborts[k].0 != index);
            }
        }
    }
}

/// Tells whether a key of a table of locals tells of something: it is not the default `else`.
pub open spec fn tells_something(entry: (Value, Value)) -> bool {
    entry.0 != Value::Literal("else"@)
}

/// Tells whether all keys in front of `j` of a table of locals are accepted.
pub open spec fn locals_accepted(env: GlobalEnv, entries: Seq<(Value, Value)>, j: int) -> bool {
    forall|k: int|
        0 <= k < j && tells_something(#[trigger] entries[k]) ==> debug_var(env, entries[k].0) is Ok
}

/// Tells whether all keys in front of `j` of a table of aborts are accepted.
pub open spec fn aborts_accepted(env: GlobalEnv, entries: Seq<(Value, Value)>, j: int) -> bool {
    forall|k: int|
        0 <= k < j && tells_something(#[trigger] entries[k]) ==> abort_marker(
            env,
            entries[k].0,
        ) is Ok
}

proof fn lemma_locals_accepted(
    env: GlobalEnv,
    entries: Seq<(Value, Value)>,
    i: int,
    locals: Seq<LocalView>,
    j: int,
)
    requires
        0 <= i <= entries.len(),
        locals_accepted(env, entries, i),
    ensures
        locals_from(env, entries, i, locals) is Ok <==> locals_accepted(
            env,
            entries,
            entries.len() as int,
        ),
        i <= j < entries.len() && tells_something(entries[j]) && debug_var(env, entries[j].0) is Err
            && locals_accepted(env, entries, j) ==> locals_from(env, entries, i, locals) == Err::<
            Seq<LocalView>,
            Seq<char>,
        >(debug_var(env, entries[j].0)->Err_0),
    decreases entries.len() - i,
{
    if i < entries.len() {
        if !tells_something(entries[i]) {
            lemma_locals_accepted(env, entries, i + 1, locals, j);
        } else if let Ok(local) = debug_var(env, entries[i].0) {
            lemma_locals_accepted(env, entries, i + 1, tracking(locals, local), j);
        }
    }
}

proof fn lemma_aborts_accepted(
    env: GlobalEnv,
    entries: Seq<(Value, Value)>,
    i: int,
    aborts: Map<CodeIndex, AbortDescriptor>,
    j: int,
)
    requires
        0 <= i <= entries.len(),
        aborts_accepted(env, entries, i),
    ensures
        aborts_from(env, entries, i, aborts) is Ok <==> aborts_accepted(
            env,
            entries,
            entries.len() as int,
        ),
        i <= j < entries.len() && tells_something(entries[j]) && abort_marker(
            env,
            entries[j].0,
        ) is Err && aborts_accepted(env, entries, j) ==> aborts_from(env, entries, i, aborts)
            == Err::<Map<CodeIndex, AbortDescriptor>, Seq<char>>(
            abort_marker(env, entries[j].0)->Err_0,
        ),
    decreases entries.len() - i,
{
    if i < entries.len() {
        if !tells_something(entries[i]) {
            lemma_aborts_accepted(env, entries, i + 1, aborts, j);
        } else if let Ok((index, abort)) = abort_marker(env, entries[i].0) {
            lemma_aborts_accepted(env, entries, i + 1, aborts.insert(index, abort), j);
        }
    }
}

/// Tells whether the local `k` stands in front of the local `l`: by code location, and at one code
/// location by the keys that tell of them.
pub open spec fn in_key_order(locals: Seq<LocalView>, keys: Seq<int>, k: int, l: int) -> bool {
    before(locals[k].index, locals[l].index) || (locals[k].index == locals[l].index && keys[k]
        < keys[l])
}

/// Tells whether `locals` are those that the keys of a table tell of: the local `k` is that of the
/// key `keys[k]`, and each key but `else` has its local. They stand by code location, and those at
/// one code location in the order of their keys.
pub open spec fn are_told(
    env: GlobalEnv,
    entries: Seq<(Value, Value)>,
    locals: Seq<LocalView>,
    keys: Seq<int>,
) -> bool {
    &&& keys.len() == locals.len()
    &&& forall|k: int|
        0 <= k < keys.len() ==> {
            &&& 0 <= #[trigger] keys[k] < entries.len()
            &&& tells_something(entries[keys[k]])
            &&& debug_var(env, entries[keys[k]].0) == Ok::<LocalView, Seq<char>>(locals[k])
        }
    &&& forall|k: int, l: int|
        0 <= k < l < keys.len() ==> #[trigger] in_key_order(locals, keys, k, l)
    &&& forall|j: int|
        0 <= j < entries.len() && tells_something(#[trigger] entries[j]) ==> keys.contains(j)
}

/// What the key `j` of a table tells of.
spec fn told_by(env: GlobalEnv, entries: Seq<(Value, Value)>, j: int) -> Option<LocalView> {
    if tells_something(entries[j]) {
        match debug_var(env, entries[j].0) {
            Ok(local) => Some(local),
            Err(_) => None,
        }
    } else {
        None
    }
}

/// Tells whether `locals` are those that the first `n` keys tell of, where the key `j` tells of
/// `told[j]`.
spec fn are_first_told(
    told: Seq<Option<LocalView>>,
    n: int,
    locals: Seq<LocalView>,
    keys: Seq<int>,
) -> bool {
    &&& keys.len() == locals.len()
    &&& forall|k: int|
        0 <= k < keys.len() ==> 0 <= #[trigger] keys[k] < n && told[keys[k]] == Some(locals[k])
    &&& forall|k: int, l: int|
        0 <= k < l < keys.len() ==> #[trigger] in_key_order(locals, keys, k, l)
    &&& forall|j: int| 0 <= j < n && #[trigger] told[j] is Some ==> keys.contains(j)
}

#[verifier::spinoff_prover]
proof fn lemma_one_more_told(
    told: Seq<Option<LocalView>>,
    i: int,
    locals: Seq<LocalView>,
    keys: Seq<int>,
    local: LocalView,
)
    requires
        0 <= i < told.len(),
        are_first_told(told, i, locals, keys),
        told[i] == Some(local),
    ensures
        are_first_told(
            told,
            i + 1,
            tracking(locals, local),
            keys.insert(position_after(locals, local.index, 0), i),
        ),
{
    lemma_position_after(locals, local.index, 0);
    let p = position_after(locals, local.index, 0);
    let after = tracking(locals, local);
    let all = keys.insert(p, i);
    assert forall|k: int| 0 <= k < all.len() implies 0 <= #[trigger] all[k] < i + 1 && told[all[k]]
        == Some(after[k]) by {
        if k < p {
            assert(all[k] == keys[k]);
            assert(after[k] == locals[k]);
        } else if k > p {
            assert(all[k] == keys[k - 1]);
            assert(after[k] == locals[k - 1]);
        }
    }
    assert forall|k: int, l: int| 0 <= k < l < all.len() implies #[trigger] in_key_order(
        after,
        all,
        k,
        l,
    ) by {
        let a = if k < p {
            k
        } else {
            k - 1
        };
        let b = if l < p {
            l
        } else {
            l - 1
        };
        if k != p {
            assert(all[k] == keys[a]);
            assert(after[k] == locals[a]);
        }
        if l != p {
            assert(all[l] == keys[b]);
            assert(after[l] == locals[b]);
        }
        if k == p {
            assert(before(local.index, locals[p].index));
            if b > p {
                assert(in_key_order(locals, keys, p, b));
            }
        } else if l == p {
            assert(!before(local.index, locals[a].index));
            assert(keys[a] < i);
        } else {
            assert(in_key_order(locals, keys, a, b));
        }
    }
    assert forall|j: int| 0 <= j < i + 1 && #[trigger] told[j] is Some implies all.contains(j) by {
        if j == i {
            assert(all[p] == j);
        } else {
            let k = choose|k: int| 0 <= k < keys.len() && keys[k] == j;
            if k < p {
                assert(all[k] == j);
            } else {
                assert(all[k + 1] == j);
            }
        }
    }
}

proof fn lemma_locals_told(
    env: GlobalEnv,
    entries: Seq<(Value, Value)>,
    told: Seq<Option<LocalView>>,
    i: int,
    locals: Seq<LocalView>,
    keys: Seq<int>,
) -> (all: Seq<int>)
    requires
        0 <= i <= entries.len(),
        told.len() == entries.len(),
        forall|j: int| 0 <= j < told.len() ==> #[trigger] told[j] == told_by(env, entries, j),
        are_first_told(told, i, locals, keys),
    ensures
        locals_from(env, entries, i, locals) matches Ok(found) ==> are_first_told(
            told,
            entries.len() as int,
            found,
            all,
        ),
    decreases entries.len() - i,
{
    if i < entries.len() {
        assert(told[i] == told_by(env, entries, i));
        match told[i] {
            None => {
                if tells_something(entries[i]) {
                    keys
                } else {
                    assert(are_first_told(told, i + 1, locals, keys));
                    lemma_locals_told(env, entries, told, i + 1, locals, keys)
                }
            },
            Some(local) => {
                lemma_one_more_told(told, i, locals, keys, local);
                lemma_locals_told(
                    env,
                    entries,
                    told,
                    i + 1,
                    tracking(locals, local),
                    keys.insert(position_after(locals, local.index, 0), i),
                )
            },
        }
    } else {
        keys
    }
}

/// A model tracks one local for each key but `else` of its table of locals, whatever its value is,
/// and no others. They stand by code location, and those at one code location in the order of their
/// keys.
pub proof fn law_locals_told(env: GlobalEnv, vars: Seq<(Value, Value)>)
    ensures
        model_of(env, vars) matches Ok(model) ==> {
            &&& lookup(vars, Value::Literal("$DebugTrackLocal"@)) matches Some(
                Value::Mapping(entries),
            )
            &&& exists|keys: Seq<int>| #[trigger]
                are_told(env, entries, model.locals, keys)
        },
{
    if let Ok(model) = model_of(env, vars) {
        let entries = table(vars, "$DebugTrackLocal"@)->0;
        let told = Seq::new(entries.len(), |j: int| told_by(env, entries, j));
        let keys = lemma_locals_told(env, entries, told, 0, Seq::empty(), Seq::empty());
        lemma_locals_accepted(env, entries, 0, Seq::empty(), 0);
        assert forall|j: int| 0 <= j < entries.len() && tells_something(
            #[trigger] entries[j],
        ) implies keys.contains(j) by {
            assert(told[j] is Some);
        }
        assert forall|k: int| 0 <= k < keys.len() implies {
            &&& 0 <= #[trigger] keys[k] < entries.len()
            &&& tells_something(entries[keys[k]])
            &&& debug_var(env, entries[keys[k]].0) == Ok::<LocalView, Seq<char>>(model.locals[k])
        } by {
            assert(told[keys[k]] == told_by(env, entries, keys[k]));
        }
        assert(are_told(env, entries, model.locals, keys));
    }
}

/// Tells whether the key `j` of a table of aborts marks one at a code location.
pub open spec fn marks_at(
    env: GlobalEnv,
    entries: Seq<(Value, Value)>,
    j: int,
    index: CodeIndex,
) -> bool {
    &&& 0 <= j < entries.len()
    &&& abort_marker(env, entries[j].0) matches Ok((place, _))
    &&& place == index
}

proof fn lemma_aborts_told(
    env: GlobalEnv,
    entries: Seq<(Value, Value)>,
    i: int,
    aborts: Map<CodeIndex, AbortDescriptor>,
    index: CodeIndex,
    j: int,
)
    requires
        0 <= i <= entries.len(),
    ensures
        aborts_from(env, entries, i, aborts) matches Ok(all) ==> {
            &&& i <= j && marks_at(env, entries, j, index) && (forall|k: int|
                j < k < entries.len() ==> !#[trigger] marks_at(env, entries, k, index))
                ==> all.contains_key(index) && abort_marker(env, entries[j].0) == Ok::<
                (CodeIndex, AbortDescriptor),
                Seq<char>,
            >((index, all[index]))
            &&& (forall|k: int|
                i <= k < entries.len() ==> !#[trigger] marks_at(env, entries, k, index)) ==> (
            all.contains_key(index) <==> aborts.contains_key(index)) && all[index] == aborts[index]
        },
    decreases entries.len() - i,
{
    if i < entries.len() {
        if !tells_something(entries[i]) {
            lemma_aborts_told(env, entries, i + 1, aborts, index, j);
            assert(!marks_at(env, entries, i, index));
        } else if let Ok((place, abort)) = abort_marker(env, entries[i].0) {
            lemma_aborts_told(env, entries, i + 1, aborts.insert(place, abort), index, j);
            assert(marks_at(env, entries, i, index) <==> place == index);
        }
    }
}

/// A model tracks an abort where a key of its table of aborts marks one: that of the last such key.
/// It tracks none elsewhere.
pub proof fn law_aborts_told(env: GlobalEnv, vars: Seq<(Value, Value)>, index: CodeIndex, j: int)
    ensures
        model_of(env, vars) matches Ok(model) ==> {
            &&& lookup(vars, Value::Literal("$DebugTrackAbort"@)) matches Some(
                Value::Mapping(entries),
            )
            &&& marks_at(env, entries, j, index) && (forall|k: int|
                j < k < entries.len() ==> !#[trigger] marks_at(env, entries, k, index))
                ==> model.aborts.contains_key(index) && abort_marker(env, entries[j].0) == Ok::<
                (CodeIndex, AbortDescriptor),
                Seq<char>,
            >((index, model.aborts[index]))
            &&& (forall|k: int|
                0 <= k < entries.len() ==> !#[trigger] marks_at(env, entries, k, index))
                ==> !model.aborts.contains_key(index)
        },
{
    if let Ok(model) = model_of(env, vars) {
        let entries = table(vars, "$DebugTrackAbort"@)->0;
        lemma_aborts_told(env, entries, 0, Map::empty(), index, j);
    }
}

/// The tables of locals and of aborts that a model has.
pub open spec fn has_tables(
    vars: Seq<(Value, Value)>,
    locals: Seq<(Value, Value)>,
    aborts: Seq<(Value, Value)>,
) -> bool {
    &&& lookup(vars, Value::Literal("$DebugTrackLocal"@)) == Some(Value::Mapping(locals))
    &&& lookup(vars, Value::Literal("$DebugTrackAbort"@)) == Some(Value::Mapping(aborts))
}

/// Variables make a model exactly if there are tables of locals and of aborts among them, all of
/// whose keys but `else` are accepted. The model keeps them all.
pub proof fn law_model_accepted(
    env: GlobalEnv,
    vars: Seq<(Value, Value)>,
    locals: Seq<(Value, Value)>,
    aborts: Seq<(Value, Value)>,
)
    ensures
        has_tables(vars, locals, aborts) ==> (model_of(env, vars) is Ok <==> locals_accepted(
            env,
            locals,
            locals.len() as int,
        ) && aborts_accepted(env, aborts, aborts.len() as int)),
        model_of(env, vars) matches Ok(model) ==> {
            &&& model.vars == vars
            &&& has_tables(
                vars,
                table(vars, "$DebugTrackLocal"@)->0,
                table(vars, "$DebugTrackAbort"@)->0,
            )
        },
{
    if has_tables(vars, locals, aborts) {
        lemma_locals_accepted(env, locals, 0, Seq::empty(), 0);
        lemma_aborts_accepted(env, aborts, 0, Map::empty(), 0);
    }
}

/// Variables that make no model are rejected for what is wrong first: a missing table of locals,
/// the first key of it that is not accepted, a missing table of aborts, and the first key of that.
pub proof fn law_model_rejected(
    env: GlobalEnv,
    vars: Seq<(Value, Value)>,
    locals: Seq<(Value, Value)>,
    aborts: Seq<(Value, Value)>,
    j: int,
)
    ensures
        ({
            let first = lookup(vars, Value::Literal("$DebugTrackLocal"@));
            let second = lookup(vars, Value::Literal("$DebugTrackAbort"@));
            let all = locals.len() as int;
            &&& !(first is Some && first->0 is Mapping) ==> model_of(env, vars) == Err::<
                ModelView,
                Seq<char>,
            >("invalid debug track info"@)
            &&& first == Some(Value::Mapping(locals)) && 0 <= j < locals.len() && tells_something(
                locals[j],
            ) && debug_var(env, locals[j].0) is Err && locals_accepted(env, locals, j) ==> model_of(
                env,
                vars,
            ) == Err::<ModelView, Seq<char>>(debug_var(env, locals[j].0)->Err_0)
            &&& first == Some(Value::Mapping(locals)) && locals_accepted(env, locals, all) && !(
            second is Some && second->0 is Mapping) ==> model_of(env, vars) == Err::<
                ModelView,
                Seq<char>,
            >("invalid debug track info"@)
            &&& has_tables(vars, locals, aborts) && locals_accepted(env, locals, all) && 0 <= j
                < aborts.len() && tells_something(aborts[j]) && abort_marker(
                env,
                aborts[j].0,
            ) is Err && aborts_accepted(env, aborts, j) ==> model_of(env, vars) == Err::<
                ModelView,
                Seq<char>,
            >(abort_marker(env, aborts[j].0)->Err_0)
        }),
{
    lemma_locals_accepted(env, locals, 0, Seq::empty(), j);
    lemma_aborts_accepted(env, aborts, 0, Map::empty(), j);
}

/// The text of a model is read as variables, behind which the end marker stands. What the variables
/// make is what comes of it, and a text whose variables cannot be read is rejected for that.
pub proof fn law_parsed_model(
    env: GlobalEnv,
    text: Seq<char>,
    vars: Seq<(Value, Value)>,
    message: Seq<char>,
    next: int,
)
    ensures
        ({
            let bytes = encode_utf8(text);
            let read = map_at(bytes, 0, Seq::empty());
            &&& read == Some((Ok::<Seq<(Value, Value)>, Seq<char>>(vars), next)) && goes_on_with(
                bytes,
                past_space(bytes, next),
                "*** END_MODEL"@,
            ) ==> parsed_model(env, text) == Some(model_of(env, vars))
            &&& read == Some((Ok::<Seq<(Value, Value)>, Seq<char>>(vars), next)) && !goes_on_with(
                bytes,
                past_space(bytes, next),
                "*** END_MODEL"@,
            ) ==> !(parsed_model(env, text) matches Some(Ok(_)))
            &&& read == Some((Ok::<Seq<(Value, Value)>, Seq<char>>(vars), next)) && expected_at(
                bytes,
                next,
                "*** END_MODEL"@,
            ) == Some((Err::<(), Seq<char>>(message), past_space(bytes, next))) ==> parsed_model(
                env,
                text,
            ) == Some(Err::<ModelView, Seq<char>>(message))
            &&& read == Some((Err::<Seq<(Value, Value)>, Seq<char>>(message), next))
                ==> parsed_model(env, text) == Some(Err::<ModelView, Seq<char>>(message))
            &&& read is None ==> parsed_model(env, text) is None
        }),
{
}

} // verus!
