//! Boogie models, with the values of locals and the aborts that they track.
use vstd::prelude::*;
use vstd::utf8::*;

use crate::env::{FunId, FunctionEnv, GlobalEnv, Loc, ModuleId};
use crate::extract::{args_of, entries_of, error_value, number_of};
use crate::order::{lemma_lookup_from, lookup, Rank, rank, sorted};
use crate::parser::{
    expected_at, goes_on_with, lemma_parsed_ordered, map_at, MODEL_END_MARKER, ModelParseError,
    ModelParser, ordered, past_space,
};
use crate::text::{decimal, decimal_text};
use crate::value::{ModelValue, Value, ValueMap, lemma_list_view, values_of};

verus! {

/// A type to uniquely describe a code location -- consisting of a module index and the byte index
/// into that modules code.
#[derive(Debug, Clone, Copy, PartialEq, Eq, Structural)]
pub struct CodeIndex {
    pub module_id: ModuleId,
    pub byte: u32,
}

/// Represents a descriptor for a tracked local.
#[derive(Debug, Clone, Copy, PartialEq, Eq, Structural)]
pub struct LocalDescriptor {
    pub module_id: ModuleId,
    pub func_id: FunId,
    pub var_idx: usize,
}

/// Represents an abort descriptor.
#[derive(Debug, Clone, Copy, PartialEq, Eq, Structural)]
pub struct AbortDescriptor {
    pub module_id: ModuleId,
    pub func_id: FunId,
}

/// The value of a local at a code location.
#[derive(Debug)]
pub struct TrackedLocal {
    pub index: CodeIndex,
    pub local: LocalDescriptor,
    pub value: ModelValue,
}

/// Represents a boogie model: the values of its variables, the tracked values of locals by
/// increasing code location, and the tracked aborts, of which a later one overrides an earlier one
/// at its code location.
#[derive(Debug)]
pub struct Model {
    pub vars: ValueMap,
    pub tracked_locals: Vec<TrackedLocal>,
    pub tracked_aborts: Vec<(CodeIndex, AbortDescriptor)>,
}

/// What a tracked local stands for.
pub struct LocalView {
    pub index: CodeIndex,
    pub local: LocalDescriptor,
    pub value: Value,
}

/// What a model stands for.
pub struct ModelView {
    pub vars: Seq<(Value, Value)>,
    pub locals: Seq<LocalView>,
    pub aborts: Map<CodeIndex, AbortDescriptor>,
}

impl View for TrackedLocal {
    type V = LocalView;

    open spec fn view(&self) -> LocalView {
        LocalView { index: self.index, local: self.local, value: self.value@ }
    }
}

/// What tracked locals stand for.
pub open spec fn tracked_of(locals: Seq<TrackedLocal>) -> Seq<LocalView> {
    Seq::new(locals.len(), |i: int| locals[i]@)
}

/// The aborts by code location.
pub open spec fn aborts_of(aborts: Seq<(CodeIndex, AbortDescriptor)>) -> Map<
    CodeIndex,
    AbortDescriptor,
>
    decreases aborts.len(),
{
    if aborts.len() == 0 {
        Map::empty()
    } else {
        aborts_of(aborts.drop_last()).insert(aborts.last().0, aborts.last().1)
    }
}

impl View for Model {
    type V = ModelView;

    open spec fn view(&self) -> ModelView {
        ModelView {
            vars: self.vars@,
            locals: tracked_of(self.tracked_locals@),
            aborts: aborts_of(self.tracked_aborts@),
        }
    }
}

/// Tells whether one code location comes before another.
pub open spec fn before(a: CodeIndex, b: CodeIndex) -> bool {
    a.module_id < b.module_id || (a.module_id == b.module_id && a.byte < b.byte)
}

/// The first position from `i` on that is after the code location `index`.
pub open spec fn position_after(locals: Seq<LocalView>, index: CodeIndex, i: int) -> int
    decreases locals.len() - i,
{
    if 0 <= i < locals.len() && !before(index, locals[i].index) {
        position_after(locals, index, i + 1)
    } else {
        i
    }
}

/// The tracked locals with one more, which follows those at its code location.
pub open spec fn tracking(locals: Seq<LocalView>, local: LocalView) -> Seq<LocalView> {
    locals.insert(position_after(locals, local.index, 0), local)
}

/// The message that tracked information is not as it should be.
pub open spec fn invalid_info() -> Seq<char> {
    "invalid debug track info"@
}

/// The message that an index is too large.
pub open spec fn out_of_range(max: nat, index: nat) -> Seq<char> {
    "invalid debug track info: index out of range (upper bound "@ + decimal(max) + ", got "@
        + decimal(index) + ")"@
}

/// The index below `max` that a value stands for.
pub open spec fn index_of(v: Value, max: nat) -> Result<nat, Seq<char>> {
    match number_of(v) {
        None => Err(invalid_info()),
        Some(n) => if n < max {
            Ok(n)
        } else {
            Err(out_of_range(max, n))
        },
    }
}

/// A code location as far as it can be counted: in 32 bits.
pub open spec fn byte_index(n: nat) -> u32 {
    (n % 0x1_0000_0000) as u32
}

/// The tracked local that a key `(module function variable position value)` tells of.
pub open spec fn debug_var(env: GlobalEnv, key: Value) -> Result<LocalView, Seq<char>> {
    match key {
        Value::List(args) => if args.len() != 5 {
            Err(invalid_info())
        } else {
            match index_of(args[0], env.modules@.len()) {
                Err(message) => Err(message),
                Ok(module) => {
                    let functions = env.modules@[module as int].functions@;
                    match index_of(args[1], functions.len()) {
                        Err(message) => Err(message),
                        Ok(function) => {
                            let func = functions[function as int];
                            match index_of(
                                args[2],
                                func.locals@.len() + func.return_types@.len(),
                            ) {
                                Err(message) => Err(message),
                                Ok(var) => match number_of(args[3]) {
                                    None => Err(invalid_info()),
                                    Some(code) => Ok(
                                        LocalView {
                                            index: CodeIndex {
                                                module_id: module as usize,
                                                byte: byte_index(code),
                                            },
                                            local: LocalDescriptor {
                                                module_id: module as usize,
                                                func_id: function as u16,
                                                var_idx: var as usize,
                                            },
                                            value: args[4],
                                        },
                                    ),
                                },
                            }
                        },
                    }
                },
            }
        },
        _ => Err(invalid_info()),
    }
}

/// The tracked abort that a key `(module function position)` tells of.
pub open spec fn abort_marker(env: GlobalEnv, key: Value) -> Result<
    (CodeIndex, AbortDescriptor),
    Seq<char>,
> {
    match key {
        Value::List(args) => if args.len() != 3 {
            Err(invalid_info())
        } else {
            match index_of(args[0], env.modules@.len()) {
                Err(message) => Err(message),
                Ok(module) => {
                    let functions = env.modules@[module as int].functions@;
                    match index_of(args[1], functions.len()) {
                        Err(message) => Err(message),
                        Ok(function) => match number_of(args[2]) {
                            None => Err(invalid_info()),
                            Some(code) => Ok(
                                (
                                    CodeIndex {
                                        module_id: module as usize,
                                        byte: byte_index(code),
                                    },
                                    AbortDescriptor {
                                        module_id: module as usize,
                                        func_id: function as u16,
                                    },
                                ),
                            ),
                        },
                    }
                },
            }
        },
        _ => Err(invalid_info()),
    }
}

/// The tracked locals once those that the keys from `i` on tell of are added to `locals`. The
/// default entry `else` tells of none.
pub open spec fn locals_from(
    env: GlobalEnv,
    entries: Seq<(Value, Value)>,
    i: int,
    locals: Seq<LocalView>,
) -> Result<Seq<LocalView>, Seq<char>>
    decreases entries.len() - i,
{
    if 0 <= i < entries.len() {
        if entries[i].0 == Value::Literal("else"@) {
            locals_from(env, entries, i + 1, locals)
        } else {
            match debug_var(env, entries[i].0) {
                Err(message) => Err(message),
                Ok(local) => locals_from(env, entries, i + 1, tracking(locals, local)),
            }
        }
    } else {
        Ok(locals)
    }
}

/// The tracked aborts once those that the keys from `i` on tell of are added to `aborts`.
pub open spec fn aborts_from(
    env: GlobalEnv,
    entries: Seq<(Value, Value)>,
    i: int,
    aborts: Map<CodeIndex, AbortDescriptor>,
) -> Result<Map<CodeIndex, AbortDescriptor>, Seq<char>>
    decreases entries.len() - i,
{
    if 0 <= i < entries.len() {
        if entries[i].0 == Value::Literal("else"@) {
            aborts_from(env, entries, i + 1, aborts)
        } else {
            match abort_marker(env, entries[i].0) {
                Err(message) => Err(message),
                Ok((index, abort)) => aborts_from(env, entries, i + 1, aborts.insert(index, abort)),
            }
        }
    } else {
        Ok(aborts)
    }
}

/// The mapping that the variable `name` is mapped to.
pub open spec fn table(vars: Seq<(Value, Value)>, name: Seq<char>) -> Option<Seq<(Value, Value)>> {
    match lookup(vars, Value::Literal(name)) {
        Some(v) => entries_of(v),
        None => None,
    }
}

/// The model whose variables have the given values.
pub open spec fn model_of(env: GlobalEnv, vars: Seq<(Value, Value)>) -> Result<
    ModelView,
    Seq<char>,
> {
    match table(vars, "$DebugTrackLocal"@) {
        None => Err(invalid_info()),
        Some(tracked_locals) => match locals_from(env, tracked_locals, 0, Seq::empty()) {
            Err(message) => Err(message),
            Ok(locals) => match table(vars, "$DebugTrackAbort"@) {
                None => Err(invalid_info()),
                Some(tracked_aborts) => match aborts_from(env, tracked_aborts, 0, Map::empty()) {
                    Err(message) => Err(message),
                    Ok(aborts) => Ok(ModelView { vars, locals, aborts }),
                },
            },
        },
    }
}

/// What comes of parsing a model. Nothing comes of it where its entries do not get to an end.
pub open spec fn parsed_model(env: GlobalEnv, text: Seq<char>) -> Option<
    Result<ModelView, Seq<char>>,
> {
    match map_at(encode_utf8(text), 0, Seq::empty()) {
        None => None,
        Some((Err(message), _)) => Some(Err(message)),
        Some((Ok(vars), next)) => match expected_at(encode_utf8(text), next, MODEL_END_MARKER@) {
            None => None,
            Some((Err(message), _)) => Some(Err(message)),
            Some((Ok(()), _)) => Some(model_of(env, vars)),
        },
    }
}

impl Model {
    /// The error that tracked information is not as it should be.
    pub fn invalid_track_info() -> (res: ModelParseError)
        ensures
            res@ == invalid_info(),
    {
        ModelParseError::new("invalid debug track info")
    }

    /// Checks that an index is below `max`.
    pub fn index_range_check(max: usize, idx: usize) -> (res: Result<usize, ModelParseError>)
        ensures
            match res {
                Ok(n) => idx < max && n == idx,
                Err(error) => idx >= max && error@ == out_of_range(max as nat, idx as nat),
            },
    {
        if idx < max {
            Ok(idx)
        } else {
            let mut message =
                "invalid debug track info: index out of range (upper bound ".to_string();
            message.append(decimal_text(max).as_str());
            message.append(", got ");
            message.append(decimal_text(idx).as_str());
            message.append(")");
            Err(ModelParseError(message))
        }
    }

    /// Extracts an index below `max`.
    fn extract_index(value: &ModelValue, max: usize) -> (res: Result<usize, ModelParseError>)
        ensures
            index_of(value@, max as nat) == match res {
                Ok(n) => Ok(n as nat),
                Err(error) => Err(error@),
            },
            res matches Ok(n) ==> n < max,
    {
        match value.extract_number() {
            None => Err(Self::invalid_track_info()),
            Some(idx) => Self::index_range_check(max, idx),
        }
    }

    /// Extracts a code location.
    fn extract_byte(value: &ModelValue) -> (res: Result<u32, ModelParseError>)
        ensures
            match res {
                Ok(byte) => number_of(value@) is Some && byte == byte_index(number_of(value@)->0),
                Err(error) => number_of(value@) is None && error@ == invalid_info(),
            },
    {
        match value.extract_number() {
            None => Err(Self::invalid_track_info()),
            Some(code) => {
                let wide: u64 = code as u64;
                assert(wide as u32 == wide % 0x1_0000_0000) by (bit_vector);
                let byte: u32 = #[verifier::truncate]
                (wide as u32);
                Ok(byte)
            },
        }
    }

    /// Extract and validate a tracked local from $DebugTrackLocal map.
    pub fn extract_debug_var(env: &GlobalEnv, map_entry: &ModelValue) -> (res: Result<
        TrackedLocal,
        ModelParseError,
    >)
        requires
            env.wf(),
        ensures
            debug_var(*env, map_entry@) == match res {
                Ok(local) => Ok(local@),
                Err(error) => Err(error@),
            },
    {
        if let ModelValue::List(args) = map_entry {
            proof {
                lemma_list_view(*args);
            }
            if args.len() != 5 {
                return Err(Self::invalid_track_info());
            }
            let module_idx = match Self::extract_index(&args[0], env.get_module_count()) {
                Ok(idx) => idx,
                Err(error) => {
                    return Err(error);
                },
            };
            let module_env = &env.modules[module_idx];
            let func_idx = match Self::extract_index(&args[1], module_env.get_function_count()) {
                Ok(idx) => idx,
                Err(error) => {
                    return Err(error);
                },
            };
            let func_env = &module_env.functions[func_idx];
            let var_idx = match Self::extract_index(
                &args[2],
                func_env.get_local_count() + func_env.get_return_count(),
            ) {
                Ok(idx) => idx,
                Err(error) => {
                    return Err(error);
                },
            };
            let byte = match Self::extract_byte(&args[3]) {
                Ok(byte) => byte,
                Err(error) => {
                    return Err(error);
                },
            };
            Ok(
                TrackedLocal {
                    index: CodeIndex { module_id: module_idx, byte },
                    local: LocalDescriptor {
                        module_id: module_idx,
                        func_id: func_idx as u16,
                        var_idx,
                    },
                    value: args[4].clone(),
                },
            )
        } else {
            Err(Self::invalid_track_info())
        }
    }

    /// Extract and validate a tracked abort from $DebugTrackAbort map.
    pub fn extract_abort_marker(env: &GlobalEnv, map_entry: &ModelValue) -> (res: Result<
        (CodeIndex, AbortDescriptor),
        ModelParseError,
    >)
        requires
            env.wf(),
        ensures
            abort_marker(*env, map_entry@) == match res {
                Ok(abort) => Ok(abort),
                Err(error) => Err(error@),
            },
    {
        if let ModelValue::List(args) = map_entry {
            proof {
                lemma_list_view(*args);
            }
            if args.len() != 3 {
                return Err(Self::invalid_track_info());
            }
            let module_idx = match Self::extract_index(&args[0], env.get_module_count()) {
                Ok(idx) => idx,
                Err(error) => {
                    return Err(error);
                },
            };
            let module_env = &env.modules[module_idx];
            let func_idx = match Self::extract_index(&args[1], module_env.get_function_count()) {
                Ok(idx) => idx,
                Err(error) => {
                    return Err(error);
                },
            };
            let byte = match Self::extract_byte(&args[2]) {
                Ok(byte) => byte,
                Err(error) => {
                    return Err(error);
                },
            };
            Ok(
                (
                    CodeIndex { module_id: module_idx, byte },
                    AbortDescriptor { module_id: module_idx, func_id: func_idx as u16 },
                ),
            )
        } else {
            Err(Self::invalid_track_info())
        }
    }

    /// Adds a tracked local behind those at its code location.
    fn track(locals: &mut Vec<TrackedLocal>, local: TrackedLocal)
        ensures
            tracked_of(final(locals)@) == tracking(tracked_of(old(locals)@), local@),
    {
        let ghost known = tracked_of(locals@);
        let mut i: usize = 0;
        while i < locals.len() && !local.index.is_before(&locals[i].index)
            invariant
                i <= locals@.len(),
                locals@ == old(locals)@,
                known == tracked_of(locals@),
                position_after(known, local.index, 0) == position_after(
                    known,
                    local.index,
                    i as int,
                ),
            decreases locals@.len() - i,
        {
            i += 1;
        }
        locals.insert(i, local);
        assert(tracked_of(locals@) =~= tracking(known, local@));
    }

    /// Finds the mapping that the variable `name` is mapped to.
    fn find_table<'m>(vars: &'m ValueMap, name: &str) -> (res: Option<&'m ValueMap>)
        ensures
            table(vars@, name@) == match res {
                Some(m) => Some(m@),
                None => None,
            },
    {
        match vars.get(&ModelValue::literal(name)) {
            Some(value) => value.extract_map(),
            None => None,
        }
    }

    /// Collects the tracked locals.
    fn extract_locals(env: &GlobalEnv, map: &ValueMap) -> (res: Result<
        Vec<TrackedLocal>,
        ModelParseError,
    >)
        requires
            env.wf(),
        ensures
            locals_from(*env, map@, 0, Seq::empty()) == match res {
                Ok(locals) => Ok(tracked_of(locals@)),
                Err(error) => Err(error@),
            },
    {
        let mut locals: Vec<TrackedLocal> = Vec::new();
        assert(tracked_of(locals@) =~= Seq::<LocalView>::empty());
        let mut i: usize = 0;
        while i < map.entries.len()
            invariant
                env.wf(),
                i <= map.entries@.len(),
                locals_from(*env, map@, 0, Seq::empty()) == locals_from(
                    *env,
                    map@,
                    i as int,
                    tracked_of(locals@),
                ),
            decreases map.entries@.len() - i,
        {
            let key = &map.entries[i].0;
            assert(map@[i as int].0 == key@);
            if !key.is_literal("else") {
                match Self::extract_debug_var(env, key) {
                    Ok(local) => {
                        Self::track(&mut locals, local);
                    },
                    Err(error) => {
                        return Err(error);
                    },
                }
            }
            i += 1;
        }
        Ok(locals)
    }

    /// Collects the tracked aborts.
    fn extract_aborts(env: &GlobalEnv, map: &ValueMap) -> (res: Result<
        Vec<(CodeIndex, AbortDescriptor)>,
        ModelParseError,
    >)
        requires
            env.wf(),
        ensures
            aborts_from(*env, map@, 0, Map::empty()) == match res {
                Ok(aborts) => Ok(aborts_of(aborts@)),
                Err(error) => Err(error@),
            },
    {
        let mut aborts: Vec<(CodeIndex, AbortDescriptor)> = Vec::new();
        let mut i: usize = 0;
        while i < map.entries.len()
            invariant
                env.wf(),
                i <= map.entries@.len(),
                aborts_from(*env, map@, 0, Map::empty()) == aborts_from(
                    *env,
                    map@,
                    i as int,
                    aborts_of(aborts@),
                ),
            decreases map.entries@.len() - i,
        {
            let key = &map.entries[i].0;
            assert(map@[i as int].0 == key@);
            if !key.is_literal("else") {
                match Self::extract_abort_marker(env, key) {
                    Ok(abort) => {
                        assert(aborts@.push(abort).drop_last() =~= aborts@);
                        aborts.push(abort);
                    },
                    Err(error) => {
                        return Err(error);
                    },
                }
            }
            i += 1;
        }
        Ok(aborts)
    }

    /// Makes a model from the values of its variables.
    pub fn from_vars(env: &GlobalEnv, vars: ValueMap) -> (res: Result<Model, ModelParseError>)
        requires
            env.wf(),
        ensures
            model_of(*env, vars@) == match res {
                Ok(model) => Ok(model@),
                Err(error) => Err(error@),
            },
    {
        let tracked_locals = match Self::find_table(&vars, "$DebugTrackLocal") {
            Some(map) => match Self::extract_locals(env, map) {
                Ok(locals) => locals,
                Err(error) => {
                    return Err(error);
                },
            },
            None => {
                return Err(Self::invalid_track_info());
            },
        };
        let tracked_aborts = match Self::find_table(&vars, "$DebugTrackAbort") {
            Some(map) => match Self::extract_aborts(env, map) {
                Ok(aborts) => aborts,
                Err(error) => {
                    return Err(error);
                },
            },
            None => {
                return Err(Self::invalid_track_info());
            },
        };
        Ok(Model { vars, tracked_locals, tracked_aborts })
    }

    /// Parses the given string into a model. The string is expected to end with
    /// `MODEL_END_MARKER`. Gives nothing where the entries of the model do not get to an end.
    pub fn try_parse(env: &GlobalEnv, input: &str) -> (res: Option<Result<Model, ModelParseError>>)
        requires
            env.wf(),
        ensures
            parsed_model(*env, input@) == match res {
                Some(Ok(model)) => Some(Ok(model@)),
                Some(Err(error)) => Some(Err(error@)),
                None => None,
            },
            res matches Some(Ok(model)) ==> valid_model(*env, model@),
    {
        proof {
            lemma_parsed_model(*env, input@);
        }
        let mut parser = ModelParser::new(input);
        let vars = match parser.try_parse_map() {
            Some(Ok(ModelValue::Mapping(vars))) => vars,
            Some(Ok(_)) => {
                return Some(Err(ModelParseError::new("expected ModelValue::Map")));
            },
            Some(Err(error)) => {
                return Some(Err(error));
            },
            None => {
                return None;
            },
        };
        match parser.try_expect(MODEL_END_MARKER) {
            Some(Ok(())) => Some(Self::from_vars(env, vars)),
            Some(Err(error)) => Some(Err(error)),
            None => None,
        }
    }

    /// Parses the given string into a model. The string is expected to end with
    /// `MODEL_END_MARKER`.
    pub fn parse(env: &GlobalEnv, input: &str) -> (res: Result<Model, ModelParseError>)
        requires
            env.wf(),
            parsed_model(*env, input@) is Some,
        ensures
            parsed_model(*env, input@) == Some(
                match res {
                    Ok(model) => Ok(model@),
                    Err(error) => Err(error@),
                },
            ),
            res matches Ok(model) ==> valid_model(*env, model@),
    {
        Self::try_parse(env, input).unwrap()
    }

    /// Tells whether an abort is tracked at a code location.
    pub fn aborts_at(&self, index: CodeIndex) -> (res: bool)
        ensures
            res == self@.aborts.dom().contains(index),
    {
        let mut i: usize = 0;
        assert(self.tracked_aborts@.take(0) =~= Seq::empty());
        while i < self.tracked_aborts.len()
            invariant
                i <= self.tracked_aborts@.len(),
                !aborts_of(self.tracked_aborts@.take(i as int)).dom().contains(index),
            decreases self.tracked_aborts@.len() - i,
        {
            assert(self.tracked_aborts@.take(i + 1).drop_last() =~= self.tracked_aborts@.take(
                i as int,
            ));
            if self.tracked_aborts[i].0 == index {
                proof {
                    lemma_aborts_keep(self.tracked_aborts@, i + 1, index);
                }
                return true;
            }
            i += 1;
        }
        assert(self.tracked_aborts@.take(i as int) =~= self.tracked_aborts@);
        false
    }
}

proof fn lemma_aborts_keep(aborts: Seq<(CodeIndex, AbortDescriptor)>, i: int, index: CodeIndex)
    requires
        0 <= i <= aborts.len(),
        aborts_of(aborts.take(i)).dom().contains(index),
    ensures
        aborts_of(aborts).dom().contains(index),
    decreases aborts.len() - i,
{
    if i < aborts.len() {
        assert(aborts.take(i + 1).drop_last() =~= aborts.take(i));
        lemma_aborts_keep(aborts, i + 1, index);
    } else {
        assert(aborts.take(i) =~= aborts);
    }
}

/// The values in the array `(ValueArray map_key size)`, which the model holds at
/// `Select_[$int]Value`; those that it leaves open are error values.
pub open spec fn array_values(vars: Seq<(Value, Value)>, v: Value) -> Option<Seq<Value>> {
    match args_of(v, "ValueArray"@) {
        Some(args) => if args.len() != 2 {
            None
        } else {
            match (number_of(args[1]), table(vars, "Select_[$int]Value"@)) {
                (Some(size), Some(values)) => Some(
                    Seq::new(size, |i: int| array_value(values, args[0], i as nat)),
                ),
                _ => None,
            }
        },
        None => None,
    }
}

/// The value at the index `i` of the array with the key `map_key`.
pub open spec fn array_value(values: Seq<(Value, Value)>, map_key: Value, i: nat) -> Value {
    match lookup(values, Value::List(seq![map_key, Value::Literal(decimal(i))])) {
        Some(value) => value,
        None => error_value(),
    }
}

/// The values in the vector `(Vector value_array)`.
pub open spec fn vector_values(vars: Seq<(Value, Value)>, v: Value) -> Option<Seq<Value>> {
    match args_of(v, "Vector"@) {
        Some(args) => if args.len() != 1 {
            None
        } else {
            array_values(vars, args[0])
        },
        None => None,
    }
}

impl ModelValue {
    /// Extracts a vector from `(Vector value_array)`. This follows indirections in the model
    /// to extract the actual values.
    pub fn extract_vector(&self, model: &Model) -> (res: Option<Vec<ModelValue>>)
        ensures
            vector_values(model@.vars, self@) == match res {
                Some(values) => Some(values_of(values@)),
                None => None,
            },
    {
        match self.extract_list("Vector") {
            Some(args) => if args.len() != 1 {
                None
            } else {
                args[0].extract_value_array(model)
            },
            None => None,
        }
    }

    /// Extracts a value array from `(ValueArray map_key size)`. This follows indirections in the
    /// model. We find the value array map at `Select_[$int]Value`.
    pub fn extract_value_array(&self, model: &Model) -> (res: Option<Vec<ModelValue>>)
        ensures
            array_values(model@.vars, self@) == match res {
                Some(values) => Some(values_of(values@)),
                None => None,
            },
    {
        let args = match self.extract_list("ValueArray") {
            Some(args) => args,
            None => {
                return None;
            },
        };
        if args.len() != 2 {
            return None;
        }
        let size = match args[1].extract_number() {
            Some(size) => size,
            None => {
                return None;
            },
        };
        let value_array_map = match Model::find_table(&model.vars, "Select_[$int]Value") {
            Some(map) => map,
            None => {
                return None;
            },
        };
        let mut values: Vec<ModelValue> = Vec::new();
        let mut i: usize = 0;
        while i < size
            invariant
                i <= size,
                args@.len() == 2,
                values@.len() == i,
                forall|j: int|
                    0 <= j < i ==> (#[trigger] values@[j])@ == array_value(
                        value_array_map@,
                        args@[0]@,
                        j as nat,
                    ),
            decreases size - i,
        {
            let mut key: Vec<ModelValue> = Vec::new();
            key.push(args[0].clone());
            key.push(ModelValue::Literal(decimal_text(i)));
            proof {
                lemma_list_view(key);
                assert(values_of(key@) =~= seq![
                    args@[0]@,
                    Value::Literal(decimal(i as nat)),
                ]);
            }
            let value = match value_array_map.get(&ModelValue::List(key)) {
                Some(value) => value.clone(),
                None => ModelValue::error(),
            };
            values.push(value);
            i += 1;
        }
        assert(values_of(values@) =~= array_values(model@.vars, self@)->0);
        Some(values)
    }
}

/// The locals that have been shown: pairs of a code location and the variable that got its value
/// there.
pub struct ShownLocals {
    pub items: Vec<(CodeIndex, LocalDescriptor)>,
}

impl View for ShownLocals {
    type V = Set<(CodeIndex, LocalDescriptor)>;

    open spec fn view(&self) -> Set<(CodeIndex, LocalDescriptor)> {
        self.items@.to_set()
    }
}

impl ShownLocals {
    /// No local stands in the list twice.
    pub open spec fn wf(&self) -> bool {
        self.items@.no_duplicates()
    }

    /// Nothing has been shown.
    pub fn new() -> (res: ShownLocals)
        ensures
            res.wf(),
            res@ == Set::<(CodeIndex, LocalDescriptor)>::empty(),
    {
        let res = ShownLocals { items: Vec::new() };
        assert(res@ =~= Set::<(CodeIndex, LocalDescriptor)>::empty());
        res
    }

    /// Adds a local, and tells whether it had not been shown.
    pub fn insert(&mut self, index: CodeIndex, local: LocalDescriptor) -> (res: bool)
        ensures
            final(self)@ == old(self)@.insert((index, local)),
            res == !old(self)@.contains((index, local)),
            old(self).wf() ==> final(self).wf(),
    {
        let ghost item = (index, local);
        let mut i: usize = 0;
        while i < self.items.len()
            invariant
                *self == *old(self),
                item == (index, local),
                i <= self.items@.len(),
                forall|j: int| 0 <= j < i ==> self.items@[j] != item,
            decreases self.items@.len() - i,
        {
            if self.items[i].0 == index && self.items[i].1 == local {
                proof {
                    assert(self.items@[i as int] == item);
                    assert(self@.contains(item));
                    assert(self@.insert(item) =~= self@);
                }
                return false;
            }
            i += 1;
        }
        self.items.push((index, local));
        proof {
            assert(!old(self)@.contains(item));
            assert(self.items@.last() == item);
            assert forall|x: (CodeIndex, LocalDescriptor)| #[trigger]
                self@.contains(x) == old(self)@.insert(item).contains(x) by {
                if old(self)@.contains(x) {
                    let k = choose|k: int|
                        0 <= k < old(self).items@.len() && old(self).items@[k] == x;
                    assert(self.items@[k] == x);
                }
                if self@.contains(x) && x != item {
                    let k = choose|k: int| 0 <= k < self.items@.len() && self.items@[k] == x;
                    assert(old(self).items@[k] == x);
                }
            }
            assert(self@ =~= old(self)@.insert(item));
        }
        true
    }
}

/// The locals from `i` on to show at a range of code locations: those in the range that have not
/// been shown, together with all that have been shown then.
pub open spec fn relevant_from(
    locals: Seq<LocalView>,
    from: CodeIndex,
    to: CodeIndex,
    i: int,
    shown: Set<(CodeIndex, LocalDescriptor)>,
) -> (Seq<(LocalDescriptor, Value)>, Set<(CodeIndex, LocalDescriptor)>)
    decreases locals.len() - i,
{
    if 0 <= i < locals.len() {
        let item = (locals[i].index, locals[i].local);
        if before(locals[i].index, from) || !before(locals[i].index, to) || shown.contains(item) {
            relevant_from(locals, from, to, i + 1, shown)
        } else {
            let (rest, all) = relevant_from(locals, from, to, i + 1, shown.insert(item));
            (seq![(locals[i].local, locals[i].value)] + rest, all)
        }
    } else {
        (Seq::empty(), shown)
    }
}

/// The locals to show at the location `loc` in a function.
pub open spec fn relevant_locals(
    model: ModelView,
    func: FunctionEnv,
    loc: Loc,
    shown: Set<(CodeIndex, LocalDescriptor)>,
) -> (Seq<(LocalDescriptor, Value)>, Set<(CodeIndex, LocalDescriptor)>) {
    relevant_from(
        model.locals,
        CodeIndex { module_id: func.module_id, byte: func.loc.span.start },
        CodeIndex { module_id: func.module_id, byte: loc.span.end },
        0,
        shown,
    )
}

/// What pairs of a variable and its value stand for.
pub open spec fn bindings_of(bindings: Seq<(LocalDescriptor, ModelValue)>) -> Seq<
    (LocalDescriptor, Value),
> {
    Seq::new(bindings.len(), |i: int| (bindings[i].0, bindings[i].1@))
}

impl CodeIndex {
    /// Tells whether one code location comes before another.
    pub fn is_before(&self, other: &CodeIndex) -> (res: bool)
        ensures
            res == before(*self, *other),
    {
        self.module_id < other.module_id || (self.module_id == other.module_id && self.byte
            < other.byte)
    }
}

impl Model {
    /// Computes the relevant tracked locals to show at the given location `loc`.
    ///
    /// As locations reported via boogie execution traces aren't actually pointing to the
    /// place where a variable is updated (rather they often point to branch points), we apply
    /// the following heuristic: all variables are returned which have been updated from
    /// function start until `loc.end()` and which have *not* yet been shown before. We
    /// track this via the `locals_shown` set which consists of pairs of code byte index and the
    /// variable as it has been updated at this point. This heuristic works reliable for the
    /// cases seen so far, but may need further refinement.
    pub fn relevant_tracked_locals(
        &self,
        func_env: &FunctionEnv,
        loc: Loc,
        locals_shown: &mut ShownLocals,
    ) -> (res: Vec<(LocalDescriptor, ModelValue)>)
        requires
            func_env.loc.span.start <= loc.span.end,
        ensures
            (bindings_of(res@), final(locals_shown)@) == relevant_locals(
                self@,
                *func_env,
                loc,
                old(locals_shown)@,
            ),
    {
        let from = CodeIndex { module_id: func_env.module_id, byte: func_env.loc.span.start };
        let to = CodeIndex { module_id: func_env.module_id, byte: loc.span.end };
        let mut bindings: Vec<(LocalDescriptor, ModelValue)> = Vec::new();
        let ghost locals = self@.locals;
        let ghost all = relevant_locals(self@, *func_env, loc, locals_shown@);
        assert(bindings_of(bindings@) + all.0 =~= all.0);
        let mut i: usize = 0;
        while i < self.tracked_locals.len()
            invariant
                i <= self.tracked_locals@.len(),
                locals == tracked_of(self.tracked_locals@),
                ({
                    let rest = relevant_from(locals, from, to, i as int, locals_shown@);
                    all == (bindings_of(bindings@) + rest.0, rest.1)
                }),
            decreases self.tracked_locals@.len() - i,
        {
            let local = &self.tracked_locals[i];
            let ghost shown = locals_shown@;
            assert(locals[i as int] == local@);
            if !local.index.is_before(&from) && local.index.is_before(&to)
                && locals_shown.insert(local.index, local.local) {
                let ghost known = bindings_of(bindings@);
                bindings.push((local.local, local.value.clone()));
                assert(bindings_of(bindings@) =~= known.push((local.local, local.value@)));
                assert(all.0 =~= bindings_of(bindings@) + relevant_from(
                    locals,
                    from,
                    to,
                    i + 1,
                    locals_shown@,
                ).0);
            } else {
                assert(locals_shown@ =~= shown);
            }
            i += 1;
        }
        assert(all.0 =~= bindings_of(bindings@));
        bindings
    }
}

/// Tells whether tracked locals stand by increasing code location.
pub open spec fn in_code_order(locals: Seq<LocalView>) -> bool {
    forall|i: int, j: int|
        0 <= i < j < locals.len() ==> !before(
            (#[trigger] locals[j]).index,
            (#[trigger] locals[i]).index,
        )
}

/// Tells whether a module has a function with the given index.
pub open spec fn has_function(env: GlobalEnv, module_id: ModuleId, func_id: FunId) -> bool {
    module_id < env.modules@.len() && func_id < env.modules@[module_id as int].functions@.len()
}

/// Tells whether a tracked local exists: its function does, and has that many locals and results.
/// Its code location lies in the module of the function.
pub open spec fn exists_in(env: GlobalEnv, local: LocalView) -> bool {
    &&& local.index.module_id == local.local.module_id
    &&& has_function(env, local.local.module_id, local.local.func_id)
    &&& {
        let func =
            env.modules@[local.local.module_id as int].functions@[local.local.func_id as int];
        local.local.var_idx < func.locals@.len() + func.return_types@.len()
    }
}

/// The position after a code location is the first one with a later code location.
pub proof fn lemma_position_after(locals: Seq<LocalView>, index: CodeIndex, i: int)
    requires
        0 <= i <= locals.len(),
    ensures
        i <= position_after(locals, index, i) <= locals.len(),
        forall|j: int|
            i <= j < position_after(locals, index, i) ==> !before(
                index,
                (#[trigger] locals[j]).index,
            ),
        position_after(locals, index, i) < locals.len() ==> before(
            index,
            locals[position_after(locals, index, i)].index,
        ),
    decreases locals.len() - i,
{
    if i < locals.len() && !before(index, locals[i].index) {
        lemma_position_after(locals, index, i + 1);
    }
}

/// Tracking one more local keeps the order of the code locations, and keeps all that are tracked.
pub proof fn lemma_tracking(locals: Seq<LocalView>, local: LocalView)
    requires
        in_code_order(locals),
    ensures
        in_code_order(tracking(locals, local)),
        tracking(locals, local).to_multiset() == locals.to_multiset().insert(local),
{
    lemma_position_after(locals, local.index, 0);
    let p = position_after(locals, local.index, 0);
    let after = tracking(locals, local);
    assert forall|i: int, j: int| 0 <= i < j < after.len() implies !before(
        (#[trigger] after[j]).index,
        (#[trigger] after[i]).index,
    ) by {
        let a = if i < p {
            i
        } else {
            i - 1
        };
        let b = if j < p {
            j
        } else {
            j - 1
        };
        if i != p {
            assert(after[i] == locals[a]);
        }
        if j != p {
            assert(after[j] == locals[b]);
        }
        if i == p {
            assert(!before(locals[b].index, locals[p].index) || b == p);
        }
    }
    vstd::seq_lib::to_multiset_insert(locals, p, local);
}

proof fn lemma_debug_var_exists(env: GlobalEnv, key: Value)
    requires
        env.wf(),
    ensures
        debug_var(env, key) matches Ok(local) ==> exists_in(env, local),
{
    if let Value::List(args) = key {
        if args.len() == 5 {
            if let Ok(module) = index_of(args[0], env.modules@.len()) {
                assert(env.modules@[module as int].wf());
            }
        }
    }
}

proof fn lemma_locals_from(
    env: GlobalEnv,
    entries: Seq<(Value, Value)>,
    i: int,
    locals: Seq<LocalView>,
)
    requires
        env.wf(),
        in_code_order(locals),
        forall|j: int| 0 <= j < locals.len() ==> exists_in(env, #[trigger] locals[j]),
    ensures
        locals_from(env, entries, i, locals) matches Ok(all) ==> {
            &&& in_code_order(all)
            &&& forall|j: int| 0 <= j < all.len() ==> exists_in(env, #[trigger] all[j])
        },
    decreases entries.len() - i,
{
    if 0 <= i < entries.len() {
        if entries[i].0 == Value::Literal("else"@) {
            lemma_locals_from(env, entries, i + 1, locals);
        } else if let Ok(local) = debug_var(env, entries[i].0) {
            lemma_debug_var_exists(env, entries[i].0);
            lemma_tracking(locals, local);
            lemma_position_after(locals, local.index, 0);
            let p = position_after(locals, local.index, 0);
            let after = tracking(locals, local);
            assert forall|j: int| 0 <= j < after.len() implies exists_in(
                env,
                #[trigger] after[j],
            ) by {
                if j < p {
                    assert(after[j] == locals[j]);
                } else if j > p {
                    assert(after[j] == locals[j - 1]);
                }
            }
            lemma_locals_from(env, entries, i + 1, after);
        }
    }
}

proof fn lemma_aborts_from(
    env: GlobalEnv,
    entries: Seq<(Value, Value)>,
    i: int,
    aborts: Map<CodeIndex, AbortDescriptor>,
)
    requires
        env.wf(),
        forall|index: CodeIndex| #[trigger]
            aborts.contains_key(index) ==> aborts[index].module_id == index.module_id
                && has_function(env, index.module_id, aborts[index].func_id),
    ensures
        aborts_from(env, entries, i, aborts) matches Ok(all) ==> forall|index: CodeIndex| #[trigger]
            all.contains_key(index) ==> all[index].module_id == index.module_id && has_function(
                env,
                index.module_id,
                all[index].func_id,
            ),
    decreases entries.len() - i,
{
    if 0 <= i < entries.len() {
        if entries[i].0 == Value::Literal("else"@) {
            lemma_aborts_from(env, entries, i + 1, aborts);
        } else if let Ok((index, abort)) = abort_marker(env, entries[i].0) {
            if let Value::List(args) = entries[i].0 {
                if let Ok(module) = index_of(args[0], env.modules@.len()) {
                    assert(env.modules@[module as int].wf());
                }
            }
            lemma_aborts_from(env, entries, i + 1, aborts.insert(index, abort));
        }
    }
}

/// Tells whether a model is valid: it tells of locals and aborts of existing functions only, and
/// lists the locals by increasing code location. Its variables, and the mappings in their values,
/// have each key once.
pub open spec fn valid_model(env: GlobalEnv, model: ModelView) -> bool {
    &&& in_code_order(model.locals)
    &&& forall|i: int| 0 <= i < model.locals.len() ==> exists_in(env, #[trigger] model.locals[i])
    &&& forall|index: CodeIndex| #[trigger]
        model.aborts.contains_key(index) ==> model.aborts[index].module_id == index.module_id
            && has_function(env, index.module_id, model.aborts[index].func_id)
    &&& ordered(Value::Mapping(model.vars))
}

/// A model that has been parsed is valid.
pub proof fn lemma_parsed_model(env: GlobalEnv, text: Seq<char>)
    requires
        env.wf(),
    ensures
        parsed_model(env, text) matches Some(Ok(model)) ==> valid_model(env, model),
{
    lemma_parsed_ordered(encode_utf8(text), 0);
    if let Some((Ok(vars), _)) = map_at(encode_utf8(text), 0, Seq::empty()) {
        if let Some(entries) = table(vars, "$DebugTrackLocal"@) {
            lemma_locals_from(env, entries, 0, Seq::empty());
        }
        if let Some(entries) = table(vars, "$DebugTrackAbort"@) {
            lemma_aborts_from(env, entries, 0, Map::empty());
        }
    }
}

/// The locals that the keys of a table tell of, in the order of the keys. The default entry `else`
/// tells of none.
pub open spec fn read_locals(env: GlobalEnv, entries: Seq<(Value, Value)>) -> Seq<LocalView>
    decreases entries.len(),
{
    if entries.len() == 0 {
        Seq::empty()
    } else {
        let front = read_locals(env, entries.drop_last());
        match debug_var(env, entries.last().0) {
            Ok(local) => front.push(local),
            Err(_) => front,
        }
    }
}

/// The test for being at a code location.
pub open spec fn is_at(index: CodeIndex) -> spec_fn(LocalView) -> bool {
    |local: LocalView| local.index == index
}

/// The locals at a code location.
pub open spec fn at_place(locals: Seq<LocalView>, index: CodeIndex) -> Seq<LocalView> {
    locals.filter(is_at(index))
}

proof fn lemma_none_at_place(locals: Seq<LocalView>, index: CodeIndex)
    requires
        forall|i: int| 0 <= i < locals.len() ==> (#[trigger] locals[i]).index != index,
    ensures
        at_place(locals, index) == Seq::<LocalView>::empty(),
    decreases locals.len(),
{
    reveal(Seq::filter);
    if locals.len() > 0 {
        let front = locals.drop_last();
        assert forall|i: int| 0 <= i < front.len() implies (#[trigger] front[i]).index != index by {
            assert(front[i] == locals[i]);
        }
        lemma_none_at_place(front, index);
        assert(locals.last().index != index);
    } else {
        assert(at_place(locals, index) =~= Seq::<LocalView>::empty());
    }
}

proof fn lemma_push_at_place(locals: Seq<LocalView>, local: LocalView, index: CodeIndex)
    ensures
        at_place(locals.push(local), index) == if local.index == index {
            at_place(locals, index).push(local)
        } else {
            at_place(locals, index)
        },
{
    reveal(Seq::filter);
    assert(locals.push(local).drop_last() =~= locals);
}

/// A local that is tracked comes behind all others at its code location.
proof fn lemma_tracking_at_place(locals: Seq<LocalView>, local: LocalView, index: CodeIndex)
    requires
        in_code_order(locals),
    ensures
        at_place(tracking(locals, local), index) == at_place(locals.push(local), index),
{
    lemma_position_after(locals, local.index, 0);
    let p = position_after(locals, local.index, 0);
    let front = locals.take(p);
    let back = locals.skip(p);
    assert(tracking(locals, local) =~= front.push(local) + back);
    assert(locals =~= front + back);
    Seq::filter_distributes_over_add(front.push(local), back, is_at(index));
    Seq::filter_distributes_over_add(front, back, is_at(index));
    lemma_push_at_place(front, local, index);
    lemma_push_at_place(locals, local, index);
    if local.index == index {
        assert forall|i: int| 0 <= i < back.len() implies (#[trigger] back[i]).index != index by {
            assert(back[i] == locals[p + i]);
            assert(before(index, locals[p].index));
            if i > 0 {
                assert(!before(locals[p + i].index, locals[p].index));
            }
        }
        lemma_none_at_place(back, index);
        assert(at_place(front, index) + at_place(back, index) =~= at_place(front, index));
        assert(at_place(front, index).push(local) + at_place(back, index) =~= at_place(
            front,
            index,
        ).push(local));
    }
}

proof fn lemma_locals_read(
    env: GlobalEnv,
    entries: Seq<(Value, Value)>,
    i: int,
    locals: Seq<LocalView>,
    index: CodeIndex,
)
    requires
        0 <= i <= entries.len(),
        in_code_order(locals),
        locals.to_multiset() == read_locals(env, entries.take(i)).to_multiset(),
        at_place(locals, index) == at_place(read_locals(env, entries.take(i)), index),
    ensures
        locals_from(env, entries, i, locals) matches Ok(all) ==> {
            &&& forall|j: int|
                i <= j < entries.len() && (#[trigger] entries[j]).0 != Value::Literal("else"@)
                    ==> debug_var(env, entries[j].0) is Ok
            &&& all.to_multiset() == read_locals(env, entries).to_multiset()
            &&& at_place(all, index) == at_place(read_locals(env, entries), index)
        },
    decreases entries.len() - i,
{
    if i < entries.len() {
        let read = read_locals(env, entries.take(i));
        assert(entries.take(i + 1).drop_last() =~= entries.take(i));
        assert(entries.take(i + 1).last() == entries[i]);
        if entries[i].0 == Value::Literal("else"@) {
            lemma_locals_read(env, entries, i + 1, locals, index);
        } else if let Ok(local) = debug_var(env, entries[i].0) {
            let after = tracking(locals, local);
            lemma_tracking(locals, local);
            lemma_tracking_at_place(locals, local, index);
            lemma_push_at_place(locals, local, index);
            lemma_push_at_place(read, local, index);
            read.to_multiset_ensures();
            assert(read_locals(env, entries.take(i + 1)) == read.push(local));
            lemma_locals_read(env, entries, i + 1, after, index);
        }
    } else {
        assert(entries.take(i) =~= entries);
    }
}

proof fn lemma_table_sorted(vars: Seq<(Value, Value)>, name: Seq<char>)
    requires
        ordered(Value::Mapping(vars)),
    ensures
        table(vars, name) matches Some(entries) ==> sorted(entries),
{
    let key = Value::Literal(name);
    lemma_lookup_from(vars, key, 0);
    if let Some(v) = lookup(vars, key) {
        let k = choose|k: int| 0 <= k < vars.len() && #[trigger] vars[k] == (key, v);
        assert(ordered(vars[k].1));
    }
}

/// A model that has been parsed tracks one local for each key but `else` of its table of locals,
/// and no others. Those at one code location stand in the order of their keys.
pub proof fn lemma_locals_in_key_order(env: GlobalEnv, text: Seq<char>, index: CodeIndex)
    requires
        env.wf(),
    ensures
        parsed_model(env, text) matches Some(Ok(model)) ==> {
            &&& table(model.vars, "$DebugTrackLocal"@) matches Some(entries)
            &&& sorted(entries)
            &&& forall|j: int|
                0 <= j < entries.len() && (#[trigger] entries[j]).0 != Value::Literal("else"@)
                    ==> debug_var(env, entries[j].0) is Ok
            &&& model.locals.to_multiset() == read_locals(env, entries).to_multiset()
            &&& at_place(model.locals, index) == at_place(read_locals(env, entries), index)
        },
{
    if let Some(Ok(model)) = parsed_model(env, text) {
        lemma_parsed_model(env, text);
        lemma_table_sorted(model.vars, "$DebugTrackLocal"@);
        if let Some(entries) = table(model.vars, "$DebugTrackLocal"@) {
            assert(entries.take(0) =~= Seq::<(Value, Value)>::empty());
            lemma_locals_read(env, entries, 0, Seq::empty(), index);
        }
    }
}

/// Tells whether the key `i` of a table marks an abort at a code location.
pub open spec fn marks(
    env: GlobalEnv,
    entries: Seq<(Value, Value)>,
    i: int,
    index: CodeIndex,
) -> bool {
    0 <= i < entries.len() && (abort_marker(env, entries[i].0) matches Ok((place, _)) && place
        == index)
}

/// The last of the first `n` keys that marks an abort at a code location.
spec fn last_mark(
    env: GlobalEnv,
    entries: Seq<(Value, Value)>,
    n: int,
    index: CodeIndex,
) -> Option<int>
    decreases n,
{
    if n <= 0 {
        None
    } else if marks(env, entries, n - 1, index) {
        Some(n - 1)
    } else {
        last_mark(env, entries, n - 1, index)
    }
}

proof fn lemma_last_mark(env: GlobalEnv, entries: Seq<(Value, Value)>, n: int, index: CodeIndex)
    requires
        0 <= n <= entries.len(),
    ensures
        match last_mark(env, entries, n, index) {
            Some(k) => {
                &&& k < n
                &&& marks(env, entries, k, index)
                &&& forall|j: int| k < j < n ==> !marks(env, entries, j, index)
            },
            None => forall|j: int| 0 <= j < n ==> !marks(env, entries, j, index),
        },
    decreases n,
{
    if n > 0 && !marks(env, entries, n - 1, index) {
        lemma_last_mark(env, entries, n - 1, index);
    }
}

/// Tells whether aborts are those of the last keys among the first `n`.
spec fn keeps_last(
    env: GlobalEnv,
    entries: Seq<(Value, Value)>,
    n: int,
    aborts: Map<CodeIndex, AbortDescriptor>,
    index: CodeIndex,
) -> bool {
    match last_mark(env, entries, n, index) {
        Some(k) => aborts.contains_key(index) && abort_marker(env, entries[k].0) == Ok::<
            (CodeIndex, AbortDescriptor),
            Seq<char>,
        >((index, aborts[index])),
        None => !aborts.contains_key(index),
    }
}

proof fn lemma_aborts_read(
    env: GlobalEnv,
    entries: Seq<(Value, Value)>,
    i: int,
    aborts: Map<CodeIndex, AbortDescriptor>,
    index: CodeIndex,
)
    requires
        0 <= i <= entries.len(),
        keeps_last(env, entries, i, aborts, index),
    ensures
        aborts_from(env, entries, i, aborts) matches Ok(all) ==> keeps_last(
            env,
            entries,
            entries.len() as int,
            all,
            index,
        ),
    decreases entries.len() - i,
{
    if i < entries.len() {
        if entries[i].0 == Value::Literal("else"@) {
            assert(!marks(env, entries, i, index));
            lemma_aborts_read(env, entries, i + 1, aborts, index);
        } else if let Ok((place, abort)) = abort_marker(env, entries[i].0) {
            assert(marks(env, entries, i, index) == (place == index));
            lemma_aborts_read(env, entries, i + 1, aborts.insert(place, abort), index);
        }
    }
}

/// Tells whether the key `i` of a table marks the given abort at a code location, and is the
/// greatest that marks one there.
pub open spec fn is_greatest_mark(
    env: GlobalEnv,
    entries: Seq<(Value, Value)>,
    i: int,
    index: CodeIndex,
    abort: AbortDescriptor,
) -> bool {
    &&& 0 <= i < entries.len()
    &&& abort_marker(env, entries[i].0) == Ok::<(CodeIndex, AbortDescriptor), Seq<char>>(
        (index, abort),
    )
    &&& forall|j: int| #[trigger]
        marks(env, entries, j, index) && j != i ==> rank(entries[j].0, entries[i].0) == Rank::Less
}

/// A model that has been parsed tracks an abort exactly at those code locations that a key of its
/// table of aborts marks. Where several keys mark one, the greatest of them counts.
pub proof fn lemma_aborts_by_greatest_key(env: GlobalEnv, text: Seq<char>, index: CodeIndex)
    requires
        env.wf(),
    ensures
        parsed_model(env, text) matches Some(Ok(model)) ==> {
            &&& table(model.vars, "$DebugTrackAbort"@) matches Some(entries)
            &&& model.aborts.contains_key(index) <==> exists|i: int| marks(env, entries, i, index)
            &&& model.aborts.contains_key(index) ==> exists|i: int|
                is_greatest_mark(env, entries, i, index, model.aborts[index])
        },
{
    if let Some(Ok(model)) = parsed_model(env, text) {
        lemma_parsed_model(env, text);
        lemma_table_sorted(model.vars, "$DebugTrackAbort"@);
        if let Some(entries) = table(model.vars, "$DebugTrackAbort"@) {
            let n = entries.len() as int;
            lemma_aborts_read(env, entries, 0, Map::empty(), index);
            lemma_last_mark(env, entries, n, index);
            if let Some(k) = last_mark(env, entries, n, index) {
                assert(marks(env, entries, k, index));
                assert forall|j: int| #[trigger]
                    marks(env, entries, j, index) && j != k implies rank(
                    entries[j].0,
                    entries[k].0,
                ) == Rank::Less by {
                    assert(j < k);
                }
                assert(is_greatest_mark(env, entries, k, index, model.aborts[index]));
            }
        }
    }
}

/// Only a text in which the end marker stands is parsed into a model.
pub proof fn lemma_model_needs_marker(env: GlobalEnv, text: Seq<char>)
    requires
        parsed_model(env, text) matches Some(Ok(_)),
    ensures
        exists|at: int| goes_on_with(encode_utf8(text), at, MODEL_END_MARKER@),
{
    if let Some((Ok(vars), next)) = map_at(encode_utf8(text), 0, Seq::empty()) {
        assert(goes_on_with(
            encode_utf8(text),
            past_space(encode_utf8(text), next),
            MODEL_END_MARKER@,
        ));
    }
}

/// Tells whether a code location lies in a range.
pub open spec fn in_range(index: CodeIndex, from: CodeIndex, to: CodeIndex) -> bool {
    !before(index, from) && before(index, to)
}

/// Tells whether `binding` is the tracked local `j`, which lies in a range and has not been shown.
pub open spec fn is_new_binding(
    locals: Seq<LocalView>,
    from: CodeIndex,
    to: CodeIndex,
    shown: Set<(CodeIndex, LocalDescriptor)>,
    j: int,
    binding: (LocalDescriptor, Value),
) -> bool {
    &&& 0 <= j < locals.len()
    &&& in_range(locals[j].index, from, to)
    &&& !shown.contains((locals[j].index, locals[j].local))
    &&& binding == (locals[j].local, locals[j].value)
}

/// Tells whether `binding` is one of the tracked locals that lie in a range and have not been
/// shown.
pub open spec fn is_new(
    locals: Seq<LocalView>,
    from: CodeIndex,
    to: CodeIndex,
    shown: Set<(CodeIndex, LocalDescriptor)>,
    binding: (LocalDescriptor, Value),
) -> bool {
    exists|j: int| is_new_binding(locals, from, to, shown, j, binding)
}

#[verifier::spinoff_prover]
proof fn lemma_relevant_from(
    locals: Seq<LocalView>,
    from: CodeIndex,
    to: CodeIndex,
    i: int,
    shown: Set<(CodeIndex, LocalDescriptor)>,
)
    requires
        0 <= i,
    ensures
        ({
            let (bindings, all) = relevant_from(locals, from, to, i, shown);
            &&& shown.subset_of(all)
            &&& forall|j: int|
                i <= j < locals.len() && in_range((#[trigger] locals[j]).index, from, to)
                    ==> all.contains((locals[j].index, locals[j].local))
            &&& forall|k: int|
                0 <= k < bindings.len() ==> is_new(locals, from, to, shown, #[trigger] bindings[k])
        }),
    decreases locals.len() - i,
{
    let (bindings, all) = relevant_from(locals, from, to, i, shown);
    if i < locals.len() {
        let item = (locals[i].index, locals[i].local);
        if !in_range(locals[i].index, from, to) || shown.contains(item) {
            lemma_relevant_from(locals, from, to, i + 1, shown);
            assert(relevant_from(locals, from, to, i + 1, shown) == (bindings, all));
        } else {
            let more = shown.insert(item);
            let (rest, _) = relevant_from(locals, from, to, i + 1, more);
            lemma_relevant_from(locals, from, to, i + 1, more);
            assert(bindings == seq![(locals[i].local, locals[i].value)] + rest);
            assert(more.contains(item));
            assert forall|x: (CodeIndex, LocalDescriptor)| shown.contains(x) implies all.contains(
                x,
            ) by {
                assert(more.contains(x));
            }
            assert forall|k: int| 0 <= k < bindings.len() implies is_new(
                locals,
                from,
                to,
                shown,
                #[trigger] bindings[k],
            ) by {
                if k == 0 {
                    assert(is_new_binding(locals, from, to, shown, i, bindings[k]));
                } else {
                    let binding = rest[k - 1];
                    assert(bindings[k] == binding);
                    assert(is_new(locals, from, to, more, binding));
                    let j = choose|j: int| is_new_binding(locals, from, to, more, j, binding);
                    assert(is_new_binding(locals, from, to, more, j, binding));
                    assert(is_new_binding(locals, from, to, shown, j, binding));
                }
            }
        }
    }
}

proof fn lemma_nothing_relevant(
    locals: Seq<LocalView>,
    from: CodeIndex,
    to: CodeIndex,
    i: int,
    shown: Set<(CodeIndex, LocalDescriptor)>,
)
    requires
        0 <= i,
        forall|j: int|
            i <= j < locals.len() && in_range((#[trigger] locals[j]).index, from, to)
                ==> shown.contains((locals[j].index, locals[j].local)),
    ensures
        relevant_from(locals, from, to, i, shown) == (
            Seq::<(LocalDescriptor, Value)>::empty(),
            shown,
        ),
    decreases locals.len() - i,
{
    if i < locals.len() {
        lemma_nothing_relevant(locals, from, to, i + 1, shown);
    }
}

/// The locals to show at a location are those which have been updated from the start of the
/// function up to the end of the location, and which have not been shown before. All of these have
/// been shown then, and what has been shown stays so.
#[verifier::spinoff_prover]
pub proof fn lemma_relevant_locals(
    model: ModelView,
    func: FunctionEnv,
    loc: Loc,
    shown: Set<(CodeIndex, LocalDescriptor)>,
)
    ensures
        ({
            let from = CodeIndex { module_id: func.module_id, byte: func.loc.span.start };
            let to = CodeIndex { module_id: func.module_id, byte: loc.span.end };
            let (bindings, all) = relevant_locals(model, func, loc, shown);
            &&& shown.subset_of(all)
            &&& forall|j: int|
                0 <= j < model.locals.len() && in_range(
                    (#[trigger] model.locals[j]).index,
                    from,
                    to,
                ) ==> all.contains((model.locals[j].index, model.locals[j].local))
            &&& forall|k: int|
                0 <= k < bindings.len() ==> is_new(
                    model.locals,
                    from,
                    to,
                    shown,
                    #[trigger] bindings[k],
                )
        }),
{
    let from = CodeIndex { module_id: func.module_id, byte: func.loc.span.start };
    let to = CodeIndex { module_id: func.module_id, byte: loc.span.end };
    lemma_relevant_from(model.locals, from, to, 0, shown);
}

/// Once the locals for a location have been shown, nothing is left to show at any location of the
/// function that ends no later, whatever else has been shown meanwhile.
#[verifier::spinoff_prover]
pub proof fn lemma_nothing_shown_again(
    model: ModelView,
    func: FunctionEnv,
    loc: Loc,
    shown: Set<(CodeIndex, LocalDescriptor)>,
    later_loc: Loc,
    later_shown: Set<(CodeIndex, LocalDescriptor)>,
)
    requires
        later_loc.span.end <= loc.span.end,
        relevant_locals(model, func, loc, shown).1.subset_of(later_shown),
    ensures
        relevant_locals(model, func, later_loc, later_shown) == (
            Seq::<(LocalDescriptor, Value)>::empty(),
            later_shown,
        ),
{
    let from = CodeIndex { module_id: func.module_id, byte: func.loc.span.start };
    let to = CodeIndex { module_id: func.module_id, byte: loc.span.end };
    let later_to = CodeIndex { module_id: func.module_id, byte: later_loc.span.end };
    let all = relevant_locals(model, func, loc, shown).1;
    lemma_relevant_from(model.locals, from, to, 0, shown);
    assert forall|j: int|
        0 <= j < model.locals.len() && in_range(
            (#[trigger] model.locals[j]).index,
            from,
            later_to,
        ) implies later_shown.contains((model.locals[j].index, model.locals[j].local)) by {
        assert(in_range(model.locals[j].index, from, to));
        assert(all.contains((model.locals[j].index, model.locals[j].local)));
    }
    lemma_nothing_relevant(model.locals, from, later_to, 0, later_shown);
}

/// No local is shown twice: once the locals for a location have been shown, nothing is left to
/// show there.
pub proof fn lemma_shown_once(
    model: ModelView,
    func: FunctionEnv,
    loc: Loc,
    shown: Set<(CodeIndex, LocalDescriptor)>,
)
    ensures
        ({
            let all = relevant_locals(model, func, loc, shown).1;
            relevant_locals(model, func, loc, all) == (
                Seq::<(LocalDescriptor, Value)>::empty(),
                all,
            )
        }),
{
    let all = relevant_locals(model, func, loc, shown).1;
    lemma_nothing_shown_again(model, func, loc, shown, loc, all);
}

} // verus!
