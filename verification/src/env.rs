//! What the analysis knows of the verified program: positions in files, the modules with their
//! functions, types, and which source a place in the generated program comes from.
use vstd::prelude::*;

verus! {

/// A position in a file: line and column, both counted from zero.
#[derive(Debug, Clone, Copy, PartialEq, Eq, Structural)]
pub struct Location {
    pub line: u32,
    pub column: u32,
}

/// A range of bytes in a file.
#[derive(Debug, Clone, Copy, PartialEq, Eq, Structural)]
pub struct Span {
    pub start: u32,
    pub end: u32,
}

/// A range of bytes in one of the files.
#[derive(Debug, Clone, Copy, PartialEq, Eq, Structural)]
pub struct Loc {
    pub file_id: u32,
    pub span: Span,
}

/// A location in the sources, with the locations that it narrows to at its start and at its end.
#[derive(Debug, Clone, Copy, PartialEq, Eq, Structural)]
pub struct SourceLoc {
    pub loc: Loc,
    pub start: Loc,
    pub end: Loc,
}

/// The index of a module.
pub type ModuleId = usize;

/// The index of a function in its module.
pub type FunId = u16;

/// A primitive type.
#[derive(Debug, Clone, Copy, PartialEq, Eq, Structural)]
pub enum PrimitiveType {
    Bool,
    U8,
    U64,
    U128,
    Num,
    Address,
    ByteArray,
    Other,
}

/// A type. That of a struct holds its fields, with the type arguments filled in.
#[derive(Debug, PartialEq, Eq)]
pub enum Type {
    Primitive(PrimitiveType),
    Vector(Box<Type>),
    Struct(StructType),
    Reference(bool, Box<Type>),
    TypeParameter(u16),
    Other,
}

/// The type of a struct: the module that it is declared in, its name, and its fields.
#[derive(Debug, PartialEq, Eq)]
pub struct StructType {
    pub module_name: String,
    pub name: String,
    pub fields: Vec<Field>,
}

/// A field of a struct.
#[derive(Debug, PartialEq, Eq)]
pub struct Field {
    pub name: String,
    pub ty: Type,
}

/// A function: where it stands, its local variables, and the types that it returns.
#[derive(Debug, PartialEq, Eq)]
pub struct FunctionEnv {
    pub module_id: ModuleId,
    pub name: String,
    pub loc: Loc,
    pub locals: Vec<Local>,
    pub return_types: Vec<Type>,
}

/// A local variable of a function.
#[derive(Debug, PartialEq, Eq)]
pub struct Local {
    pub name: String,
    pub ty: Type,
}

/// A module: its functions, and what is known of the ranges of bytes in its file that have been
/// looked up.
#[derive(Debug, PartialEq, Eq)]
pub struct ModuleEnv {
    pub functions: Vec<FunctionEnv>,
    /// The file and the position of a range.
    pub positions: Vec<(Span, (String, Location))>,
    /// The function that encloses a range, by its index.
    pub enclosing_functions: Vec<(Span, usize)>,
}

/// The verified program: its modules, the location that stands for generated code without a
/// source, and the modules that enclose the locations that have been looked up.
#[derive(Debug, PartialEq, Eq)]
pub struct GlobalEnv {
    pub modules: Vec<ModuleEnv>,
    pub internal_loc: Loc,
    pub enclosing_modules: Vec<(Loc, ModuleId)>,
}

/// The generated program, as far as it has been looked up: the byte at which a position stands,
/// and the source that a byte comes from.
#[derive(Debug, PartialEq, Eq)]
pub struct CodeWriter {
    pub byte_indices: Vec<(Location, u32)>,
    pub source_locations: Vec<(u32, SourceLoc)>,
}

/// What decides how errors are reported.
#[derive(Debug, PartialEq, Eq)]
pub struct Options {
    /// Whether entries of a trace that point to the same location are joined.
    pub minimize_execution_trace: bool,
    /// The file that the generated program is written to.
    pub output_path: String,
}

/// What the first pair with the key `key` from `i` on holds.
pub open spec fn found_from<K, V>(table: Seq<(K, V)>, key: K, i: int) -> Option<V>
    decreases table.len() - i,
{
    if 0 <= i < table.len() {
        if table[i].0 == key {
            Some(table[i].1)
        } else {
            found_from(table, key, i + 1)
        }
    } else {
        None
    }
}

/// What a table holds for `key`.
pub open spec fn found<K, V>(table: Seq<(K, V)>, key: K) -> Option<V> {
    found_from(table, key, 0)
}

impl FunctionEnv {
    /// The function's locals and results can be counted together.
    pub open spec fn wf(&self) -> bool {
        self.locals@.len() + self.return_types@.len() <= usize::MAX
    }

    /// The number of local variables.
    pub fn get_local_count(&self) -> (res: usize)
        ensures
            res == self.locals@.len(),
    {
        self.locals.len()
    }

    /// The number of results.
    pub fn get_return_count(&self) -> (res: usize)
        ensures
            res == self.return_types@.len(),
    {
        self.return_types.len()
    }
}

impl ModuleEnv {
    /// Tells whether the module is well-formed.
    pub fn is_well_formed(&self) -> (res: bool)
        ensures
            res == self.wf(),
    {
        if self.functions.len() > 0x1_0000 {
            return false;
        }
        let mut i: usize = 0;
        while i < self.functions.len()
            invariant
                i <= self.functions@.len(),
                forall|j: int| 0 <= j < i ==> (#[trigger] self.functions@[j]).wf(),
            decreases self.functions@.len() - i,
        {
            let function = &self.functions[i];
            if function.locals.len() > usize::MAX - function.return_types.len() {
                assert(!self.functions@[i as int].wf());
                return false;
            }
            i += 1;
        }
        let n = self.functions.len();
        let mut i: usize = 0;
        while i < self.enclosing_functions.len()
            invariant
                n == self.functions@.len(),
                i <= self.enclosing_functions@.len(),
                forall|j: int|
                    0 <= j < i ==> (#[trigger] self.enclosing_functions@[j]).1
                        < self.functions@.len(),
            decreases self.enclosing_functions@.len() - i,
        {
            if self.enclosing_functions[i].1 >= n {
                return false;
            }
            i += 1;
        }
        true
    }

    /// The functions of the module belong to the module with the index `id`.
    pub open spec fn is_module(&self, id: int) -> bool {
        forall|i: int|
            0 <= i < self.functions@.len() ==> (#[trigger] self.functions@[i]).module_id == id
    }

    /// Tells whether the functions of the module belong to the module with the index `id`.
    pub fn has_id(&self, id: ModuleId) -> (res: bool)
        ensures
            res == self.is_module(id as int),
    {
        let mut i: usize = 0;
        while i < self.functions.len()
            invariant
                i <= self.functions@.len(),
                forall|j: int| 0 <= j < i ==> (#[trigger] self.functions@[j]).module_id == id,
            decreases self.functions@.len() - i,
        {
            if self.functions[i].module_id != id {
                assert(self.functions@[i as int].module_id != id);
                return false;
            }
            i += 1;
        }
        true
    }

    /// The functions can be numbered, and those that the module names exist.
    pub open spec fn wf(&self) -> bool {
        &&& self.functions@.len() <= 0x1_0000
        &&& forall|i: int| 0 <= i < self.functions@.len() ==> (#[trigger] self.functions@[i]).wf()
        &&& forall|i: int|
            0 <= i < self.enclosing_functions@.len() ==> (#[trigger] self.enclosing_functions@[i]).1
                < self.functions@.len()
    }

    /// The number of functions.
    pub fn get_function_count(&self) -> (res: usize)
        ensures
            res == self.functions@.len(),
    {
        self.functions.len()
    }

    /// The file and the position of a range.
    pub fn get_position(&self, span: Span) -> (res: Option<&(String, Location)>)
        ensures
            match res {
                Some(position) => found(self.positions@, span) == Some(*position),
                None => found(self.positions@, span) is None,
            },
    {
        let mut i: usize = 0;
        while i < self.positions.len()
            invariant
                i <= self.positions@.len(),
                found(self.positions@, span) == found_from(self.positions@, span, i as int),
            decreases self.positions@.len() - i,
        {
            if self.positions[i].0 == span {
                return Some(&self.positions[i].1);
            }
            i += 1;
        }
        None
    }

    /// The function that encloses a range.
    pub fn get_enclosing_function(&self, span: Span) -> (res: Option<&FunctionEnv>)
        requires
            self.wf(),
        ensures
            match res {
                Some(function) => {
                    &&& found(self.enclosing_functions@, span) matches Some(f)
                    &&& 0 <= f < self.functions@.len()
                    &&& *function == self.functions@[f as int]
                },
                None => found(self.enclosing_functions@, span) is None,
            },
    {
        let mut i: usize = 0;
        while i < self.enclosing_functions.len()
            invariant
                self.wf(),
                i <= self.enclosing_functions@.len(),
                found(self.enclosing_functions@, span) == found_from(
                    self.enclosing_functions@,
                    span,
                    i as int,
                ),
            decreases self.enclosing_functions@.len() - i,
        {
            if self.enclosing_functions[i].0 == span {
                return Some(&self.functions[self.enclosing_functions[i].1]);
            }
            i += 1;
        }
        None
    }
}

impl GlobalEnv {
    /// Tells whether the program is well-formed.
    pub fn is_well_formed(&self) -> (res: bool)
        ensures
            res == self.wf(),
    {
        let mut i: usize = 0;
        while i < self.modules.len()
            invariant
                i <= self.modules@.len(),
                forall|j: int|
                    0 <= j < i ==> (#[trigger] self.modules@[j]).wf() && self.modules@[j].is_module(
                        j,
                    ),
            decreases self.modules@.len() - i,
        {
            if !self.modules[i].is_well_formed() || !self.modules[i].has_id(i) {
                return false;
            }
            i += 1;
        }
        let n = self.modules.len();
        let mut i: usize = 0;
        while i < self.enclosing_modules.len()
            invariant
                n == self.modules@.len(),
                i <= self.enclosing_modules@.len(),
                forall|j: int|
                    0 <= j < i ==> (#[trigger] self.enclosing_modules@[j]).1 < self.modules@.len(),
            decreases self.enclosing_modules@.len() - i,
        {
            if self.enclosing_modules[i].1 >= n {
                return false;
            }
            i += 1;
        }
        true
    }

    /// The functions of each module belong to it, and the modules that the program names exist.
    pub open spec fn wf(&self) -> bool {
        &&& forall|i: int|
            0 <= i < self.modules@.len() ==> (#[trigger] self.modules@[i]).wf()
                && self.modules@[i].is_module(i)
        &&& forall|i: int|
            0 <= i < self.enclosing_modules@.len() ==> (#[trigger] self.enclosing_modules@[i]).1
                < self.modules@.len()
    }

    /// The number of modules.
    pub fn get_module_count(&self) -> (res: usize)
        ensures
            res == self.modules@.len(),
    {
        self.modules.len()
    }

    /// The module that encloses a location.
    pub fn get_enclosing_module(&self, loc: Loc) -> (res: Option<ModuleId>)
        requires
            self.wf(),
        ensures
            res == found(self.enclosing_modules@, loc),
            res matches Some(m) ==> m < self.modules@.len(),
    {
        let mut i: usize = 0;
        while i < self.enclosing_modules.len()
            invariant
                self.wf(),
                i <= self.enclosing_modules@.len(),
                found(self.enclosing_modules@, loc) == found_from(
                    self.enclosing_modules@,
                    loc,
                    i as int,
                ),
            decreases self.enclosing_modules@.len() - i,
        {
            if self.enclosing_modules[i].0 == loc {
                return Some(self.enclosing_modules[i].1);
            }
            i += 1;
        }
        None
    }
}

impl CodeWriter {
    /// The byte at which a position stands.
    pub fn get_output_byte_index(&self, position: Location) -> (res: Option<u32>)
        ensures
            res == found(self.byte_indices@, position),
    {
        let mut i: usize = 0;
        while i < self.byte_indices.len()
            invariant
                i <= self.byte_indices@.len(),
                found(self.byte_indices@, position) == found_from(
                    self.byte_indices@,
                    position,
                    i as int,
                ),
            decreases self.byte_indices@.len() - i,
        {
            if self.byte_indices[i].0 == position {
                return Some(self.byte_indices[i].1);
            }
            i += 1;
        }
        None
    }

    /// The source that a byte comes from.
    pub fn get_source_location(&self, index: u32) -> (res: Option<SourceLoc>)
        ensures
            res == found(self.source_locations@, index),
    {
        let mut i: usize = 0;
        while i < self.source_locations.len()
            invariant
                i <= self.source_locations@.len(),
                found(self.source_locations@, index) == found_from(
                    self.source_locations@,
                    index,
                    i as int,
                ),
            decreases self.source_locations@.len() - i,
        {
            if self.source_locations[i].0 == index {
                return Some(self.source_locations[i].1);
            }
            i += 1;
        }
        None
    }
}

} // verus!
