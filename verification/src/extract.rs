//! Taking model values apart.
use vstd::prelude::*;
use vstd::slice::slice_subrange;

use crate::order::same_str;
use crate::text::{number_up_to, read_number};
use crate::value::{ModelValue, Value, ValueMap, lemma_list_view, lemma_mapping_view, values_of};

verus! {

/// The value that stands for one that the model leaves open: the list `(Error)`.
pub open spec fn error_value() -> Value {
    Value::List(seq![Value::Literal("Error"@)])
}

/// The arguments of a list of the form `(<ctor> element...)`.
pub open spec fn args_of(v: Value, ctor: Seq<char>) -> Option<Seq<Value>> {
    match v {
        Value::List(items) => if items.len() > 0 && items[0] == Value::Literal(ctor) {
            Some(items.drop_first())
        } else {
            None
        },
        _ => None,
    }
}

/// The text of a literal.
pub open spec fn literal_of(v: Value) -> Option<Seq<char>> {
    match v {
        Value::Literal(s) => Some(s),
        _ => None,
    }
}

/// The number that a literal stands for, where it can be an index.
pub open spec fn number_of(v: Value) -> Option<nat> {
    match v {
        Value::Literal(s) => number_up_to(s, usize::MAX as int),
        _ => None,
    }
}

/// The text in a primitive, a list of the form `(<ctor> literal)`.
pub open spec fn primitive_of(v: Value, ctor: Seq<char>) -> Option<Seq<char>> {
    match args_of(v, ctor) {
        Some(args) => if args.len() == 1 {
            literal_of(args[0])
        } else {
            None
        },
        None => None,
    }
}

/// The entries of a mapping.
pub open spec fn entries_of(v: Value) -> Option<Seq<(Value, Value)>> {
    match v {
        Value::Mapping(entries) => Some(entries),
        _ => None,
    }
}

impl ModelValue {
    /// Makes a literal from a str.
    pub fn literal(s: &str) -> (res: ModelValue)
        ensures
            res@ == Value::Literal(s@),
    {
        ModelValue::Literal(s.to_string())
    }

    /// Makes an error value.
    pub fn error() -> (res: ModelValue)
        ensures
            res@ == error_value(),
    {
        let mut items: Vec<ModelValue> = Vec::new();
        items.push(ModelValue::literal("Error"));
        proof {
            lemma_list_view(items);
        }
        assert(values_of(items@) =~= seq![Value::Literal("Error"@)]);
        ModelValue::List(items)
    }

    /// Extracts the mapping of a value that is one.
    pub fn extract_map(&self) -> (res: Option<&ValueMap>)
        ensures
            entries_of(self@) == match res {
                Some(m) => Some(m@),
                None => None,
            },
    {
        if let ModelValue::Mapping(m) = self {
            proof {
                lemma_mapping_view(*m);
            }
            Some(m)
        } else {
            None
        }
    }

    /// Tells whether the value is the literal `s`.
    pub fn is_literal(&self, s: &str) -> (res: bool)
        ensures
            res == (self@ == Value::Literal(s@)),
    {
        match self {
            ModelValue::Literal(text) => same_str(text.as_str(), s),
            _ => false,
        }
    }

    /// Extract the arguments of a list of the form `(<ctor> element...)`.
    pub fn extract_list(&self, ctor: &str) -> (res: Option<&[ModelValue]>)
        ensures
            args_of(self@, ctor@) == match res {
                Some(args) => Some(values_of(args@)),
                None => None,
            },
    {
        if let ModelValue::List(items) = self {
            proof {
                lemma_list_view(*items);
            }
            if items.len() > 0 && items[0].is_literal(ctor) {
                let args = slice_subrange(items.as_slice(), 1, items.len());
                assert(values_of(args@) =~= values_of(items@).drop_first());
                return Some(args);
            }
        }
        None
    }

    /// Extract a literal.
    pub fn extract_literal(&self) -> (res: Option<&String>)
        ensures
            literal_of(self@) == match res {
                Some(s) => Some(s@),
                None => None,
            },
    {
        if let ModelValue::Literal(s) = self {
            Some(s)
        } else {
            None
        }
    }

    /// Extract a number from a literal.
    pub fn extract_number(&self) -> (res: Option<usize>)
        ensures
            number_of(self@) == match res {
                Some(n) => Some(n as nat),
                None => None,
            },
    {
        match self.extract_literal() {
            Some(s) => read_number(s.as_str(), usize::MAX),
            None => None,
        }
    }

    /// Extract the value of a primitive.
    pub fn extract_primitive(&self, ctor: &str) -> (res: Option<&String>)
        ensures
            primitive_of(self@, ctor@) == match res {
                Some(s) => Some(s@),
                None => None,
            },
    {
        match self.extract_list(ctor) {
            Some(args) => if args.len() == 1 {
                args[0].extract_literal()
            } else {
                None
            },
            None => None,
        }
    }
}

} // verus!
