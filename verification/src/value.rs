//! Values that occur in a model: literals, lists and mappings.
use vstd::prelude::*;

verus! {

/// Represents a model value.
#[derive(Debug, PartialEq, Eq, Hash, PartialOrd, Ord)]
pub enum ModelValue {
    Literal(String),
    List(Vec<ModelValue>),
    Mapping(ValueMap),
}

/// A mapping between model values: its entries, each key once, by increasing key.
#[derive(Debug, PartialEq, Eq, Hash, PartialOrd, Ord)]
pub struct ValueMap {
    pub entries: Vec<(ModelValue, ModelValue)>,
}

/// What a model value stands for.
pub enum Value {
    Literal(Seq<char>),
    List(Seq<Value>),
    Mapping(Seq<(Value, Value)>),
}

/// The value that `v` stands for.
pub open spec fn value_of(v: ModelValue) -> Value
    decreases v,
{
    match v {
        ModelValue::Literal(s) => Value::Literal(s@),
        ModelValue::List(items) => Value::List(
            Seq::new(
                items@.len(),
                |i: int|
                    if 0 <= i < items@.len() {
                        value_of(items@[i])
                    } else {
                        arbitrary()
                    },
            ),
        ),
        ModelValue::Mapping(m) => Value::Mapping(
            Seq::new(
                m.entries@.len(),
                |i: int|
                    if 0 <= i < m.entries@.len() {
                        (value_of(m.entries@[i].0), value_of(m.entries@[i].1))
                    } else {
                        arbitrary()
                    },
            ),
        ),
    }
}

/// The values that the items of `items` stand for.
pub open spec fn values_of(items: Seq<ModelValue>) -> Seq<Value> {
    Seq::new(items.len(), |i: int| items[i]@)
}

impl View for ModelValue {
    type V = Value;

    open spec fn view(&self) -> Value {
        value_of(*self)
    }
}

impl View for ValueMap {
    type V = Seq<(Value, Value)>;

    open spec fn view(&self) -> Seq<(Value, Value)> {
        Seq::new(self.entries@.len(), |i: int| (self.entries@[i].0@, self.entries@[i].1@))
    }
}

/// A list stands for the list of what its items stand for.
pub broadcast proof fn lemma_list_view(items: Vec<ModelValue>)
    ensures
        #[trigger] value_of(ModelValue::List(items)) == Value::List(values_of(items@)),
{
    assert(ModelValue::List(items)@->List_0 =~= values_of(items@));
}

/// A mapping stands for the sequence of what its entries stand for.
pub broadcast proof fn lemma_mapping_view(m: ValueMap)
    ensures
        #[trigger] value_of(ModelValue::Mapping(m)) == Value::Mapping(m@),
{
    assert(ModelValue::Mapping(m)@->Mapping_0 =~= m@);
}

impl ModelValue {
    /// Makes an equal value.
    pub fn copied(&self) -> (res: ModelValue)
        ensures
            res@ == self@,
        decreases self,
    {
        broadcast use {lemma_list_view, lemma_mapping_view};

        match self {
            ModelValue::Literal(s) => ModelValue::Literal(s.clone()),
            ModelValue::List(items) => {
                let mut out: Vec<ModelValue> = Vec::new();
                let mut i: usize = 0;
                while i < items.len()
                    invariant
                        i <= items@.len(),
                        out@.len() == i,
                        *self == ModelValue::List(*items),
                        forall|j: int| 0 <= j < i ==> (#[trigger] out@[j])@ == items@[j]@,
                    decreases items@.len() - i,
                {
                    assert(decreases_to!(*self => self->List_0@[i as int]));
                    out.push(items[i].copied());
                    i += 1;
                }
                assert(values_of(out@) =~= values_of(items@));
                ModelValue::List(out)
            },
            ModelValue::Mapping(m) => ModelValue::Mapping(m.copied()),
        }
    }
}

impl Clone for ModelValue {
    fn clone(&self) -> (res: Self)
        ensures
            res@ == self@,
    {
        self.copied()
    }
}

impl Clone for ValueMap {
    fn clone(&self) -> (res: Self)
        ensures
            res@ == self@,
    {
        self.copied()
    }
}

impl ValueMap {
    /// Makes an equal mapping.
    pub fn copied(&self) -> (res: ValueMap)
        ensures
            res@ == self@,
        decreases self,
    {
        let mut out: Vec<(ModelValue, ModelValue)> = Vec::new();
        let mut i: usize = 0;
        while i < self.entries.len()
            invariant
                i <= self.entries@.len(),
                out@.len() == i,
                forall|j: int|
                    0 <= j < i ==> (#[trigger] out@[j]).0@ == self.entries@[j].0@ && out@[j].1@
                        == self.entries@[j].1@,
            decreases self.entries@.len() - i,
        {
            let entry = &self.entries[i];
            assert(decreases_to!(*self => self.entries@[i as int].0));
            assert(decreases_to!(*self => self.entries@[i as int].1));
            out.push((entry.0.copied(), entry.1.copied()));
            i += 1;
        }
        let res = ValueMap { entries: out };
        assert(res@ =~= self@);
        res
    }
}

} // verus!
