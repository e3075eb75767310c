use vstd::prelude::*;

verus! {

broadcast use vstd::std_specs::vec::group_vec_axioms, vstd::seq::group_seq_axioms;

/// The mathematical model of a document value.
pub enum Doc {
    Str(Seq<char>),
    Int(int),
    Float(u64),
    Bool(bool),
    Datetime(Seq<char>),
    Arr(Seq<Doc>),
    Table(Seq<(Seq<char>, Doc)>),
}

/// A configuration document value: a tree of scalars, sequences and tables.
///
/// A float is held as its IEEE-754 bit pattern; a datetime as its canonical text.
/// A table keeps its entries in insertion order.
#[derive(Debug, PartialEq)]
pub enum Value {
    String(String),
    Integer(i64),
    Float(u64),
    Boolean(bool),
    Datetime(String),
    Array(Vec<Value>),
    Table(Vec<(String, Value)>),
}

/// Every flag of `bs` is set.
pub open spec fn all_set(bs: Seq<bool>) -> bool {
    forall|i: int| 0 <= i < bs.len() ==> #[trigger] bs[i]
}

/// Some flag of `bs` is set.
pub open spec fn any_set(bs: Seq<bool>) -> bool {
    exists|i: int| 0 <= i < bs.len() && #[trigger] bs[i]
}

/// The model of the elements of a sequence value.
pub open spec fn array_view(v: Vec<Value>) -> Seq<Doc>
    decreases v,
{
    Seq::new(
        v.len() as nat,
        |i: int|
            if 0 <= i < v.len() {
                v[i].view()
            } else {
                Doc::Bool(false)
            },
    )
}

/// The model of the entries of a table value.
pub open spec fn table_view(v: Vec<(String, Value)>) -> Seq<(Seq<char>, Doc)>
    decreases v,
{
    Seq::new(
        v.len() as nat,
        |i: int|
            if 0 <= i < v.len() {
                (v[i].0@, v[i].1.view())
            } else {
                (Seq::empty(), Doc::Bool(false))
            },
    )
}

impl Value {
    pub open spec fn view(self) -> Doc
        decreases self,
    {
        match self {
            Value::String(s) => Doc::Str(s@),
            Value::Integer(i) => Doc::Int(i as int),
            Value::Float(b) => Doc::Float(b),
            Value::Boolean(b) => Doc::Bool(b),
            Value::Datetime(s) => Doc::Datetime(s@),
            Value::Array(v) => Doc::Arr(array_view(v)),
            Value::Table(v) => Doc::Table(table_view(v)),
        }
    }

    /// A new, empty table: the value a merge starts from.
    pub fn empty_table() -> (r: Value)
        ensures
            r@ == Doc::Table(Seq::empty()),
    {
        let v: Vec<(String, Value)> = Vec::new();
        assert(table_view(v) =~= Seq::empty());
        Value::Table(v)
    }

    /// A copy of this value, node by node.
    pub fn deep_copy(&self) -> (r: Value)
        ensures
            r@ == self@,
        decreases self,
    {
        match self {
            Value::String(s) => Value::String(s.clone()),
            Value::Integer(i) => Value::Integer(*i),
            Value::Float(b) => Value::Float(*b),
            Value::Boolean(b) => Value::Boolean(*b),
            Value::Datetime(s) => Value::Datetime(s.clone()),
            Value::Array(v) => {
                let mut out: Vec<Value> = Vec::new();
                let mut i: usize = 0;
                while i < v.len()
                    invariant
                        i <= v.len(),
                        out.len() == i,
                        *self == Value::Array(*v),
                        forall|j: int| 0 <= j < i ==> #[trigger] out[j]@ == v[j]@,
                    decreases v.len() - i,
                {
                    proof {
                        assert(decreases_to!(*self => self->Array_0));
                        assert(decreases_to!(*v => v[i as int]));
                    }
                    let c = v[i].deep_copy();
                    out.push(c);
                    i += 1;
                }
                assert(array_view(out) =~= array_view(*v)) by {
                    assert forall|j: int| 0 <= j < out.len() implies array_view(out)[j] == array_view(*v)[j] by {
                        assert(out[j]@ == v[j]@);
                    }
                }
                Value::Array(out)
            },
            Value::Table(v) => {
                let mut out: Vec<(String, Value)> = Vec::new();
                let mut i: usize = 0;
                while i < v.len()
                    invariant
                        i <= v.len(),
                        out.len() == i,
                        *self == Value::Table(*v),
                        forall|j: int|
                            0 <= j < i ==> #[trigger] out[j].0@ == v[j].0@ && out[j].1@ == v[j].1@,
                    decreases v.len() - i,
                {
                    let k = v[i].0.clone();
                    proof {
                        assert(decreases_to!(*self => self->Table_0));
                        assert(decreases_to!(*v => v[i as int]));
                        assert(decreases_to!(v[i as int] => v[i as int].1));
                    }
                    let c = v[i].1.deep_copy();
                    out.push((k, c));
                    i += 1;
                }
                assert(table_view(out) =~= table_view(*v));
                Value::Table(out)
            },
        }
    }
}

} // verus!
