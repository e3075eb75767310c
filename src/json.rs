use vstd::prelude::*;

use crate::value::{all_set, any_set, array_view, table_view, Doc, Value};

verus! {

broadcast use vstd::std_specs::vec::group_vec_axioms, vstd::seq::group_seq_axioms;

/// The mathematical model of a JSON value.
pub enum JsonDoc {
    Null,
    Bool(bool),
    Int(int),
    Float(u64),
    Str(Seq<char>),
    Arr(Seq<JsonDoc>),
    Obj(Seq<(Seq<char>, JsonDoc)>),
}

/// A JSON value. A number is an integer or a float, the float held as its
/// IEEE-754 bit pattern; an object keeps its members in insertion order.
#[derive(Debug, PartialEq)]
pub enum Json {
    Null,
    Bool(bool),
    Int(i64),
    Float(u64),
    String(String),
    Array(Vec<Json>),
    Object(Vec<(String, Json)>),
}

/// Why a document value has no JSON form.
#[derive(Debug, PartialEq, Eq)]
pub enum ConvertError {
    /// A float that is NaN or infinite, given by its bit pattern.
    NonFiniteFloat(u64),
}

/// The model of the elements of a JSON array.
pub open spec fn json_array_view(v: Vec<Json>) -> Seq<JsonDoc>
    decreases v,
{
    Seq::new(
        v.len() as nat,
        |i: int|
            if 0 <= i < v.len() {
                v[i].view()
            } else {
                JsonDoc::Null
            },
    )
}

/// The model of the members of a JSON object.
pub open spec fn json_object_view(v: Vec<(String, Json)>) -> Seq<(Seq<char>, JsonDoc)>
    decreases v,
{
    Seq::new(
        v.len() as nat,
        |i: int|
            if 0 <= i < v.len() {
                (v[i].0@, v[i].1.view())
            } else {
                (Seq::empty(), JsonDoc::Null)
            },
    )
}

impl Json {
    pub open spec fn view(self) -> JsonDoc
        decreases self,
    {
        match self {
            Json::Null => JsonDoc::Null,
            Json::Bool(b) => JsonDoc::Bool(b),
            Json::Int(i) => JsonDoc::Int(i as int),
            Json::Float(b) => JsonDoc::Float(b),
            Json::String(s) => JsonDoc::Str(s@),
            Json::Array(v) => JsonDoc::Arr(json_array_view(v)),
            Json::Object(v) => JsonDoc::Obj(json_object_view(v)),
        }
    }
}

/// A float given by its bit pattern is finite: its exponent field is not all ones.
pub open spec fn float_is_finite(bits: u64) -> bool {
    (bits >> 52u64) & 0x7ffu64 != 0x7ffu64
}

/// For each element of `xs`, whether it holds every float finite.
pub open spec fn convertible_flags(xs: Seq<Doc>) -> Seq<bool>
    decreases xs,
{
    Seq::new(xs.len(), |i: int| 0 <= i < xs.len() && convertible(xs[i]))
}

/// For each entry of `es`, whether its value holds every float finite.
pub open spec fn entry_convertible_flags(es: Seq<(Seq<char>, Doc)>) -> Seq<bool>
    decreases es,
{
    Seq::new(es.len(), |i: int| 0 <= i < es.len() && convertible(es[i].1))
}

/// For each element of `xs`, whether it holds no datetime.
pub open spec fn no_datetime_flags(xs: Seq<Doc>) -> Seq<bool>
    decreases xs,
{
    Seq::new(xs.len(), |i: int| 0 <= i < xs.len() && no_datetime(xs[i]))
}

/// For each entry of `es`, whether its value holds no datetime.
pub open spec fn entry_no_datetime_flags(es: Seq<(Seq<char>, Doc)>) -> Seq<bool>
    decreases es,
{
    Seq::new(es.len(), |i: int| 0 <= i < es.len() && no_datetime(es[i].1))
}

/// For each element of `xs`, whether it holds a null.
pub open spec fn null_flags(xs: Seq<JsonDoc>) -> Seq<bool>
    decreases xs,
{
    Seq::new(xs.len(), |i: int| 0 <= i < xs.len() && has_null(xs[i]))
}

/// For each member of `es`, whether its value holds a null.
pub open spec fn member_null_flags(es: Seq<(Seq<char>, JsonDoc)>) -> Seq<bool>
    decreases es,
{
    Seq::new(es.len(), |i: int| 0 <= i < es.len() && has_null(es[i].1))
}

/// Every float in `d` is finite.
pub open spec fn convertible(d: Doc) -> bool
    decreases d,
{
    match d {
        Doc::Float(b) => float_is_finite(b),
        Doc::Arr(xs) => all_set(convertible_flags(xs)),
        Doc::Table(es) => all_set(entry_convertible_flags(es)),
        _ => true,
    }
}

/// No datetime occurs in `d`.
pub open spec fn no_datetime(d: Doc) -> bool
    decreases d,
{
    match d {
        Doc::Datetime(_) => false,
        Doc::Arr(xs) => all_set(no_datetime_flags(xs)),
        Doc::Table(es) => all_set(entry_no_datetime_flags(es)),
        _ => true,
    }
}

/// The JSON form of a document: variant by variant, a datetime as its text.
pub open spec fn json_of(d: Doc) -> JsonDoc
    decreases d,
{
    match d {
        Doc::Str(s) => JsonDoc::Str(s),
        Doc::Int(i) => JsonDoc::Int(i),
        Doc::Float(b) => JsonDoc::Float(b),
        Doc::Bool(b) => JsonDoc::Bool(b),
        Doc::Datetime(s) => JsonDoc::Str(s),
        Doc::Arr(xs) => JsonDoc::Arr(
            Seq::new(
                xs.len(),
                |i: int|
                    if 0 <= i < xs.len() {
                        json_of(xs[i])
                    } else {
                        JsonDoc::Null
                    },
            ),
        ),
        Doc::Table(es) => JsonDoc::Obj(
            Seq::new(
                es.len(),
                |i: int|
                    if 0 <= i < es.len() {
                        (es[i].0, json_of(es[i].1))
                    } else {
                        (Seq::empty(), JsonDoc::Null)
                    },
            ),
        ),
    }
}

/// A null occurs in `j`.
pub open spec fn has_null(j: JsonDoc) -> bool
    decreases j,
{
    match j {
        JsonDoc::Null => true,
        JsonDoc::Arr(xs) => any_set(null_flags(xs)),
        JsonDoc::Obj(es) => any_set(member_null_flags(es)),
        _ => false,
    }
}

/// The document form of a JSON value without nulls: an array as a sequence, an
/// object as a table.
pub open spec fn doc_of_json(j: JsonDoc) -> Doc
    decreases j,
{
    match j {
        JsonDoc::Null => Doc::Bool(false),
        JsonDoc::Bool(b) => Doc::Bool(b),
        JsonDoc::Int(i) => Doc::Int(i),
        JsonDoc::Float(b) => Doc::Float(b),
        JsonDoc::Str(s) => Doc::Str(s),
        JsonDoc::Arr(xs) => Doc::Arr(
            Seq::new(
                xs.len(),
                |i: int|
                    if 0 <= i < xs.len() {
                        doc_of_json(xs[i])
                    } else {
                        Doc::Bool(false)
                    },
            ),
        ),
        JsonDoc::Obj(es) => Doc::Table(
            Seq::new(
                es.len(),
                |i: int|
                    if 0 <= i < es.len() {
                        (es[i].0, doc_of_json(es[i].1))
                    } else {
                        (Seq::empty(), Doc::Bool(false))
                    },
            ),
        ),
    }
}

/// The JSON form of `v`, or an error naming a non-finite float where `v` holds one.
pub fn toml_to_json(v: &Value) -> (r: Result<Json, ConvertError>)
    ensures
        r is Ok <==> convertible(v@),
        r matches Ok(j) ==> j@ == json_of(v@),
        r matches Err(ConvertError::NonFiniteFloat(b)) ==> !float_is_finite(b),
    decreases v,
{
    match v {
        Value::String(s) => Ok(Json::String(s.clone())),
        Value::Integer(i) => Ok(Json::Int(*i)),
        Value::Float(b) => {
            if (*b >> 52u64) & 0x7ffu64 != 0x7ffu64 {
                Ok(Json::Float(*b))
            } else {
                Err(ConvertError::NonFiniteFloat(*b))
            }
        },
        Value::Boolean(b) => Ok(Json::Bool(*b)),
        Value::Datetime(s) => Ok(Json::String(s.clone())),
        Value::Array(xs) => {
            let ghost xv = array_view(*xs);
            let mut out: Vec<Json> = Vec::new();
            let mut i: usize = 0;
            while i < xs.len()
                invariant
                    i <= xs.len(),
                    *v == Value::Array(*xs),
                    v@ == Doc::Arr(xv),
                    xv == array_view(*xs),
                    xv.len() == xs.len(),
                    out.len() == i,
                    forall|j: int| 0 <= j < i ==> convertible(#[trigger] xv[j]),
                    forall|j: int| 0 <= j < i ==> #[trigger] out[j]@ == json_of(xv[j]),
                decreases xs.len() - i,
            {
                proof {
                    assert(decreases_to!(*v => v->Array_0));
                    assert(decreases_to!(*xs => xs[i as int]));
                }
                assert(xv[i as int] == xs[i as int]@);
                match toml_to_json(&xs[i]) {
                    Ok(j) => out.push(j),
                    Err(e) => {
                        assert(!convertible(xv[i as int]));
                        assert(!convertible_flags(xv)[i as int]);
                        assert(!convertible(Doc::Arr(xv)));
                        return Err(e);
                    },
                }
                i += 1;
            }
            assert(json_array_view(out) =~= json_of(v@)->Arr_0) by {
                assert forall|k: int| 0 <= k < out.len() implies json_array_view(out)[k] == out[k]@ by {}
            }
            Ok(Json::Array(out))
        },
        Value::Table(xs) => {
            let ghost xv = table_view(*xs);
            let mut out: Vec<(String, Json)> = Vec::new();
            let mut i: usize = 0;
            while i < xs.len()
                invariant
                    i <= xs.len(),
                    *v == Value::Table(*xs),
                    v@ == Doc::Table(xv),
                    xv == table_view(*xs),
                    xv.len() == xs.len(),
                    out.len() == i,
                    forall|j: int| 0 <= j < i ==> convertible(#[trigger] xv[j].1),
                    forall|j: int|
                        0 <= j < i ==> #[trigger] out[j].0@ == xv[j].0 && out[j].1@ == json_of(
                            xv[j].1,
                        ),
                decreases xs.len() - i,
            {
                proof {
                    assert(decreases_to!(*v => v->Table_0));
                    assert(decreases_to!(*xs => xs[i as int]));
                    assert(decreases_to!(xs[i as int] => xs[i as int].1));
                }
                assert(xv[i as int].1 == xs[i as int].1@);
                match toml_to_json(&xs[i].1) {
                    Ok(j) => out.push((xs[i].0.clone(), j)),
                    Err(e) => {
                        assert(!convertible(xv[i as int].1));
                        assert(!entry_convertible_flags(xv)[i as int]);
                        assert(!convertible(Doc::Table(xv)));
                        return Err(e);
                    },
                }
                i += 1;
            }
            assert(json_object_view(out) =~= json_of(v@)->Obj_0);
            Ok(Json::Object(out))
        },
    }
}

/// The document form of `j`, or `None` where `j` holds a null.
pub fn json_to_toml(j: &Json) -> (r: Option<Value>)
    ensures
        r is Some <==> !has_null(j@),
        r matches Some(v) ==> v@ == doc_of_json(j@),
    decreases j,
{
    match j {
        Json::Null => None,
        Json::Bool(b) => Some(Value::Boolean(*b)),
        Json::Int(i) => Some(Value::Integer(*i)),
        Json::Float(b) => Some(Value::Float(*b)),
        Json::String(s) => Some(Value::String(s.clone())),
        Json::Array(xs) => {
            let ghost xv = json_array_view(*xs);
            let mut out: Vec<Value> = Vec::new();
            let mut i: usize = 0;
            while i < xs.len()
                invariant
                    i <= xs.len(),
                    *j == Json::Array(*xs),
                    j@ == JsonDoc::Arr(xv),
                    xv == json_array_view(*xs),
                    xv.len() == xs.len(),
                    out.len() == i,
                    forall|k: int| 0 <= k < i ==> !has_null(#[trigger] xv[k]),
                    forall|k: int| 0 <= k < i ==> #[trigger] out[k]@ == doc_of_json(xv[k]),
                decreases xs.len() - i,
            {
                proof {
                    assert(decreases_to!(*j => j->Array_0));
                    assert(decreases_to!(*xs => xs[i as int]));
                }
                assert(xv[i as int] == xs[i as int]@);
                match json_to_toml(&xs[i]) {
                    Some(v) => out.push(v),
                    None => {
                        assert(has_null(xv[i as int]));
                        assert(null_flags(xv)[i as int]);
                        assert(has_null(JsonDoc::Arr(xv)));
                        return None;
                    },
                }
                i += 1;
            }
            assert(array_view(out) =~= doc_of_json(j@)->Arr_0) by {
                assert forall|k: int| 0 <= k < out.len() implies array_view(out)[k] == out[k]@ by {}
            }
            Some(Value::Array(out))
        },
        Json::Object(xs) => {
            let ghost xv = json_object_view(*xs);
            let mut out: Vec<(String, Value)> = Vec::new();
            let mut i: usize = 0;
            while i < xs.len()
                invariant
                    i <= xs.len(),
                    *j == Json::Object(*xs),
                    j@ == JsonDoc::Obj(xv),
                    xv == json_object_view(*xs),
                    xv.len() == xs.len(),
                    out.len() == i,
                    forall|k: int| 0 <= k < i ==> !has_null(#[trigger] xv[k].1),
                    forall|k: int|
                        0 <= k < i ==> #[trigger] out[k].0@ == xv[k].0 && out[k].1@ == doc_of_json(
                            xv[k].1,
                        ),
                decreases xs.len() - i,
            {
                proof {
                    assert(decreases_to!(*j => j->Object_0));
                    assert(decreases_to!(*xs => xs[i as int]));
                    assert(decreases_to!(xs[i as int] => xs[i as int].1));
                }
                assert(xv[i as int].1 == xs[i as int].1@);
                match json_to_toml(&xs[i].1) {
                    Some(v) => out.push((xs[i].0.clone(), v)),
                    None => {
                        assert(has_null(xv[i as int].1));
                        assert(member_null_flags(xv)[i as int]);
                        assert(has_null(JsonDoc::Obj(xv)));
                        return None;
                    },
                }
                i += 1;
            }
            assert(table_view(out) =~= doc_of_json(j@)->Table_0);
            Some(Value::Table(out))
        },
    }
}

/// A document without datetimes comes back unchanged from its JSON form, which
/// holds no null.
pub proof fn lemma_json_round_trip(d: Doc)
    requires
        no_datetime(d),
    ensures
        !has_null(json_of(d)),
        doc_of_json(json_of(d)) == d,
    decreases d,
{
    match d {
        Doc::Arr(xs) => {
            let js = json_of(d)->Arr_0;
            assert forall|i: int| 0 <= i < xs.len() implies !has_null(#[trigger] js[i])
                && doc_of_json(js[i]) == xs[i] by {
                assert(no_datetime_flags(xs)[i]);
                assert(decreases_to!(d => d->Arr_0));
                lemma_json_round_trip(xs[i]);
            }
            assert(!any_set(null_flags(js))) by {
                assert forall|i: int| 0 <= i < js.len() implies !#[trigger] null_flags(js)[i] by {
                    assert(!has_null(js[i]));
                }
            }
            assert(doc_of_json(json_of(d))->Arr_0 =~= xs);
        },
        Doc::Table(es) => {
            let js = json_of(d)->Obj_0;
            assert forall|i: int| 0 <= i < es.len() implies !has_null(#[trigger] js[i].1)
                && doc_of_json(js[i].1) == es[i].1 by {
                assert(entry_no_datetime_flags(es)[i]);
                assert(decreases_to!(d => d->Table_0));
                assert(decreases_to!(es => es[i]));
                lemma_json_round_trip(es[i].1);
            }
            assert(!any_set(member_null_flags(js))) by {
                assert forall|i: int| 0 <= i < js.len() implies !#[trigger] member_null_flags(js)[i] by {
                    assert(!has_null(js[i].1));
                }
            }
            assert(doc_of_json(json_of(d))->Table_0 =~= es);
        },
        _ => {},
    }
}

} // verus!
