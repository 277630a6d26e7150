//! The document value, its mathematical model, copying and equality.

use crate::number::Number;
use vstd::prelude::*;
use vstd::std_specs::cmp::PartialEqSpecImpl;

verus! {

/// A document or a part of one. An object keeps its entries in the order in
/// which they were inserted.
#[derive(Debug)]
pub enum Value {
    Null,
    Bool(bool),
    Number(Number),
    String(String),
    Array(Vec<Value>),
    Object(Vec<(String, Value)>),
}

/// The mathematical model of a [`Value`]: the same tree over sequences.
pub ghost enum Json {
    Null,
    Bool(bool),
    Number(Number),
    String(Seq<char>),
    Array(Seq<Json>),
    Object(Seq<(Seq<char>, Json)>),
}

/// The models of a vector of values.
pub open spec fn items(v: Seq<Value>) -> Seq<Json> {
    Seq::new(v.len(), |i: int| v[i]@)
}

/// The models of a vector of entries.
pub open spec fn entries(v: Seq<(String, Value)>) -> Seq<(Seq<char>, Json)> {
    Seq::new(v.len(), |i: int| (v[i].0@, v[i].1@))
}

impl Json {
    /// Whether this is null, a boolean, a number or a string.
    pub open spec fn is_scalar(&self) -> bool {
        !(self is Array) && !(self is Object)
    }
}

impl Value {
    /// The model of this value, defined by recursion over the tree.
    pub open spec fn model(&self) -> Json
        decreases self,
    {
        match self {
            Value::Null => Json::Null,
            Value::Bool(b) => Json::Bool(*b),
            Value::Number(n) => Json::Number(*n),
            Value::String(s) => Json::String(s@),
            Value::Array(vs) => Json::Array(
                Seq::new(
                    vs@.len(),
                    |i: int|
                        if 0 <= i < vs@.len() {
                            vs@[i].model()
                        } else {
                            Json::Null
                        },
                ),
            ),
            Value::Object(es) => Json::Object(
                Seq::new(
                    es@.len(),
                    |i: int|
                        if 0 <= i < es@.len() {
                            (es@[i].0@, es@[i].1.model())
                        } else {
                            (Seq::empty(), Json::Null)
                        },
                ),
            ),
        }
    }

    /// Unfolds the model of a value one level, over `items` and `entries`.
    pub proof fn lemma_model(&self)
        ensures
            self is Null ==> self@ == Json::Null,
            self matches Value::Bool(b) ==> self@ == Json::Bool(*b),
            self matches Value::Number(n) ==> self@ == Json::Number(*n),
            self matches Value::String(s) ==> self@ == Json::String(s@),
            self matches Value::Array(vs) ==> self@ == Json::Array(items(vs@)),
            self matches Value::Object(es) ==> self@ == Json::Object(entries(es@)),
    {
        match self {
            Value::Array(vs) => {
                assert(self.model()->Array_0 =~= items(vs@));
            },
            Value::Object(es) => {
                assert(self.model()->Object_0 =~= entries(es@));
            },
            _ => {},
        }
    }

    /// An array of the given values.
    pub fn array(vs: Vec<Value>) -> (r: Value)
        ensures
            r@ == Json::Array(items(vs@)),
    {
        let r = Value::Array(vs);
        proof {
            r.lemma_model();
        }
        r
    }

    /// An object of the given entries.
    pub fn object(es: Vec<(String, Value)>) -> (r: Value)
        ensures
            r@ == Json::Object(entries(es@)),
    {
        let r = Value::Object(es);
        proof {
            r.lemma_model();
        }
        r
    }

    /// A string value.
    pub fn string(s: &str) -> (r: Value)
        ensures
            r@ == Json::String(s@),
    {
        Value::String(s.to_owned())
    }

    /// An integral number.
    pub fn integer(n: i64) -> (r: Value)
        ensures
            r@ == Json::Number(Number::Integral(n)),
    {
        Value::Number(Number::Integral(n))
    }

    /// A copy of a vector of values.
    fn copy_items(vs: &Vec<Value>) -> (r: Vec<Value>)
        ensures
            items(r@) == items(vs@),
        decreases vs, 0int,
    {
        let mut r: Vec<Value> = Vec::new();
        let mut i: usize = 0;
        while i < vs.len()
            invariant
                i <= vs@.len(),
                r@.len() == i,
                forall|j: int| 0 <= j < i ==> r@[j]@ == vs@[j]@,
            decreases vs@.len() - i,
        {
            r.push(vs[i].copy());
            i += 1;
        }
        assert(items(r@) =~= items(vs@));
        r
    }

    /// A copy of a vector of entries.
    fn copy_entries(es: &Vec<(String, Value)>) -> (r: Vec<(String, Value)>)
        ensures
            entries(r@) == entries(es@),
        decreases es, 0int,
    {
        let mut r: Vec<(String, Value)> = Vec::new();
        let mut i: usize = 0;
        while i < es.len()
            invariant
                i <= es@.len(),
                r@.len() == i,
                forall|j: int| 0 <= j < i ==> r@[j].0@ == es@[j].0@ && r@[j].1@ == es@[j].1@,
            decreases es@.len() - i,
        {
            r.push((es[i].0.clone(), es[i].1.copy()));
            i += 1;
        }
        assert(entries(r@) =~= entries(es@));
        r
    }

    /// A copy of this value: a new tree with the same model.
    pub fn copy(&self) -> (r: Value)
        ensures
            r@ == self@,
        decreases self, 1int,
    {
        proof {
            self.lemma_model();
        }
        let r = match self {
            Value::Null => Value::Null,
            Value::Bool(b) => Value::Bool(*b),
            Value::Number(n) => Value::Number(*n),
            Value::String(s) => Value::String(s.clone()),
            Value::Array(vs) => Value::Array(Self::copy_items(vs)),
            Value::Object(es) => Value::Object(Self::copy_entries(es)),
        };
        proof {
            r.lemma_model();
        }
        r
    }

    /// Whether two vectors of values hold equal values in the same order.
    fn same_items(xs: &Vec<Value>, ys: &Vec<Value>) -> (r: bool)
        ensures
            r == (items(xs@) == items(ys@)),
        decreases xs, 0int,
    {
        if xs.len() != ys.len() {
            assert(items(xs@).len() != items(ys@).len());
            return false;
        }
        let mut i: usize = 0;
        while i < xs.len()
            invariant
                i <= xs@.len(),
                xs@.len() == ys@.len(),
                forall|j: int| 0 <= j < i ==> xs@[j]@ == ys@[j]@,
            decreases xs@.len() - i,
        {
            if !xs[i].same(&ys[i]) {
                assert(items(xs@)[i as int] != items(ys@)[i as int]);
                return false;
            }
            i += 1;
        }
        assert(items(xs@) =~= items(ys@));
        true
    }

    /// Whether two vectors of entries hold equal keys and values in the same
    /// order.
    fn same_entries(xs: &Vec<(String, Value)>, ys: &Vec<(String, Value)>) -> (r: bool)
        ensures
            r == (entries(xs@) == entries(ys@)),
        decreases xs, 0int,
    {
        if xs.len() != ys.len() {
            assert(entries(xs@).len() != entries(ys@).len());
            return false;
        }
        let mut i: usize = 0;
        while i < xs.len()
            invariant
                i <= xs@.len(),
                xs@.len() == ys@.len(),
                forall|j: int|
                    0 <= j < i ==> xs@[j].0@ == ys@[j].0@ && xs@[j].1@ == ys@[j].1@,
            decreases xs@.len() - i,
        {
            if xs[i].0 != ys[i].0 || !xs[i].1.same(&ys[i].1) {
                assert(entries(xs@)[i as int] != entries(ys@)[i as int]);
                return false;
            }
            i += 1;
        }
        assert(entries(xs@) =~= entries(ys@));
        true
    }

    /// Structural equality: the two values have the same model.
    pub fn same(&self, other: &Value) -> (r: bool)
        ensures
            r == (self@ == other@),
        decreases self, 1int,
    {
        proof {
            self.lemma_model();
            other.lemma_model();
        }
        match (self, other) {
            (Value::Null, Value::Null) => true,
            (Value::Bool(a), Value::Bool(b)) => *a == *b,
            (Value::Number(a), Value::Number(b)) => *a == *b,
            (Value::String(a), Value::String(b)) => *a == *b,
            (Value::Array(xs), Value::Array(ys)) => Self::same_items(xs, ys),
            (Value::Object(xs), Value::Object(ys)) => Self::same_entries(xs, ys),
            _ => false,
        }
    }
}

impl Clone for Value {
    fn clone(&self) -> (r: Self)
        ensures
            r@ == self@,
    {
        self.copy()
    }
}

impl PartialEq for Value {
    fn eq(&self, other: &Self) -> (r: bool) {
        self.same(other)
    }
}

impl PartialEqSpecImpl for Value {
    open spec fn obeys_eq_spec() -> bool {
        true
    }

    open spec fn eq_spec(&self, other: &Self) -> bool {
        self@ == other@
    }
}

impl Eq for Value {

}

impl View for Value {
    type V = Json;

    open spec fn view(&self) -> Json {
        self.model()
    }
}

} // verus!
