//! What a query means: the result of applying a node to a document, stated
//! over the models of both.

use crate::aggregate::{aggregate, is_aggregate, splice};
use crate::ast::Query;
use crate::render::key_text;
use crate::number::{number_of_text, Comparison, Decimal, Number};
use crate::value::Json;
use vstd::prelude::*;

verus! {

/// Why an evaluation was abandoned.
#[derive(Debug, Clone, Copy, PartialEq, Eq, Structural)]
pub enum EvalError {
    /// Positions were asked of an object.
    IndexOnObject,
    /// A call names no known function.
    UnknownFunction,
    /// `min`, `max` or `avg` was given no number.
    EmptyInput,
    /// A sum or an average does not fit the number representation.
    NumberOutOfRange,
    /// `groupBy` was not given exactly a value and a key.
    WrongArguments,
}

/// The result of an evaluation: a value, no result, or an error.
pub type Outcome = Result<Option<Json>, EvalError>;

/// The value under `key` in the entries `es`: that of the first entry with
/// this key.
pub open spec fn lookup(es: Seq<(Seq<char>, Json)>, key: Seq<char>) -> Option<Json>
    decreases es.len(),
{
    if es.len() == 0 {
        None
    } else if es[0].0 == key {
        Some(es[0].1)
    } else {
        lookup(es.drop_first(), key)
    }
}

/// One step of a path: the field `key` of an object, and null where there is
/// no such field or no object.
pub open spec fn field(v: Json, key: Seq<char>) -> Json {
    match v {
        Json::Object(es) => match lookup(es, key) {
            Some(x) => x,
            None => Json::Null,
        },
        _ => Json::Null,
    }
}

/// The value reached from `v` through the fields `keys`, left to right.
pub open spec fn descend(v: Json, keys: Seq<Seq<char>>) -> Json
    decreases keys.len(),
{
    if keys.len() == 0 {
        v
    } else {
        descend(field(v, keys[0]), keys.drop_first())
    }
}

/// The elements of `vs` at the positions `idxs`, in listed order. A position
/// past the end selects nothing.
pub open spec fn select(vs: Seq<Json>, idxs: Seq<usize>) -> Seq<Json>
    decreases idxs.len(),
{
    if idxs.len() == 0 {
        Seq::empty()
    } else if idxs.last() < vs.len() {
        select(vs, idxs.drop_last()).push(vs[idxs.last() as int])
    } else {
        select(vs, idxs.drop_last())
    }
}

/// A count as a number: integral where it fits.
pub open spec fn count_number(n: nat) -> Number
    recommends
        n <= u64::MAX,
{
    if n <= i64::MAX {
        Number::Integral(n as i64)
    } else {
        Number::Floating(Decimal { negative: false, mantissa: n as u64, exponent: 0 })
    }
}

/// The positions `0..n` as numbers.
pub open spec fn positions(n: nat) -> Seq<Json> {
    Seq::new(n, |i: int| Json::Number(count_number(i as nat)))
}

/// The keys of the entries, in order.
pub open spec fn keys_of(es: Seq<(Seq<char>, Json)>) -> Seq<Json> {
    Seq::new(es.len(), |i: int| Json::String(es[i].0))
}

/// The values of the entries, in order.
pub open spec fn values_of(es: Seq<(Seq<char>, Json)>) -> Seq<Json> {
    Seq::new(es.len(), |i: int| es[i].1)
}

/// How two integers compare.
pub open spec fn compare_integers(a: int, b: int) -> Comparison {
    if a < b {
        Comparison::Less
    } else if a == b {
        Comparison::Equal
    } else {
        Comparison::Greater
    }
}

/// Whether the operator `op` accepts the comparison `c`.
pub open spec fn accepts(op: Seq<char>, c: Comparison) -> bool {
    ||| op == seq!['='] && c == Comparison::Equal
    ||| op == seq!['>'] && c == Comparison::Greater
    ||| op == seq!['<'] && c == Comparison::Less
}

impl Number {
    /// This number as a decimal.
    pub open spec fn as_decimal(&self) -> Decimal {
        match self {
            Number::Integral(n) => Decimal::of_int(*n),
            Number::Floating(d) => *d,
        }
    }
}

/// Whether a resolved value compares to the literal under the operator.
///
/// An integral number is compared with the literal read as an integral
/// number, a floating number with the literal read as any number, and a
/// string is equal to the literal itself under `=`. Nothing else holds.
pub open spec fn holds(resolved: Json, op: Seq<char>, literal: Seq<char>) -> bool {
    match resolved {
        Json::Number(Number::Integral(n)) => match number_of_text(literal) {
            Some(Number::Integral(m)) => accepts(op, compare_integers(n as int, m as int)),
            _ => false,
        },
        Json::Number(Number::Floating(d)) => match number_of_text(literal) {
            Some(m) => accepts(op, d.compare_spec(m.as_decimal())),
            None => false,
        },
        Json::String(s) => op == seq!['='] && s == literal,
        _ => false,
    }
}

/// The entries `es` with `key` set to `x`: in place where the key is there,
/// at the end where it is not.
pub open spec fn insert(es: Seq<(Seq<char>, Json)>, key: Seq<char>, x: Json) -> Seq<
    (Seq<char>, Json),
>
    decreases es.len(),
{
    if es.len() == 0 {
        seq![(key, x)]
    } else if es[0].0 == key {
        es.update(0, (key, x))
    } else {
        seq![es[0]] + insert(es.drop_first(), key, x)
    }
}

/// Whether every entry holds an array.
pub open spec fn all_arrays(es: Seq<(Seq<char>, Json)>) -> bool {
    forall|i: int| 0 <= i < es.len() ==> (#[trigger] es[i]).1 is Array
}

/// The length of the longest array among the first `n` entries.
pub open spec fn longest(es: Seq<(Seq<char>, Json)>, n: nat) -> nat
    decreases n,
{
    if n == 0 || n > es.len() {
        0
    } else {
        let rest = longest(es, (n - 1) as nat);
        match es[n - 1].1 {
            Json::Array(xs) => if xs.len() > rest {
                xs.len()
            } else {
                rest
            },
            _ => rest,
        }
    }
}

/// The element at `i` of an array, and null past its end or of anything else.
pub open spec fn element_or_null(v: Json, i: int) -> Json {
    match v {
        Json::Array(xs) => if 0 <= i < xs.len() {
            xs[i]
        } else {
            Json::Null
        },
        _ => Json::Null,
    }
}

/// Row `i` of entries that hold arrays: each key with the element at `i`.
pub open spec fn row(es: Seq<(Seq<char>, Json)>, i: int) -> Json {
    Json::Object(Seq::new(es.len(), |j: int| (es[j].0, element_or_null(es[j].1, i))))
}

/// The entries turned into one object per position, up to the longest array;
/// shorter arrays are filled with null.
pub open spec fn transpose(es: Seq<(Seq<char>, Json)>) -> Json {
    Json::Array(Seq::new(longest(es, es.len()), |i: int| row(es, i)))
}

/// The object that the evaluated properties make: transposed where every one
/// of them is an array, as it is otherwise.
pub open spec fn shape(es: Seq<(Seq<char>, Json)>) -> Json {
    if all_arrays(es) {
        transpose(es)
    } else {
        Json::Object(es)
    }
}

/// The result of applying the node `q` to the value `v`.
pub open spec fn evaluate(v: Json, q: Query) -> Outcome
    decreases q, v, 0int,
{
    match q {
        Query::Pipeline(steps) => run_from(v, steps, 0),
        _ => match v {
            Json::Array(vs) => match q {
                Query::Index(idxs) => if idxs.len() == 1 {
                    if idxs[0] < vs.len() {
                        Ok(Some(vs[idxs[0] as int]))
                    } else {
                        Ok(None)
                    }
                } else {
                    Ok(Some(Json::Array(select(vs, idxs))))
                },
                Query::Keyword(_) => match broadcast(vs, q, vs.len()) {
                    Ok(xs) => Ok(Some(Json::Array(xs))),
                    Err(e) => Err(e),
                },
                Query::Filter(path, op, literal) => match keep(vs, *path, op, literal, vs.len()) {
                    Ok(xs) => Ok(Some(Json::Array(xs))),
                    Err(e) => Err(e),
                },
                Query::ListValues => Ok(Some(v)),
                Query::ListKeys => Ok(Some(Json::Array(positions(vs.len())))),
                Query::Count => Ok(Some(Json::Number(count_number(vs.len())))),
                Query::Object(props) => match build(v, props, props.len()) {
                    Ok(es) => Ok(Some(shape(es))),
                    Err(e) => Err(e),
                },
                Query::Call(name, args) => call(v, name, args),
                Query::Pipeline(_) => Ok(None),
            },
            Json::Object(es) => match q {
                Query::Index(_) => Err(EvalError::IndexOnObject),
                Query::Keyword(keys) => Ok(Some(descend(v, keys))),
                Query::Filter(path, op, literal) => filter(v, *path, op, literal),
                Query::ListValues => Ok(Some(Json::Array(values_of(es)))),
                Query::ListKeys => Ok(Some(Json::Array(keys_of(es)))),
                Query::Count => Ok(Some(Json::Number(count_number(es.len())))),
                Query::Object(props) => match build(v, props, props.len()) {
                    Ok(es) => Ok(Some(shape(es))),
                    Err(e) => Err(e),
                },
                Query::Call(name, args) => call(v, name, args),
                Query::Pipeline(_) => Ok(None),
            },
            _ => Ok(Some(v)),
        },
    }
}

/// The results of the first `n` arguments, each evaluated against `v`; an
/// argument without a result is left out, and the first error ends it.
pub open spec fn gather(v: Json, args: Seq<Query>, n: nat) -> Result<Seq<Json>, EvalError>
    decreases args, Json::Null, n,
{
    if n == 0 || n > args.len() {
        Ok(Seq::empty())
    } else {
        match gather(v, args, (n - 1) as nat) {
            Err(e) => Err(e),
            Ok(xs) => match evaluate(v, args[n - 1]) {
                Err(e) => Err(e),
                Ok(None) => Ok(xs),
                Ok(Some(x)) => Ok(xs.push(x)),
            },
        }
    }
}

/// The groups `es` with `x` added to the group under `key`: at the end of
/// that group where there is one, and as a new last group where there is
/// none.
pub open spec fn add_member(es: Seq<(Seq<char>, Json)>, key: Seq<char>, x: Json) -> Seq<
    (Seq<char>, Json),
> {
    match lookup(es, key) {
        Some(Json::Array(members)) => insert(es, key, Json::Array(members.push(x))),
        _ => insert(es, key, Json::Array(seq![x])),
    }
}

/// The first `n` elements of `xs` in groups, by the text of the key that
/// `key` gives for each; an element without a key is left out, and the first
/// error ends it.
pub open spec fn grouped(xs: Seq<Json>, key: Query, n: nat) -> Result<
    Seq<(Seq<char>, Json)>,
    EvalError,
>
    decreases key, xs, n,
{
    if n == 0 || n > xs.len() {
        Ok(Seq::empty())
    } else {
        match grouped(xs, key, (n - 1) as nat) {
            Err(e) => Err(e),
            Ok(es) => match evaluate(xs[n - 1], key) {
                Err(e) => Err(e),
                Ok(None) => Ok(es),
                Ok(Some(k)) => Ok(add_member(es, key_text(k), xs[n - 1])),
            },
        }
    }
}

/// The call of the function `name` with the arguments `args` on `v`.
///
/// `groupBy` takes a value and a key: where the value is an array, its
/// elements come out in groups by their keys, the groups in the order in
/// which their keys were first seen and the members in their own order; any
/// other value makes one group of its own. The other functions are applied to
/// the results of all arguments, with the arrays among them, and then the
/// arrays among their elements, replaced by their elements. A name that is
/// none of these is an error.
pub open spec fn call(v: Json, name: Seq<char>, args: Seq<Query>) -> Outcome
    decreases args, Json::Null, args.len() + 1,
{
    if name == "groupBy"@ {
        if args.len() != 2 {
            Err(EvalError::WrongArguments)
        } else {
            match evaluate(v, args[0]) {
                Err(e) => Err(e),
                Ok(None) => Ok(None),
                Ok(Some(Json::Array(xs))) => match grouped(xs, args[1], xs.len()) {
                    Ok(es) => Ok(Some(Json::Object(es))),
                    Err(e) => Err(e),
                },
                Ok(Some(other)) => match evaluate(other, args[1]) {
                    Err(e) => Err(e),
                    Ok(None) => Ok(None),
                    Ok(Some(k)) => Ok(
                        Some(Json::Object(seq![(key_text(k), Json::Array(seq![other]))])),
                    ),
                },
            }
        }
    } else if is_aggregate(name) {
        match gather(v, args, args.len()) {
            Ok(results) => aggregate(name, splice(splice(results))),
            Err(e) => Err(e),
        }
    } else {
        Err(EvalError::UnknownFunction)
    }
}

/// The value `v` threaded through the steps from `i` on: each step's result
/// feeds the next, and the first step without a result ends the run.
pub open spec fn run_from(v: Json, steps: Seq<Query>, i: int) -> Outcome
    decreases steps, Json::Null, steps.len() - i,
{
    if 0 <= i < steps.len() {
        match evaluate(v, steps[i]) {
            Ok(Some(next)) => run_from(next, steps, i + 1),
            other => other,
        }
    } else {
        Ok(Some(v))
    }
}

/// The results of applying `q` to each of the first `n` elements of `vs`;
/// elements without a result are left out, and the first error ends it.
pub open spec fn broadcast(vs: Seq<Json>, q: Query, n: nat) -> Result<Seq<Json>, EvalError>
    decreases q, vs, n,
{
    if n == 0 || n > vs.len() {
        Ok(Seq::empty())
    } else {
        match broadcast(vs, q, (n - 1) as nat) {
            Err(e) => Err(e),
            Ok(xs) => match evaluate(vs[n - 1], q) {
                Err(e) => Err(e),
                Ok(None) => Ok(xs),
                Ok(Some(x)) => Ok(xs.push(x)),
            },
        }
    }
}

/// The candidate itself where `path`, resolved against it, compares to the
/// literal under `op`, and no result where it does not.
pub open spec fn filter(candidate: Json, path: Query, op: Seq<char>, literal: Seq<char>) -> Outcome
    decreases path, candidate, 1int,
{
    match evaluate(candidate, path) {
        Err(e) => Err(e),
        Ok(None) => Ok(None),
        Ok(Some(resolved)) => if holds(resolved, op, literal) {
            Ok(Some(candidate))
        } else {
            Ok(None)
        },
    }
}

/// Those of the first `n` elements of `vs` that the filter keeps.
pub open spec fn keep(vs: Seq<Json>, path: Query, op: Seq<char>, literal: Seq<char>, n: nat)
    -> Result<Seq<Json>, EvalError>
    decreases path, vs, n,
{
    if n == 0 || n > vs.len() {
        Ok(Seq::empty())
    } else {
        match keep(vs, path, op, literal, (n - 1) as nat) {
            Err(e) => Err(e),
            Ok(xs) => match filter(vs[n - 1], path, op, literal) {
                Err(e) => Err(e),
                Ok(None) => Ok(xs),
                Ok(Some(x)) => Ok(xs.push(x)),
            },
        }
    }
}

/// The entries made by the first `n` properties, each evaluated against `v`;
/// a property without a result makes no entry, and the first error ends it.
pub open spec fn build(v: Json, props: Seq<(Seq<char>, Query)>, n: nat) -> Result<
    Seq<(Seq<char>, Json)>,
    EvalError,
>
    decreases props, Json::Null, n,
{
    if n == 0 || n > props.len() {
        Ok(Seq::empty())
    } else {
        match build(v, props, (n - 1) as nat) {
            Err(e) => Err(e),
            Ok(es) => match evaluate(v, props[n - 1].1) {
                Err(e) => Err(e),
                Ok(None) => Ok(es),
                Ok(Some(x)) => Ok(insert(es, props[n - 1].0, x)),
            },
        }
    }
}

} // verus!
