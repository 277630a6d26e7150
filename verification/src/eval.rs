//! The evaluator: applies a node of a query to one document.

use crate::aggregate::{apply_aggregate, flatten, names_aggregate};
use crate::ast::{models, named_models, texts, Query, QueryCmd};
use crate::number::{Comparison, Decimal, Number};
use crate::render::key_text;
use crate::semantics::{
    accepts, add_member, all_arrays, broadcast, build, call, count_number, descend,
    element_or_null, evaluate, field, filter, gather, grouped, holds, insert, keep, keys_of,
    longest, lookup, positions, row, run_from, select, shape, values_of, EvalError, Outcome,
};
use crate::text::chars_of;
use crate::value::{entries, items, Json, Value};
use vstd::prelude::*;

verus! {

impl EvalError {
    /// What went wrong, in words.
    pub open spec fn message_spec(&self) -> Seq<char> {
        match self {
            EvalError::IndexOnObject => "Cannot perform Array index access on an object!"@,
            EvalError::UnknownFunction => "Unknown function"@,
            EvalError::EmptyInput => "No number to aggregate"@,
            EvalError::NumberOutOfRange => "Number out of range"@,
            EvalError::WrongArguments => "groupBy expects a value and a key"@,
        }
    }

    /// What went wrong, in words.
    pub fn message(&self) -> (r: &'static str)
        ensures
            r@ == self.message_spec(),
    {
        match self {
            EvalError::IndexOnObject => "Cannot perform Array index access on an object!",
            EvalError::UnknownFunction => "Unknown function",
            EvalError::EmptyInput => "No number to aggregate",
            EvalError::NumberOutOfRange => "Number out of range",
            EvalError::WrongArguments => "groupBy expects a value and a key",
        }
    }
}

/// The model of an executable result.
pub open spec fn outcome(r: Result<Option<Value>, EvalError>) -> Outcome {
    match r {
        Ok(Some(v)) => Ok(Some(v@)),
        Ok(None) => Ok(None),
        Err(e) => Err(e),
    }
}

/// The model of a list of results that may have ended in an error.
pub open spec fn listed(r: Result<Vec<Value>, EvalError>) -> Result<Seq<Json>, EvalError> {
    match r {
        Ok(vs) => Ok(items(vs@)),
        Err(e) => Err(e),
    }
}

/// The filter that a node stands for, applied to a candidate; a node that is
/// no filter keeps nothing.
pub open spec fn filtered(candidate: Json, q: Query) -> Outcome {
    match q {
        Query::Filter(path, op, literal) => filter(candidate, *path, op, literal),
        _ => Ok(None),
    }
}

/// A key that is in none of the first `i` entries is looked up in the rest.
proof fn lemma_lookup_skip(es: Seq<(Seq<char>, Json)>, key: Seq<char>, i: int)
    requires
        0 <= i <= es.len(),
        forall|j: int| 0 <= j < i ==> (#[trigger] es[j]).0 != key,
    ensures
        lookup(es, key) == lookup(es.skip(i), key),
    decreases i,
{
    if i == 0 {
        assert(es.skip(0) =~= es);
    } else {
        assert(es[0].0 != key);
        lemma_lookup_skip(es.drop_first(), key, i - 1);
        assert(es.drop_first().skip(i - 1) =~= es.skip(i));
    }
}

/// A key that is in none of the first `i` entries is inserted in the rest.
proof fn lemma_insert_skip(es: Seq<(Seq<char>, Json)>, key: Seq<char>, x: Json, i: int)
    requires
        0 <= i <= es.len(),
        forall|j: int| 0 <= j < i ==> (#[trigger] es[j]).0 != key,
    ensures
        insert(es, key, x) == es.take(i) + insert(es.skip(i), key, x),
    decreases i,
{
    if i == 0 {
        assert(es.skip(0) =~= es);
        assert(es.take(0) + insert(es, key, x) =~= insert(es, key, x));
    } else {
        assert(es[0].0 != key);
        lemma_insert_skip(es.drop_first(), key, x, i - 1);
        assert(es.drop_first().skip(i - 1) =~= es.skip(i));
        assert(seq![es[0]] + (es.drop_first().take(i - 1) + insert(es.skip(i), key, x))
            =~= es.take(i) + insert(es.skip(i), key, x));
    }
}

/// The position of the first entry with the given key.
fn find_entry(es: &Vec<(String, Value)>, key: &String) -> (r: Option<usize>)
    ensures
        match r {
            Some(i) => i < es@.len() && es@[i as int].0@ == key@ && lookup(entries(es@), key@)
                == Some(es@[i as int].1@) && forall|j: int|
                0 <= j < i ==> (#[trigger] es@[j]).0@ != key@,
            None => lookup(entries(es@), key@) is None && forall|j: int|
                0 <= j < es@.len() ==> (#[trigger] es@[j]).0@ != key@,
        },
{
    let mut i: usize = 0;
    while i < es.len()
        invariant
            i <= es@.len(),
            forall|j: int| 0 <= j < i ==> (#[trigger] es@[j]).0@ != key@,
        decreases es@.len() - i,
    {
        if es[i].0 == *key {
            proof {
                assert forall|j: int| 0 <= j < i implies (#[trigger] entries(es@)[j]).0
                    != key@ by {
                    assert(es@[j].0@ != key@);
                }
                lemma_lookup_skip(entries(es@), key@, i as int);
                assert(entries(es@).skip(i as int)[0] == entries(es@)[i as int]);
            }
            return Some(i);
        }
        i += 1;
    }
    proof {
        assert forall|j: int| 0 <= j < es@.len() implies (#[trigger] entries(es@)[j]).0
            != key@ by {
            assert(es@[j].0@ != key@);
        }
        lemma_lookup_skip(entries(es@), key@, es@.len() as int);
    }
    None
}

impl Value {
    /// The value under `key` in this object; nothing where there is no such
    /// key, or this is no object.
    pub fn get(&self, key: &str) -> (r: Option<&Value>)
        ensures
            match r {
                Some(x) => self@ matches Json::Object(es) && lookup(es, key@) == Some(x@),
                None => self@ matches Json::Object(es) ==> lookup(es, key@) is None,
            },
    {
        proof {
            self.lemma_model();
        }
        match self {
            Value::Object(es) => match find_entry(es, &key.to_owned()) {
                Some(i) => Some(&es[i].1),
                None => None,
            },
            _ => None,
        }
    }
}

/// Sets `key` to `x` in the entries: in place where the key is there, at the
/// end where it is not.
fn insert_entry(es: &mut Vec<(String, Value)>, key: &String, x: Value)
    ensures
        entries(final(es)@) == insert(entries(old(es)@), key@, x@),
{
    let ghost before = entries(es@);
    match find_entry(es, key) {
        Some(i) => {
            proof {
                assert forall|j: int| 0 <= j < i implies (#[trigger] before[j]).0 != key@ by {
                    assert(es@[j].0@ != key@);
                }
                lemma_insert_skip(before, key@, x@, i as int);
                assert(before.skip(i as int)[0].0 == key@);
            }
            es.set(i, (key.clone(), x));
            assert(entries(es@) =~= before.take(i as int) + before.skip(i as int).update(
                0,
                (key@, x@),
            ));
        },
        None => {
            proof {
                assert forall|j: int| 0 <= j < before.len() implies (#[trigger] before[j]).0
                    != key@ by {
                    assert(es@[j].0@ != key@);
                }
                lemma_insert_skip(before, key@, x@, before.len() as int);
                assert(before.skip(before.len() as int).len() == 0);
            }
            es.push((key.clone(), x));
            assert(entries(es@) =~= before.take(before.len() as int) + seq![(key@, x@)]);
        },
    }
}

/// A count as a number.
fn number_of_count(n: usize) -> (r: Number)
    ensures
        r == count_number(n as nat),
{
    if n as u64 <= i64::MAX as u64 {
        Number::Integral(n as i64)
    } else {
        Number::Floating(Decimal { negative: false, mantissa: n as u64, exponent: 0 })
    }
}

/// The value reached from `v` through the fields `keys`.
fn follow(v: &Value, keys: &Vec<String>) -> (r: Value)
    ensures
        r@ == descend(v@, texts(keys@)),
{
    let mut cur: Option<&Value> = Some(v);
    let mut i: usize = 0;
    let ghost path = texts(keys@);
    assert(path.skip(0) =~= path);
    while i < keys.len()
        invariant
            i <= keys@.len(),
            path == texts(keys@),
            descend(
                match cur {
                    Some(x) => x@,
                    None => Json::Null,
                },
                path.skip(i as int),
            ) == descend(v@, path),
        decreases keys@.len() - i,
    {
        let ghost here = match cur {
            Some(x) => x@,
            None => Json::Null,
        };
        proof {
            assert(path.skip(i as int).drop_first() =~= path.skip(i + 1));
            assert(path.skip(i as int)[0] == keys@[i as int]@);
        }
        cur = match cur {
            Some(Value::Object(es)) => {
                proof {
                    cur->0.lemma_model();
                }
                match find_entry(es, &keys[i]) {
                    Some(at) => Some(&es[at].1),
                    None => None,
                }
            },
            _ => {
                proof {
                    if cur is Some {
                        cur->0.lemma_model();
                    }
                }
                None
            },
        };
        assert(match cur {
            Some(x) => x@,
            None => Json::Null,
        } == field(here, keys@[i as int]@));
        i += 1;
    }
    assert(path.skip(keys@.len() as int).len() == 0);
    match cur {
        Some(x) => x.copy(),
        None => Value::Null,
    }
}

/// The elements of `vs` at the positions `idxs`, in listed order.
fn pick(vs: &Vec<Value>, idxs: &Vec<usize>) -> (r: Vec<Value>)
    ensures
        items(r@) == select(items(vs@), idxs@),
{
    let mut r: Vec<Value> = Vec::new();
    let mut i: usize = 0;
    assert(items(r@) =~= select(items(vs@), idxs@.take(0)));
    while i < idxs.len()
        invariant
            i <= idxs@.len(),
            items(r@) == select(items(vs@), idxs@.take(i as int)),
        decreases idxs@.len() - i,
    {
        let ghost before = items(r@);
        proof {
            assert(idxs@.take(i + 1).drop_last() =~= idxs@.take(i as int));
            assert(idxs@.take(i + 1).last() == idxs@[i as int]);
        }
        if idxs[i] < vs.len() {
            r.push(vs[idxs[i]].copy());
            assert(items(r@) =~= before.push(items(vs@)[idxs@[i as int] as int]));
        }
        i += 1;
    }
    assert(idxs@.take(idxs@.len() as int) =~= idxs@);
    r
}

/// Whether the operator accepts the comparison.
fn operator_accepts(op: &String, c: Comparison) -> (r: bool)
    ensures
        r == accepts(op@, c),
{
    proof {
        reveal_strlit("=");
        reveal_strlit(">");
        reveal_strlit("<");
        assert("="@ =~= seq!['=']);
        assert(">"@ =~= seq!['>']);
        assert("<"@ =~= seq!['<']);
    }
    let equal = "=".to_owned();
    let greater = ">".to_owned();
    let less = "<".to_owned();
    match c {
        Comparison::Equal => *op == equal,
        Comparison::Greater => *op == greater,
        Comparison::Less => *op == less,
    }
}

/// Whether a resolved value compares to the literal under the operator.
pub fn satisfies(resolved: &Value, op: &String, literal: &String) -> (r: bool)
    ensures
        r == holds(resolved@, op@, literal@),
{
    proof {
        resolved.lemma_model();
    }
    match resolved {
        Value::Number(Number::Integral(n)) => {
            match Number::from_chars(&chars_of(literal.as_str())) {
                Some(Number::Integral(m)) => {
                    let c = if *n < m {
                        Comparison::Less
                    } else if *n == m {
                        Comparison::Equal
                    } else {
                        Comparison::Greater
                    };
                    operator_accepts(op, c)
                },
                _ => false,
            }
        },
        Value::Number(Number::Floating(d)) => {
            match Number::from_chars(&chars_of(literal.as_str())) {
                Some(m) => {
                    let other = match m {
                        Number::Integral(k) => Decimal::from_integer(k),
                        Number::Floating(e) => e,
                    };
                    operator_accepts(op, d.compare(&other))
                },
                None => false,
            }
        },
        Value::String(s) => {
            proof {
                reveal_strlit("=");
                assert("="@ =~= seq!['=']);
            }
            let equal = "=".to_owned();
            *op == equal && *s == *literal
        },
        _ => false,
    }
}

/// Whether every entry holds an array.
fn every_entry_is_array(es: &Vec<(String, Value)>) -> (r: bool)
    ensures
        r == all_arrays(entries(es@)),
{
    let mut i: usize = 0;
    while i < es.len()
        invariant
            i <= es@.len(),
            forall|j: int| 0 <= j < i ==> (#[trigger] entries(es@)[j]).1 is Array,
        decreases es@.len() - i,
    {
        proof {
            es@[i as int].1.lemma_model();
        }
        match &es[i].1 {
            Value::Array(_) => {},
            _ => {
                assert(!(entries(es@)[i as int].1 is Array));
                return false;
            },
        }
        i += 1;
    }
    true
}

/// The length of the longest array among the entries.
fn longest_array(es: &Vec<(String, Value)>) -> (r: usize)
    ensures
        r == longest(entries(es@), es@.len() as nat),
{
    let mut r: usize = 0;
    let mut i: usize = 0;
    while i < es.len()
        invariant
            i <= es@.len(),
            r == longest(entries(es@), i as nat),
        decreases es@.len() - i,
    {
        proof {
            es@[i as int].1.lemma_model();
        }
        match &es[i].1 {
            Value::Array(xs) => {
                if xs.len() > r {
                    r = xs.len();
                }
            },
            _ => {},
        }
        i += 1;
    }
    r
}

/// Row `i` of entries: each key with the element at `i` of its array.
fn row_at(es: &Vec<(String, Value)>, i: usize) -> (r: Value)
    ensures
        r@ == row(entries(es@), i as int),
{
    let mut out: Vec<(String, Value)> = Vec::new();
    let mut j: usize = 0;
    while j < es.len()
        invariant
            j <= es@.len(),
            out@.len() == j,
            forall|k: int|
                0 <= k < j ==> (#[trigger] out@[k]).0@ == es@[k].0@ && out@[k].1@
                    == element_or_null(es@[k].1@, i as int),
        decreases es@.len() - j,
    {
        proof {
            es@[j as int].1.lemma_model();
        }
        let x = match &es[j].1 {
            Value::Array(xs) => if i < xs.len() {
                xs[i].copy()
            } else {
                Value::Null
            },
            _ => Value::Null,
        };
        out.push((es[j].0.clone(), x));
        j += 1;
    }
    let r = Value::Object(out);
    proof {
        r.lemma_model();
        assert(entries(out@) =~= Seq::new(
            entries(es@).len(),
            |j: int| (entries(es@)[j].0, element_or_null(entries(es@)[j].1, i as int)),
        ));
    }
    r
}

/// The object that the evaluated properties make.
fn shaped(es: Vec<(String, Value)>) -> (r: Value)
    ensures
        r@ == shape(entries(es@)),
{
    if every_entry_is_array(&es) {
        let n = longest_array(&es);
        let mut rows: Vec<Value> = Vec::new();
        let mut i: usize = 0;
        while i < n
            invariant
                i <= n,
                rows@.len() == i,
                forall|k: int| 0 <= k < i ==> (#[trigger] rows@[k])@ == row(entries(es@), k),
            decreases n - i,
        {
            rows.push(row_at(&es, i));
            i += 1;
        }
        let r = Value::Array(rows);
        proof {
            r.lemma_model();
            assert(items(rows@) =~= Seq::new(
                longest(entries(es@), entries(es@).len()),
                |i: int| row(entries(es@), i),
            ));
        }
        r
    } else {
        let r = Value::Object(es);
        proof {
            r.lemma_model();
        }
        r
    }
}

/// The positions `0..n` as an array of numbers.
fn position_list(n: usize) -> (r: Value)
    ensures
        r@ == Json::Array(positions(n as nat)),
{
    let mut out: Vec<Value> = Vec::new();
    let mut i: usize = 0;
    while i < n
        invariant
            i <= n,
            out@.len() == i,
            forall|k: int|
                0 <= k < i ==> (#[trigger] out@[k])@ == Json::Number(count_number(k as nat)),
        decreases n - i,
    {
        out.push(Value::Number(number_of_count(i)));
        i += 1;
    }
    let r = Value::Array(out);
    proof {
        r.lemma_model();
        assert(items(out@) =~= positions(n as nat));
    }
    r
}

/// The keys of the entries as an array of strings.
fn key_list(es: &Vec<(String, Value)>) -> (r: Value)
    ensures
        r@ == Json::Array(keys_of(entries(es@))),
{
    let mut out: Vec<Value> = Vec::new();
    let mut i: usize = 0;
    while i < es.len()
        invariant
            i <= es@.len(),
            out@.len() == i,
            forall|k: int| 0 <= k < i ==> (#[trigger] out@[k])@ == Json::String(es@[k].0@),
        decreases es@.len() - i,
    {
        out.push(Value::String(es[i].0.clone()));
        i += 1;
    }
    let r = Value::Array(out);
    proof {
        r.lemma_model();
        assert(items(out@) =~= keys_of(entries(es@)));
    }
    r
}

/// The values of the entries as an array.
fn value_list(es: &Vec<(String, Value)>) -> (r: Value)
    ensures
        r@ == Json::Array(values_of(entries(es@))),
{
    let mut out: Vec<Value> = Vec::new();
    let mut i: usize = 0;
    while i < es.len()
        invariant
            i <= es@.len(),
            out@.len() == i,
            forall|k: int| 0 <= k < i ==> (#[trigger] out@[k])@ == es@[k].1@,
        decreases es@.len() - i,
    {
        out.push(es[i].1.copy());
        i += 1;
    }
    let r = Value::Array(out);
    proof {
        r.lemma_model();
        assert(items(out@) =~= values_of(entries(es@)));
    }
    r
}

/// Applies the node `query` to the value `json`.
///
/// The result is a value, no result where the node does not fit the value,
/// or an error where positions are asked of an object.
pub fn eval(json: &Value, query: &QueryCmd) -> (r: Result<Option<Value>, EvalError>)
    ensures
        outcome(r) == evaluate(json@, query@),
    decreases query, json, 2int,
{
    proof {
        json.lemma_model();
        query.lemma_model();
    }
    match query {
        QueryCmd::MultiCmd(cmds) => run_steps(json, cmds, 0),
        _ => match json {
            Value::Array(vs) => match query {
                QueryCmd::ArrayIndexAccess(idxs) => {
                    if idxs.len() == 1 {
                        if idxs[0] < vs.len() {
                            Ok(Some(vs[idxs[0]].copy()))
                        } else {
                            Ok(None)
                        }
                    } else {
                        Ok(Some(Value::array(pick(vs, idxs))))
                    }
                },
                QueryCmd::KeywordAccess(_) => match eval_each(vs, query) {
                    Ok(xs) => Ok(Some(Value::array(xs))),
                    Err(e) => Err(e),
                },
                QueryCmd::FilterCmd(_, _, _) => match filter_each(vs, query) {
                    Ok(xs) => Ok(Some(Value::array(xs))),
                    Err(e) => Err(e),
                },
                QueryCmd::ListValues => Ok(Some(json.copy())),
                QueryCmd::ListKeys => Ok(Some(position_list(vs.len()))),
                QueryCmd::Count => Ok(Some(Value::Number(number_of_count(vs.len())))),
                QueryCmd::TransformIntoObject(props) => match eval_properties(json, props) {
                    Ok(es) => Ok(Some(shaped(es))),
                    Err(e) => Err(e),
                },
                QueryCmd::Call(name, args) => call_function(json, name, args),
                QueryCmd::MultiCmd(_) => Ok(None),
            },
            Value::Object(es) => match query {
                QueryCmd::ArrayIndexAccess(_) => Err(EvalError::IndexOnObject),
                QueryCmd::KeywordAccess(keys) => Ok(Some(follow(json, keys))),
                QueryCmd::FilterCmd(_, _, _) => apply_filter(json, query),
                QueryCmd::ListValues => Ok(Some(value_list(es))),
                QueryCmd::ListKeys => Ok(Some(key_list(es))),
                QueryCmd::Count => Ok(Some(Value::Number(number_of_count(es.len())))),
                QueryCmd::TransformIntoObject(props) => match eval_properties(json, props) {
                    Ok(es) => Ok(Some(shaped(es))),
                    Err(e) => Err(e),
                },
                QueryCmd::Call(name, args) => call_function(json, name, args),
                QueryCmd::MultiCmd(_) => Ok(None),
            },
            _ => Ok(Some(json.copy())),
        },
    }
}

/// Threads the value through the steps from `from` on: each step's result
/// feeds the next, and the first step without a result ends the run.
pub fn run_steps(json: &Value, cmds: &Vec<QueryCmd>, from: usize) -> (r: Result<
    Option<Value>,
    EvalError,
>)
    ensures
        outcome(r) == run_from(json@, models(cmds@), from as int),
    decreases cmds, json, 0int,
{
    let mut cur = json.copy();
    let mut i: usize = from;
    let ghost steps = models(cmds@);
    while i < cmds.len()
        invariant
            steps == models(cmds@),
            run_from(cur@, steps, i as int) == run_from(json@, steps, from as int),
        decreases cmds@.len() - i,
    {
        match eval(&cur, &cmds[i]) {
            Ok(Some(next)) => {
                cur = next;
            },
            Ok(None) => {
                return Ok(None);
            },
            Err(e) => {
                return Err(e);
            },
        }
        i += 1;
    }
    Ok(Some(cur))
}

/// Applies the node to each element; elements without a result are left out.
pub fn eval_each(vs: &Vec<Value>, query: &QueryCmd) -> (r: Result<Vec<Value>, EvalError>)
    ensures
        listed(r) == broadcast(items(vs@), query@, vs@.len() as nat),
    decreases query, vs, 0int,
{
    let mut out: Vec<Value> = Vec::new();
    let mut i: usize = 0;
    assert(items(out@) =~= Seq::empty());
    while i < vs.len()
        invariant
            i <= vs@.len(),
            Ok::<Seq<Json>, EvalError>(items(out@)) == broadcast(items(vs@), query@, i as nat),
        decreases vs@.len() - i,
    {
        let ghost before = items(out@);
        match eval(&vs[i], query) {
            Ok(Some(x)) => {
                out.push(x);
                assert(items(out@) =~= before.push(x@));
            },
            Ok(None) => {},
            Err(e) => {
                proof {
                    lemma_broadcast_error(items(vs@), query@, (i + 1) as nat, vs@.len() as nat);
                }
                return Err(e);
            },
        }
        i += 1;
    }
    Ok(out)
}

/// An error among the first `n` elements is the result for any more of them.
proof fn lemma_broadcast_error(vs: Seq<Json>, q: Query, n: nat, m: nat)
    requires
        n <= m <= vs.len(),
        broadcast(vs, q, n) is Err,
    ensures
        broadcast(vs, q, m) == broadcast(vs, q, n),
    decreases m,
{
    if n < m {
        lemma_broadcast_error(vs, q, n, (m - 1) as nat);
    }
}

/// An error among the first `n` elements is the result for any more of them.
proof fn lemma_keep_error(
    vs: Seq<Json>,
    path: Query,
    op: Seq<char>,
    literal: Seq<char>,
    n: nat,
    m: nat,
)
    requires
        n <= m <= vs.len(),
        keep(vs, path, op, literal, n) is Err,
    ensures
        keep(vs, path, op, literal, m) == keep(vs, path, op, literal, n),
    decreases m,
{
    if n < m {
        lemma_keep_error(vs, path, op, literal, n, (m - 1) as nat);
    }
}

/// An error among the first `n` properties is the result for any more of them.
proof fn lemma_build_error(v: Json, props: Seq<(Seq<char>, Query)>, n: nat, m: nat)
    requires
        n <= m <= props.len(),
        build(v, props, n) is Err,
    ensures
        build(v, props, m) == build(v, props, n),
    decreases m,
{
    if n < m {
        lemma_build_error(v, props, n, (m - 1) as nat);
    }
}

/// Applies a filter to a candidate: the candidate itself where the filter's
/// path, resolved against it, compares to the literal under the operator, and
/// no result where it does not. A node that is no filter keeps nothing.
pub fn apply_filter(candidate: &Value, filter_cmd: &QueryCmd) -> (r: Result<
    Option<Value>,
    EvalError,
>)
    ensures
        outcome(r) == filtered(candidate@, filter_cmd@),
    decreases filter_cmd, candidate, 1int,
{
    proof {
        filter_cmd.lemma_model();
    }
    match filter_cmd {
        QueryCmd::FilterCmd(path, op, literal) => match eval(candidate, path) {
            Ok(Some(resolved)) => {
                if satisfies(&resolved, op, literal) {
                    Ok(Some(candidate.copy()))
                } else {
                    Ok(None)
                }
            },
            Ok(None) => Ok(None),
            Err(e) => Err(e),
        },
        _ => Ok(None),
    }
}

/// The elements that the filter keeps.
fn filter_each(vs: &Vec<Value>, filter_cmd: &QueryCmd) -> (r: Result<Vec<Value>, EvalError>)
    requires
        filter_cmd is FilterCmd,
    ensures
        filter_cmd@ matches Query::Filter(path, op, literal) && listed(r) == keep(
            items(vs@),
            *path,
            op,
            literal,
            vs@.len() as nat,
        ),
    decreases filter_cmd, vs, 0int,
{
    proof {
        filter_cmd.lemma_model();
    }
    let ghost path = *filter_cmd@->Filter_0;
    let ghost op = filter_cmd@->Filter_1;
    let ghost literal = filter_cmd@->Filter_2;
    let mut out: Vec<Value> = Vec::new();
    let mut i: usize = 0;
    assert(items(out@) =~= Seq::empty());
    while i < vs.len()
        invariant
            i <= vs@.len(),
            filter_cmd@ == Query::Filter(Box::new(path), op, literal),
            Ok::<Seq<Json>, EvalError>(items(out@)) == keep(
                items(vs@),
                path,
                op,
                literal,
                i as nat,
            ),
        decreases vs@.len() - i,
    {
        let ghost before = items(out@);
        match apply_filter(&vs[i], filter_cmd) {
            Ok(Some(x)) => {
                out.push(x);
                assert(items(out@) =~= before.push(x@));
            },
            Ok(None) => {},
            Err(e) => {
                proof {
                    lemma_keep_error(
                        items(vs@),
                        path,
                        op,
                        literal,
                        (i + 1) as nat,
                        vs@.len() as nat,
                    );
                }
                return Err(e);
            },
        }
        i += 1;
    }
    Ok(out)
}

/// The entries made by the properties, each evaluated against `json`.
fn eval_properties(json: &Value, props: &Vec<(String, QueryCmd)>) -> (r: Result<
    Vec<(String, Value)>,
    EvalError,
>)
    ensures
        match r {
            Ok(es) => Ok::<Seq<(Seq<char>, Json)>, EvalError>(entries(es@)) == build(
                json@,
                named_models(props@),
                props@.len() as nat,
            ),
            Err(e) => Err::<Seq<(Seq<char>, Json)>, EvalError>(e) == build(
                json@,
                named_models(props@),
                props@.len() as nat,
            ),
        },
    decreases props, json, 0int,
{
    let mut out: Vec<(String, Value)> = Vec::new();
    let mut i: usize = 0;
    assert(entries(out@) =~= Seq::empty());
    while i < props.len()
        invariant
            i <= props@.len(),
            Ok::<Seq<(Seq<char>, Json)>, EvalError>(entries(out@)) == build(
                json@,
                named_models(props@),
                i as nat,
            ),
        decreases props@.len() - i,
    {
        match eval(json, &props[i].1) {
            Ok(Some(x)) => {
                insert_entry(&mut out, &props[i].0, x);
            },
            Ok(None) => {},
            Err(e) => {
                proof {
                    lemma_build_error(
                        json@,
                        named_models(props@),
                        (i + 1) as nat,
                        props@.len() as nat,
                    );
                }
                return Err(e);
            },
        }
        i += 1;
    }
    Ok(out)
}

/// An error among the first `n` arguments is the result for any more of them.
proof fn lemma_gather_error(v: Json, args: Seq<Query>, n: nat, m: nat)
    requires
        n <= m <= args.len(),
        gather(v, args, n) is Err,
    ensures
        gather(v, args, m) == gather(v, args, n),
    decreases m,
{
    if n < m {
        lemma_gather_error(v, args, n, (m - 1) as nat);
    }
}

/// An error among the first `n` elements is the result for any more of them.
proof fn lemma_grouped_error(xs: Seq<Json>, key: Query, n: nat, m: nat)
    requires
        n <= m <= xs.len(),
        grouped(xs, key, n) is Err,
    ensures
        grouped(xs, key, m) == grouped(xs, key, n),
    decreases m,
{
    if n < m {
        lemma_grouped_error(xs, key, n, (m - 1) as nat);
    }
}

/// The results of the arguments, each evaluated against `json`.
fn eval_arguments(json: &Value, args: &Vec<QueryCmd>) -> (r: Result<Vec<Value>, EvalError>)
    ensures
        listed(r) == gather(json@, models(args@), args@.len() as nat),
    decreases args, json, 0int,
{
    let mut out: Vec<Value> = Vec::new();
    let mut i: usize = 0;
    assert(items(out@) =~= Seq::empty());
    while i < args.len()
        invariant
            i <= args@.len(),
            Ok::<Seq<Json>, EvalError>(items(out@)) == gather(json@, models(args@), i as nat),
        decreases args@.len() - i,
    {
        let ghost before = items(out@);
        match eval(json, &args[i]) {
            Ok(Some(x)) => {
                out.push(x);
                assert(items(out@) =~= before.push(x@));
            },
            Ok(None) => {},
            Err(e) => {
                proof {
                    lemma_gather_error(json@, models(args@), (i + 1) as nat, args@.len() as nat);
                }
                return Err(e);
            },
        }
        i += 1;
    }
    Ok(out)
}

/// Adds `x` to the group under `key`.
fn add_to_group(es: &mut Vec<(String, Value)>, key: &String, x: Value)
    ensures
        entries(final(es)@) == add_member(entries(old(es)@), key@, x@),
{
    let ghost before = entries(es@);
    let found = find_entry(es, key);
    let mut members: Vec<Value> = Vec::new();
    assert(items(members@) =~= Seq::<Json>::empty());
    match found {
        Some(i) => {
            proof {
                es@[i as int].1.lemma_model();
            }
            match &es[i].1 {
                Value::Array(ms) => {
                    let mut j: usize = 0;
                    while j < ms.len()
                        invariant
                            j <= ms@.len(),
                            items(members@) == items(ms@).take(j as int),
                        decreases ms@.len() - j,
                    {
                        let ghost cur = items(members@);
                        members.push(ms[j].copy());
                        assert(items(members@) =~= cur.push(ms@[j as int]@));
                        assert(items(ms@).take(j + 1) =~= items(ms@).take(j as int).push(
                            ms@[j as int]@,
                        ));
                        j += 1;
                    }
                    assert(items(ms@).take(ms@.len() as int) =~= items(ms@));
                },
                _ => {},
            }
        },
        None => {},
    }
    let ghost old_members = items(members@);
    members.push(x);
    assert(items(members@) =~= old_members.push(x@));
    let group = Value::array(members);
    insert_entry(es, key, group);
}

/// The elements in groups, by the text of the key that `key` gives for each.
fn group_elements(xs: &Vec<Value>, key: &QueryCmd) -> (r: Result<
    Vec<(String, Value)>,
    EvalError,
>)
    ensures
        match r {
            Ok(es) => Ok::<Seq<(Seq<char>, Json)>, EvalError>(entries(es@)) == grouped(
                items(xs@),
                key@,
                xs@.len() as nat,
            ),
            Err(e) => Err::<Seq<(Seq<char>, Json)>, EvalError>(e) == grouped(
                items(xs@),
                key@,
                xs@.len() as nat,
            ),
        },
    decreases key, xs, 0int,
{
    let mut out: Vec<(String, Value)> = Vec::new();
    let mut i: usize = 0;
    assert(entries(out@) =~= Seq::empty());
    while i < xs.len()
        invariant
            i <= xs@.len(),
            Ok::<Seq<(Seq<char>, Json)>, EvalError>(entries(out@)) == grouped(
                items(xs@),
                key@,
                i as nat,
            ),
        decreases xs@.len() - i,
    {
        match eval(&xs[i], key) {
            Ok(Some(k)) => {
                let text = k.to_key();
                add_to_group(&mut out, &text, xs[i].copy());
            },
            Ok(None) => {},
            Err(e) => {
                proof {
                    lemma_grouped_error(items(xs@), key@, (i + 1) as nat, xs@.len() as nat);
                }
                return Err(e);
            },
        }
        i += 1;
    }
    Ok(out)
}

/// Calls the function `name` with the arguments `args` on `json`.
pub fn call_function(json: &Value, name: &String, args: &Vec<QueryCmd>) -> (r: Result<
    Option<Value>,
    EvalError,
>)
    ensures
        outcome(r) == call(json@, name@, models(args@)),
    decreases args, json, 1int,
{
    if *name == "groupBy".to_owned() {
        if args.len() != 2 {
            return Err(EvalError::WrongArguments);
        }
        match eval(json, &args[0]) {
            Ok(Some(found)) => {
                proof {
                    found.lemma_model();
                }
                match &found {
                    Value::Array(xs) => match group_elements(xs, &args[1]) {
                        Ok(es) => Ok(Some(Value::object(es))),
                        Err(e) => Err(e),
                    },
                    other => match eval(other, &args[1]) {
                        Ok(Some(k)) => {
                            let mut members: Vec<Value> = Vec::new();
                            members.push(other.copy());
                            assert(items(members@) =~= seq![other@]);
                            let mut es: Vec<(String, Value)> = Vec::new();
                            es.push((k.to_key(), Value::array(members)));
                            assert(entries(es@) =~= seq![
                                (key_text(k@), Json::Array(seq![other@])),
                            ]);
                            Ok(Some(Value::object(es)))
                        },
                        Ok(None) => Ok(None),
                        Err(e) => Err(e),
                    },
                }
            },
            Ok(None) => Ok(None),
            Err(e) => Err(e),
        }
    } else if names_aggregate(name) {
        match eval_arguments(json, args) {
            Ok(results) => {
                let inputs = flatten(&flatten(&results));
                apply_aggregate(name, &inputs)
            },
            Err(e) => Err(e),
        }
    } else {
        Err(EvalError::UnknownFunction)
    }
}

} // verus!
