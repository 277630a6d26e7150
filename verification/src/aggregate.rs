//! The aggregates over a sequence of values: sum, least, greatest, mean and
//! ascending order of the numbers among them.

use crate::number::{Comparison, Number};
use crate::semantics::{EvalError, Outcome};
use crate::value::{items, Json, Value};
use vstd::prelude::*;

verus! {

/// The elements of an array, and any other value as a sequence of its own.
pub open spec fn spread(x: Json) -> Seq<Json> {
    match x {
        Json::Array(ys) => ys,
        _ => seq![x],
    }
}

/// The values with every array among them replaced by its elements, one
/// level deep.
pub open spec fn splice(xs: Seq<Json>) -> Seq<Json>
    decreases xs.len(),
{
    if xs.len() == 0 {
        Seq::empty()
    } else {
        splice(xs.drop_last()) + spread(xs.last())
    }
}

/// The numbers among the values, in their order.
pub open spec fn numbers_of(xs: Seq<Json>) -> Seq<Number>
    decreases xs.len(),
{
    if xs.len() == 0 {
        Seq::empty()
    } else {
        match xs.last() {
            Json::Number(n) => numbers_of(xs.drop_last()).push(n),
            _ => numbers_of(xs.drop_last()),
        }
    }
}

/// The numbers as values.
pub open spec fn as_values(ns: Seq<Number>) -> Seq<Json> {
    Seq::new(ns.len(), |i: int| Json::Number(ns[i]))
}

/// The sum of the numbers, added from the left to an integral zero; nothing
/// where a sum on the way cannot be held.
pub open spec fn total(ns: Seq<Number>) -> Option<Number>
    decreases ns.len(),
{
    if ns.len() == 0 {
        Some(Number::Integral(0))
    } else {
        match total(ns.drop_last()) {
            Some(acc) => acc.plus_spec(ns.last()),
            None => None,
        }
    }
}

/// The least of the numbers: the first of those that no other is below.
pub open spec fn least(ns: Seq<Number>) -> Option<Number>
    decreases ns.len(),
{
    if ns.len() == 0 {
        None
    } else {
        match least(ns.drop_last()) {
            Some(m) => if ns.last().compare_spec(m) == Comparison::Less {
                Some(ns.last())
            } else {
                Some(m)
            },
            None => Some(ns.last()),
        }
    }
}

/// The greatest of the numbers: the first of those that no other is above.
pub open spec fn greatest(ns: Seq<Number>) -> Option<Number>
    decreases ns.len(),
{
    if ns.len() == 0 {
        None
    } else {
        match greatest(ns.drop_last()) {
            Some(m) => if ns.last().compare_spec(m) == Comparison::Greater {
                Some(ns.last())
            } else {
                Some(m)
            },
            None => Some(ns.last()),
        }
    }
}

/// The numbers `sorted` with `x` put in: before the numbers at the end that
/// are above it, and so after every number equal to it.
pub open spec fn placed(sorted: Seq<Number>, x: Number) -> Seq<Number>
    decreases sorted.len(),
{
    if sorted.len() == 0 {
        seq![x]
    } else if x.compare_spec(sorted.last()) == Comparison::Less {
        placed(sorted.drop_last(), x).push(sorted.last())
    } else {
        sorted.push(x)
    }
}

/// The numbers in ascending order; equal numbers keep their order.
pub open spec fn ascending(ns: Seq<Number>) -> Seq<Number>
    decreases ns.len(),
{
    if ns.len() == 0 {
        Seq::empty()
    } else {
        placed(ascending(ns.drop_last()), ns.last())
    }
}

/// The mean of the numbers: their sum divided by how many they are; nothing
/// where the sum or the quotient cannot be held, or there is no number.
pub open spec fn mean(ns: Seq<Number>) -> Option<Number> {
    match total(ns) {
        Some(t) => match t.as_decimal().divided_spec(ns.len()) {
            Some(d) => Some(Number::Floating(d)),
            None => None,
        },
        None => None,
    }
}

/// Whether `name` is one of the aggregates over numbers.
pub open spec fn is_aggregate(name: Seq<char>) -> bool {
    name == "sum"@ || name == "min"@ || name == "max"@ || name == "avg"@ || name == "sort"@
}

/// The aggregate `name` of the numbers among `inputs`.
///
/// `sum` of no number is zero; `min`, `max` and `avg` of no number are an
/// error, and so is a sum or a mean that cannot be held. `sort` gives the
/// array of the numbers in ascending order.
pub open spec fn aggregate(name: Seq<char>, inputs: Seq<Json>) -> Outcome {
    let ns = numbers_of(inputs);
    if name == "sum"@ {
        match total(ns) {
            Some(t) => Ok(Some(Json::Number(t))),
            None => Err(EvalError::NumberOutOfRange),
        }
    } else if name == "min"@ {
        match least(ns) {
            Some(m) => Ok(Some(Json::Number(m))),
            None => Err(EvalError::EmptyInput),
        }
    } else if name == "max"@ {
        match greatest(ns) {
            Some(m) => Ok(Some(Json::Number(m))),
            None => Err(EvalError::EmptyInput),
        }
    } else if name == "avg"@ {
        if ns.len() == 0 {
            Err(EvalError::EmptyInput)
        } else {
            match mean(ns) {
                Some(m) => Ok(Some(Json::Number(m))),
                None => Err(EvalError::NumberOutOfRange),
            }
        }
    } else if name == "sort"@ {
        Ok(Some(Json::Array(as_values(ascending(ns)))))
    } else {
        Err(EvalError::UnknownFunction)
    }
}

/// Where `x` is below every number from `p` on and not below the one before
/// `p`, putting it in is inserting it at `p`.
proof fn lemma_placed_at(sorted: Seq<Number>, x: Number, p: int)
    requires
        0 <= p <= sorted.len(),
        forall|k: int| p <= k < sorted.len() ==> x.compare_spec(sorted[k]) == Comparison::Less,
        p > 0 ==> x.compare_spec(sorted[p - 1]) != Comparison::Less,
    ensures
        placed(sorted, x) == sorted.insert(p, x),
    decreases sorted.len(),
{
    if sorted.len() == 0 {
        assert(seq![x] =~= sorted.insert(p, x));
    } else if x.compare_spec(sorted.last()) == Comparison::Less {
        assert(p < sorted.len());
        let rest = sorted.drop_last();
        lemma_placed_at(rest, x, p);
        assert(rest.insert(p, x).push(sorted.last()) =~= sorted.insert(p, x));
    } else {
        assert(p == sorted.len());
        assert(sorted.push(x) =~= sorted.insert(p, x));
    }
}

/// The values with every array among them replaced by its elements.
pub fn flatten(xs: &Vec<Value>) -> (r: Vec<Value>)
    ensures
        items(r@) == splice(items(xs@)),
{
    let mut r: Vec<Value> = Vec::new();
    let mut i: usize = 0;
    assert(items(xs@).take(0) =~= Seq::<Json>::empty());
    assert(items(r@) =~= Seq::<Json>::empty());
    while i < xs.len()
        invariant
            i <= xs@.len(),
            items(r@) == splice(items(xs@).take(i as int)),
        decreases xs@.len() - i,
    {
        proof {
            xs@[i as int].lemma_model();
            assert(items(xs@).take(i + 1).drop_last() =~= items(xs@).take(i as int));
            assert(items(xs@).take(i + 1).last() == xs@[i as int]@);
        }
        let ghost before = items(r@);
        match &xs[i] {
            Value::Array(ys) => {
                let mut j: usize = 0;
                while j < ys.len()
                    invariant
                        j <= ys@.len(),
                        items(r@) == before + items(ys@).take(j as int),
                    decreases ys@.len() - j,
                {
                    let ghost cur = items(r@);
                    r.push(ys[j].copy());
                    assert(items(r@) =~= cur.push(ys@[j as int]@));
                    assert(items(ys@).take(j + 1) =~= items(ys@).take(j as int).push(
                        ys@[j as int]@,
                    ));
                    j += 1;
                }
                assert(items(ys@).take(ys@.len() as int) =~= items(ys@));
            },
            other => {
                r.push(other.copy());
                assert(items(r@) =~= before + seq![xs@[i as int]@]);
            },
        }
        i += 1;
    }
    assert(items(xs@).take(xs@.len() as int) =~= items(xs@));
    r
}

/// The numbers among the values, in their order.
pub fn numbers(xs: &Vec<Value>) -> (r: Vec<Number>)
    ensures
        r@ == numbers_of(items(xs@)),
{
    let mut r: Vec<Number> = Vec::new();
    let mut i: usize = 0;
    assert(items(xs@).take(0) =~= Seq::<Json>::empty());
    while i < xs.len()
        invariant
            i <= xs@.len(),
            r@ == numbers_of(items(xs@).take(i as int)),
        decreases xs@.len() - i,
    {
        proof {
            xs@[i as int].lemma_model();
            assert(items(xs@).take(i + 1).drop_last() =~= items(xs@).take(i as int));
            assert(items(xs@).take(i + 1).last() == xs@[i as int]@);
        }
        match &xs[i] {
            Value::Number(n) => {
                r.push(*n);
            },
            _ => {},
        }
        i += 1;
    }
    assert(items(xs@).take(xs@.len() as int) =~= items(xs@));
    r
}

/// The sum of the numbers, where it can be held.
pub fn sum(ns: &Vec<Number>) -> (r: Option<Number>)
    ensures
        r == total(ns@),
{
    let mut acc = Number::Integral(0);
    let mut i: usize = 0;
    assert(ns@.take(0) =~= Seq::<Number>::empty());
    while i < ns.len()
        invariant
            i <= ns@.len(),
            Some(acc) == total(ns@.take(i as int)),
        decreases ns@.len() - i,
    {
        proof {
            assert(ns@.take(i + 1).drop_last() =~= ns@.take(i as int));
            assert(ns@.take(i + 1).last() == ns@[i as int]);
        }
        match acc.plus(&ns[i]) {
            Some(next) => {
                acc = next;
            },
            None => {
                proof {
                    lemma_total_fails(ns@, (i + 1) as nat);
                }
                return None;
            },
        }
        i += 1;
    }
    assert(ns@.take(ns@.len() as int) =~= ns@);
    Some(acc)
}

/// A sum that cannot be held for the first `n` numbers cannot be held for
/// all of them.
proof fn lemma_total_fails(ns: Seq<Number>, n: nat)
    requires
        n <= ns.len(),
        total(ns.take(n as int)) is None,
    ensures
        total(ns) is None,
    decreases ns.len() - n,
{
    if n < ns.len() {
        assert(ns.take(n as int + 1).drop_last() =~= ns.take(n as int));
        lemma_total_fails(ns, n + 1);
    } else {
        assert(ns.take(n as int) =~= ns);
    }
}

/// The least of the numbers, if there is any.
pub fn min(ns: &Vec<Number>) -> (r: Option<Number>)
    ensures
        r == least(ns@),
{
    let mut best: Option<Number> = None;
    let mut i: usize = 0;
    assert(ns@.take(0) =~= Seq::<Number>::empty());
    while i < ns.len()
        invariant
            i <= ns@.len(),
            best == least(ns@.take(i as int)),
        decreases ns@.len() - i,
    {
        proof {
            assert(ns@.take(i + 1).drop_last() =~= ns@.take(i as int));
            assert(ns@.take(i + 1).last() == ns@[i as int]);
        }
        best = match best {
            Some(m) => match ns[i].compare(&m) {
                Comparison::Less => Some(ns[i]),
                _ => Some(m),
            },
            None => Some(ns[i]),
        };
        i += 1;
    }
    assert(ns@.take(ns@.len() as int) =~= ns@);
    best
}

/// The greatest of the numbers, if there is any.
pub fn max(ns: &Vec<Number>) -> (r: Option<Number>)
    ensures
        r == greatest(ns@),
{
    let mut best: Option<Number> = None;
    let mut i: usize = 0;
    assert(ns@.take(0) =~= Seq::<Number>::empty());
    while i < ns.len()
        invariant
            i <= ns@.len(),
            best == greatest(ns@.take(i as int)),
        decreases ns@.len() - i,
    {
        proof {
            assert(ns@.take(i + 1).drop_last() =~= ns@.take(i as int));
            assert(ns@.take(i + 1).last() == ns@[i as int]);
        }
        best = match best {
            Some(m) => match ns[i].compare(&m) {
                Comparison::Greater => Some(ns[i]),
                _ => Some(m),
            },
            None => Some(ns[i]),
        };
        i += 1;
    }
    assert(ns@.take(ns@.len() as int) =~= ns@);
    best
}

/// Puts `x` into numbers in ascending order.
fn place(sorted: &mut Vec<Number>, x: Number)
    ensures
        final(sorted)@ == placed(old(sorted)@, x),
{
    let mut p: usize = sorted.len();
    while p > 0 && matches!(x.compare(&sorted[p - 1]), Comparison::Less)
        invariant
            p <= sorted@.len(),
            forall|k: int|
                p <= k < sorted@.len() ==> x.compare_spec(sorted@[k]) == Comparison::Less,
        decreases p,
    {
        p -= 1;
    }
    proof {
        lemma_placed_at(sorted@, x, p as int);
    }
    sorted.insert(p, x);
}

/// The numbers in ascending order; equal numbers keep their order.
pub fn sort(ns: &Vec<Number>) -> (r: Vec<Number>)
    ensures
        r@ == ascending(ns@),
{
    let mut r: Vec<Number> = Vec::new();
    let mut i: usize = 0;
    assert(ns@.take(0) =~= Seq::<Number>::empty());
    while i < ns.len()
        invariant
            i <= ns@.len(),
            r@ == ascending(ns@.take(i as int)),
        decreases ns@.len() - i,
    {
        proof {
            assert(ns@.take(i + 1).drop_last() =~= ns@.take(i as int));
            assert(ns@.take(i + 1).last() == ns@[i as int]);
        }
        place(&mut r, ns[i]);
        i += 1;
    }
    assert(ns@.take(ns@.len() as int) =~= ns@);
    r
}

/// The mean of the numbers, where there is one that can be held.
pub fn avg(ns: &Vec<Number>) -> (r: Option<Number>)
    ensures
        r == mean(ns@),
{
    match sum(ns) {
        Some(t) => match t.to_decimal().divided(ns.len()) {
            Some(d) => Some(Number::Floating(d)),
            None => None,
        },
        None => None,
    }
}

/// The numbers as an array of values.
fn number_list(ns: &Vec<Number>) -> (r: Value)
    ensures
        r@ == Json::Array(as_values(ns@)),
{
    let mut out: Vec<Value> = Vec::new();
    let mut i: usize = 0;
    while i < ns.len()
        invariant
            i <= ns@.len(),
            out@.len() == i,
            forall|k: int| 0 <= k < i ==> (#[trigger] out@[k])@ == Json::Number(ns@[k]),
        decreases ns@.len() - i,
    {
        out.push(Value::Number(ns[i]));
        i += 1;
    }
    let r = Value::Array(out);
    proof {
        r.lemma_model();
        assert(items(out@) =~= as_values(ns@));
    }
    r
}

/// Whether `name` is one of the aggregates over numbers.
pub fn names_aggregate(name: &String) -> (r: bool)
    ensures
        r == is_aggregate(name@),
{
    *name == "sum".to_owned() || *name == "min".to_owned() || *name == "max".to_owned() || *name
        == "avg".to_owned() || *name == "sort".to_owned()
}

/// Applies the aggregate `name` to the numbers among `inputs`.
pub fn apply_aggregate(name: &String, inputs: &Vec<Value>) -> (r: Result<Option<Value>, EvalError>)
    ensures
        (match r {
            Ok(Some(v)) => Ok::<Option<Json>, EvalError>(Some(v@)),
            Ok(None) => Ok::<Option<Json>, EvalError>(None),
            Err(e) => Err::<Option<Json>, EvalError>(e),
        }) == aggregate(name@, items(inputs@)),
{
    let ns = numbers(inputs);
    if *name == "sum".to_owned() {
        match sum(&ns) {
            Some(t) => Ok(Some(Value::Number(t))),
            None => Err(EvalError::NumberOutOfRange),
        }
    } else if *name == "min".to_owned() {
        match min(&ns) {
            Some(m) => Ok(Some(Value::Number(m))),
            None => Err(EvalError::EmptyInput),
        }
    } else if *name == "max".to_owned() {
        match max(&ns) {
            Some(m) => Ok(Some(Value::Number(m))),
            None => Err(EvalError::EmptyInput),
        }
    } else if *name == "avg".to_owned() {
        if ns.len() == 0 {
            Err(EvalError::EmptyInput)
        } else {
            match avg(&ns) {
                Some(m) => Ok(Some(Value::Number(m))),
                None => Err(EvalError::NumberOutOfRange),
            }
        }
    } else if *name == "sort".to_owned() {
        Ok(Some(number_list(&sort(&ns))))
    } else {
        Err(EvalError::UnknownFunction)
    }
}

} // verus!
